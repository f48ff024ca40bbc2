use vstd::prelude::*;

verus! {

/// Bits of the identity interface's identifier, 00000000-0000-0000-C000-000000000046.
pub const IDENTITY_BITS: u128 = 0x0000_0000_0000_0000_C000_0000_0000_0046;

/// A globally unique 128-bit identifier of one interface contract.
#[derive(Clone, Copy, Debug, PartialEq, Eq, Structural)]
pub struct InterfaceId {
    pub bits: u128,
}

impl InterfaceId {
    pub fn new(bits: u128) -> (r: InterfaceId)
        ensures
            r.bits == bits,
    {
        InterfaceId { bits }
    }

    /// The identifier of the identity interface, which every object answers.
    pub fn identity() -> (r: InterfaceId)
        ensures
            r == identity_id(),
    {
        InterfaceId { bits: IDENTITY_BITS }
    }

    pub fn is_identity(&self) -> (r: bool)
        ensures
            r == (*self == identity_id()),
    {
        self.bits == IDENTITY_BITS
    }
}

pub open spec fn identity_id() -> InterfaceId {
    InterfaceId { bits: IDENTITY_BITS }
}

/// Static metadata of one interface: its identifier and the identifiers of the
/// interfaces it is substitutable for, most derived first.
#[derive(Clone, Debug)]
pub struct InterfaceDescriptor {
    pub id: InterfaceId,
    pub ancestors: Vec<InterfaceId>,
}

/// The interface's inheritance chain: its own identifier, then its ancestors.
pub open spec fn chain_of(d: InterfaceDescriptor) -> Seq<InterfaceId> {
    seq![d.id] + d.ancestors@
}

/// Whether an interface described by `d` can stand where `iid` is asked for.
pub open spec fn in_chain(d: InterfaceDescriptor, iid: InterfaceId) -> bool {
    chain_of(d).contains(iid)
}

/// Whether any interface of `ds` can stand where `iid` is asked for.
pub open spec fn any_in_chain(ds: Seq<InterfaceDescriptor>, iid: InterfaceId) -> bool {
    exists|k: int| 0 <= k < ds.len() && #[trigger] in_chain(ds[k], iid)
}

/// `k` is the first position of `ds` whose interface can stand where `iid` is asked for.
pub open spec fn is_first_in_chain(ds: Seq<InterfaceDescriptor>, iid: InterfaceId, k: int) -> bool {
    &&& 0 <= k < ds.len()
    &&& in_chain(ds[k], iid)
    &&& forall|j: int| 0 <= j < k ==> !in_chain(#[trigger] ds[j], iid)
}

impl InterfaceDescriptor {
    pub fn new(id: InterfaceId, ancestors: Vec<InterfaceId>) -> (r: InterfaceDescriptor)
        ensures
            r.id == id,
            r.ancestors@ == ancestors@,
    {
        InterfaceDescriptor { id, ancestors }
    }

    /// Tests whether `iid` is this interface or one of its ancestors.
    pub fn is_in_chain(&self, iid: InterfaceId) -> (r: bool)
        ensures
            r == in_chain(*self, iid),
    {
        proof {
            assert(chain_of(*self)[0] == self.id);
        }
        if self.id == iid {
            return true;
        }
        let mut i: usize = 0;
        while i < self.ancestors.len()
            invariant
                self.id != iid,
                0 <= i <= self.ancestors@.len(),
                forall|j: int| 0 <= j < i ==> self.ancestors@[j] != iid,
            decreases self.ancestors@.len() - i,
        {
            if self.ancestors[i] == iid {
                proof {
                    assert(chain_of(*self)[i + 1] == iid);
                }
                return true;
            }
            i = i + 1;
        }
        proof {
            assert forall|j: int| 0 <= j < chain_of(*self).len() implies chain_of(*self)[j] != iid by {
                if j > 0 {
                    assert(chain_of(*self)[j] == self.ancestors@[j - 1]);
                }
            }
        }
        false
    }
}

/// Finds the first interface of `ds` whose chain holds `iid`.
pub fn find_in_chain(ds: &Vec<InterfaceDescriptor>, iid: InterfaceId) -> (r: Option<usize>)
    ensures
        r matches Some(k) ==> is_first_in_chain(ds@, iid, k as int),
        r is None ==> !any_in_chain(ds@, iid),
{
    let mut i: usize = 0;
    while i < ds.len()
        invariant
            0 <= i <= ds@.len(),
            forall|j: int| 0 <= j < i ==> !in_chain(#[trigger] ds@[j], iid),
        decreases ds@.len() - i,
    {
        if ds[i].is_in_chain(iid) {
            return Some(i);
        }
        i = i + 1;
    }
    None
}

} // verus!
