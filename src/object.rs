use vstd::prelude::*;
use crate::interface::{
    any_in_chain, find_in_chain, identity_id, in_chain, is_first_in_chain, InterfaceDescriptor,
    InterfaceId,
};

verus! {

/// Which dispatch table of an object an interface pointer designates.
#[derive(Clone, Copy, Debug, PartialEq, Eq, Structural)]
pub enum Table {
    /// The object's non-delegating identity table.
    Identity,
    /// The table of the object's directly implemented interface at this position.
    Interface(usize),
}

/// An interface pointer: an instance of the object table, and one of its dispatch tables.
#[derive(Clone, Copy, Debug, PartialEq, Eq, Structural)]
pub struct InterfacePtr {
    pub object: usize,
    pub table: Table,
}

/// The failure of a query: no interface of the object satisfies the identifier.
#[derive(Clone, Copy, Debug, PartialEq, Eq, Structural)]
pub enum QueryError {
    NoInterface,
}

/// A named aggregated field: the interfaces forwarded to it, and the inner
/// object wired into it, if any.
#[derive(Debug)]
pub struct Aggregate {
    pub forwards: Vec<InterfaceDescriptor>,
    pub inner: Option<usize>,
}

/// The declarative description of an object type: the interfaces it implements
/// directly, and for each aggregated field the interfaces forwarded to it.
#[derive(Clone, Debug)]
pub struct ClassDesc {
    pub interfaces: Vec<InterfaceDescriptor>,
    pub aggregates: Vec<Vec<InterfaceDescriptor>>,
}

/// The identity and lifetime state of one instance.
#[derive(Debug)]
pub struct ObjectCore {
    pub ref_count: u32,
    /// False once the instance has been deallocated.
    pub live: bool,
    /// One dispatch table per directly implemented interface.
    pub interfaces: Vec<InterfaceDescriptor>,
    /// The controlling object that public identity operations forward to.
    pub outer: Option<usize>,
    /// Aggregated fields, in declaration order.
    pub aggregates: Vec<Aggregate>,
}

/// All instances, addressed by their position; a position is never reused.
#[derive(Debug)]
pub struct ObjectTable {
    pub objects: Vec<ObjectCore>,
}

/// The inner object wired into a field of `h`, if any, was created after `h`,
/// and while `h` lives it is live and counts the reference `h` holds.
pub open spec fn inner_ok(objs: Seq<ObjectCore>, h: int, inner: Option<usize>) -> bool {
    inner matches Some(i) ==> {
        &&& h < i < objs.len()
        &&& objs[h].live ==> objs[i as int].live && objs[i as int].ref_count >= 1
    }
}

/// Well-formedness of the instance at `h`.
pub open spec fn wf_at(objs: Seq<ObjectCore>, h: int) -> bool {
    let o = objs[h];
    &&& o.outer matches Some(c) ==> c < h
    &&& !o.live ==> o.ref_count == 0
    &&& forall|a: int|
        0 <= a < o.aggregates@.len() ==> #[trigger] inner_ok(objs, h, o.aggregates@[a].inner)
}

/// Every instance is well formed: an outer identity and every wired inner object
/// were created before and after the instance respectively, a controlling object
/// has no outer identity itself, a deallocated instance has count zero, and the
/// inner objects of a live instance are live and hold its reference.
pub open spec fn objects_wf(objs: Seq<ObjectCore>) -> bool {
    &&& objs.len() <= usize::MAX
    &&& forall|h: int| 0 <= h < objs.len() ==> #[trigger] wf_at(objs, h)
}

/// Some live instance holds the instance `i` in one of its aggregated fields.
pub open spec fn held(objs: Seq<ObjectCore>, i: int) -> bool {
    exists|o: int, a: int|
        0 <= o < objs.len() && objs[o].live && 0 <= a < objs[o].aggregates@.len()
            && #[trigger] objs[o].aggregates@[a].inner == Some(i as usize)
}

/// The instance whose own identity answers public identity operations on `h`.
pub open spec fn controller(objs: Seq<ObjectCore>, h: int) -> int
    decreases h,
{
    if 0 <= h < objs.len() {
        match objs[h].outer {
            Some(c) => if c < h {
                controller(objs, c as int)
            } else {
                h
            },
            None => h,
        }
    } else {
        h
    }
}

pub proof fn lemma_controller_bounds(objs: Seq<ObjectCore>, h: int)
    requires
        0 <= h < objs.len(),
    ensures
        0 <= controller(objs, h) <= h,
        objs[h].outer is Some && objs[h].outer->Some_0 < h ==> controller(objs, h) < h,
        objs[controller(objs, h)].outer matches Some(c) ==> c >= controller(objs, h),
    decreases h,
{
    if let Some(c) = objs[h].outer {
        if c < h {
            lemma_controller_bounds(objs, c as int);
        }
    }
}

/// The instances after a non-delegating increment on `h`.
pub open spec fn add_ref_post(objs: Seq<ObjectCore>, h: int) -> Seq<ObjectCore> {
    objs.update(h, ObjectCore { ref_count: (objs[h].ref_count + 1) as u32, ..objs[h] })
}

/// The instances after a non-delegating decrement on `h`: at zero the
/// instance is deallocated.
pub open spec fn release_post(objs: Seq<ObjectCore>, h: int) -> Seq<ObjectCore> {
    let c = (objs[h].ref_count - 1) as u32;
    objs.update(h, ObjectCore { ref_count: c, live: c != 0, ..objs[h] })
}

/// May `h` be decremented: it is live with a positive count, and the reference
/// an outer instance holds on it is not the last.
pub open spec fn releasable(objs: Seq<ObjectCore>, h: int) -> bool {
    &&& 0 <= h < objs.len()
    &&& objs[h].live
    &&& objs[h].ref_count > 0
    &&& (objs[h].ref_count > 1 || !held(objs, h))
}

/// The table of the first directly implemented interface of `h` whose chain
/// holds `iid`.
pub open spec fn own_table(objs: Seq<ObjectCore>, h: int, iid: InterfaceId) -> Table {
    Table::Interface((choose|k: int| is_first_in_chain(objs[h].interfaces@, iid, k)) as usize)
}

/// What a query for `iid` entered through the non-delegating identity of `h`
/// resolves to: the identity table, else the first own interface whose chain
/// holds `iid`, else the first aggregated inner object that answers.
pub open spec fn resolve(objs: Seq<ObjectCore>, h: int, iid: InterfaceId) -> Option<InterfacePtr>
    decreases objs.len() - h, objs[h].aggregates@.len() + 1,
{
    if iid == identity_id() {
        Some(InterfacePtr { object: h as usize, table: Table::Identity })
    } else if any_in_chain(objs[h].interfaces@, iid) {
        Some(InterfacePtr { object: h as usize, table: own_table(objs, h, iid) })
    } else {
        resolve_aggregates(objs, h, iid, 0)
    }
}

/// Step three of `resolve`, from the aggregated field `a` of `h` on: a field
/// that forwards `iid` and has an inner object wired answers with the inner
/// object's own resolution; a failed forward goes on to the next field.
pub open spec fn resolve_aggregates(
    objs: Seq<ObjectCore>,
    h: int,
    iid: InterfaceId,
    a: int,
) -> Option<InterfacePtr>
    decreases objs.len() - h, objs[h].aggregates@.len() - a,
{
    if a < 0 || a >= objs[h].aggregates@.len() || h < 0 {
        None
    } else {
        let g = objs[h].aggregates@[a];
        let next = resolve_aggregates(objs, h, iid, a + 1);
        if any_in_chain(g.forwards@, iid) {
            match g.inner {
                Some(i) => if h < i < objs.len() {
                    match resolve(objs, i as int, iid) {
                        Some(p) => Some(p),
                        None => next,
                    }
                } else {
                    next
                },
                None => next,
            }
        } else {
            next
        }
    }
}

/// The counts that a query for `iid` entered at `h` raises all lie below the
/// largest value: on success the count of `h`, and along a forward the counts
/// of the inner objects that answer. A query that fails raises nothing.
pub open spec fn query_fits(objs: Seq<ObjectCore>, h: int, iid: InterfaceId) -> bool
    decreases objs.len() - h, objs[h].aggregates@.len() + 1,
{
    if iid == identity_id() || any_in_chain(objs[h].interfaces@, iid) {
        objs[h].ref_count < u32::MAX
    } else {
        resolve_aggregates(objs, h, iid, 0) is Some ==> objs[h].ref_count < u32::MAX
            && aggregates_fit(objs, h, iid, 0)
    }
}

/// The forwarding part of `query_fits`, from the aggregated field `a` of `h` on:
/// the first field whose inner object answers bounds that object's path.
pub open spec fn aggregates_fit(objs: Seq<ObjectCore>, h: int, iid: InterfaceId, a: int) -> bool
    decreases objs.len() - h, objs[h].aggregates@.len() - a,
{
    if a < 0 || a >= objs[h].aggregates@.len() || h < 0 {
        true
    } else {
        let g = objs[h].aggregates@[a];
        let next = aggregates_fit(objs, h, iid, a + 1);
        if any_in_chain(g.forwards@, iid) {
            match g.inner {
                Some(i) => if h < i < objs.len() {
                    if resolve(objs, i as int, iid) is Some {
                        query_fits(objs, i as int, iid)
                    } else {
                        next
                    }
                } else {
                    next
                },
                None => next,
            }
        } else {
            next
        }
    }
}

/// The result of a query whose resolution is `r`.
pub open spec fn query_result(r: Option<InterfacePtr>) -> Result<InterfacePtr, QueryError> {
    match r {
        Some(p) => Ok(p),
        None => Err(QueryError::NoInterface),
    }
}

/// The instance whose identity operations a call through `p` runs on: the
/// non-delegating identity answers for itself, any other table forwards to the
/// controlling object.
pub open spec fn entered(objs: Seq<ObjectCore>, p: InterfacePtr) -> int {
    match p.table {
        Table::Identity => p.object as int,
        Table::Interface(_) => controller(objs, p.object as int),
    }
}

/// `o` is a freshly allocated instance of `class` whose outer identity is `outer`.
pub open spec fn is_fresh(o: ObjectCore, class: ClassDesc, outer: Option<usize>) -> bool {
    &&& o.ref_count == 0
    &&& o.live
    &&& o.interfaces@ == class.interfaces@
    &&& o.outer == outer
    &&& o.aggregates@.len() == class.aggregates@.len()
    &&& forall|j: int|
        0 <= j < o.aggregates@.len() ==> #[trigger] o.aggregates@[j].forwards@
            == class.aggregates@[j]@ && o.aggregates@[j].inner is None
}

pub proof fn lemma_first_unique(ds: Seq<InterfaceDescriptor>, iid: InterfaceId, k1: int, k2: int)
    requires
        is_first_in_chain(ds, iid, k1),
        is_first_in_chain(ds, iid, k2),
    ensures
        k1 == k2,
{
    if k1 < k2 {
        assert(!in_chain(ds[k1], iid));
    } else if k2 < k1 {
        assert(!in_chain(ds[k2], iid));
    }
}

pub proof fn lemma_add_ref_wf(objs: Seq<ObjectCore>, h: int)
    requires
        objects_wf(objs),
        0 <= h < objs.len(),
        objs[h].live,
        objs[h].ref_count < u32::MAX,
    ensures
        objects_wf(add_ref_post(objs, h)),
{
    let n = add_ref_post(objs, h);
    assert forall|k: int| 0 <= k < n.len() implies #[trigger] wf_at(n, k) by {
        assert(wf_at(objs, k));
        assert forall|a: int| 0 <= a < n[k].aggregates@.len() implies #[trigger] inner_ok(
            n,
            k,
            n[k].aggregates@[a].inner,
        ) by {
            assert(inner_ok(objs, k, objs[k].aggregates@[a].inner));
        }
    }
}

pub proof fn lemma_release_wf(objs: Seq<ObjectCore>, h: int)
    requires
        objects_wf(objs),
        releasable(objs, h),
    ensures
        objects_wf(release_post(objs, h)),
{
    let n = release_post(objs, h);
    assert forall|k: int| 0 <= k < n.len() implies #[trigger] wf_at(n, k) by {
        assert(wf_at(objs, k));
        assert forall|a: int| 0 <= a < n[k].aggregates@.len() implies #[trigger] inner_ok(
            n,
            k,
            n[k].aggregates@[a].inner,
        ) by {
            let inner = objs[k].aggregates@[a].inner;
            assert(inner_ok(objs, k, inner));
            if inner == Some(h as usize) && n[k].live {
                assert(objs[k].live);
                assert(held(objs, h));
            }
        }
    }
}

impl ObjectTable {
    pub open spec fn wf(&self) -> bool {
        objects_wf(self.objects@)
    }

    pub fn new() -> (r: ObjectTable)
        ensures
            r.objects@.len() == 0,
            r.wf(),
    {
        ObjectTable { objects: Vec::new() }
    }

    /// The controlling instance of `h`.
    pub fn controller_of(&self, h: usize) -> (r: usize)
        requires
            self.wf(),
            h < self.objects@.len(),
        ensures
            r as int == controller(self.objects@, h as int),
            r < self.objects@.len(),
    {
        let mut c = h;
        loop
            invariant
                self.wf(),
                c < self.objects@.len(),
                controller(self.objects@, c as int) == controller(self.objects@, h as int),
            decreases c,
        {
            proof {
                assert(wf_at(self.objects@, c as int));
            }
            match self.objects[c].outer {
                Some(o) => {
                    c = o;
                },
                None => {
                    return c;
                },
            }
        }
    }

    /// Allocates an instance of `class` with count zero. With an `outer`
    /// identity the instance is aggregated and its public identity operations
    /// forward to the controlling object of `outer`; without one it stands alone.
    pub fn allocate(&mut self, class: ClassDesc, outer: Option<usize>) -> (r: usize)
        requires
            old(self).wf(),
            old(self).objects@.len() < usize::MAX,
            outer matches Some(o) ==> o < old(self).objects@.len(),
        ensures
            final(self).wf(),
            r == old(self).objects@.len(),
            final(self).objects@.len() == r + 1,
            final(self).objects@.subrange(0, r as int) == old(self).objects@,
            is_fresh(
                final(self).objects@[r as int],
                class,
                outer,
            ),
    {
        let ghost class_aggs = class.aggregates@;
        let ClassDesc { interfaces, aggregates: mut rest } = class;
        let mut aggregates: Vec<Aggregate> = Vec::new();
        while rest.len() > 0
            invariant
                aggregates@.len() + rest@.len() == class_aggs.len(),
                rest@ == class_aggs.subrange(aggregates@.len() as int, class_aggs.len() as int),
                forall|j: int|
                    0 <= j < aggregates@.len() ==> #[trigger] aggregates@[j].forwards@
                        == class_aggs[j]@ && aggregates@[j].inner is None,
            decreases rest@.len(),
        {
            let forwards = rest.remove(0);
            aggregates.push(Aggregate { forwards, inner: None });
            proof {
                let n = aggregates@.len() as int;
                assert(aggregates@[n - 1].forwards@ == class_aggs[n - 1]@);
                assert(rest@ =~= class_aggs.subrange(n, class_aggs.len() as int));
            }
        }
        let r = self.objects.len();
        proof {
            if let Some(o) = outer {
                assert(wf_at(self.objects@, o as int));
            }
        }
        self.objects.push(
            ObjectCore { ref_count: 0, live: true, interfaces, outer, aggregates },
        );
        proof {
            let objs = self.objects@;
            let prev = old(self).objects@;
            assert(objs.subrange(0, r as int) =~= prev);
            assert forall|k: int| 0 <= k < objs.len() implies #[trigger] wf_at(objs, k) by {
                if k < r {
                    assert(wf_at(prev, k));
                    assert(objs[k] == prev[k]);
                    assert forall|a: int| 0 <= a < objs[k].aggregates@.len() implies #[trigger] inner_ok(
                        objs,
                        k,
                        objs[k].aggregates@[a].inner,
                    ) by {
                        assert(inner_ok(prev, k, prev[k].aggregates@[a].inner));
                    }
                } else {
                    assert forall|a: int| 0 <= a < objs[k].aggregates@.len() implies #[trigger] inner_ok(
                        objs,
                        k,
                        objs[k].aggregates@[a].inner,
                    ) by {
                        assert(objs[k].aggregates@[a].forwards@ == class_aggs[a]@);
                        assert(objs[k].aggregates@[a].inner is None);
                    }
                }
            }
        }
        proof {
            let o = self.objects@[r as int];
            assert forall|j: int| 0 <= j < o.aggregates@.len() implies #[trigger] o.aggregates@[j].forwards@
                == class.aggregates@[j]@ && o.aggregates@[j].inner is None by {
                assert(aggregates@[j].forwards@ == class_aggs[j]@);
            }
            assert(is_fresh(o, class, outer));
        }
        r
    }

    /// Sets the outer identity of `h`, once, before first use. With `None` the
    /// public identity stays the instance's own non-delegating one; with
    /// `Some(o)` public identity operations on `h` forward to the public
    /// identity of `o`, which must have been allocated before `h`.
    pub fn set_outer_identity(&mut self, h: usize, outer: Option<usize>)
        requires
            old(self).wf(),
            h < old(self).objects@.len(),
            old(self).objects@[h as int].outer is None,
            outer matches Some(o) ==> o < h,
        ensures
            final(self).wf(),
            final(self).objects@ == match outer {
                Some(o) => old(self).objects@.update(
                    h as int,
                    ObjectCore { outer: Some(o), ..old(self).objects@[h as int] },
                ),
                None => old(self).objects@,
            },
    {
        if let Some(o) = outer {
            self.objects[h].outer = Some(o);
            proof {
                let objs = self.objects@;
                let prev = old(self).objects@;
                assert forall|k: int| 0 <= k < objs.len() implies #[trigger] wf_at(objs, k) by {
                    assert(wf_at(prev, k));
                    assert forall|a: int| 0 <= a < objs[k].aggregates@.len() implies #[trigger] inner_ok(
                        objs,
                        k,
                        objs[k].aggregates@[a].inner,
                    ) by {
                        assert(inner_ok(prev, k, prev[k].aggregates@[a].inner));
                    }
                }
            }
        }
    }

    /// Allocates an instance of `class` aggregated into the field `a` of `h`:
    /// its outer identity is that of `h`, and `h` takes one reference on it
    /// through its non-delegating identity. Returns the inner instance.
    pub fn aggregate(&mut self, h: usize, a: usize, class: ClassDesc) -> (r: usize)
        requires
            old(self).wf(),
            old(self).objects@.len() < usize::MAX,
            h < old(self).objects@.len(),
            old(self).objects@[h as int].live,
            a < old(self).objects@[h as int].aggregates@.len(),
            old(self).objects@[h as int].aggregates@[a as int].inner is None,
        ensures
            final(self).wf(),
            r == old(self).objects@.len(),
            final(self).objects@.len() == r + 1,
            forall|k: int|
                0 <= k < r && k != h ==> final(self).objects@[k] == #[trigger] old(
                    self,
                ).objects@[k],
            ({
                let o = old(self).objects@[h as int];
                let n = final(self).objects@[h as int];
                &&& n.ref_count == o.ref_count
                &&& n.live == o.live
                &&& n.interfaces == o.interfaces
                &&& n.outer == o.outer
                &&& n.aggregates@ == o.aggregates@.update(
                    a as int,
                    Aggregate { inner: Some(r), ..o.aggregates@[a as int] },
                )
            }),
            final(self).objects@[r as int].ref_count == 1,
            is_fresh(
                ObjectCore { ref_count: 0, ..final(self).objects@[r as int] },
                class,
                Some(h),
            ),
    {
        let i = self.allocate(class, Some(h));
        let ghost allocated = self.objects@[i as int];
        proof {
            assert(self.objects@[h as int] == old(self).objects@[h as int]);
        }
        self.add_ref_non_delegating(i);
        let ghost mid = self.objects@;
        self.objects[h].aggregates[a].inner = Some(i);
        proof {
            let objs = self.objects@;
            assert(objs[h as int].aggregates@ =~= mid[h as int].aggregates@.update(
                a as int,
                Aggregate { inner: Some(i), ..mid[h as int].aggregates@[a as int] },
            ));
            assert forall|k: int| 0 <= k < objs.len() implies #[trigger] wf_at(objs, k) by {
                assert(wf_at(mid, k));
                assert forall|b: int| 0 <= b < objs[k].aggregates@.len() implies #[trigger] inner_ok(
                    objs,
                    k,
                    objs[k].aggregates@[b].inner,
                ) by {
                    if k != h || b != a {
                        assert(objs[k].aggregates@[b] == mid[k].aggregates@[b]);
                        assert(inner_ok(mid, k, mid[k].aggregates@[b].inner));
                    }
                }
            }
            assert(ObjectCore { ref_count: 0, ..objs[i as int] } == allocated);
            assert forall|k: int| 0 <= k < i && k != h implies objs[k] == #[trigger] old(
                self,
            ).objects@[k] by {
                assert(old(self).objects@ == mid.subrange(0, i as int));
            }
        }
        i
    }

    /// Queries through the public identity of `h`: the controlling object's
    /// non-delegating identity answers.
    pub fn query(&mut self, h: usize, iid: InterfaceId) -> (r: Result<InterfacePtr, QueryError>)
        requires
            old(self).wf(),
            h < old(self).objects@.len(),
            old(self).objects@[controller(old(self).objects@, h as int)].live,
            query_fits(old(self).objects@, controller(old(self).objects@, h as int), iid),
        ensures
            final(self).wf(),
            r == query_result(
                resolve(old(self).objects@, controller(old(self).objects@, h as int), iid),
            ),
            final(self).objects@ == if r is Ok {
                add_ref_post(old(self).objects@, controller(old(self).objects@, h as int))
            } else {
                old(self).objects@
            },
    {
        let c = self.controller_of(h);
        self.query_non_delegating(c, iid)
    }

    /// Increments through the public identity of `h`; returns the new count of
    /// the controlling object.
    pub fn add_ref(&mut self, h: usize) -> (r: u32)
        requires
            old(self).wf(),
            h < old(self).objects@.len(),
            old(self).objects@[controller(old(self).objects@, h as int)].live,
            old(self).objects@[controller(old(self).objects@, h as int)].ref_count < u32::MAX,
        ensures
            final(self).wf(),
            final(self).objects@ == add_ref_post(
                old(self).objects@,
                controller(old(self).objects@, h as int),
            ),
            r == final(self).objects@[controller(old(self).objects@, h as int)].ref_count,
    {
        let c = self.controller_of(h);
        self.add_ref_non_delegating(c)
    }

    /// Decrements through the public identity of `h`: an aggregated instance
    /// decrements its controlling object, never itself. Returns the new count of
    /// the controlling object, zero once it is deallocated.
    pub fn release(&mut self, h: usize) -> (r: u32)
        requires
            old(self).wf(),
            h < old(self).objects@.len(),
            releasable(old(self).objects@, controller(old(self).objects@, h as int)),
        ensures
            final(self).wf(),
            final(self).objects@ == release_post(
                old(self).objects@,
                controller(old(self).objects@, h as int),
            ),
            r == final(self).objects@[controller(old(self).objects@, h as int)].ref_count,
            (r == 0) == !final(self).objects@[controller(old(self).objects@, h as int)].live,
    {
        let c = self.controller_of(h);
        self.release_non_delegating(c)
    }

    /// The instance that calls through `p` run on.
    pub fn entered_by(&self, p: InterfacePtr) -> (r: usize)
        requires
            self.wf(),
            p.object < self.objects@.len(),
        ensures
            r as int == entered(self.objects@, p),
            r < self.objects@.len(),
    {
        match p.table {
            Table::Identity => p.object,
            Table::Interface(_) => self.controller_of(p.object),
        }
    }

    /// Queries through the dispatch table that `p` designates.
    pub fn query_via(&mut self, p: InterfacePtr, iid: InterfaceId) -> (r: Result<
        InterfacePtr,
        QueryError,
    >)
        requires
            old(self).wf(),
            p.object < old(self).objects@.len(),
            old(self).objects@[entered(old(self).objects@, p)].live,
            query_fits(old(self).objects@, entered(old(self).objects@, p), iid),
        ensures
            final(self).wf(),
            r == query_result(resolve(old(self).objects@, entered(old(self).objects@, p), iid)),
            final(self).objects@ == if r is Ok {
                add_ref_post(old(self).objects@, entered(old(self).objects@, p))
            } else {
                old(self).objects@
            },
    {
        let e = self.entered_by(p);
        self.query_non_delegating(e, iid)
    }

    /// Increments through the dispatch table that `p` designates.
    pub fn add_ref_via(&mut self, p: InterfacePtr) -> (r: u32)
        requires
            old(self).wf(),
            p.object < old(self).objects@.len(),
            old(self).objects@[entered(old(self).objects@, p)].live,
            old(self).objects@[entered(old(self).objects@, p)].ref_count < u32::MAX,
        ensures
            final(self).wf(),
            final(self).objects@ == add_ref_post(old(self).objects@, entered(old(self).objects@, p)),
            r == final(self).objects@[entered(old(self).objects@, p)].ref_count,
    {
        let e = self.entered_by(p);
        self.add_ref_non_delegating(e)
    }

    /// Decrements through the dispatch table that `p` designates.
    pub fn release_via(&mut self, p: InterfacePtr) -> (r: u32)
        requires
            old(self).wf(),
            p.object < old(self).objects@.len(),
            releasable(old(self).objects@, entered(old(self).objects@, p)),
        ensures
            final(self).wf(),
            final(self).objects@ == release_post(old(self).objects@, entered(old(self).objects@, p)),
            r == final(self).objects@[entered(old(self).objects@, p)].ref_count,
            (r == 0) == !final(self).objects@[entered(old(self).objects@, p)].live,
    {
        let e = self.entered_by(p);
        self.release_non_delegating(e)
    }

    /// Increments the true count of `h`, bypassing any outer identity; returns
    /// the new count.
    pub fn add_ref_non_delegating(&mut self, h: usize) -> (r: u32)
        requires
            old(self).wf(),
            h < old(self).objects@.len(),
            old(self).objects@[h as int].live,
            old(self).objects@[h as int].ref_count < u32::MAX,
        ensures
            final(self).wf(),
            final(self).objects@ == add_ref_post(old(self).objects@, h as int),
            r == final(self).objects@[h as int].ref_count,
    {
        proof {
            lemma_add_ref_wf(self.objects@, h as int);
        }
        let c = self.objects[h].ref_count + 1;
        self.objects[h].ref_count = c;
        c
    }

    /// Resolves `iid` through the non-delegating identity of `h`. On success the
    /// true count of `h` grows by one; an inner object that answered is left
    /// with its count as it was. On failure nothing changes.
    pub fn query_non_delegating(&mut self, h: usize, iid: InterfaceId) -> (r: Result<
        InterfacePtr,
        QueryError,
    >)
        requires
            old(self).wf(),
            h < old(self).objects@.len(),
            old(self).objects@[h as int].live,
            query_fits(old(self).objects@, h as int, iid),
        ensures
            final(self).wf(),
            r == query_result(resolve(old(self).objects@, h as int, iid)),
            final(self).objects@ == if r is Ok {
                add_ref_post(old(self).objects@, h as int)
            } else {
                old(self).objects@
            },
        decreases old(self).objects@.len() - h,
    {
        proof {
            assert(wf_at(self.objects@, h as int));
        }
        if iid.is_identity() {
            self.add_ref_non_delegating(h);
            return Ok(InterfacePtr { object: h, table: Table::Identity });
        }
        match find_in_chain(&self.objects[h].interfaces, iid) {
            Some(k) => {
                proof {
                    let ds = self.objects@[h as int].interfaces@;
                    let c = choose|j: int| is_first_in_chain(ds, iid, j);
                    assert(any_in_chain(ds, iid));
                    assert(is_first_in_chain(ds, iid, c));
                    lemma_first_unique(ds, iid, k as int, c);
                }
                self.add_ref_non_delegating(h);
                return Ok(InterfacePtr { object: h, table: Table::Interface(k) });
            },
            None => {},
        }
        let n = self.objects[h].aggregates.len();
        let mut a: usize = 0;
        while a < n
            invariant
                self.objects@ == old(self).objects@,
                self.wf(),
                h < self.objects@.len(),
                self.objects@[h as int].live,
                resolve(self.objects@, h as int, iid) is Some ==> self.objects@[h as int].ref_count
                    < u32::MAX && aggregates_fit(self.objects@, h as int, iid, a as int),
                n == self.objects@[h as int].aggregates@.len(),
                0 <= a <= n,
                iid != identity_id(),
                !any_in_chain(self.objects@[h as int].interfaces@, iid),
                resolve(self.objects@, h as int, iid) == resolve_aggregates(
                    self.objects@,
                    h as int,
                    iid,
                    a as int,
                ),
            decreases n - a,
        {
            let forwards = find_in_chain(&self.objects[h].aggregates[a].forwards, iid);
            if forwards.is_some() {
                match self.objects[h].aggregates[a].inner {
                    Some(i) => {
                        proof {
                            assert(wf_at(self.objects@, h as int));
                            assert(inner_ok(
                                self.objects@,
                                h as int,
                                self.objects@[h as int].aggregates@[a as int].inner,
                            ));
                            let objs = self.objects@;
                            if resolve(objs, i as int, iid) is Some {
                                assert(resolve_aggregates(objs, h as int, iid, a as int)
                                    == resolve(objs, i as int, iid));
                                assert(aggregates_fit(objs, h as int, iid, a as int));
                            } else {
                                assert(iid != identity_id());
                                assert(!any_in_chain(objs[i as int].interfaces@, iid));
                                assert(resolve_aggregates(objs, i as int, iid, 0) is None);
                            }
                            assert(query_fits(objs, i as int, iid));
                        }
                        match self.query_non_delegating(i, iid) {
                            Ok(p) => {
                                self.release_non_delegating(i);
                                proof {
                                    assert(self.objects@ =~= old(self).objects@);
                                }
                                self.add_ref_non_delegating(h);
                                return Ok(p);
                            },
                            Err(_) => {},
                        }
                    },
                    None => {},
                }
            }
            a = a + 1;
        }
        Err(QueryError::NoInterface)
    }

    /// Decrements the true count of `h`, bypassing any outer identity; returns
    /// the new count. At zero the instance is deallocated, once.
    pub fn release_non_delegating(&mut self, h: usize) -> (r: u32)
        requires
            old(self).wf(),
            releasable(old(self).objects@, h as int),
        ensures
            final(self).wf(),
            final(self).objects@ == release_post(old(self).objects@, h as int),
            r == final(self).objects@[h as int].ref_count,
            (r == 0) == !final(self).objects@[h as int].live,
    {
        proof {
            lemma_release_wf(self.objects@, h as int);
        }
        let c = self.objects[h].ref_count - 1;
        self.objects[h].ref_count = c;
        if c == 0 {
            self.objects[h].live = false;
        }
        assert(self.objects@ =~= release_post(old(self).objects@, h as int));
        c
    }
}

} // verus!
