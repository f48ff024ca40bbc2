use com_core::interface::{find_in_chain, InterfaceDescriptor, InterfaceId, IDENTITY_BITS};
use com_core::object::{ClassDesc, InterfacePtr, ObjectTable, QueryError, Table};

fn iid(bits: u128) -> InterfaceId {
    InterfaceId::new(bits)
}

fn base_itf() -> InterfaceDescriptor {
    InterfaceDescriptor::new(iid(0x10), vec![])
}

fn derived_itf() -> InterfaceDescriptor {
    InterfaceDescriptor::new(iid(0x11), vec![iid(0x10)])
}

fn other_itf() -> InterfaceDescriptor {
    InterfaceDescriptor::new(iid(0x20), vec![])
}

fn x_itf() -> InterfaceDescriptor {
    InterfaceDescriptor::new(iid(0x30), vec![])
}

fn standalone_class() -> ClassDesc {
    ClassDesc { interfaces: vec![derived_itf(), other_itf()], aggregates: vec![] }
}

fn count(t: &ObjectTable, h: usize) -> u32 {
    t.objects[h].ref_count
}

#[test]
fn identity_id_bits() {
    assert_eq!(InterfaceId::identity().bits, 0xC000_0000_0000_0046);
    assert_eq!(IDENTITY_BITS, 0xC000_0000_0000_0046);
    assert!(InterfaceId::identity().is_identity());
    assert!(!iid(0x46).is_identity());
}

#[test]
fn chain_holds_own_id_and_ancestors() {
    let d = InterfaceDescriptor::new(iid(3), vec![iid(2), iid(1)]);
    assert!(d.is_in_chain(iid(3)));
    assert!(d.is_in_chain(iid(2)));
    assert!(d.is_in_chain(iid(1)));
    assert!(!d.is_in_chain(iid(4)));
}

#[test]
fn first_match_in_chain_wins() {
    let ds = vec![other_itf(), derived_itf(), base_itf()];
    assert_eq!(find_in_chain(&ds, iid(0x10)), Some(1));
    assert_eq!(find_in_chain(&ds, iid(0x20)), Some(0));
    assert_eq!(find_in_chain(&ds, iid(0x99)), None);
    assert_eq!(find_in_chain(&vec![], iid(0x10)), None);
}

#[test]
fn allocation_starts_at_zero() {
    let mut t = ObjectTable::new();
    let h = t.allocate(standalone_class(), None);
    assert_eq!(h, 0);
    assert_eq!(count(&t, h), 0);
    assert!(t.objects[h].live);
    assert_eq!(t.objects[h].outer, None);
    assert_eq!(t.controller_of(h), h);
}

#[test]
fn query_own_interface_increments_by_one() {
    let mut t = ObjectTable::new();
    let h = t.allocate(standalone_class(), None);
    t.add_ref(h);
    let r = t.query(h, iid(0x20));
    assert_eq!(r, Ok(InterfacePtr { object: h, table: Table::Interface(1) }));
    assert_eq!(count(&t, h), 2);
    let r = t.query_non_delegating(h, iid(0x11));
    assert_eq!(r, Ok(InterfacePtr { object: h, table: Table::Interface(0) }));
    assert_eq!(count(&t, h), 3);
}

#[test]
fn query_ancestor_returns_derived_table() {
    let mut t = ObjectTable::new();
    let h = t.allocate(standalone_class(), None);
    let r = t.query(h, iid(0x10));
    assert_eq!(r, Ok(InterfacePtr { object: h, table: Table::Interface(0) }));
    assert_eq!(count(&t, h), 1);
}

#[test]
fn query_unknown_interface_fails_unchanged() {
    let mut t = ObjectTable::new();
    let h = t.allocate(standalone_class(), None);
    t.add_ref(h);
    assert_eq!(t.query(h, iid(0x77)), Err(QueryError::NoInterface));
    assert_eq!(count(&t, h), 1);
    assert!(t.objects[h].live);
}

#[test]
fn add_ref_then_release_restores_count() {
    let mut t = ObjectTable::new();
    let h = t.allocate(standalone_class(), None);
    assert_eq!(t.add_ref(h), 1);
    assert_eq!(t.add_ref(h), 2);
    assert_eq!(t.release(h), 1);
    assert_eq!(count(&t, h), 1);
    assert!(t.objects[h].live);
}

#[test]
fn balanced_releases_deallocate_on_last() {
    for n in 1..6u32 {
        let mut t = ObjectTable::new();
        let h = t.allocate(standalone_class(), None);
        for k in 0..n {
            assert_eq!(t.add_ref(h), k + 1);
        }
        for k in 0..n {
            let left = t.release(h);
            assert_eq!(left, n - k - 1);
            assert_eq!(t.objects[h].live, k + 1 < n);
        }
        assert_eq!(count(&t, h), 0);
    }
}

fn outer_with_inner() -> (ObjectTable, usize, usize) {
    let mut t = ObjectTable::new();
    let outer_class = ClassDesc {
        interfaces: vec![base_itf()],
        aggregates: vec![vec![x_itf()]],
    };
    let outer = t.allocate(outer_class, None);
    t.add_ref(outer);
    let inner_class = ClassDesc { interfaces: vec![x_itf()], aggregates: vec![] };
    let inner = t.aggregate(outer, 0, inner_class);
    (t, outer, inner)
}

#[test]
fn aggregation_wires_inner_with_one_reference() {
    let (t, outer, inner) = outer_with_inner();
    assert_eq!(inner, 1);
    assert_eq!(t.objects[outer].aggregates[0].inner, Some(inner));
    assert_eq!(t.objects[inner].outer, Some(outer));
    assert_eq!(count(&t, inner), 1);
    assert_eq!(count(&t, outer), 1);
}

#[test]
fn aggregated_query_charges_outer_only() {
    let (mut t, outer, inner) = outer_with_inner();
    let r = t.query(outer, iid(0x30));
    assert_eq!(r, Ok(InterfacePtr { object: inner, table: Table::Interface(0) }));
    assert_eq!(count(&t, outer), 2);
    assert_eq!(count(&t, inner), 1);
}

#[test]
fn calls_through_aggregated_pointer_reach_outer() {
    let (mut t, outer, inner) = outer_with_inner();
    let p = t.query(outer, iid(0x30)).unwrap();
    assert_eq!(t.add_ref_via(p), 3);
    assert_eq!(count(&t, inner), 1);
    let q = t.query_via(p, iid(0x10));
    assert_eq!(q, Ok(InterfacePtr { object: outer, table: Table::Interface(0) }));
    assert_eq!(count(&t, outer), 4);
    assert_eq!(t.release_via(p), 3);
    assert_eq!(count(&t, inner), 1);
}

#[test]
fn identity_query_always_succeeds() {
    let (mut t, outer, inner) = outer_with_inner();
    let id = InterfaceId::identity();
    let r = t.query(inner, id);
    assert_eq!(r, Ok(InterfacePtr { object: outer, table: Table::Identity }));
    let r = t.query_non_delegating(inner, id);
    assert_eq!(r, Ok(InterfacePtr { object: inner, table: Table::Identity }));
    let r = t.query(outer, id);
    assert_eq!(r, Ok(InterfacePtr { object: outer, table: Table::Identity }));
    let lone = t.allocate(standalone_class(), None);
    let r = t.query(lone, id);
    assert_eq!(r, Ok(InterfacePtr { object: lone, table: Table::Identity }));
    assert_eq!(count(&t, lone), 1);
}

#[test]
fn public_release_of_inner_decrements_outer() {
    let (mut t, outer, inner) = outer_with_inner();
    t.add_ref(outer);
    assert_eq!(t.release(inner), 1);
    assert_eq!(count(&t, outer), 1);
    assert_eq!(count(&t, inner), 1);
    assert!(t.objects[inner].live);
}

#[test]
fn non_delegating_release_of_inner_is_local() {
    let (mut t, outer, inner) = outer_with_inner();
    assert_eq!(t.add_ref_non_delegating(inner), 2);
    assert_eq!(t.release_non_delegating(inner), 1);
    assert_eq!(count(&t, outer), 1);
    assert_eq!(t.release(outer), 0);
    assert!(!t.objects[outer].live);
    assert_eq!(t.release_non_delegating(inner), 0);
    assert!(!t.objects[inner].live);
}

#[test]
fn unwired_aggregate_reports_no_interface() {
    let mut t = ObjectTable::new();
    let class = ClassDesc { interfaces: vec![base_itf()], aggregates: vec![vec![x_itf()]] };
    let h = t.allocate(class, None);
    assert_eq!(t.query(h, iid(0x30)), Err(QueryError::NoInterface));
    assert_eq!(count(&t, h), 0);
}

#[test]
fn failed_forward_goes_on_to_next_aggregate() {
    let mut t = ObjectTable::new();
    let class = ClassDesc {
        interfaces: vec![base_itf()],
        aggregates: vec![vec![x_itf()], vec![x_itf()]],
    };
    let outer = t.allocate(class, None);
    t.add_ref(outer);
    let empty = t.aggregate(outer, 0, ClassDesc { interfaces: vec![other_itf()], aggregates: vec![] });
    let full = t.aggregate(outer, 1, ClassDesc { interfaces: vec![x_itf()], aggregates: vec![] });
    let r = t.query(outer, iid(0x30));
    assert_eq!(r, Ok(InterfacePtr { object: full, table: Table::Interface(0) }));
    assert_eq!(count(&t, outer), 2);
    assert_eq!(count(&t, empty), 1);
    assert_eq!(count(&t, full), 1);
}

#[test]
fn nested_aggregation_forwards_twice() {
    let mut t = ObjectTable::new();
    let top = t.allocate(
        ClassDesc { interfaces: vec![base_itf()], aggregates: vec![vec![x_itf()]] },
        None,
    );
    t.add_ref(top);
    let mid = t.aggregate(
        top,
        0,
        ClassDesc { interfaces: vec![other_itf()], aggregates: vec![vec![x_itf()]] },
    );
    let leaf = t.aggregate(mid, 0, ClassDesc { interfaces: vec![x_itf()], aggregates: vec![] });
    assert_eq!(t.objects[leaf].outer, Some(mid));
    assert_eq!(t.controller_of(leaf), top);
    let r = t.query(top, iid(0x30));
    assert_eq!(r, Ok(InterfacePtr { object: leaf, table: Table::Interface(0) }));
    assert_eq!(count(&t, top), 2);
    assert_eq!(count(&t, mid), 1);
    assert_eq!(count(&t, leaf), 1);
}

#[test]
fn outer_identity_set_after_allocation_forwards() {
    let mut t = ObjectTable::new();
    let outer = t.allocate(standalone_class(), None);
    let inner = t.allocate(ClassDesc { interfaces: vec![x_itf()], aggregates: vec![] }, None);
    t.set_outer_identity(inner, Some(outer));
    assert_eq!(t.controller_of(inner), outer);
    assert_eq!(t.add_ref(inner), 1);
    assert_eq!(count(&t, outer), 1);
    assert_eq!(count(&t, inner), 0);
    let r = t.query(inner, iid(0x20));
    assert_eq!(r, Ok(InterfacePtr { object: outer, table: Table::Interface(1) }));
}

#[test]
fn absent_outer_identity_keeps_own_identity() {
    let mut t = ObjectTable::new();
    let h = t.allocate(standalone_class(), None);
    t.set_outer_identity(h, None);
    assert_eq!(t.objects[h].outer, None);
    assert_eq!(t.add_ref(h), 1);
    assert_eq!(count(&t, h), 1);
}

#[test]
fn outer_identity_of_aggregated_outer_is_its_controller() {
    let mut t = ObjectTable::new();
    let top = t.allocate(standalone_class(), None);
    let mid = t.allocate(standalone_class(), Some(top));
    let low = t.allocate(standalone_class(), Some(mid));
    assert_eq!(t.objects[mid].outer, Some(top));
    assert_eq!(t.objects[low].outer, Some(mid));
    assert_eq!(t.controller_of(low), top);
    assert_eq!(t.add_ref(low), 1);
    assert_eq!(count(&t, top), 1);
    assert_eq!(count(&t, mid), 0);
}

#[test]
fn instance_with_wired_inner_can_then_be_aggregated() {
    let mut t = ObjectTable::new();
    let top = t.allocate(standalone_class(), None);
    let mid = t.allocate(
        ClassDesc { interfaces: vec![base_itf()], aggregates: vec![vec![x_itf()]] },
        None,
    );
    t.add_ref(mid);
    let leaf = t.aggregate(mid, 0, ClassDesc { interfaces: vec![x_itf()], aggregates: vec![] });
    assert_eq!(t.controller_of(leaf), mid);
    t.set_outer_identity(mid, Some(top));
    assert_eq!(t.controller_of(leaf), top);
    assert_eq!(t.controller_of(mid), top);
    assert_eq!(t.add_ref(leaf), 1);
    assert_eq!(count(&t, top), 1);
    let r = t.query_non_delegating(mid, iid(0x30));
    assert_eq!(r, Ok(InterfacePtr { object: leaf, table: Table::Interface(0) }));
    assert_eq!(count(&t, mid), 2);
    assert_eq!(count(&t, leaf), 1);
}

#[test]
fn query_ignores_unrelated_saturated_instance() {
    let mut t = ObjectTable::new();
    let full = t.allocate(standalone_class(), None);
    t.objects[full].ref_count = u32::MAX;
    let h = t.allocate(standalone_class(), None);
    let r = t.query(h, iid(0x20));
    assert_eq!(r, Ok(InterfacePtr { object: h, table: Table::Interface(1) }));
    assert_eq!(count(&t, h), 1);
    assert_eq!(count(&t, full), u32::MAX);
}

#[test]
fn failing_query_on_saturated_instance_changes_nothing() {
    let mut t = ObjectTable::new();
    let h = t.allocate(standalone_class(), None);
    t.objects[h].ref_count = u32::MAX;
    assert_eq!(t.query(h, iid(0x77)), Err(QueryError::NoInterface));
    assert_eq!(count(&t, h), u32::MAX);
}
