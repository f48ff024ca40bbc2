//! Laws of the identity protocol, stated over the transitions that the
//! operations of `ObjectTable` are proved to make.
use vstd::prelude::*;
use crate::interface::{any_in_chain, identity_id, InterfaceId};
use crate::object::{
    add_ref_post, controller, held, lemma_controller_bounds, query_fits, inner_ok, objects_wf, own_table, release_post, releasable,
    resolve, resolve_aggregates, wf_at, InterfacePtr, ObjectCore, Table,
};

verus! {

/// The instances after `n` non-delegating increments on `h`.
pub open spec fn add_refs(objs: Seq<ObjectCore>, h: int, n: nat) -> Seq<ObjectCore>
    decreases n,
{
    if n == 0 {
        objs
    } else {
        add_ref_post(add_refs(objs, h, (n - 1) as nat), h)
    }
}

/// The instances after `n` non-delegating decrements on `h`.
pub open spec fn releases(objs: Seq<ObjectCore>, h: int, n: nat) -> Seq<ObjectCore>
    decreases n,
{
    if n == 0 {
        objs
    } else {
        release_post(releases(objs, h, (n - 1) as nat), h)
    }
}

/// A query for an interface that `h` implements directly succeeds with that
/// interface's table, and the count of `h` grows by exactly one.
pub proof fn lemma_own_interface_answers(objs: Seq<ObjectCore>, h: int, iid: InterfaceId)
    requires
        0 <= h < objs.len(),
        any_in_chain(objs[h].interfaces@, iid),
        objs[h].ref_count < u32::MAX,
    ensures
        resolve(objs, h, iid) is Some,
        iid != identity_id() ==> resolve(objs, h, iid) == Some(
            InterfacePtr { object: h as usize, table: own_table(objs, h, iid) },
        ),
        add_ref_post(objs, h)[h].ref_count == objs[h].ref_count + 1,
        query_fits(objs, h, iid),
{
}

proof fn lemma_no_aggregate_answers(objs: Seq<ObjectCore>, h: int, iid: InterfaceId, a: int)
    requires
        0 <= h < objs.len(),
        0 <= a,
        forall|b: int|
            0 <= b < objs[h].aggregates@.len() ==> !({
                let g = #[trigger] objs[h].aggregates@[b];
                &&& any_in_chain(g.forwards@, iid)
                &&& g.inner matches Some(i)
                &&& h < i < objs.len()
                &&& resolve(objs, i as int, iid) is Some
            }),
    ensures
        resolve_aggregates(objs, h, iid, a) is None,
    decreases objs[h].aggregates@.len() - a,
{
    if a < objs[h].aggregates@.len() {
        lemma_no_aggregate_answers(objs, h, iid, a + 1);
        let g = objs[h].aggregates@[a];
        assert(!({
            &&& any_in_chain(g.forwards@, iid)
            &&& g.inner matches Some(i)
            &&& h < i < objs.len()
            &&& resolve(objs, i as int, iid) is Some
        }));
    }
}

/// A query for an identifier that is not the identity, that no interface of
/// `h` satisfies, and that no aggregated inner object answers, fails; a failed
/// query leaves every count as it was.
pub proof fn lemma_unknown_interface_fails(objs: Seq<ObjectCore>, h: int, iid: InterfaceId)
    requires
        0 <= h < objs.len(),
        iid != identity_id(),
        !any_in_chain(objs[h].interfaces@, iid),
        forall|b: int|
            0 <= b < objs[h].aggregates@.len() ==> !({
                let g = #[trigger] objs[h].aggregates@[b];
                &&& any_in_chain(g.forwards@, iid)
                &&& g.inner matches Some(i)
                &&& h < i < objs.len()
                &&& resolve(objs, i as int, iid) is Some
            }),
    ensures
        resolve(objs, h, iid) is None,
        query_fits(objs, h, iid),
{
    lemma_no_aggregate_answers(objs, h, iid, 0);
}

/// The identity is always answered, by the identity table of the instance that
/// the call entered: the instance itself through its non-delegating identity,
/// its controlling object through the public one. Only the count of the
/// entered instance needs room for the new reference.
pub proof fn lemma_identity_always_answers(objs: Seq<ObjectCore>, h: int)
    requires
        0 <= h < objs.len(),
    ensures
        objs[h].ref_count < u32::MAX ==> query_fits(objs, h, identity_id()),
        resolve(objs, h, identity_id()) == Some(
            InterfacePtr { object: h as usize, table: Table::Identity },
        ),
        resolve(objs, controller(objs, h), identity_id()) == Some(
            InterfacePtr { object: controller(objs, h) as usize, table: Table::Identity },
        ),
{
}

proof fn lemma_resolve_from(objs: Seq<ObjectCore>, h: int, iid: InterfaceId)
    requires
        0 <= h < objs.len() <= usize::MAX,
    ensures
        resolve(objs, h, iid) matches Some(p) ==> h <= p.object < objs.len(),
    decreases objs.len() - h, objs[h].aggregates@.len() + 1,
{
    if iid != identity_id() && !any_in_chain(objs[h].interfaces@, iid) {
        lemma_resolve_aggregates_from(objs, h, iid, 0);
    }
}

proof fn lemma_resolve_aggregates_from(objs: Seq<ObjectCore>, h: int, iid: InterfaceId, a: int)
    requires
        0 <= h < objs.len() <= usize::MAX,
        0 <= a,
    ensures
        resolve_aggregates(objs, h, iid, a) matches Some(p) ==> h < p.object < objs.len(),
    decreases objs.len() - h, objs[h].aggregates@.len() - a,
{
    if a < objs[h].aggregates@.len() {
        lemma_resolve_aggregates_from(objs, h, iid, a + 1);
        if let Some(i) = objs[h].aggregates@[a].inner {
            if h < i < objs.len() {
                lemma_resolve_from(objs, i as int, iid);
            }
        }
    }
}

/// A query that `h` answers by forwarding (the identifier is neither the
/// identity nor one of its own interfaces) yields a table of an inner object
/// created after `h`; the successful query charges `h` alone, by one, and the
/// inner object keeps its count.
pub proof fn lemma_forwarded_query_charges_outer(objs: Seq<ObjectCore>, h: int, iid: InterfaceId)
    requires
        objects_wf(objs),
        0 <= h < objs.len(),
        objs[h].ref_count < u32::MAX,
        iid != identity_id(),
        !any_in_chain(objs[h].interfaces@, iid),
        resolve(objs, h, iid) is Some,
    ensures
        h < resolve(objs, h, iid)->Some_0.object < objs.len(),
        add_ref_post(objs, h)[h].ref_count == objs[h].ref_count + 1,
        forall|k: int|
            0 <= k < objs.len() && k != h ==> #[trigger] add_ref_post(objs, h)[k] == objs[k],
{
    lemma_resolve_aggregates_from(objs, h, iid, 0);
}

/// An instance with count zero is held by no live instance.
proof fn lemma_zero_not_held(objs: Seq<ObjectCore>, h: int)
    requires
        objects_wf(objs),
        0 <= h < objs.len(),
        objs[h].ref_count == 0,
    ensures
        !held(objs, h),
{
    if held(objs, h) {
        let (o, a) = choose|o: int, a: int|
            0 <= o < objs.len() && objs[o].live && 0 <= a < objs[o].aggregates@.len()
                && #[trigger] objs[o].aggregates@[a].inner == Some(h as usize);
        assert(wf_at(objs, o));
        assert(inner_ok(objs, o, objs[o].aggregates@[a].inner));
    }
}

/// Holding survives no change but to the count and liveness of `h` itself.
proof fn lemma_held_only_by_others(objs: Seq<ObjectCore>, next: Seq<ObjectCore>, h: int)
    requires
        objects_wf(objs),
        0 <= h < objs.len(),
        next.len() == objs.len(),
        forall|k: int| 0 <= k < objs.len() && k != h ==> next[k] == objs[k],
        next[h].aggregates == objs[h].aggregates,
        held(next, h),
    ensures
        held(objs, h),
{
    let (o, a) = choose|o: int, a: int|
        0 <= o < next.len() && next[o].live && 0 <= a < next[o].aggregates@.len()
            && #[trigger] next[o].aggregates@[a].inner == Some(h as usize);
    if o == h {
        assert(wf_at(objs, h));
        assert(inner_ok(objs, h, objs[h].aggregates@[a].inner));
    } else {
        assert(objs[o].aggregates@[a].inner == Some(h as usize));
    }
}

/// An increment followed by a decrement, on any live instance that already
/// holds a reference and is below the largest count, restores every instance
/// and deallocates nothing.
pub proof fn lemma_add_ref_release_restores(objs: Seq<ObjectCore>, h: int)
    requires
        objects_wf(objs),
        0 <= h < objs.len(),
        objs[h].live,
        1 <= objs[h].ref_count < u32::MAX,
    ensures
        releasable(add_ref_post(objs, h), h),
        release_post(add_ref_post(objs, h), h) == objs,
        release_post(add_ref_post(objs, h), h)[h].live,
{
    let up = add_ref_post(objs, h);
    assert(release_post(up, h) =~= objs);
}

proof fn lemma_add_refs_count(objs: Seq<ObjectCore>, h: int, n: nat)
    requires
        0 <= h < objs.len(),
        objs[h].ref_count + n <= u32::MAX,
    ensures
        add_refs(objs, h, n) == objs.update(
            h,
            ObjectCore { ref_count: (objs[h].ref_count + n) as u32, ..objs[h] },
        ),
    decreases n,
{
    if n > 0 {
        lemma_add_refs_count(objs, h, (n - 1) as nat);
        assert(add_refs(objs, h, n) =~= objs.update(
            h,
            ObjectCore { ref_count: (objs[h].ref_count + n) as u32, ..objs[h] },
        ));
    } else {
        assert(objs.update(h, ObjectCore { ref_count: objs[h].ref_count, ..objs[h] }) =~= objs);
    }
}

proof fn lemma_releases_count(objs: Seq<ObjectCore>, h: int, k: nat)
    requires
        0 <= h < objs.len(),
        objs[h].live,
        k <= objs[h].ref_count,
    ensures
        k > 0 ==> releases(objs, h, k) == objs.update(
            h,
            ObjectCore {
                ref_count: (objs[h].ref_count - k) as u32,
                live: objs[h].ref_count - k != 0,
                ..objs[h]
            },
        ),
        k == 0 ==> releases(objs, h, k) == objs,
    decreases k,
{
    if k > 0 {
        lemma_releases_count(objs, h, (k - 1) as nat);
        if k == 1 {
            assert(releases(objs, h, 1) =~= objs.update(
                h,
                ObjectCore {
                    ref_count: (objs[h].ref_count - 1) as u32,
                    live: objs[h].ref_count - 1 != 0,
                    ..objs[h]
                },
            ));
        } else {
            assert(releases(objs, h, k) =~= objs.update(
                h,
                ObjectCore {
                    ref_count: (objs[h].ref_count - k) as u32,
                    live: objs[h].ref_count - k != 0,
                    ..objs[h]
                },
            ));
        }
    }
}

/// On an instance that nobody holds yet (count zero), `n` increments followed
/// by `n` decrements keep it live through the first `n - 1` decrements, each of
/// them allowed, and deallocate it on the last one: exactly once.
pub proof fn lemma_balanced_releases_free_once(objs: Seq<ObjectCore>, h: int, n: nat)
    requires
        objects_wf(objs),
        0 <= h < objs.len(),
        objs[h].live,
        objs[h].ref_count == 0,
        1 <= n <= u32::MAX,
    ensures
        forall|k: nat|
            k < n ==> (#[trigger] add_refs(objs, h, k))[h].live && add_refs(objs, h, k)[h].ref_count
                < u32::MAX,
        forall|k: nat|
            k < n ==> releasable(#[trigger] releases(add_refs(objs, h, n), h, k), h) && releases(
                add_refs(objs, h, n),
                h,
                k,
            )[h].live,
        !releases(add_refs(objs, h, n), h, n)[h].live,
{
    let up = add_refs(objs, h, n);
    lemma_add_refs_count(objs, h, n);
    lemma_zero_not_held(objs, h);
    assert forall|k: nat| k < n implies (#[trigger] add_refs(objs, h, k))[h].live && add_refs(
        objs,
        h,
        k,
    )[h].ref_count < u32::MAX by {
        lemma_add_refs_count(objs, h, k);
    }
    assert forall|k: nat| k < n implies releasable(#[trigger] releases(up, h, k), h) && releases(
        up,
        h,
        k,
    )[h].live by {
        lemma_releases_count(up, h, k);
        let cur = releases(up, h, k);
        if held(cur, h) {
            lemma_held_only_by_others(objs, cur, h);
        }
    }
    lemma_releases_count(up, h, n);
}

/// Through the public identity of an aggregated instance a decrement lands on
/// its controlling object and leaves the instance itself untouched; through its
/// non-delegating identity it lands on the instance and leaves the controlling
/// object untouched.
pub proof fn lemma_release_paths(objs: Seq<ObjectCore>, h: int)
    requires
        objects_wf(objs),
        0 <= h < objs.len(),
        objs[h].outer is Some,
        objs[h].ref_count > 0,
        objs[controller(objs, h)].ref_count > 0,
    ensures
        controller(objs, h) != h,
        release_post(objs, controller(objs, h))[h] == objs[h],
        release_post(objs, controller(objs, h))[controller(objs, h)].ref_count == (objs[controller(
            objs,
            h,
        )].ref_count - 1) as u32,
        release_post(objs, h)[controller(objs, h)] == objs[controller(objs, h)],
        release_post(objs, h)[h].ref_count == (objs[h].ref_count - 1) as u32,
        release_post(objs, h)[h].live == (objs[h].ref_count != 1),
{
    assert(wf_at(objs, h));
    lemma_controller_bounds(objs, h);
}

} // verus!
