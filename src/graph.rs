use crate::handle::Handle;
use crate::trace::Trace;
use vstd::prelude::*;

verus! {

/// The handles embedded in a sequence of roots, root after root.
pub open spec fn root_edges<T: Trace>(roots: Seq<T>) -> Seq<Handle>
    decreases roots.len(),
{
    if roots.len() == 0 {
        Seq::empty()
    } else {
        root_edges(roots.drop_last()) + roots.last().edges()
    }
}

/// In heap `m`, the payload of live cell `a` directly references live cell `b`.
pub open spec fn points_to<T: Trace>(m: Map<Handle, T>, a: Handle, b: Handle) -> bool {
    m.contains_key(a) && m.contains_key(b) && m[a].edges().contains(b)
}

/// `p` is a path in heap `m` through live cells, starting at a handle of `start`
/// and following one direct reference at each step.
pub open spec fn is_path<T: Trace>(m: Map<Handle, T>, start: Seq<Handle>, p: Seq<Handle>) -> bool {
    &&& p.len() > 0
    &&& start.contains(p[0])
    &&& m.contains_key(p[0])
    &&& forall|i: int| 1 <= i < p.len() ==> points_to(m, p[i - 1], #[trigger] p[i])
}

/// Cell `h` of heap `m` is reachable from the handles in `start`.
pub open spec fn reachable<T: Trace>(m: Map<Handle, T>, start: Seq<Handle>, h: Handle) -> bool {
    exists|p: Seq<Handle>| #[trigger] is_path(m, start, p) && p.last() == h
}

/// `c` holds every live handle of `start` and is closed under direct reference in `m`.
pub open spec fn is_closed<T: Trace>(m: Map<Handle, T>, start: Seq<Handle>, c: Set<Handle>) -> bool {
    &&& forall|h: Handle| start.contains(h) && m.contains_key(h) ==> #[trigger] c.contains(h)
    &&& forall|a: Handle, b: Handle| c.contains(a) && #[trigger] points_to(m, a, b) ==> c.contains(b)
}

/// The heap that remains when every cell unreachable from `start` is reclaimed.
pub open spec fn collected<T: Trace>(m: Map<Handle, T>, start: Seq<Handle>) -> Map<Handle, T> {
    Map::new(|h: Handle| m.contains_key(h) && reachable(m, start, h), |h: Handle| m[h])
}

/// A live handle of the start set is reachable.
pub proof fn lemma_start_reachable<T: Trace>(m: Map<Handle, T>, start: Seq<Handle>, h: Handle)
    requires
        start.contains(h),
        m.contains_key(h),
    ensures
        reachable(m, start, h),
{
    let p = seq![h];
    assert(is_path(m, start, p));
}

/// A live cell directly referenced by a reachable cell is reachable.
pub proof fn lemma_step_reachable<T: Trace>(
    m: Map<Handle, T>,
    start: Seq<Handle>,
    a: Handle,
    b: Handle,
)
    requires
        reachable(m, start, a),
        points_to(m, a, b),
    ensures
        reachable(m, start, b),
{
    let p = choose|p: Seq<Handle>| #[trigger] is_path(m, start, p) && p.last() == a;
    let q = p.push(b);
    assert forall|i: int| 1 <= i < q.len() implies points_to(m, q[i - 1], #[trigger] q[i]) by {
        if i < p.len() {
            assert(q[i] == p[i] && q[i - 1] == p[i - 1]);
        }
    }
    assert(is_path(m, start, q));
}

/// Every cell on a path lies in any set that is closed and holds the live start handles.
proof fn lemma_path_in_closed<T: Trace>(
    m: Map<Handle, T>,
    start: Seq<Handle>,
    c: Set<Handle>,
    p: Seq<Handle>,
    k: int,
)
    requires
        is_closed(m, start, c),
        is_path(m, start, p),
        0 <= k < p.len(),
    ensures
        c.contains(p[k]),
    decreases k,
{
    if k > 0 {
        lemma_path_in_closed(m, start, c, p, k - 1);
        assert(points_to(m, p[k - 1], p[k]));
    }
}

/// Every reachable cell lies in any set that is closed and holds the live start handles.
pub proof fn lemma_reachable_in_closed<T: Trace>(
    m: Map<Handle, T>,
    start: Seq<Handle>,
    c: Set<Handle>,
)
    requires
        is_closed(m, start, c),
    ensures
        forall|h: Handle| #[trigger] reachable(m, start, h) ==> c.contains(h),
{
    assert forall|h: Handle| #[trigger] reachable(m, start, h) implies c.contains(h) by {
        let p = choose|p: Seq<Handle>| #[trigger] is_path(m, start, p) && p.last() == h;
        lemma_path_in_closed(m, start, c, p, p.len() - 1);
    }
}

/// A reachable cell is live.
pub proof fn lemma_reachable_live<T: Trace>(m: Map<Handle, T>, start: Seq<Handle>, h: Handle)
    requires
        reachable(m, start, h),
    ensures
        m.contains_key(h),
{
    let p = choose|p: Seq<Handle>| #[trigger] is_path(m, start, p) && p.last() == h;
    if p.len() > 1 {
        assert(points_to(m, p[p.len() - 2], p[p.len() - 1]));
    }
}

/// The reachable cells are exactly the least closure of the live start handles
/// under "payload directly references cell": the reachable set holds every live
/// start handle, is closed under direct reference, and lies within every set
/// that has those two properties.
pub proof fn lemma_reachable_is_least_closure<T: Trace>(
    m: Map<Handle, T>,
    start: Seq<Handle>,
    c: Set<Handle>,
)
    requires
        is_closed(m, start, c),
    ensures
        is_closed(m, start, Set::new(|h: Handle| reachable(m, start, h))),
        forall|h: Handle| #[trigger] reachable(m, start, h) ==> c.contains(h),
{
    let r = Set::new(|h: Handle| reachable(m, start, h));
    assert forall|h: Handle| start.contains(h) && m.contains_key(h) implies #[trigger] r.contains(h) by {
        lemma_start_reachable(m, start, h);
    }
    assert forall|a: Handle, b: Handle| r.contains(a) && #[trigger] points_to(m, a, b) implies r.contains(b) by {
        lemma_step_reachable(m, start, a, b);
    }
    lemma_reachable_in_closed(m, start, c);
}

/// A path through a sub-heap whose cells keep their payloads is a path of the
/// whole heap.
proof fn lemma_reachable_in_subheap<T: Trace>(
    m: Map<Handle, T>,
    sub: Map<Handle, T>,
    start: Seq<Handle>,
    h: Handle,
)
    requires
        forall|k: Handle| #[trigger] sub.contains_key(k) ==> m.contains_key(k) && sub[k] == m[k],
        reachable(sub, start, h),
    ensures
        reachable(m, start, h),
{
    let p = choose|p: Seq<Handle>| #[trigger] is_path(sub, start, p) && p.last() == h;
    assert forall|i: int| 1 <= i < p.len() implies points_to(m, p[i - 1], #[trigger] p[i]) by {
        assert(points_to(sub, p[i - 1], p[i]));
    }
    assert(sub.contains_key(p[0]));
    assert(is_path(m, start, p));
}

/// Collecting twice with the same roots reclaims nothing the second time: the
/// heap left by one collection is unchanged by the next.
pub proof fn lemma_collect_idempotent<T: Trace>(m: Map<Handle, T>, roots: Seq<T>)
    ensures
        collected(collected(m, root_edges(roots)), root_edges(roots)) == collected(
            m,
            root_edges(roots),
        ),
{
    let s = root_edges(roots);
    let m1 = collected(m, s);
    let c = Set::new(|h: Handle| reachable(m1, s, h));
    assert forall|h: Handle| s.contains(h) && m.contains_key(h) implies #[trigger] c.contains(h) by {
        lemma_start_reachable(m, s, h);
        lemma_start_reachable(m1, s, h);
    }
    assert forall|a: Handle, b: Handle| c.contains(a) && #[trigger] points_to(m, a, b) implies c.contains(b) by {
        lemma_reachable_in_subheap(m, m1, s, a);
        lemma_step_reachable(m, s, a, b);
        lemma_reachable_live(m1, s, a);
        assert(points_to(m1, a, b));
        lemma_step_reachable(m1, s, a, b);
    }
    lemma_reachable_in_closed(m, s, c);
    assert forall|h: Handle| reachable(m1, s, h) implies m1.contains_key(h) by {
        lemma_reachable_live(m1, s, h);
    }
    assert(collected(m1, s) =~= m1);
}

/// A group of cells that no root references and no live cell outside the group
/// references (a cycle with no external root, for instance) is reclaimed whole.
pub proof fn lemma_unreferenced_group_reclaimed<T: Trace>(
    m: Map<Handle, T>,
    roots: Seq<T>,
    group: Set<Handle>,
)
    requires
        forall|h: Handle| #[trigger] group.contains(h) ==> !root_edges(roots).contains(h),
        forall|a: Handle, b: Handle|
            !group.contains(a) && group.contains(b) ==> !#[trigger] points_to(m, a, b),
    ensures
        forall|h: Handle| #[trigger] group.contains(h) ==> !collected(m, root_edges(roots)).contains_key(h),
{
    let s = root_edges(roots);
    let outside = Set::new(|h: Handle| !group.contains(h));
    assert(is_closed(m, s, outside));
    lemma_reachable_in_closed(m, s, outside);
}

/// With no root, every cell is reclaimed.
pub proof fn lemma_no_roots_reclaims_all<T: Trace>(m: Map<Handle, T>)
    ensures
        collected(m, root_edges(Seq::<T>::empty())) == Map::<Handle, T>::empty(),
{
    let s = root_edges(Seq::<T>::empty());
    assert(s =~= Seq::<Handle>::empty());
    assert(is_closed(m, s, Set::empty()));
    lemma_reachable_in_closed(m, s, Set::empty());
    assert(collected(m, s) =~= Map::<Handle, T>::empty());
}

/// The cells that survive a collection are exactly the closure of the roots
/// under "payload directly references cell": the survivors hold every live
/// handle embedded in the roots, are closed under direct reference, and lie
/// within every set with those two properties. Survivors keep their payloads.
pub proof fn lemma_survivors_are_root_closure<T: Trace>(
    m: Map<Handle, T>,
    roots: Seq<T>,
    c: Set<Handle>,
)
    requires
        is_closed(m, root_edges(roots), c),
    ensures
        is_closed(m, root_edges(roots), collected(m, root_edges(roots)).dom()),
        forall|h: Handle| #[trigger] collected(m, root_edges(roots)).contains_key(h) ==> c.contains(h),
        forall|h: Handle| #[trigger] collected(m, root_edges(roots)).contains_key(h) ==> collected(m, root_edges(roots))[h] == m[h],
{
    let s = root_edges(roots);
    lemma_reachable_is_least_closure(m, s, c);
    let d = collected(m, s).dom();
    assert forall|h: Handle| s.contains(h) && m.contains_key(h) implies #[trigger] d.contains(h) by {
        lemma_start_reachable(m, s, h);
    }
    assert forall|a: Handle, b: Handle| d.contains(a) && #[trigger] points_to(m, a, b) implies d.contains(b) by {
        lemma_step_reachable(m, s, a, b);
    }
}

/// Marks do not outlive a collection: a cell that survived an earlier
/// collection and is no longer reachable when the next one runs is reclaimed
/// by it, whatever changed in between.
pub proof fn lemma_survivor_later_unreachable_reclaimed<T: Trace>(
    before: Map<Handle, T>,
    roots_before: Seq<T>,
    now: Map<Handle, T>,
    roots_now: Seq<T>,
    h: Handle,
)
    requires
        collected(before, root_edges(roots_before)).contains_key(h),
        !reachable(now, root_edges(roots_now), h),
    ensures
        !collected(now, root_edges(roots_now)).contains_key(h),
{
}

} // verus!
