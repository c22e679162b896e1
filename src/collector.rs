use crate::graph::{
    collected, is_closed, lemma_reachable_in_closed, lemma_reachable_live, lemma_start_reachable,
    lemma_step_reachable, points_to, reachable, root_edges,
};
use crate::handle::Handle;
use crate::trace::Trace;
use vstd::prelude::*;
use vstd::set_lib::{lemma_int_range, lemma_len_subset, set_int_range};

verus! {

/// One arena slot: the generation of the cell it holds or last held, and the
/// cell's payload while the cell is live.
struct Slot<T> {
    generation: u64,
    payload: Option<T>,
}

/// A mark-and-sweep collector that owns every cell it allocates.
///
/// Cells live in arena slots addressed by index. Reclaiming a cell empties its
/// slot and advances the slot's generation, so every handle to the reclaimed
/// cell is recognised as stale. An emptied slot is reused by a later
/// allocation; a slot whose generation cannot advance any more is retired.
pub struct Gc<T> {
    slots: Vec<Slot<T>>,
    /// The mark bit of each slot.
    marks: Vec<bool>,
    /// Indices of empty slots that may be reused.
    free: Vec<usize>,
}

/// The indices of the set mark bits.
spec fn marked_set(marks: Seq<bool>) -> Set<int> {
    Set::new(|i: int| 0 <= i < marks.len() && marks[i])
}

proof fn lemma_marked_set_bounded(marks: Seq<bool>)
    ensures
        marked_set(marks).finite(),
        marked_set(marks).len() <= marks.len(),
{
    lemma_int_range(0, marks.len() as int);
    lemma_len_subset(marked_set(marks), set_int_range(0, marks.len() as int));
}

proof fn lemma_marked_set_insert(marks: Seq<bool>, i: int)
    requires
        0 <= i < marks.len(),
        !marks[i],
    ensures
        marked_set(marks.update(i, true)).len() == marked_set(marks).len() + 1,
{
    lemma_marked_set_bounded(marks);
    assert(marked_set(marks.update(i, true)) =~= marked_set(marks).insert(i));
}

impl<T: Trace> Gc<T> {
    /// Handle `h` names the cell currently held by its slot.
    spec fn holds(&self, h: Handle) -> bool {
        &&& h.index < self.slots@.len()
        &&& self.slots@[h.index as int].generation == h.generation
        &&& self.slots@[h.index as int].payload is Some
    }

    /// The live cells, each with its payload.
    pub closed spec fn view(&self) -> Map<Handle, T> {
        Map::new(
            |h: Handle| self.holds(h),
            |h: Handle| self.slots@[h.index as int].payload->Some_0,
        )
    }

    /// The cell named by `h` is live and its mark bit is set.
    spec fn marked(&self, h: Handle) -> bool {
        self.holds(h) && self.marks@[h.index as int]
    }

    /// The arena is consistent: one mark bit per slot, and the reuse list holds
    /// distinct indices of empty slots.
    spec fn shape(&self) -> bool {
        &&& self.marks@.len() == self.slots@.len()
        &&& self.free@.no_duplicates()
        &&& forall|k: int|
            0 <= k < self.free@.len() ==> {
                &&& (#[trigger] self.free@[k]) < self.slots@.len()
                &&& self.slots@[self.free@[k] as int].payload is None
            }
    }

    /// Well-formedness between operations: the arena is consistent and every
    /// mark bit is clear.
    pub closed spec fn wf(&self) -> bool {
        &&& self.shape()
        &&& forall|i: int| 0 <= i < self.marks@.len() ==> !(#[trigger] self.marks@[i])
    }

    /// An empty collector, with no cell allocated.
    pub fn new() -> (r: Gc<T>)
        ensures
            r.wf(),
            r@ == Map::<Handle, T>::empty(),
    {
        let r = Gc { slots: Vec::new(), marks: Vec::new(), free: Vec::new() };
        assert(r@ =~= Map::<Handle, T>::empty());
        r
    }

    /// The cell named by `h` is live.
    pub fn is_live(&self, h: Handle) -> (r: bool)
        ensures
            r == self@.contains_key(h),
    {
        h.index < self.slots.len() && self.slots[h.index].generation == h.generation
            && self.slots[h.index].payload.is_some()
    }

    /// The payload of the cell named by `h`, or `None` when the handle is stale.
    pub fn get(&self, h: Handle) -> (r: Option<&T>)
        ensures
            match r {
                Some(v) => self@.contains_key(h) && *v == self@[h],
                None => !self@.contains_key(h),
            },
    {
        if self.is_live(h) {
            self.slots[h.index].payload.as_ref()
        } else {
            None
        }
    }

    /// Replaces the payload of the cell named by `h`; returns `false`, and
    /// changes nothing, when the handle is stale.
    pub fn set(&mut self, h: Handle, value: T) -> (r: bool)
        requires
            old(self).wf(),
        ensures
            final(self).wf(),
            r == old(self)@.contains_key(h),
            r ==> final(self)@ == old(self)@.insert(h, value),
            !r ==> final(self)@ == old(self)@,
    {
        if !self.is_live(h) {
            return false;
        }
        let ghost pre = *self;
        self.slots.set(h.index, Slot { generation: h.generation, payload: Some(value) });
        assert forall|k: int| 0 <= k < self.free@.len() implies
            self.slots@[(#[trigger] self.free@[k]) as int].payload is None by {
            assert(pre.slots@[pre.free@[k] as int].payload is None);
        }
        assert(self@ =~= pre@.insert(h, value));
        true
    }

    /// Allocates a cell holding the initial payload and returns its handle.
    /// The handle names no cell that was live before.
    pub fn allocate(&mut self) -> (h: Handle)
        requires
            old(self).wf(),
        ensures
            final(self).wf(),
            !old(self)@.contains_key(h),
            final(self)@ == old(self)@.insert(h, T::initial()),
    {
        let ghost pre = *self;
        match self.free.pop() {
            Some(i) => {
                proof {
                    assert(pre.free@[pre.free@.len() - 1] == i);
                    assert(self.free@ =~= pre.free@.drop_last());
                    assert forall|k: int| 0 <= k < self.free@.len() implies self.free@[k] != i by {
                        assert(pre.free@[k] == self.free@[k]);
                    }
                }
                let g = self.slots[i].generation;
                let h = Handle { index: i, generation: g };
                self.slots.set(i, Slot { generation: g, payload: Some(T::uninit()) });
                proof {
                    assert forall|k: int| 0 <= k < self.free@.len() implies {
                        &&& (#[trigger] self.free@[k]) < self.slots@.len()
                        &&& self.slots@[self.free@[k] as int].payload is None
                    } by {
                        assert(pre.free@[k] == self.free@[k]);
                    }
                    assert(self.free@.no_duplicates());
                    assert(self@ =~= pre@.insert(h, T::initial()));
                }
                h
            },
            None => {
                let i = self.slots.len();
                let h = Handle { index: i, generation: 0 };
                self.slots.push(Slot { generation: 0, payload: Some(T::uninit()) });
                self.marks.push(false);
                proof {
                    assert forall|k: int| 0 <= k < self.free@.len() implies {
                        &&& (#[trigger] self.free@[k]) < self.slots@.len()
                        &&& self.slots@[self.free@[k] as int].payload is None
                    } by {
                        assert(pre.slots@[pre.free@[k] as int] == self.slots@[pre.free@[k] as int]);
                    }
                    assert(self@ =~= pre@.insert(h, T::initial()));
                }
                h
            },
        }
    }

    /// Allocates `count` cells holding the initial payload and returns their
    /// handles, which are distinct and name no cell that was live before.
    pub fn alloc_many(&mut self, count: usize) -> (r: Vec<Handle>)
        requires
            old(self).wf(),
        ensures
            final(self).wf(),
            r@.len() == count,
            r@.no_duplicates(),
            forall|k: int| 0 <= k < r@.len() ==> !old(self)@.contains_key(#[trigger] r@[k]),
            forall|h: Handle|
                #[trigger] final(self)@.contains_key(h) <==> old(self)@.contains_key(h) || r@.contains(h),
            forall|h: Handle|
                #[trigger] final(self)@.contains_key(h) ==> final(self)@[h] == if r@.contains(h) {
                    T::initial()
                } else {
                    old(self)@[h]
                },
    {
        let ghost m = self@;
        let mut out: Vec<Handle> = Vec::new();
        let mut i: usize = 0;
        while i < count
            invariant
                self.wf(),
                i <= count,
                out@.len() == i,
                out@.no_duplicates(),
                forall|k: int| 0 <= k < out@.len() ==> !m.contains_key(#[trigger] out@[k]),
                forall|h: Handle|
                    #[trigger] self@.contains_key(h) <==> m.contains_key(h) || out@.contains(h),
                forall|h: Handle|
                    #[trigger] self@.contains_key(h) ==> self@[h] == if out@.contains(h) {
                        T::initial()
                    } else {
                        m[h]
                    },
            decreases count - i,
        {
            let ghost out0 = out@;
            let h = self.allocate();
            out.push(h);
            proof {
                assert forall|h2: Handle| #[trigger] out@.contains(h2) <==> out0.contains(h2) || h2 == h by {
                    if out@.contains(h2) {
                        let k = choose|k: int| 0 <= k < out@.len() && out@[k] == h2;
                        if k < out0.len() {
                            assert(out0[k] == h2);
                        }
                    }
                    if h2 == h {
                        assert(out@[out@.len() - 1] == h);
                    }
                    if out0.contains(h2) {
                        let k = choose|k: int| 0 <= k < out0.len() && out0[k] == h2;
                        assert(out@[k] == h2);
                    }
                }
                assert forall|a: int, b: int| 0 <= a < b < out@.len() implies out@[a] != out@[b] by {
                    if b == out@.len() - 1 {
                        assert(out0.contains(out@[a]));
                    }
                }
                assert forall|k: int| 0 <= k < out@.len() implies !m.contains_key(#[trigger] out@[k]) by {
                    if k < out0.len() {
                        assert(out@[k] == out0[k]);
                    }
                }
            }
            i += 1;
        }
        out
    }

    /// Sets the mark bit of the cell named by `h` and queues the handle for
    /// tracing, when the cell is live and not yet marked; else does nothing.
    fn visit(&mut self, h: Handle, work: &mut Vec<Handle>)
        requires
            old(self).shape(),
        ensures
            final(self).shape(),
            final(self).slots@ == old(self).slots@,
            final(self).free@ == old(self).free@,
            old(self).holds(h) && !old(self).marks@[h.index as int] ==> {
                &&& final(self).marks@ == old(self).marks@.update(h.index as int, true)
                &&& final(work)@ == old(work)@.push(h)
            },
            !(old(self).holds(h) && !old(self).marks@[h.index as int]) ==> {
                &&& final(self).marks@ == old(self).marks@
                &&& final(work)@ == old(work)@
            },
            marked_set(final(self).marks@).len() + old(work)@.len() == marked_set(
                old(self).marks@,
            ).len() + final(work)@.len(),
    {
        if self.is_live(h) && !self.marks[h.index] {
            proof {
                lemma_marked_set_insert(self.marks@, h.index as int);
            }
            self.marks.set(h.index, true);
            work.push(h);
        }
    }

    /// Sets the mark bit of exactly the cells reachable from `start`.
    fn mark_from(&mut self, start: &Vec<Handle>)
        requires
            old(self).wf(),
        ensures
            final(self).shape(),
            final(self).slots@ == old(self).slots@,
            final(self).free@ == old(self).free@,
            forall|h: Handle|
                #[trigger] final(self).marked(h) <==> reachable(old(self)@, start@, h),
    {
        let ghost m = self@;
        let ghost s = start@;
        let ghost slots0 = self.slots@;
        let ghost free0 = self.free@;
        let mut work: Vec<Handle> = Vec::new();
        proof {
            lemma_marked_set_bounded(self.marks@);
            assert(marked_set(self.marks@) =~= Set::empty());
        }
        let mut i: usize = 0;
        while i < start.len()
            invariant
                self.shape(),
                self.slots@ == slots0,
                self.free@ == free0,
                self@ == m,
                i <= s.len(),
                s == start@,
                forall|j: int| 0 <= j < i && m.contains_key(s[j]) ==> self.marked(s[j]),
                forall|h: Handle| #[trigger] self.marked(h) ==> reachable(m, s, h),
                forall|k: int| 0 <= k < work@.len() ==> self.marked(#[trigger] work@[k]),
                forall|a: Handle, b: Handle|
                    self.marked(a) && !work@.contains(a) && #[trigger] points_to(m, a, b)
                        ==> self.marked(b),
                marked_set(self.marks@).len() == work@.len(),
            decreases s.len() - i,
        {
            let ghost pre = *self;
            let ghost work0 = work@;
            self.visit(start[i], &mut work);
            proof {
                assert forall|h: Handle| #[trigger] self.marked(h) implies reachable(m, s, h) by {
                    if !pre.marked(h) {
                        assert(h == s[i as int]);
                        lemma_start_reachable(m, s, h);
                    }
                }
                assert forall|k: int| 0 <= k < work@.len() implies self.marked(
                    #[trigger] work@[k],
                ) by {
                    if k < work0.len() {
                        assert(work@[k] == work0[k]);
                    }
                }
                assert forall|a: Handle, b: Handle|
                    self.marked(a) && !work@.contains(a) && #[trigger] points_to(m, a, b)
                        implies self.marked(b) by {
                    if pre.marked(a) && !work0.contains(a) {
                    } else {
                        if !pre.marked(a) {
                            assert(work@[work@.len() - 1] == a);
                        } else {
                            let k = choose|k: int| 0 <= k < work0.len() && work0[k] == a;
                            assert(work@[k] == a);
                        }
                    }
                }
            }
            i += 1;
        }
        proof {
            lemma_marked_set_bounded(self.marks@);
        }
        while work.len() > 0
            invariant
                self.shape(),
                self.slots@ == slots0,
                self.free@ == free0,
                self@ == m,
                s == start@,
                forall|j: int| 0 <= j < s.len() && m.contains_key(s[j]) ==> self.marked(s[j]),
                forall|h: Handle| #[trigger] self.marked(h) ==> reachable(m, s, h),
                forall|k: int| 0 <= k < work@.len() ==> self.marked(#[trigger] work@[k]),
                forall|a: Handle, b: Handle|
                    self.marked(a) && !work@.contains(a) && #[trigger] points_to(m, a, b)
                        ==> self.marked(b),
                marked_set(self.marks@).len() <= self.marks@.len(),
            decreases self.marks@.len() - marked_set(self.marks@).len() + work@.len(),
        {
            let ghost work_full = work@;
            let a = work.pop().unwrap();
            let ghost measure = self.marks@.len() - marked_set(self.marks@).len() + work@.len();
            proof {
                assert(work_full[work_full.len() - 1] == a);
                assert(work@ =~= work_full.drop_last());
                assert(self.marked(a));
                assert forall|x: Handle, b: Handle|
                    self.marked(x) && !work@.contains(x) && x != a && #[trigger] points_to(m, x, b)
                        implies self.marked(b) by {
                    if work_full.contains(x) {
                        let k = choose|k: int| 0 <= k < work_full.len() && work_full[k] == x;
                        assert(work@[k] == x);
                    }
                }
            }
            let mut es: Vec<Handle> = Vec::new();
            match &self.slots[a.index].payload {
                Some(p) => p.trace(&mut es),
                None => {},
            }
            assert(es@ == m[a].edges());
            let mut j: usize = 0;
            while j < es.len()
                invariant
                    self.shape(),
                    self.slots@ == slots0,
                    self.free@ == free0,
                    self@ == m,
                    s == start@,
                    es@ == m[a].edges(),
                    j <= es@.len(),
                    self.marked(a),
                    forall|jj: int| 0 <= jj < j && m.contains_key(es@[jj]) ==> self.marked(es@[jj]),
                    forall|j2: int| 0 <= j2 < s.len() && m.contains_key(s[j2]) ==> self.marked(s[j2]),
                    forall|h: Handle| #[trigger] self.marked(h) ==> reachable(m, s, h),
                    forall|k: int| 0 <= k < work@.len() ==> self.marked(#[trigger] work@[k]),
                    forall|x: Handle, b: Handle|
                        self.marked(x) && !work@.contains(x) && x != a && #[trigger] points_to(m, x, b)
                            ==> self.marked(b),
                    self.marks@.len() - marked_set(self.marks@).len() + work@.len() == measure,
                decreases es@.len() - j,
            {
                let ghost pre = *self;
                let ghost work0 = work@;
                let e = es[j];
                self.visit(e, &mut work);
                proof {
                    assert forall|h: Handle| #[trigger] self.marked(h) implies reachable(m, s, h) by {
                        if !pre.marked(h) {
                            assert(h == e);
                            assert(m[a].edges().contains(e));
                            assert(points_to(m, a, e));
                            lemma_step_reachable(m, s, a, e);
                        }
                    }
                    assert forall|k: int| 0 <= k < work@.len() implies self.marked(
                        #[trigger] work@[k],
                    ) by {
                        if k < work0.len() {
                            assert(work@[k] == work0[k]);
                        }
                    }
                    assert forall|x: Handle, b: Handle|
                        self.marked(x) && !work@.contains(x) && x != a && #[trigger] points_to(m, x, b)
                            implies self.marked(b) by {
                        if pre.marked(x) && !work0.contains(x) {
                        } else {
                            if !pre.marked(x) {
                                assert(work@[work@.len() - 1] == x);
                            } else {
                                let k = choose|k: int| 0 <= k < work0.len() && work0[k] == x;
                                assert(work@[k] == x);
                            }
                        }
                    }
                }
                j += 1;
            }
            proof {
                lemma_marked_set_bounded(self.marks@);
                assert forall|x: Handle, b: Handle|
                    self.marked(x) && !work@.contains(x) && #[trigger] points_to(m, x, b)
                        implies self.marked(b) by {
                    if x == a {
                        let jj = choose|jj: int| 0 <= jj < es@.len() && es@[jj] == b;
                    }
                }
            }
        }
        proof {
            let c = Set::new(|h: Handle| self.marked(h));
            assert forall|h: Handle| s.contains(h) && m.contains_key(h) implies #[trigger] c.contains(h) by {
                let j = choose|j: int| 0 <= j < s.len() && s[j] == h;
            }
            assert(is_closed(m, s, c));
            lemma_reachable_in_closed(m, s, c);
        }
    }

    /// Reclaims every live cell whose mark bit is clear and clears the mark bit
    /// of every survivor.
    fn sweep(&mut self)
        requires
            old(self).shape(),
        ensures
            final(self).wf(),
            final(self)@ == Map::new(|h: Handle| old(self).marked(h), |h: Handle| old(self)@[h]),
    {
        let ghost pre = *self;
        let n = self.slots.len();
        let mut i: usize = 0;
        while i < n
            invariant
                self.shape(),
                n == pre.slots@.len(),
                n == pre.marks@.len(),
                self.slots@.len() == n,
                i <= n,
                forall|k: int| 0 <= k < i ==> !(#[trigger] self.marks@[k]),
                forall|k: int| i <= k < n ==> #[trigger] self.slots@[k] == pre.slots@[k],
                forall|k: int| i <= k < n ==> #[trigger] self.marks@[k] == pre.marks@[k],
                forall|k: int|
                    0 <= k < i ==> if pre.slots@[k].payload is Some && pre.marks@[k] {
                        #[trigger] self.slots@[k] == pre.slots@[k]
                    } else {
                        self.slots@[k].payload is None
                    },
            decreases n - i,
        {
            if self.slots[i].payload.is_some() && !self.marks[i] {
                let g = self.slots[i].generation;
                let ghost free0 = self.free@;
                proof {
                    assert forall|k: int| 0 <= k < free0.len() implies free0[k] != i by {
                        assert(self.slots@[free0[k] as int].payload is None);
                    }
                }
                if g < u64::MAX {
                    self.slots.set(i, Slot { generation: g + 1, payload: None });
                    self.free.push(i);
                } else {
                    self.slots.set(i, Slot { generation: g, payload: None });
                }
                proof {
                    assert forall|k: int| 0 <= k < self.free@.len() implies {
                        &&& (#[trigger] self.free@[k]) < self.slots@.len()
                        &&& self.slots@[self.free@[k] as int].payload is None
                    } by {
                        if k < free0.len() {
                            assert(self.free@[k] == free0[k]);
                        }
                    }
                }
            }
            self.marks.set(i, false);
            i += 1;
        }
        assert(self@ =~= Map::new(|h: Handle| pre.marked(h), |h: Handle| pre@[h]));
    }

    /// Reclaims every cell that is not reachable from the handles embedded in
    /// `roots`, following the handles embedded in payloads. Every survivor keeps
    /// its payload and its handle, and no mark bit stays set.
    pub fn collect(&mut self, roots: &[T])
        requires
            old(self).wf(),
        ensures
            final(self).wf(),
            final(self)@ == collected(old(self)@, root_edges(roots@)),
    {
        let ghost m = self@;
        let start = root_handles(roots);
        self.mark_from(&start);
        self.sweep();
        proof {
            assert forall|h: Handle| reachable(m, start@, h) implies m.contains_key(h) by {
                lemma_reachable_live(m, start@, h);
            }
            assert(self@ =~= collected(m, start@));
        }
    }
}

/// The handles embedded in `roots`, root after root.
fn root_handles<T: Trace>(roots: &[T]) -> (r: Vec<Handle>)
    ensures
        r@ == root_edges(roots@),
{
    let mut out: Vec<Handle> = Vec::new();
    let mut i: usize = 0;
    while i < roots.len()
        invariant
            i <= roots@.len(),
            out@ == root_edges(roots@.subrange(0, i as int)),
        decreases roots.len() - i,
    {
        assert(roots@.subrange(0, i + 1).drop_last() =~= roots@.subrange(0, i as int));
        roots[i].trace(&mut out);
        i += 1;
    }
    assert(roots@.subrange(0, roots@.len() as int) =~= roots@);
    out
}

} // verus!
