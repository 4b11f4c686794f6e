use vstd::prelude::*;

use crate::value::{value_ref, ObjectPtr, Value};

verus! {

/// Threshold a fresh heap starts with: a sweep is triggered once this many
/// objects are live at an allocation.
pub const HEAP_THRESHOLD: usize = 1024;

/// Smallest threshold a sweep may leave behind, so a near-empty heap does
/// not collect again immediately.
pub const THRESHOLD_FLOOR: usize = 8;

/// The two-state mark color of a heap object.
#[derive(Debug, Default, Clone, Copy, PartialEq, Eq, Structural)]
pub enum Color {
    #[default]
    Unmarked,
    Reachable,
}

/// A tagged, fixed-shape record of values. The tag identifies the object's
/// shape to the code that interprets its fields; the runtime treats it
/// opaquely. Fields may themselves be heap references, so the object graph
/// can be arbitrarily shaped, including cyclic.
#[derive(Debug, Clone, PartialEq)]
pub struct Object {
    pub tag: u8,
    pub fields: Vec<Value>,
}

/// A collector-managed object: its record of values and its mark color.
#[derive(Debug, Clone, PartialEq)]
pub struct HeapObject {
    pub color: Color,
    pub data: Object,
}

impl HeapObject {
    pub fn new(data: Object) -> (r: HeapObject)
        ensures
            r.color is Unmarked,
            r.data == data,
    {
        HeapObject { color: Color::Unmarked, data }
    }

    pub fn reachable(&self) -> (r: bool)
        ensures
            r == (self.color is Reachable),
    {
        self.color == Color::Reachable
    }

    /// Sets this object's own color; the transitive mark pass over the
    /// object graph is `Heap::mark`, which owns the arena the fields
    /// point into.
    pub fn mark(&mut self)
        ensures
            final(self).color is Reachable,
            final(self).data == old(self).data,
    {
        self.color = Color::Reachable;
    }

    pub fn unmark(&mut self)
        ensures
            final(self).color is Unmarked,
            final(self).data == old(self).data,
    {
        self.color = Color::Unmarked;
    }
}

/// One arena slot: either vacant or holding a live object.
#[derive(Debug, Clone, PartialEq)]
pub enum Slot {
    Free,
    Full(HeapObject),
}

/// Slot `i` holds a live object.
pub open spec fn occ(s: Seq<Slot>, i: int) -> bool {
    0 <= i < s.len() && s[i] is Full
}

/// The object in slot `i` (meaningful only when `occ(s, i)`).
pub open spec fn obj_at(s: Seq<Slot>, i: int) -> HeapObject {
    s[i]->0
}

/// Slot `i` holds an object colored `Reachable`.
pub open spec fn marked(s: Seq<Slot>, i: int) -> bool {
    occ(s, i) && obj_at(s, i).color is Reachable
}

/// Some field of the object in slot `a` is a reference to slot `t`.
pub open spec fn points_to(s: Seq<Slot>, a: int, t: int) -> bool {
    occ(s, a) && exists|j: int|
        0 <= j < obj_at(s, a).data.fields@.len() && value_ref(
            #[trigger] obj_at(s, a).data.fields@[j],
        ) == Some(t)
}

/// Slot `b` can be reached from slot `a` by following at most `fuel`
/// reference fields through live objects.
pub open spec fn reach(s: Seq<Slot>, a: int, b: int, fuel: nat) -> bool
    decreases fuel,
{
    occ(s, a) && (a == b || (fuel > 0 && exists|m: int|
        #[trigger] points_to(s, a, m) && occ(s, m) && reach(s, m, b, (fuel - 1) as nat)))
}

/// Slot `b` is reachable from slot `a` through the object graph.
pub open spec fn reachable(s: Seq<Slot>, a: int, b: int) -> bool {
    exists|fuel: nat| reach(s, a, b, fuel)
}

/// No slot carries a mark: the arena's resting color state, which every
/// sweep restores and a mark pass starts from.
pub open spec fn all_unmarked(s: Seq<Slot>) -> bool {
    forall|i: int| !marked(s, i)
}

/// The marked slots are closed under following reference fields (dangling
/// references aside): what a marked object points at is marked too.
pub open spec fn marked_closed(s: Seq<Slot>) -> bool {
    forall|i: int, t: int|
        marked(s, i) && #[trigger] points_to(s, i, t) && occ(s, t) ==> marked(s, t)
}

/// Number of live objects in the arena.
pub open spec fn count_occ(s: Seq<Slot>) -> int
    decreases s.len(),
{
    if s.len() == 0 {
        0
    } else {
        count_occ(s.drop_last()) + if s.last() is Full {
            1int
        } else {
            0int
        }
    }
}

/// What a sweep leaves behind: marked objects survive with their color
/// reset, everything else is reclaimed.
pub open spec fn swept(s: Seq<Slot>) -> Seq<Slot> {
    Seq::new(
        s.len(),
        |i: int|
            if marked(s, i) {
                Slot::Full(HeapObject { color: Color::Unmarked, data: obj_at(s, i).data })
            } else {
                Slot::Free
            },
    )
}

/// The slot a fresh object goes to: the lowest vacant index, or one past
/// the end when the arena is dense.
pub open spec fn first_free(s: Seq<Slot>) -> int
    decreases s.len(),
{
    if s.len() == 0 {
        0
    } else if s[0] is Free {
        0
    } else {
        1 + first_free(s.drop_first())
    }
}

/// The arena after placing a fresh, unmarked object in its slot.
pub open spec fn alloc_at(s: Seq<Slot>, data: Object) -> Seq<Slot> {
    let i = first_free(s);
    let ho = HeapObject { color: Color::Unmarked, data };
    if i < s.len() {
        s.update(i, Slot::Full(ho))
    } else {
        s.push(Slot::Full(ho))
    }
}

/// The threshold a sweep installs: twice the surviving live count, held
/// above a small floor and below `usize::MAX`.
pub open spec fn threshold_for(live: int) -> int {
    if 2 * live < THRESHOLD_FLOOR {
        THRESHOLD_FLOOR as int
    } else if 2 * live > usize::MAX {
        usize::MAX as int
    } else {
        2 * live
    }
}

/// Number of live objects still colored `Unmarked`: the measure a mark
/// pass runs down.
pub open spec fn count_unmarked(s: Seq<Slot>) -> int
    decreases s.len(),
{
    if s.len() == 0 {
        0
    } else {
        count_unmarked(s.drop_last()) + if s.last() is Full && s.last()->0.color is Unmarked {
            1int
        } else {
            0int
        }
    }
}

proof fn lemma_count_unmarked_bounds(s: Seq<Slot>)
    ensures
        0 <= count_unmarked(s) <= s.len(),
    decreases s.len(),
{
    if s.len() > 0 {
        lemma_count_unmarked_bounds(s.drop_last());
    }
}

proof fn lemma_count_unmarked_update(s: Seq<Slot>, i: int, v: Slot)
    requires
        0 <= i < s.len(),
    ensures
        count_unmarked(s.update(i, v)) == count_unmarked(s) - (if s[i] is Full
            && s[i]->0.color is Unmarked {
            1int
        } else {
            0int
        }) + (if v is Full && v->0.color is Unmarked {
            1int
        } else {
            0int
        }),
    decreases s.len(),
{
    if i == s.len() - 1 {
        assert(s.update(i, v).drop_last() =~= s.drop_last());
    } else {
        assert(s.update(i, v).drop_last() =~= s.drop_last().update(i, v));
        lemma_count_unmarked_update(s.drop_last(), i, v);
    }
}

proof fn lemma_points_to_congruent(s1: Seq<Slot>, s2: Seq<Slot>, i: int, t: int)
    requires
        s1.len() == s2.len(),
        forall|j: int| occ(s1, j) == occ(s2, j),
        forall|j: int| occ(s1, j) ==> obj_at(s1, j).data == obj_at(s2, j).data,
        points_to(s1, i, t),
    ensures
        points_to(s2, i, t),
{
    let j = choose|j: int|
        0 <= j < obj_at(s1, i).data.fields@.len() && value_ref(
            #[trigger] obj_at(s1, i).data.fields@[j],
        ) == Some(t);
    assert(obj_at(s2, i).data == obj_at(s1, i).data);
    assert(value_ref(obj_at(s2, i).data.fields@[j]) == Some(t));
}

proof fn lemma_count_occ_le(a: Seq<Slot>, b: Seq<Slot>)
    requires
        a.len() == b.len(),
        forall|i: int| occ(a, i) ==> occ(b, i),
    ensures
        count_occ(a) <= count_occ(b),
    decreases a.len(),
{
    if a.len() > 0 {
        assert forall|i: int| occ(a.drop_last(), i) implies occ(b.drop_last(), i) by {
            assert(occ(a, i));
        }
        if a.last() is Full {
            assert(occ(a, a.len() - 1));
        }
        lemma_count_occ_le(a.drop_last(), b.drop_last());
    }
}

proof fn lemma_contains_drop_last(w: Seq<usize>, x: usize)
    requires
        w.len() > 0,
        w.contains(x),
    ensures
        w.take(w.len() - 1).contains(x) || x == w.last(),
{
    let k = choose|k: int| 0 <= k < w.len() && w[k] == x;
    if k < w.len() - 1 {
        assert(w.take(w.len() - 1)[k] == x);
    }
}

proof fn lemma_contains_push(w: Seq<usize>, y: usize, x: usize)
    requires
        w.contains(x) || x == y,
    ensures
        w.push(y).contains(x),
{
    if w.contains(x) {
        let k = choose|k: int| 0 <= k < w.len() && w[k] == x;
        assert(w.push(y)[k] == x);
    } else {
        assert(w.push(y)[w.len() as int] == x);
    }
}

proof fn lemma_count_occ_bounds(s: Seq<Slot>)
    ensures
        0 <= count_occ(s) <= s.len(),
    decreases s.len(),
{
    if s.len() > 0 {
        lemma_count_occ_bounds(s.drop_last());
    }
}

proof fn lemma_count_occ_update(s: Seq<Slot>, i: int, v: Slot)
    requires
        0 <= i < s.len(),
    ensures
        count_occ(s.update(i, v)) == count_occ(s) - (if s[i] is Full {
            1int
        } else {
            0int
        }) + (if v is Full {
            1int
        } else {
            0int
        }),
    decreases s.len(),
{
    if i == s.len() - 1 {
        assert(s.update(i, v).drop_last() =~= s.drop_last());
    } else {
        assert(s.update(i, v).drop_last() =~= s.drop_last().update(i, v));
        lemma_count_occ_update(s.drop_last(), i, v);
    }
}

proof fn lemma_first_free_at(s: Seq<Slot>, i: int)
    requires
        0 <= i <= s.len(),
        forall|k: int| 0 <= k < i ==> !(s[k] is Free),
        i < s.len() ==> s[i] is Free,
    ensures
        first_free(s) == i,
    decreases s.len(),
{
    if s.len() == 0 {
    } else if s[0] is Free {
        assert(i == 0);
    } else {
        assert(i >= 1);
        lemma_first_free_at(s.drop_first(), i - 1);
    }
}

proof fn lemma_reach_snoc(s: Seq<Slot>, a: int, i: int, t: int, fuel: nat)
    requires
        reach(s, a, i, fuel),
        points_to(s, i, t),
        occ(s, t),
    ensures
        reach(s, a, t, (fuel + 1) as nat),
    decreases fuel,
{
    if a == i {
        assert(reach(s, t, t, fuel));
    } else {
        let m = choose|m: int| points_to(s, a, m) && occ(s, m) && reach(s, m, i, (fuel - 1) as nat);
        lemma_reach_snoc(s, m, i, t, (fuel - 1) as nat);
        assert(points_to(s, a, m) && occ(s, m) && reach(s, m, t, fuel));
    }
}

/// One more edge extends reachability: if `i` is reachable from `a` and an
/// object field of `i` points at the live slot `t`, then `t` is reachable
/// from `a` too.
proof fn lemma_reach_occ(s: Seq<Slot>, a: int, b: int, fuel: nat)
    requires
        reach(s, a, b, fuel),
    ensures
        occ(s, a),
        occ(s, b),
    decreases fuel,
{
    if a != b {
        let m = choose|m: int|
            points_to(s, a, m) && occ(s, m) && reach(s, m, b, (fuel - 1) as nat);
        lemma_reach_occ(s, m, b, (fuel - 1) as nat);
    }
}

/// Reachability only relates live slots.
pub proof fn lemma_reachable_occ(s: Seq<Slot>, a: int, b: int)
    requires
        reachable(s, a, b),
    ensures
        occ(s, a),
        occ(s, b),
{
    let fuel = choose|fuel: nat| reach(s, a, b, fuel);
    lemma_reach_occ(s, a, b, fuel);
}

proof fn lemma_reach_congruent(s1: Seq<Slot>, s2: Seq<Slot>, a: int, b: int, fuel: nat)
    requires
        s1.len() == s2.len(),
        forall|j: int| occ(s1, j) == occ(s2, j),
        forall|j: int| occ(s1, j) ==> obj_at(s1, j).data == obj_at(s2, j).data,
        reach(s1, a, b, fuel),
    ensures
        reach(s2, a, b, fuel),
    decreases fuel,
{
    if a != b {
        let m = choose|m: int|
            points_to(s1, a, m) && occ(s1, m) && reach(s1, m, b, (fuel - 1) as nat);
        lemma_points_to_congruent(s1, s2, a, m);
        lemma_reach_congruent(s1, s2, m, b, (fuel - 1) as nat);
    }
}

/// Reachability depends only on occupancy and field data, never on the
/// colors: two arenas of the same shape agree on it.
pub proof fn lemma_reachable_congruent(s1: Seq<Slot>, s2: Seq<Slot>, a: int, b: int)
    requires
        s1.len() == s2.len(),
        forall|j: int| occ(s1, j) == occ(s2, j),
        forall|j: int| occ(s1, j) ==> obj_at(s1, j).data == obj_at(s2, j).data,
        reachable(s1, a, b),
    ensures
        reachable(s2, a, b),
{
    let fuel = choose|fuel: nat| reach(s1, a, b, fuel);
    lemma_reach_congruent(s1, s2, a, b, fuel);
}

/// The allocation slot is in range, and vacant when inside the arena.
pub proof fn lemma_first_free_in_range(s: Seq<Slot>)
    ensures
        0 <= first_free(s) <= s.len(),
        first_free(s) < s.len() ==> s[first_free(s)] is Free,
    decreases s.len(),
{
    if s.len() > 0 && !(s[0] is Free) {
        lemma_first_free_in_range(s.drop_first());
    }
}

pub proof fn lemma_reachable_step(s: Seq<Slot>, a: int, i: int, t: int)
    requires
        reachable(s, a, i),
        points_to(s, i, t),
        occ(s, t),
    ensures
        reachable(s, a, t),
{
    let fuel = choose|fuel: nat| reach(s, a, i, fuel);
    lemma_reach_snoc(s, a, i, t, fuel);
}

proof fn lemma_closed_covers_fuel(s: Seq<Slot>, root: int, i: int, fuel: nat)
    requires
        marked_closed(s),
        marked(s, root),
        reach(s, root, i, fuel),
    ensures
        marked(s, i),
    decreases fuel,
{
    if root != i {
        let m = choose|m: int|
            points_to(s, root, m) && occ(s, m) && reach(s, m, i, (fuel - 1) as nat);
        assert(marked(s, m));
        lemma_closed_covers_fuel(s, m, i, (fuel - 1) as nat);
    }
}

/// A correct mark pass loses nothing: once the marked set is closed under
/// reference fields, every slot reachable from a marked root is itself
/// marked — so the sweep that follows (which keeps exactly the marked
/// slots) never reclaims an object reachable from a marked root.
pub proof fn lemma_mark_pass_covers(s: Seq<Slot>, root: int, i: int)
    requires
        marked_closed(s),
        marked(s, root),
        reachable(s, root, i),
    ensures
        marked(s, i),
{
    let fuel = choose|fuel: nat| reach(s, root, i, fuel);
    lemma_closed_covers_fuel(s, root, i, fuel);
}

/// Half of the collector round-trip: a sweep keeps every marked object,
/// with its record intact and its color reset. Together with
/// `lemma_mark_pass_covers` this says that an object reachable from a
/// marked root is never reclaimed by the sweep that follows the mark
/// pass.
pub proof fn lemma_sweep_keeps_marked(s: Seq<Slot>, i: int)
    requires
        marked(s, i),
    ensures
        occ(swept(s), i),
        obj_at(swept(s), i).data == obj_at(s, i).data,
        obj_at(swept(s), i).color is Unmarked,
{
}

/// The other half of the round-trip: a sweep reclaims every live object
/// the mark pass left unmarked — and `Heap::mark` marks nothing beyond
/// what is reachable from its root, so an object unreachable from every
/// root is reclaimed by the next sweep after a correct mark pass.
pub proof fn lemma_sweep_reclaims_unmarked(s: Seq<Slot>, i: int)
    requires
        !marked(s, i),
    ensures
        !occ(swept(s), i),
{
}

/// The tracing collector: an arena of slots holding the live objects, a
/// live count, and the adaptive threshold that decides when an allocation
/// sweeps first.
#[derive(Debug, Clone, PartialEq)]
pub struct Heap {
    pub slots: Vec<Slot>,
    pub size: usize,
    pub threshold: usize,
}

impl Heap {
    /// The live count agrees with the arena.
    pub open spec fn wf(self) -> bool {
        self.size as int == count_occ(self.slots@)
    }

    pub open spec fn spec_is_full(&self) -> bool {
        self.size >= self.threshold
    }

    pub fn new() -> (r: Heap)
        ensures
            r.wf(),
            r.slots@.len() == 0,
            r.size == 0,
            r.threshold == HEAP_THRESHOLD,
    {
        Heap { slots: Vec::new(), size: 0, threshold: HEAP_THRESHOLD }
    }

    /// The next allocation will sweep first.
    #[verifier::when_used_as_spec(spec_is_full)]
    pub fn is_full(&self) -> (r: bool)
        ensures
            r == self.spec_is_full(),
    {
        self.size >= self.threshold
    }

    /// The object in the slot the handle names, while it is still live.
    pub fn get(&self, p: ObjectPtr) -> (r: Option<&HeapObject>)
        ensures
            match r {
                Some(o) => occ(self.slots@, p.index as int) && *o == obj_at(
                    self.slots@,
                    p.index as int,
                ),
                None => !occ(self.slots@, p.index as int),
            },
    {
        if p.index < self.slots.len() {
            match &self.slots[p.index] {
                Slot::Full(ho) => Some(ho),
                Slot::Free => None,
            }
        } else {
            None
        }
    }

    /// The handle still names a live object.
    pub fn contains(&self, p: ObjectPtr) -> (r: bool)
        ensures
            r == occ(self.slots@, p.index as int),
    {
        match self.get(p) {
            Some(_) => true,
            None => false,
        }
    }
}

impl Heap {
    /// Colors `Reachable` everything the object graph reaches from the
    /// handle `p`: the slot it names and, transitively, every live slot a
    /// marked object's fields point at. Recursion is guarded by the color,
    /// so a cyclic graph terminates; already-marked objects are not
    /// descended into. Only colors change; occupancy, data and the counts
    /// stay as they were.
    pub fn mark(&mut self, p: ObjectPtr)
        ensures
            final(self).size == old(self).size,
            final(self).threshold == old(self).threshold,
            final(self).slots@.len() == old(self).slots@.len(),
            forall|i: int| occ(final(self).slots@, i) == occ(old(self).slots@, i),
            forall|i: int|
                occ(old(self).slots@, i) ==> obj_at(final(self).slots@, i).data == obj_at(
                    old(self).slots@,
                    i,
                ).data,
            forall|i: int| marked(old(self).slots@, i) ==> marked(final(self).slots@, i),
            occ(old(self).slots@, p.index as int) ==> marked(final(self).slots@, p.index as int),
            forall|i: int|
                marked(final(self).slots@, i) ==> marked(old(self).slots@, i) || reachable(
                    old(self).slots@,
                    p.index as int,
                    i,
                ),
            forall|i: int, t: int|
                marked(final(self).slots@, i) && !marked(old(self).slots@, i) && #[trigger] points_to(
                    old(self).slots@,
                    i,
                    t,
                ) && occ(old(self).slots@, t) ==> marked(final(self).slots@, t),
            marked_closed(old(self).slots@) ==> marked_closed(final(self).slots@),
            old(self).wf() ==> final(self).wf(),
    {
        let ghost s0 = self.slots@;
        let ghost root = p.index as int;
        let ghost sz0 = self.size;
        let ghost th0 = self.threshold;
        let mut work: Vec<usize> = Vec::new();
        work.push(p.index);
        proof {
            assert(work@[0] == p.index);
            assert(work@.contains(p.index));
            assert forall|k: int|
                0 <= k < work@.len() && occ(s0, #[trigger] work@[k] as int) implies reachable(
                s0,
                root,
                work@[k] as int,
            ) by {
                assert(work@[k] == p.index);
                assert(reach(s0, root, root, 0nat));
            }
        }
        while work.len() > 0
            invariant
                root == p.index as int,
                self.size == sz0,
                self.threshold == th0,
                self.slots@.len() == s0.len(),
                forall|i: int| occ(self.slots@, i) == occ(s0, i),
                forall|i: int|
                    occ(s0, i) ==> obj_at(self.slots@, i).data == obj_at(s0, i).data,
                forall|i: int| marked(s0, i) ==> marked(self.slots@, i),
                forall|i: int|
                    marked(self.slots@, i) ==> marked(s0, i) || reachable(s0, root, i),
                occ(s0, root) ==> marked(self.slots@, root) || work@.contains(p.index),
                forall|k: int|
                    0 <= k < work@.len() && occ(s0, #[trigger] work@[k] as int) ==> reachable(
                        s0,
                        root,
                        work@[k] as int,
                    ),
                forall|i: int, t: int|
                    marked(self.slots@, i) && !marked(s0, i) && #[trigger] points_to(s0, i, t)
                        && occ(s0, t) ==> marked(self.slots@, t) || work@.contains(t as usize),
            decreases count_unmarked(self.slots@), work@.len(),
        {
            proof {
                lemma_count_unmarked_bounds(self.slots@);
            }
            let idx = work[work.len() - 1];
            let ghost w_before = work@;
            work.truncate(work.len() - 1);
            proof {
                assert(work@ == w_before.take(w_before.len() - 1));
                assert(w_before.last() == idx);
                assert forall|x: usize| w_before.contains(x) implies work@.contains(x) || x
                    == idx by {
                    lemma_contains_drop_last(w_before, x);
                }
            }
            if idx < self.slots.len() {
                let needs = match &self.slots[idx] {
                    Slot::Full(ho) => ho.color == Color::Unmarked,
                    Slot::Free => false,
                };
                proof {
                    if !needs && occ(s0, idx as int) {
                        assert(occ(self.slots@, idx as int));
                        assert(!(obj_at(self.slots@, idx as int).color is Unmarked));
                        assert(marked(self.slots@, idx as int));
                    }
                }
                if needs {
                    let ghost pre = self.slots@;
                    match &mut self.slots[idx] {
                        Slot::Full(ho) => {
                            ho.color = Color::Reachable;
                        },
                        Slot::Free => {},
                    }
                    proof {
                        assert(occ(s0, idx as int));
                        assert(reachable(s0, root, idx as int));
                        assert(marked(self.slots@, idx as int));
                        assert(self.slots@ =~= pre.update(
                            idx as int,
                            Slot::Full(
                                HeapObject {
                                    color: Color::Reachable,
                                    data: obj_at(pre, idx as int).data,
                                },
                            ),
                        ));
                        lemma_count_unmarked_update(
                            pre,
                            idx as int,
                            Slot::Full(
                                HeapObject {
                                    color: Color::Reachable,
                                    data: obj_at(pre, idx as int).data,
                                },
                            ),
                        );
                        assert(count_unmarked(self.slots@) == count_unmarked(pre) - 1);
                        lemma_count_unmarked_bounds(self.slots@);
                        if occ(s0, root) {
                            if root == idx as int {
                                assert(marked(self.slots@, root));
                            } else if marked(pre, root) {
                                assert(marked(self.slots@, root));
                            } else {
                                assert(w_before.contains(p.index));
                                lemma_contains_drop_last(w_before, p.index);
                                assert(p.index != idx);
                                assert(w_before.take(w_before.len() - 1).contains(p.index));
                                assert(work@ == w_before.take(w_before.len() - 1));
                                assert(work@.contains(p.index));
                            }
                        }
                    }
                    let ghost after_mark = self.slots@;
                    let nfields = match &self.slots[idx] {
                        Slot::Full(ho) => ho.data.fields.len(),
                        Slot::Free => 0,
                    };
                    let mut j: usize = 0;
                    while j < nfields
                        invariant
                            root == p.index as int,
                            self.size == sz0,
                            self.threshold == th0,
                            self.slots@.len() == s0.len(),
                            idx < s0.len(),
                            occ(s0, idx as int),
                            reachable(s0, root, idx as int),
                            marked(self.slots@, idx as int),
                            nfields == obj_at(s0, idx as int).data.fields@.len(),
                            j <= nfields,
                            self.slots@ == after_mark,
                            forall|i: int| occ(self.slots@, i) == occ(s0, i),
                            forall|i: int|
                                occ(s0, i) ==> obj_at(self.slots@, i).data == obj_at(s0, i).data,
                            forall|i: int| marked(s0, i) ==> marked(self.slots@, i),
                            forall|i: int|
                                marked(self.slots@, i) ==> marked(s0, i) || reachable(
                                    s0,
                                    root,
                                    i,
                                ),
                            occ(s0, root) ==> marked(self.slots@, root) || work@.contains(p.index),
                            forall|k: int|
                                0 <= k < work@.len() && occ(s0, #[trigger] work@[k] as int)
                                    ==> reachable(s0, root, work@[k] as int),
                            forall|i: int, t: int|
                                marked(self.slots@, i) && !marked(s0, i) && i != idx
                                    && #[trigger] points_to(s0, i, t) && occ(s0, t) ==> marked(
                                    self.slots@,
                                    t,
                                ) || work@.contains(t as usize),
                            forall|j2: int|
                                0 <= j2 < j && value_ref(
                                    #[trigger] obj_at(s0, idx as int).data.fields@[j2],
                                ) is Some ==> {
                                    let t = value_ref(
                                        obj_at(s0, idx as int).data.fields@[j2],
                                    )->0;
                                    !occ(s0, t) || marked(self.slots@, t) || work@.contains(
                                        t as usize,
                                    )
                                },
                        decreases nfields - j,
                    {
                        let fv = match &self.slots[idx] {
                            Slot::Full(ho) => ho.data.fields[j],
                            Slot::Free => Value::Word(0),
                        };
                        match fv {
                            Value::ObjectPtr(p2) => {
                                let ghost w_old = work@;
                                work.push(p2.index);
                                proof {
                                    assert forall|x: usize| w_old.contains(x) implies work@.contains(
                                        x,
                                    ) by {
                                        lemma_contains_push(w_old, p2.index, x);
                                    }
                                    lemma_contains_push(w_old, p2.index, p2.index);
                                    assert(value_ref(
                                        obj_at(s0, idx as int).data.fields@[j as int],
                                    ) == Some(p2.index as int));
                                    if occ(s0, p2.index as int) {
                                        assert(points_to(s0, idx as int, p2.index as int));
                                        lemma_reachable_step(
                                            s0,
                                            root,
                                            idx as int,
                                            p2.index as int,
                                        );
                                    }
                                }
                            },
                            _ => {},
                        }
                        j = j + 1;
                    }
                    proof {
                        assert forall|t: int|
                            #[trigger] points_to(s0, idx as int, t) && occ(s0, t) implies marked(
                            self.slots@,
                            t,
                        ) || work@.contains(t as usize) by {
                            let j2 = choose|j2: int|
                                0 <= j2 < obj_at(s0, idx as int).data.fields@.len() && value_ref(
                                    #[trigger] obj_at(s0, idx as int).data.fields@[j2],
                                ) == Some(t);
                            assert(value_ref(obj_at(s0, idx as int).data.fields@[j2]) is Some);
                        }
                    }
                }
            } else {
                proof {
                    assert(!occ(s0, idx as int));
                }
            }
            proof {
                if occ(s0, root) && !marked(self.slots@, root) && !work@.contains(p.index) {
                    assert(w_before.contains(p.index));
                    lemma_contains_drop_last(w_before, p.index);
                    assert(p.index == idx);
                    assert(false);
                }
            }
        }
        proof {
            lemma_count_occ_le(self.slots@, s0);
            lemma_count_occ_le(s0, self.slots@);
            if marked_closed(s0) {
                assert forall|i: int, t: int|
                    marked(self.slots@, i) && #[trigger] points_to(self.slots@, i, t) && occ(
                        self.slots@,
                        t,
                    ) implies marked(self.slots@, t) by {
                    assert forall|j: int| occ(self.slots@, j) implies obj_at(
                        self.slots@,
                        j,
                    ).data == obj_at(s0, j).data by {
                        assert(occ(s0, j));
                    }
                    lemma_points_to_congruent(self.slots@, s0, i, t);
                    if marked(s0, i) {
                        assert(marked(s0, t));
                    }
                }
            }
        }
    }

    /// Whether slot `i` is vacant.
    fn is_free(&self, i: usize) -> (r: bool)
        requires
            i < self.slots@.len(),
        ensures
            r == (self.slots@[i as int] is Free),
    {
        match &self.slots[i] {
            Slot::Free => true,
            Slot::Full(_) => false,
        }
    }

    /// Links a fresh, unmarked object into the arena and hands back its
    /// handle. When the live count has reached the threshold a sweep runs
    /// first, so every heap reference the caller still needs must already
    /// have been colored `Reachable` by a mark pass: allocation-triggered
    /// collection does not mark on its own. Objects colored `Reachable`
    /// are never reclaimed by this call.
    #[verifier::loop_isolation(false)]
    pub fn new_object(&mut self, data: Object) -> (r: ObjectPtr)
        requires
            old(self).wf(),
            old(self).size < usize::MAX,
        ensures
            final(self).wf(),
            ({
                let base = if old(self).is_full() {
                    swept(old(self).slots@)
                } else {
                    old(self).slots@
                };
                &&& r.index as int == first_free(base)
                &&& final(self).slots@ == alloc_at(base, data)
                &&& occ(final(self).slots@, r.index as int)
                &&& obj_at(final(self).slots@, r.index as int).color is Unmarked
                &&& obj_at(final(self).slots@, r.index as int).data == data
                &&& forall|k: int|
                    k != r.index as int ==> occ(final(self).slots@, k) == occ(base, k)
                &&& forall|k: int|
                    k != r.index as int && occ(base, k) ==> obj_at(final(self).slots@, k)
                        == obj_at(base, k)
                &&& final(self).size as int == count_occ(base) + 1
                &&& final(self).threshold as int == (if old(self).is_full() {
                    threshold_for(count_occ(swept(old(self).slots@)))
                } else {
                    old(self).threshold as int
                })
            }),
            forall|k: int|
                marked(old(self).slots@, k) ==> occ(final(self).slots@, k) && obj_at(
                    final(self).slots@,
                    k,
                ).data == obj_at(old(self).slots@, k).data,
    {
        if self.is_full() {
            self.sweep();
            proof {
                lemma_count_occ_bounds(self.slots@);
                lemma_count_occ_le(swept(old(self).slots@), old(self).slots@);
            }
        }
        let ghost base = self.slots@;
        let n = self.slots.len();
        let mut i: usize = 0;
        while i < n && !self.is_free(i)
            invariant
                i <= n,
                forall|k: int| 0 <= k < i ==> !(self.slots@[k] is Free),
            decreases n - i,
        {
            i = i + 1;
        }
        proof {
            lemma_first_free_at(base, i as int);
        }
        let ho = HeapObject { color: Color::Unmarked, data };
        if i < n {
            self.slots.set(i, Slot::Full(ho));
            proof {
                lemma_count_occ_update(base, i as int, Slot::Full(ho));
            }
        } else {
            self.slots.push(Slot::Full(ho));
            proof {
                assert(self.slots@.drop_last() =~= base);
            }
        }
        self.size = self.size + 1;
        proof {
            assert(self.slots@ == alloc_at(base, data));
            if old(self).is_full() {
                assert forall|k: int| marked(old(self).slots@, k) implies occ(self.slots@, k)
                    && obj_at(self.slots@, k).data == obj_at(old(self).slots@, k).data by {
                    assert(occ(base, k));
                    assert(k != i as int);
                }
            } else {
                assert forall|k: int| marked(old(self).slots@, k) implies occ(self.slots@, k)
                    && obj_at(self.slots@, k).data == obj_at(old(self).slots@, k).data by {
                    assert(occ(base, k));
                    assert(k != i as int);
                }
            }
        }
        ObjectPtr::new(i)
    }

    /// Overwrites one field of the object a handle names: how object
    /// graphs, cycles included, are built after allocation. Returns
    /// whether the handle was live and the field index in range; nothing
    /// changes otherwise.
    pub fn set_field(&mut self, p: ObjectPtr, j: usize, v: Value) -> (r: bool)
        ensures
            r == (occ(old(self).slots@, p.index as int) && j < obj_at(
                old(self).slots@,
                p.index as int,
            ).data.fields@.len()),
            final(self).size == old(self).size,
            final(self).threshold == old(self).threshold,
            final(self).slots@.len() == old(self).slots@.len(),
            forall|i: int| occ(final(self).slots@, i) == occ(old(self).slots@, i),
            !r ==> final(self).slots@ == old(self).slots@,
            r ==> ({
                let q = p.index as int;
                &&& forall|i: int|
                    0 <= i < old(self).slots@.len() && i != q ==> final(self).slots@[i] == old(
                        self,
                    ).slots@[i]
                &&& obj_at(final(self).slots@, q).color == obj_at(old(self).slots@, q).color
                &&& obj_at(final(self).slots@, q).data.tag == obj_at(
                    old(self).slots@,
                    q,
                ).data.tag
                &&& obj_at(final(self).slots@, q).data.fields@ == obj_at(
                    old(self).slots@,
                    q,
                ).data.fields@.update(j as int, v)
            }),
            old(self).wf() ==> final(self).wf(),
    {
        if p.index >= self.slots.len() {
            return false;
        }
        let ghost s0 = self.slots@;
        let r = match &mut self.slots[p.index] {
            Slot::Full(ho) => {
                if j < ho.data.fields.len() {
                    ho.data.fields.set(j, v);
                    true
                } else {
                    false
                }
            },
            Slot::Free => false,
        };
        proof {
            if r {
                assert(obj_at(self.slots@, p.index as int).data.fields@ =~= obj_at(
                    s0,
                    p.index as int,
                ).data.fields@.update(j as int, v));
            }
            lemma_count_occ_le(self.slots@, s0);
            lemma_count_occ_le(s0, self.slots@);
        }
        r
    }

    /// Marks from every heap reference among the given values: part of a
    /// root-marking pass. Only colors change, monotonically; a marked-set
    /// closed under reference fields stays closed.
    #[verifier::loop_isolation(false)]
    pub fn mark_values(&mut self, vals: &Vec<Value>)
        ensures
            final(self).size == old(self).size,
            final(self).threshold == old(self).threshold,
            final(self).slots@.len() == old(self).slots@.len(),
            forall|i: int| occ(final(self).slots@, i) == occ(old(self).slots@, i),
            forall|i: int|
                occ(old(self).slots@, i) ==> obj_at(final(self).slots@, i).data == obj_at(
                    old(self).slots@,
                    i,
                ).data,
            forall|i: int| marked(old(self).slots@, i) ==> marked(final(self).slots@, i),
            forall|k: int, t: int|
                #![trigger value_ref(vals@[k]), occ(old(self).slots@, t)]
                0 <= k < vals@.len() && value_ref(vals@[k]) == Some(t) && occ(
                    old(self).slots@,
                    t,
                ) ==> marked(final(self).slots@, t),
            marked_closed(old(self).slots@) ==> marked_closed(final(self).slots@),
            old(self).wf() ==> final(self).wf(),
    {
        let nv = vals.len();
        let mut k: usize = 0;
        while k < nv
            invariant
                k <= nv,
                self.size == old(self).size,
                self.threshold == old(self).threshold,
                self.slots@.len() == old(self).slots@.len(),
                forall|i: int| occ(self.slots@, i) == occ(old(self).slots@, i),
                forall|i: int|
                    occ(old(self).slots@, i) ==> obj_at(self.slots@, i).data == obj_at(
                        old(self).slots@,
                        i,
                    ).data,
                forall|i: int| marked(old(self).slots@, i) ==> marked(self.slots@, i),
                forall|k2: int, t: int|
                    #![trigger value_ref(vals@[k2]), occ(old(self).slots@, t)]
                    0 <= k2 < k && value_ref(vals@[k2]) == Some(t) && occ(old(self).slots@, t)
                        ==> marked(self.slots@, t),
                marked_closed(old(self).slots@) ==> marked_closed(self.slots@),
            decreases nv - k,
        {
            match vals[k] {
                Value::ObjectPtr(p) => {
                    self.mark(p);
                },
                _ => {},
            }
            k = k + 1;
        }
        proof {
            lemma_count_occ_le(self.slots@, old(self).slots@);
            lemma_count_occ_le(old(self).slots@, self.slots@);
        }
    }

    /// Walks the arena: every object colored `Reachable` is kept and reset
    /// to `Unmarked`, every other object is reclaimed; then the threshold
    /// becomes twice the surviving live count (held above a small floor).
    pub fn sweep(&mut self)
        ensures
            final(self).slots@ == swept(old(self).slots@),
            final(self).wf(),
            final(self).size as int == count_occ(swept(old(self).slots@)),
            final(self).threshold as int == threshold_for(final(self).size as int),
    {
        let ghost s0 = self.slots@;
        let mut i: usize = 0;
        let mut live: usize = 0;
        while i < self.slots.len()
            invariant
                self.slots@.len() == s0.len(),
                i <= s0.len(),
                live <= i,
                forall|k: int| 0 <= k < i ==> self.slots@[k] == swept(s0)[k],
                forall|k: int| i <= k < s0.len() ==> self.slots@[k] == s0[k],
                live as int == count_occ(swept(s0).take(i as int)),
            decreases s0.len() - i,
        {
            let keep = match &self.slots[i] {
                Slot::Full(ho) => ho.color == Color::Reachable,
                Slot::Free => false,
            };
            if keep {
                let slot = &mut self.slots[i];
                match slot {
                    Slot::Full(ho) => {
                        ho.color = Color::Unmarked;
                    },
                    Slot::Free => {},
                }
                live = live + 1;
            } else {
                self.slots.set(i, Slot::Free);
            }
            proof {
                assert(self.slots@[i as int] == swept(s0)[i as int]);
                assert(swept(s0).take(i + 1).drop_last() =~= swept(s0).take(i as int));
                assert(swept(s0).take(i + 1).last() == swept(s0)[i as int]);
                assert(count_occ(swept(s0).take(i + 1)) == count_occ(swept(s0).take(i as int))
                    + if swept(s0)[i as int] is Full {
                        1int
                    } else {
                        0int
                    });
            }
            i = i + 1;
        }
        proof {
            assert(swept(s0).take(s0.len() as int) =~= swept(s0));
            assert(self.slots@ =~= swept(s0));
        }
        self.size = live;
        self.threshold = if live > usize::MAX / 2 {
            usize::MAX
        } else if live * 2 < THRESHOLD_FLOOR {
            THRESHOLD_FLOOR
        } else {
            live * 2
        };
    }
}

impl Default for Heap {
    fn default() -> (r: Heap)
        ensures
            r.wf(),
            r.slots@.len() == 0,
            r.size == 0,
            r.threshold == HEAP_THRESHOLD,
    {
        Heap::new()
    }
}

} // verus!
