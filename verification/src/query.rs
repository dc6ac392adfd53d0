//! Queries over several storages: which entity indices hold some components,
//! lack others, or had some changed, walked block by block through the masks
//! and reported as runs of consecutive indices.
use vstd::prelude::*;
use crate::index::{CAPACITY, in_range, inner_of, ix, join, lemma_ix_leaf, lemma_ix_leaf_order, lemma_ix_split, lemma_split_ix, middle_of, outer_of};
use crate::mask::{covers, has_bit, in_run, lemma_bit_and, lemma_bit_full, lemma_bit_not, lemma_bit_zero, lemma_clear_bit_decreases, lemma_covers_append, lowest_bit, push_runs, runs_ordered, runs_within};

verus! {

/// What a query reads of a storage: its masks, level by level.
pub trait Presence {
    /// The storage is well-formed.
    spec fn valid(&self) -> bool;

    /// The slot at address `o`, `m`, `i` holds a component.
    spec fn holds(&self, o: int, m: int, i: int) -> bool;

    /// The component at address `o`, `m`, `i` was written since the last clean-up.
    spec fn marked(&self, o: int, m: int, i: int) -> bool;

    /// Middle blocks that hold something.
    fn outer_presence(&self) -> (r: u128)
        requires
            self.valid(),
        ensures
            forall|o: int, m: int, i: int| in_range(o, m, i) && #[trigger] self.holds(o, m, i) ==> has_bit(r, o),
            forall|o: int| 0 <= o < 128 ==> (#[trigger] has_bit(r, o) <==> exists|m: int, i: int| in_range(o, m, i) && #[trigger] self.holds(o, m, i)),
    ;

    /// Leaves of middle block `o` that hold something.
    fn middle_presence(&self, o: u32) -> (r: u128)
        requires
            self.valid(),
            o < 128,
        ensures
            forall|m: int, i: int| in_range(o as int, m, i) && #[trigger] self.holds(o as int, m, i) ==> has_bit(r, m),
            forall|m: int| 0 <= m < 128 ==> (#[trigger] has_bit(r, m) <==> exists|i: int| 0 <= i < 128 && #[trigger] self.holds(o as int, m, i)),
    ;

    /// Leaves of middle block `o` that hold every slot.
    fn middle_full(&self, o: u32) -> (r: u128)
        requires
            self.valid(),
            o < 128,
        ensures
            forall|m: int, i: int| in_range(o as int, m, i) && has_bit(r, m) ==> #[trigger] self.holds(o as int, m, i),
            forall|m: int| 0 <= m < 128 ==> (#[trigger] has_bit(r, m) <==> forall|i: int| 0 <= i < 128 ==> #[trigger] self.holds(o as int, m, i)),
    ;

    /// Occupied slots of leaf `m` of middle block `o`.
    fn inner_presence(&self, o: u32, m: u32) -> (r: u128)
        requires
            self.valid(),
            o < 128,
            m < 128,
        ensures
            forall|i: int| 0 <= i < 128 ==> (#[trigger] has_bit(r, i) <==> self.holds(o as int, m as int, i)),
    ;

    /// Middle blocks with a change.
    fn outer_change(&self) -> (r: u128)
        requires
            self.valid(),
        ensures
            forall|o: int, m: int, i: int| in_range(o, m, i) && #[trigger] self.marked(o, m, i) ==> has_bit(r, o),
            forall|o: int| 0 <= o < 128 ==> (#[trigger] has_bit(r, o) <==> exists|m: int, i: int| in_range(o, m, i) && #[trigger] self.marked(o, m, i)),
    ;

    /// Leaves of middle block `o` with a change.
    fn middle_change(&self, o: u32) -> (r: u128)
        requires
            self.valid(),
            o < 128,
        ensures
            forall|m: int, i: int| in_range(o as int, m, i) && #[trigger] self.marked(o as int, m, i) ==> has_bit(r, m),
            forall|m: int| 0 <= m < 128 ==> (#[trigger] has_bit(r, m) <==> exists|i: int| 0 <= i < 128 && #[trigger] self.marked(o as int, m, i)),
    ;

    /// Changed slots of leaf `m` of middle block `o`.
    fn inner_change(&self, o: u32, m: u32) -> (r: u128)
        requires
            self.valid(),
            o < 128,
            m < 128,
        ensures
            forall|i: int| 0 <= i < 128 ==> (#[trigger] has_bit(r, i) <==> self.marked(o as int, m as int, i)),
    ;
}

/// Every storage of the list is well-formed.
pub open spec fn all_valid<S: Presence>(list: Seq<S>) -> bool {
    forall|k: int| 0 <= k < list.len() ==> #[trigger] list[k].valid()
}

/// Every storage of the list holds the slot.
pub open spec fn all_hold<S: Presence>(list: Seq<S>, o: int, m: int, i: int) -> bool {
    forall|k: int| 0 <= k < list.len() ==> #[trigger] list[k].holds(o, m, i)
}

/// No storage of the list holds the slot.
pub open spec fn none_hold<S: Presence>(list: Seq<S>, o: int, m: int, i: int) -> bool {
    forall|k: int| 0 <= k < list.len() ==> !#[trigger] list[k].holds(o, m, i)
}

/// Every storage of the list marks the slot changed.
pub open spec fn all_marked<S: Presence>(list: Seq<S>, o: int, m: int, i: int) -> bool {
    forall|k: int| 0 <= k < list.len() ==> #[trigger] list[k].marked(o, m, i)
}

/// Every storage of the list holds the slot, or, for `changed`, marks it changed.
pub open spec fn passes<S: Presence>(list: Seq<S>, changed: bool, o: int, m: int, i: int) -> bool {
    if changed {
        all_marked(list, o, m, i)
    } else {
        all_hold(list, o, m, i)
    }
}

/// Some slot of middle block `o` of `s` holds a component (`changed`: is
/// marked changed).
pub open spec fn block_passes<S: Presence>(s: S, changed: bool, o: int) -> bool {
    if changed {
        exists|m: int, i: int| in_range(o, m, i) && #[trigger] s.marked(o, m, i)
    } else {
        exists|m: int, i: int| in_range(o, m, i) && #[trigger] s.holds(o, m, i)
    }
}

/// Some slot of leaf `m` of middle block `o` of `s` holds a component
/// (`changed`: is marked changed).
pub open spec fn leaf_passes<S: Presence>(s: S, changed: bool, o: int, m: int) -> bool {
    if changed {
        exists|i: int| 0 <= i < 128 && #[trigger] s.marked(o, m, i)
    } else {
        exists|i: int| 0 <= i < 128 && #[trigger] s.holds(o, m, i)
    }
}

/// Every slot of leaf `m` of middle block `o` of `s` holds a component.
pub open spec fn leaf_full<S: Presence>(s: S, o: int, m: int) -> bool {
    forall|i: int| 0 <= i < 128 ==> #[trigger] s.holds(o, m, i)
}

/// Narrows `acc` to the middle blocks where every storage of `list` may hold
/// something (`changed`: may have a change).
fn and_outer<S: Presence>(list: &Vec<S>, changed: bool, acc: u128) -> (r: u128)
    requires
        all_valid(list@),
    ensures
        forall|o: int, m: int, i: int|
            #![trigger has_bit(r, o), passes(list@, changed, o, m, i)]
            in_range(o, m, i) && has_bit(acc, o) && passes(list@, changed, o, m, i) ==> has_bit(r, o),
        forall|o: int| 0 <= o < 128 ==> (#[trigger] has_bit(r, o) <==> (has_bit(acc, o)
            && forall|k: int| 0 <= k < list@.len() ==> block_passes(#[trigger] list@[k], changed, o))),
{
    let mut r = acc;
    let mut k: usize = 0;
    while k < list.len()
        invariant
            k <= list.len(),
            all_valid(list@),
            forall|o: int, m: int, i: int|
                #![trigger has_bit(r, o), passes(list@, changed, o, m, i)]
            in_range(o, m, i) && has_bit(acc, o) && passes(list@, changed, o, m, i) ==> has_bit(r, o),
            forall|o: int| 0 <= o < 128 ==> (#[trigger] has_bit(r, o) <==> (has_bit(acc, o)
                && forall|j: int| 0 <= j < k ==> block_passes(#[trigger] list@[j], changed, o))),
        decreases list.len() - k,
    {
        let s = &list[k];
        assert(s.valid());
        let x = if changed { s.outer_change() } else { s.outer_presence() };
        let ghost r0 = r;
        r = r & x;
        proof {
            assert forall|o: int, m: int, i: int|
                #![trigger has_bit(r, o), passes(list@, changed, o, m, i)]
                in_range(o, m, i) && has_bit(acc, o) && passes(list@, changed, o, m, i) implies has_bit(r, o) by {
                lemma_bit_and(r0, x, o);
                assert(has_bit(r0, o));
                if changed {
                    assert(list@[k as int].marked(o, m, i));
                } else {
                    assert(list@[k as int].holds(o, m, i));
                }
            }
            assert forall|o: int| 0 <= o < 128 implies (#[trigger] has_bit(r, o) <==> (has_bit(acc, o)
                && forall|j: int| 0 <= j < k + 1 ==> block_passes(#[trigger] list@[j], changed, o))) by {
                lemma_bit_and(r0, x, o);
                assert(has_bit(x, o) == block_passes(list@[k as int], changed, o));
                assert(has_bit(r0, o) == (has_bit(acc, o) && forall|j: int| 0 <= j < k ==> block_passes(#[trigger] list@[j], changed, o)));
            }
        }
        k = k + 1;
    }
    r
}

/// Narrows `acc` to the leaves of block `o` where every storage of `list`
/// may hold something (`changed`: may have a change).
fn and_middle<S: Presence>(list: &Vec<S>, o: u32, changed: bool, acc: u128) -> (r: u128)
    requires
        all_valid(list@),
        o < 128,
    ensures
        forall|m: int, i: int|
            #![trigger has_bit(r, m), passes(list@, changed, o as int, m, i)]
            in_range(o as int, m, i) && has_bit(acc, m) && passes(list@, changed, o as int, m, i) ==> has_bit(r, m),
        forall|m: int| 0 <= m < 128 ==> (#[trigger] has_bit(r, m) <==> (has_bit(acc, m)
            && forall|k: int| 0 <= k < list@.len() ==> leaf_passes(#[trigger] list@[k], changed, o as int, m))),
{
    let mut r = acc;
    let mut k: usize = 0;
    while k < list.len()
        invariant
            k <= list.len(),
            o < 128,
            all_valid(list@),
            forall|m: int, i: int|
                #![trigger has_bit(r, m), passes(list@, changed, o as int, m, i)]
            in_range(o as int, m, i) && has_bit(acc, m) && passes(list@, changed, o as int, m, i) ==> has_bit(r, m),
            forall|m: int| 0 <= m < 128 ==> (#[trigger] has_bit(r, m) <==> (has_bit(acc, m)
                && forall|j: int| 0 <= j < k ==> leaf_passes(#[trigger] list@[j], changed, o as int, m))),
        decreases list.len() - k,
    {
        let s = &list[k];
        assert(s.valid());
        let x = if changed { s.middle_change(o) } else { s.middle_presence(o) };
        let ghost r0 = r;
        r = r & x;
        proof {
            assert forall|m: int, i: int|
                #![trigger has_bit(r, m), passes(list@, changed, o as int, m, i)]
                in_range(o as int, m, i) && has_bit(acc, m) && passes(list@, changed, o as int, m, i) implies has_bit(r, m) by {
                lemma_bit_and(r0, x, m);
                assert(has_bit(r0, m));
                if changed {
                    assert(list@[k as int].marked(o as int, m, i));
                } else {
                    assert(list@[k as int].holds(o as int, m, i));
                }
            }
            assert forall|m: int| 0 <= m < 128 implies (#[trigger] has_bit(r, m) <==> (has_bit(acc, m)
                && forall|j: int| 0 <= j < k + 1 ==> leaf_passes(#[trigger] list@[j], changed, o as int, m))) by {
                lemma_bit_and(r0, x, m);
                assert(has_bit(x, m) == leaf_passes(list@[k as int], changed, o as int, m));
                assert(has_bit(r0, m) == (has_bit(acc, m) && forall|j: int| 0 <= j < k ==> leaf_passes(#[trigger] list@[j], changed, o as int, m)));
            }
        }
        k = k + 1;
    }
    r
}

/// Removes from `acc` the leaves of block `o` that some storage of `list`
/// fills completely.
fn and_middle_absent<S: Presence>(list: &Vec<S>, o: u32, acc: u128) -> (r: u128)
    requires
        all_valid(list@),
        o < 128,
    ensures
        forall|m: int, i: int|
            #![trigger has_bit(r, m), none_hold(list@, o as int, m, i)]
            in_range(o as int, m, i) && has_bit(acc, m) && none_hold(list@, o as int, m, i) ==> has_bit(r, m),
        forall|m: int| 0 <= m < 128 ==> (#[trigger] has_bit(r, m) <==> (has_bit(acc, m)
            && forall|k: int| 0 <= k < list@.len() ==> !leaf_full(#[trigger] list@[k], o as int, m))),
{
    let mut r = acc;
    let mut k: usize = 0;
    while k < list.len()
        invariant
            k <= list.len(),
            o < 128,
            all_valid(list@),
            forall|m: int, i: int|
                #![trigger has_bit(r, m), none_hold(list@, o as int, m, i)]
            in_range(o as int, m, i) && has_bit(acc, m) && none_hold(list@, o as int, m, i) ==> has_bit(r, m),
            forall|m: int| 0 <= m < 128 ==> (#[trigger] has_bit(r, m) <==> (has_bit(acc, m)
                && forall|j: int| 0 <= j < k ==> !leaf_full(#[trigger] list@[j], o as int, m))),
        decreases list.len() - k,
    {
        let s = &list[k];
        assert(s.valid());
        let x = s.middle_full(o);
        let ghost r0 = r;
        r = r & !x;
        proof {
            assert forall|m: int, i: int|
                #![trigger has_bit(r, m), none_hold(list@, o as int, m, i)]
                in_range(o as int, m, i) && has_bit(acc, m) && none_hold(list@, o as int, m, i) implies has_bit(r, m) by {
                lemma_bit_and(r0, !x, m);
                lemma_bit_not(x, m);
                assert(has_bit(r0, m));
                assert(!list@[k as int].holds(o as int, m, i));
            }
            assert forall|m: int| 0 <= m < 128 implies (#[trigger] has_bit(r, m) <==> (has_bit(acc, m)
                && forall|j: int| 0 <= j < k + 1 ==> !leaf_full(#[trigger] list@[j], o as int, m))) by {
                lemma_bit_and(r0, !x, m);
                lemma_bit_not(x, m);
                assert(has_bit(x, m) == leaf_full(list@[k as int], o as int, m));
                assert(has_bit(r0, m) == (has_bit(acc, m) && forall|j: int| 0 <= j < k ==> !leaf_full(#[trigger] list@[j], o as int, m)));
            }
        }
        k = k + 1;
    }
    r
}

/// Narrows `acc` to the slots of leaf `m` of block `o` that every storage of
/// `list` holds (`absent`: holds none of; `changed`: marks changed).
fn and_inner<S: Presence>(list: &Vec<S>, o: u32, m: u32, absent: bool, changed: bool, acc: u128) -> (r: u128)
    requires
        all_valid(list@),
        o < 128,
        m < 128,
    ensures
        forall|i: int|
            0 <= i < 128 ==> (#[trigger] has_bit(r, i) <==> (has_bit(acc, i) && (if absent {
                none_hold(list@, o as int, m as int, i)
            } else if changed {
                all_marked(list@, o as int, m as int, i)
            } else {
                all_hold(list@, o as int, m as int, i)
            }))),
{
    let mut r = acc;
    let mut k: usize = 0;
    while k < list.len()
        invariant
            k <= list.len(),
            o < 128,
            m < 128,
            all_valid(list@),
            forall|i: int|
                0 <= i < 128 ==> (#[trigger] has_bit(r, i) <==> (has_bit(acc, i) && forall|q: int| 0 <= q < k ==> (if absent {
                    !list@[q].holds(o as int, m as int, i)
                } else if changed {
                    list@[q].marked(o as int, m as int, i)
                } else {
                    list@[q].holds(o as int, m as int, i)
                }))),
        decreases list.len() - k,
    {
        let s = &list[k];
        assert(s.valid());
        let p = if !absent && changed { s.inner_change(o, m) } else { s.inner_presence(o, m) };
        let x = if absent { !p } else { p };
        let ghost r0 = r;
        r = r & x;
        proof {
            assert forall|i: int| 0 <= i < 128 implies (#[trigger] has_bit(r, i) <==> (has_bit(acc, i) && forall|q: int| 0 <= q < k + 1 ==> (if absent {
                    !list@[q].holds(o as int, m as int, i)
                } else if changed {
                    list@[q].marked(o as int, m as int, i)
                } else {
                    list@[q].holds(o as int, m as int, i)
                }))) by {
                lemma_bit_and(r0, x, i);
                lemma_bit_not(p, i);
            }
        }
        k = k + 1;
    }
    r
}

/// Every run lies within a single leaf block.
pub open spec fn runs_in_leaves(runs: Seq<(u32, u32)>) -> bool {
    forall|k: int| 0 <= k < runs.len() ==> #[trigger] runs[k].0 % 128 + runs[k].1 <= 128
}

/// No run ends where the next one begins inside the same leaf block: two
/// runs touch only across a leaf boundary.
pub open spec fn runs_apart_in_leaves(runs: Seq<(u32, u32)>) -> bool {
    forall|k: int, l: int|
        0 <= k < l < runs.len() ==> #[trigger] runs[k].0 + runs[k].1 < #[trigger] runs[l].0 || runs[l].0 % 128 == 0
}

/// In ordered runs that touch only across leaf boundaries, every run is
/// maximal within its leaf block: the index just before it and the index
/// just after it in the same leaf are covered by no run.
pub proof fn lemma_runs_maximal(runs: Seq<(u32, u32)>)
    requires
        runs_within(runs, 0, CAPACITY as int),
        runs_ordered(runs),
        runs_in_leaves(runs),
        runs_apart_in_leaves(runs),
    ensures
        forall|k: int| 0 <= k < runs.len() && #[trigger] runs[k].0 % 128 != 0 ==> !covers(runs, runs[k].0 - 1),
        forall|k: int| 0 <= k < runs.len() && (#[trigger] runs[k].0 + runs[k].1) % 128 != 0 ==> !covers(runs, runs[k].0 + runs[k].1),
{
    assert forall|k: int| 0 <= k < runs.len() && #[trigger] runs[k].0 % 128 != 0 implies !covers(runs, runs[k].0 - 1) by {
        if covers(runs, runs[k].0 - 1) {
            let l = choose|l: int| 0 <= l < runs.len() && #[trigger] in_run(runs[l], runs[k].0 - 1);
            if l < k {
                assert(runs[l].0 + runs[l].1 <= runs[k].0);
            } else if l > k {
                assert(runs[k].0 + runs[k].1 <= runs[l].0);
                assert(runs[k].1 > 0);
            }
        }
    }
    assert forall|k: int| 0 <= k < runs.len() && (#[trigger] runs[k].0 + runs[k].1) % 128 != 0 implies !covers(runs, runs[k].0 + runs[k].1) by {
        let e = runs[k].0 + runs[k].1;
        if covers(runs, e) {
            let l = choose|l: int| 0 <= l < runs.len() && #[trigger] in_run(runs[l], e);
            if l < k {
                assert(runs[l].0 + runs[l].1 <= runs[k].0);
                assert(runs[k].1 > 0);
            } else if l > k {
                assert(runs[k].0 + runs[k].1 <= runs[l].0);
                assert(runs[l].0 == e);
            }
        }
    }
}

/// Runs in order, each within a leaf and touching the next only across a
/// leaf boundary.
pub open spec fn runs_canonical(runs: Seq<(u32, u32)>) -> bool {
    &&& runs_within(runs, 0, CAPACITY as int)
    &&& runs_ordered(runs)
    &&& runs_in_leaves(runs)
    &&& runs_apart_in_leaves(runs)
}

/// Dropping the first run keeps the others' shape and covers what the first
/// did not.
proof fn lemma_runs_tail(a: Seq<(u32, u32)>)
    requires
        runs_canonical(a),
        a.len() > 0,
    ensures
        runs_canonical(a.drop_first()),
        forall|idx: int| #[trigger] covers(a.drop_first(), idx) == (covers(a, idx) && !in_run(a[0], idx)),
{
    let t = a.drop_first();
    assert forall|k: int| 0 <= k < t.len() implies #[trigger] t[k] == a[k + 1] by {}
    assert forall|k: int, l: int| 0 <= k < l < t.len() implies #[trigger] t[k].0 + t[k].1 <= #[trigger] t[l].0 by {
        assert(t[k] == a[k + 1] && t[l] == a[l + 1]);
    }
    assert forall|k: int, l: int| 0 <= k < l < t.len() implies #[trigger] t[k].0 + t[k].1 < #[trigger] t[l].0 || t[l].0 % 128 == 0 by {
        assert(t[k] == a[k + 1] && t[l] == a[l + 1]);
    }
    assert forall|k: int| 0 <= k < t.len() implies #[trigger] t[k].0 % 128 + t[k].1 <= 128 by {
        assert(t[k] == a[k + 1]);
    }
    assert forall|k: int| 0 <= k < t.len() implies {
        &&& #[trigger] t[k].1 > 0
        &&& 0 <= t[k].0
        &&& t[k].0 + t[k].1 <= CAPACITY
    } by {
        assert(t[k] == a[k + 1]);
    }
    assert forall|idx: int| #[trigger] covers(t, idx) == (covers(a, idx) && !in_run(a[0], idx)) by {
        if covers(t, idx) {
            let k = choose|k: int| 0 <= k < t.len() && #[trigger] in_run(t[k], idx);
            assert(in_run(a[k + 1], idx));
            assert(a[0].0 + a[0].1 <= a[k + 1].0);
        }
        if covers(a, idx) && !in_run(a[0], idx) {
            let k = choose|k: int| 0 <= k < a.len() && #[trigger] in_run(a[k], idx);
            assert(k > 0);
            assert(in_run(t[k - 1], idx));
        }
    }
}

/// The first run of canonical runs starts at the lowest index they cover.
proof fn lemma_first_run_lowest(a: Seq<(u32, u32)>, idx: int)
    requires
        runs_canonical(a),
        covers(a, idx),
    ensures
        a.len() > 0,
        a[0].0 <= idx,
{
    let k = choose|k: int| 0 <= k < a.len() && #[trigger] in_run(a[k], idx);
    if k > 0 {
        assert(a[0].0 + a[0].1 <= a[k].0);
    }
}

/// Canonical runs are determined by the indices they cover: two canonical
/// sequences of runs that cover the same indices are equal.
pub proof fn lemma_runs_unique(a: Seq<(u32, u32)>, b: Seq<(u32, u32)>)
    requires
        runs_canonical(a),
        runs_canonical(b),
        forall|idx: int| #![trigger covers(a, idx)] #![trigger covers(b, idx)] covers(a, idx) == covers(b, idx),
    ensures
        a == b,
    decreases a.len() + b.len(),
{
    if a.len() == 0 || b.len() == 0 {
        if a.len() > 0 {
            assert(in_run(a[0], a[0].0 as int));
            assert(covers(a, a[0].0 as int));
        }
        if b.len() > 0 {
            assert(in_run(b[0], b[0].0 as int));
            assert(covers(b, b[0].0 as int));
        }
        assert(a =~= b);
        return;
    }
    let s = a[0].0 as int;
    assert(in_run(a[0], s));
    assert(covers(a, s));
    assert(in_run(b[0], b[0].0 as int));
    assert(covers(b, b[0].0 as int));
    lemma_first_run_lowest(b, s);
    lemma_first_run_lowest(a, b[0].0 as int);
    assert(b[0].0 == s);
    let ea = s + a[0].1;
    let eb = s + b[0].1;
    if ea < eb {
        assert(in_run(b[0], ea));
        assert(covers(b, ea));
        let k = choose|k: int| 0 <= k < a.len() && #[trigger] in_run(a[k], ea);
        assert(k > 0);
        assert(a[0].0 + a[0].1 <= a[k].0);
        assert(a[k].0 == ea);
        assert(s % 128 + b[0].1 <= 128);
        assert(ea % 128 == s % 128 + a[0].1) by (nonlinear_arith)
            requires
                ea == s + a[0].1,
                0 <= s,
                0 < a[0].1,
                s % 128 + a[0].1 < 128,
        ;
    }
    if eb < ea {
        assert(in_run(a[0], eb));
        assert(covers(a, eb));
        let k = choose|k: int| 0 <= k < b.len() && #[trigger] in_run(b[k], eb);
        assert(k > 0);
        assert(b[0].0 + b[0].1 <= b[k].0);
        assert(b[k].0 == eb);
        assert(s % 128 + a[0].1 <= 128);
        assert(eb % 128 == s % 128 + b[0].1) by (nonlinear_arith)
            requires
                eb == s + b[0].1,
                0 <= s,
                0 < b[0].1,
                s % 128 + b[0].1 < 128,
        ;
    }
    assert(a[0] == b[0]);
    lemma_runs_tail(a);
    lemma_runs_tail(b);
    assert forall|idx: int| #![trigger covers(a.drop_first(), idx)] #![trigger covers(b.drop_first(), idx)] covers(a.drop_first(), idx) == covers(b.drop_first(), idx) by {
        assert(covers(a, idx) == covers(b, idx));
    }
    lemma_runs_unique(a.drop_first(), b.drop_first());
    assert(a =~= seq![a[0]] + a.drop_first());
    assert(b =~= seq![b[0]] + b.drop_first());
}

/// A query: the entities that hold a component in every storage of `views`
/// and `all`, in none of `none`, and a changed one in every storage of
/// `changed`. `views` are the storages whose components the system reads.
pub struct Query<S> {
    pub views: Vec<S>,
    pub all: Vec<S>,
    pub none: Vec<S>,
    pub changed: Vec<S>,
}

impl<S: Presence> Query<S> {
    pub open spec fn valid(&self) -> bool {
        &&& all_valid(self.views@)
        &&& all_valid(self.all@)
        &&& all_valid(self.none@)
        &&& all_valid(self.changed@)
    }

    /// Whether the slot at address `o`, `m`, `i` satisfies the query.
    pub open spec fn matches(&self, o: int, m: int, i: int) -> bool {
        &&& in_range(o, m, i)
        &&& all_hold(self.views@, o, m, i)
        &&& all_hold(self.all@, o, m, i)
        &&& none_hold(self.none@, o, m, i)
        &&& all_marked(self.changed@, o, m, i)
    }

    /// The slots of leaf `m` of block `o` that satisfy the query.
    fn leaf_matches(&self, o: u32, m: u32) -> (r: u128)
        requires
            self.valid(),
            o < 128,
            m < 128,
        ensures
            forall|i: int| 0 <= i < 128 ==> (#[trigger] has_bit(r, i) <==> self.matches(o as int, m as int, i)),
    {
        let r = and_inner(&self.views, o, m, false, false, u128::MAX);
        let r = and_inner(&self.all, o, m, false, false, r);
        let r = and_inner(&self.changed, o, m, false, true, r);
        let r = and_inner(&self.none, o, m, true, false, r);
        proof {
            assert forall|i: int| 0 <= i < 128 implies (#[trigger] has_bit(r, i) <==> self.matches(o as int, m as int, i)) by {
                lemma_bit_full(i);
            }
        }
        r
    }

    /// The leaves of block `o` that may hold a slot satisfying the query.
    fn block_candidates(&self, o: u32) -> (r: u128)
        requires
            self.valid(),
            o < 128,
        ensures
            forall|m: int, i: int| #[trigger] self.matches(o as int, m, i) ==> has_bit(r, m),
    {
        let r = and_middle(&self.views, o, false, u128::MAX);
        let r1 = and_middle(&self.all, o, false, r);
        let r2 = and_middle(&self.changed, o, true, r1);
        let r3 = and_middle_absent(&self.none, o, r2);
        proof {
            assert forall|m: int, i: int| #[trigger] self.matches(o as int, m, i) implies has_bit(r3, m) by {
                lemma_bit_full(m);
                assert(passes(self.views@, false, o as int, m, i));
                assert(has_bit(r, m));
                assert(passes(self.all@, false, o as int, m, i));
                assert(has_bit(r1, m));
                assert(passes(self.changed@, true, o as int, m, i));
                assert(has_bit(r2, m));
            }
        }
        r3
    }

    /// The middle blocks that may hold a slot satisfying the query.
    fn candidates(&self) -> (r: u128)
        requires
            self.valid(),
        ensures
            forall|o: int, m: int, i: int| #[trigger] self.matches(o, m, i) ==> has_bit(r, o),
    {
        let r = and_outer(&self.views, false, u128::MAX);
        let r1 = and_outer(&self.all, false, r);
        let r2 = and_outer(&self.changed, true, r1);
        proof {
            assert forall|o: int, m: int, i: int| #[trigger] self.matches(o, m, i) implies has_bit(r2, o) by {
                lemma_bit_full(o);
                assert(passes(self.views@, false, o, m, i));
                assert(has_bit(r, o));
                assert(passes(self.all@, false, o, m, i));
                assert(has_bit(r1, o));
                assert(passes(self.changed@, true, o, m, i));
            }
        }
        r2
    }

    /// The entity indices that satisfy the query, as runs of consecutive
    /// indices (first index, length), in increasing order, each within one
    /// leaf block and maximal there.
    pub fn run(&self) -> (r: Vec<(u32, u32)>)
        requires
            self.valid(),
        ensures
            runs_within(r@, 0, CAPACITY as int),
            runs_ordered(r@),
            runs_in_leaves(r@),
            runs_apart_in_leaves(r@),
            forall|o: int, m: int, i: int| in_range(o, m, i) ==> (covers(r@, #[trigger] ix(o, m, i)) <==> self.matches(o, m, i)),
    {
        let mut out: Vec<(u32, u32)> = Vec::new();
        let mut outer = self.candidates();
        let ghost outer0 = outer;
        proof {
            assert forall|p: int, q: int, j: int| in_range(p, q, j) implies (covers(out@, #[trigger] ix(p, q, j)) == (self.matches(p, q, j) && !has_bit(outer, p))) by {
                if self.matches(p, q, j) {
                    assert(has_bit(outer, p));
                }
            }
        }
        while outer != 0
            invariant
                self.valid(),
                forall|o: int, m: int, i: int| #[trigger] self.matches(o, m, i) ==> has_bit(outer0, o),
                forall|o: int| #[trigger] has_bit(outer, o) ==> has_bit(outer0, o),
                runs_within(out@, 0, CAPACITY as int),
                runs_ordered(out@),
                runs_in_leaves(out@),
                runs_apart_in_leaves(out@),
                forall|k: int, o: int|
                    #![trigger out@[k], has_bit(outer, o)]
                    0 <= k < out@.len() && has_bit(outer, o) ==> out@[k].0 + out@[k].1 <= ix(o, 0, 0),
                forall|p: int, q: int, j: int| in_range(p, q, j) ==> (covers(out@, #[trigger] ix(p, q, j)) == (self.matches(p, q, j) && !has_bit(outer, p))),
            decreases outer,
        {
            let o = lowest_bit(outer);
            let mut middle = self.block_candidates(o);
            let ghost middle0 = middle;
            let ghost outer_now = outer;
            while middle != 0
                invariant
                    self.valid(),
                    o < 128,
                    outer == outer_now,
                    has_bit(outer, o as int),
                    forall|j: int| 0 <= j < o ==> !has_bit(outer, j),
                    forall|m: int, i: int| #[trigger] self.matches(o as int, m, i) ==> has_bit(middle0, m),
                    forall|m: int| #[trigger] has_bit(middle, m) ==> has_bit(middle0, m),
                    runs_within(out@, 0, CAPACITY as int),
                    runs_ordered(out@),
                    runs_in_leaves(out@),
                    runs_apart_in_leaves(out@),
                    forall|k: int, p: int|
                        #![trigger out@[k], has_bit(outer, p)]
                        0 <= k < out@.len() && has_bit(outer, p) && p != o ==> out@[k].0 + out@[k].1 <= ix(p, 0, 0),
                    forall|k: int, q: int|
                        #![trigger out@[k], has_bit(middle, q)]
                        0 <= k < out@.len() && has_bit(middle, q) ==> out@[k].0 + out@[k].1 <= ix(o as int, q, 0),
                    forall|p: int, q: int, j: int| in_range(p, q, j) ==> (covers(out@, #[trigger] ix(p, q, j)) == (self.matches(p, q, j) && (!has_bit(outer, p) || (p == o && !has_bit(middle, q))))),
                decreases middle,
            {
                let m = lowest_bit(middle);
                let leaf = self.leaf_matches(o, m);
                let base = join(o, m, 0);
                let ghost before = out@;
                push_runs(&mut out, leaf, base);
                let ghost middle_prev = middle;
                proof {
                    lemma_clear_bit_decreases(middle, m);
                }
                middle = middle & !(1u128 << m);
                proof {
                    let added = out@.subrange(before.len() as int, out@.len() as int);
                    assert(out@ =~= before + added);
                    lemma_ix_split(o as int, m as int, 0);
                    assert forall|k: int| 0 <= k < out@.len() implies #[trigger] out@[k].0 % 128 + out@[k].1 <= 128 by {
                        if k >= before.len() {
                            assert(out@[k] == added[k - before.len()]);
                            assert(added[k - before.len()].1 > 0);
                            assert(base % 128 == 0) by (nonlinear_arith)
                                requires
                                    base == o * 16384 + m * 128,
                            ;
                            assert(out@[k].0 % 128 == out@[k].0 - base) by (nonlinear_arith)
                                requires
                                    base % 128 == 0,
                                    base <= out@[k].0 < base + 128,
                            ;
                        }
                    }
                    assert(base % 128 == 0) by (nonlinear_arith)
                        requires
                            base == o * 16384 + m * 128,
                    ;
                    assert forall|k: int, l: int| 0 <= k < l < out@.len() implies #[trigger] out@[k].0 + out@[k].1 < #[trigger] out@[l].0 || out@[l].0 % 128 == 0 by {
                        if l >= before.len() && k < before.len() {
                            assert(out@[k] == before[k]);
                            assert(out@[l] == added[l - before.len()]);
                            assert(has_bit(middle_prev, m as int));
                        } else if l >= before.len() {
                            assert(out@[k] == added[k - before.len()]);
                            assert(out@[l] == added[l - before.len()]);
                        } else {
                            assert(out@[k] == before[k]);
                            assert(out@[l] == before[l]);
                        }
                    }
                    assert forall|k: int, l: int| 0 <= k < l < out@.len() implies #[trigger] out@[k].0 + out@[k].1 <= #[trigger] out@[l].0 by {
                        if l >= before.len() && k < before.len() {
                            assert(out@[k] == before[k]);
                            assert(out@[l] == added[l - before.len()]);
                            assert(has_bit(middle_prev, m as int));
                        } else if l >= before.len() {
                            assert(out@[k] == added[k - before.len()]);
                            assert(out@[l] == added[l - before.len()]);
                        } else {
                            assert(out@[k] == before[k]);
                            assert(out@[l] == before[l]);
                        }
                    }
                    assert forall|k: int| 0 <= k < out@.len() implies {
                        &&& #[trigger] out@[k].1 > 0
                        &&& 0 <= out@[k].0
                        &&& out@[k].0 + out@[k].1 <= CAPACITY
                    } by {
                        if k >= before.len() {
                            assert(out@[k] == added[k - before.len()]);
                            assert(added[k - before.len()].1 > 0);
                            assert(base + 128 <= CAPACITY) by (nonlinear_arith)
                                requires
                                    base == o * 16384 + m * 128,
                                    o < 128,
                                    m < 128,
                            ;
                        } else {
                            assert(out@[k] == before[k]);
                        }
                    }
                    assert forall|k: int, p: int|
                        #![trigger out@[k], has_bit(outer, p)]
                        0 <= k < out@.len() && has_bit(outer, p) && p != o implies out@[k].0 + out@[k].1 <= ix(p, 0, 0) by {
                        if k >= before.len() {
                            assert(out@[k] == added[k - before.len()]);
                            assert(p > o);
                            lemma_ix_leaf_order(o as int, m as int, p, 0);
                        } else {
                            assert(out@[k] == before[k]);
                        }
                    }
                    assert forall|k: int, q: int|
                        #![trigger out@[k], has_bit(middle, q)]
                        0 <= k < out@.len() && has_bit(middle, q) implies out@[k].0 + out@[k].1 <= ix(o as int, q, 0) by {
                        assert(has_bit(middle_prev, q) && q != m);
                        if k >= before.len() {
                            assert(out@[k] == added[k - before.len()]);
                            assert(q > m);
                            lemma_ix_leaf_order(o as int, m as int, o as int, q);
                        } else {
                            assert(out@[k] == before[k]);
                        }
                    }
                    assert forall|p: int, q: int, j: int| in_range(p, q, j) implies (covers(out@, #[trigger] ix(p, q, j)) == (self.matches(p, q, j) && (!has_bit(outer, p) || (p == o && !has_bit(middle, q))))) by {
                        lemma_covers_append(before, added, ix(p, q, j));
                        lemma_ix_leaf(o as int, m as int, p, q, j);
                    }
                }
            }
            let ghost outer_prev = outer;
            proof {
                lemma_clear_bit_decreases(outer, o);
            }
            outer = outer & !(1u128 << o);
            proof {
                assert forall|k: int, p: int|
                    #![trigger out@[k], has_bit(outer, p)]
                    0 <= k < out@.len() && has_bit(outer, p) implies out@[k].0 + out@[k].1 <= ix(p, 0, 0) by {
                    assert(has_bit(outer_prev, p) && p != o);
                }
                assert forall|p: int, q: int, j: int| in_range(p, q, j) implies (covers(out@, #[trigger] ix(p, q, j)) == (self.matches(p, q, j) && !has_bit(outer, p))) by {
                    lemma_bit_zero(q);
                    if p == o && self.matches(p, q, j) {
                        assert(has_bit(middle0, q));
                    }
                }
            }
        }
        proof {
            assert forall|p: int, q: int, j: int| in_range(p, q, j) implies (covers(out@, #[trigger] ix(p, q, j)) <==> self.matches(p, q, j)) by {
                lemma_bit_zero(p);
            }
        }
        out
    }
}

/// Runs within the index range that cover an address exactly when a set
/// holds its index cover exactly that set.
pub proof fn lemma_covers_exactly(runs: Seq<(u32, u32)>, target: Set<int>)
    requires
        runs_within(runs, 0, CAPACITY as int),
        forall|o: int, m: int, i: int| in_range(o, m, i) ==> (covers(runs, #[trigger] ix(o, m, i)) <==> target.contains(ix(o, m, i))),
        forall|idx: int| #[trigger] target.contains(idx) ==> 0 <= idx < CAPACITY,
    ensures
        forall|idx: int| #[trigger] covers(runs, idx) <==> target.contains(idx),
{
    assert forall|idx: int| #[trigger] covers(runs, idx) <==> target.contains(idx) by {
        if 0 <= idx < CAPACITY {
            lemma_split_ix(idx);
            assert(covers(runs, ix(outer_of(idx), middle_of(idx), inner_of(idx))) <==> target.contains(ix(outer_of(idx), middle_of(idx), inner_of(idx))));
        } else if covers(runs, idx) {
            let k = choose|k: int| 0 <= k < runs.len() && #[trigger] in_run(runs[k], idx);
            assert(runs[k].1 > 0);
        }
    }
}

} // verus!
