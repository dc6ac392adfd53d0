//! Sparse storage of one component type, addressed by entity index through
//! three levels of 128-slot blocks.
use vstd::prelude::*;
use crate::block::Block;
use crate::component::Entity;
use crate::query::Presence;
use crate::view::View as ComponentView;
use crate::index::{CAPACITY, in_range, inner_of, ix, join, middle_of, outer_of, split, lemma_ix_lex, lemma_ix_split, lemma_split_ix};
use crate::mask::{has_bit, lowest_bit, lemma_bit_and, lemma_bit_or, lemma_bit_not, lemma_bit_single, lemma_bit_zero, lemma_bit_full};

verus! {

/// A well-formed leaf block: its absence mask equals its presence mask, and
/// only occupied slots are marked changed.
pub open spec fn leaf_wf<T>(l: Block<T>) -> bool {
    &&& l.slots_wf()
    &&& l.absence_mask == l.presence_mask
    &&& forall|i: int| #[trigger] has_bit(l.change_mask, i) ==> has_bit(l.presence_mask, i)
}

/// A well-formed middle block: every leaf it holds is well-formed and
/// nonempty, and its masks summarise those leaves.
pub open spec fn mid_wf<T>(b: Block<Block<T>>) -> bool {
    &&& b.slots_wf()
    &&& forall|m: int|
        0 <= m < 128 && #[trigger] b.data@[m] is Some ==> leaf_wf(b.data@[m].unwrap())
            && b.data@[m].unwrap().presence_mask != 0
    &&& forall|m: int|
        0 <= m < 128 ==> (#[trigger] has_bit(b.absence_mask, m) <==> (b.data@[m] is Some
            && b.data@[m].unwrap().presence_mask == u128::MAX))
    &&& forall|m: int|
        0 <= m < 128 ==> (#[trigger] has_bit(b.change_mask, m) <==> (b.data@[m] is Some
            && b.data@[m].unwrap().change_mask != 0))
}

/// A well-formed root block: every middle block it holds is well-formed and
/// nonempty, and its masks summarise them.
pub open spec fn root_wf<T>(r: Block<Block<Block<T>>>) -> bool {
    &&& r.slots_wf()
    &&& forall|o: int|
        0 <= o < 128 && #[trigger] r.data@[o] is Some ==> mid_wf(r.data@[o].unwrap())
            && r.data@[o].unwrap().presence_mask != 0
    &&& forall|o: int|
        0 <= o < 128 ==> (#[trigger] has_bit(r.absence_mask, o) <==> (r.data@[o] is Some
            && r.data@[o].unwrap().absence_mask == u128::MAX))
    &&& forall|o: int|
        0 <= o < 128 ==> (#[trigger] has_bit(r.change_mask, o) <==> (r.data@[o] is Some
            && r.data@[o].unwrap().change_mask != 0))
}

/// Content of slot `i` of a leaf that may be missing.
pub open spec fn leaf_slot<T>(l: Option<Block<T>>, i: int) -> Option<T> {
    match l {
        Some(b) => b.data@[i],
        None => None,
    }
}

/// Whether slot `i` of a leaf that may be missing is marked changed.
pub open spec fn leaf_dirty<T>(l: Option<Block<T>>, i: int) -> bool {
    match l {
        Some(b) => has_bit(b.change_mask, i),
        None => false,
    }
}

/// Content of slot `i` of leaf `m` of a middle block that may be missing.
pub open spec fn mid_slot<T>(b: Option<Block<Block<T>>>, m: int, i: int) -> Option<T> {
    match b {
        Some(b) => leaf_slot(b.data@[m], i),
        None => None,
    }
}

pub open spec fn mid_dirty<T>(b: Option<Block<Block<T>>>, m: int, i: int) -> bool {
    match b {
        Some(b) => leaf_dirty(b.data@[m], i),
        None => false,
    }
}

/// Writes `v` into slot `i` of a leaf (a new one when `l` is `None`), marking
/// it changed. Returns the new leaf and what the slot held before.
fn leaf_insert<T>(l: Option<Block<T>>, i: u32, v: T) -> (r: (Block<T>, Option<T>))
    requires
        i < 128,
        l is Some ==> leaf_wf(l.unwrap()),
    ensures
        leaf_wf(r.0),
        r.0.presence_mask != 0,
        r.0.change_mask != 0,
        r.1 == leaf_slot(l, i as int),
        forall|j: int| 0 <= j < 128 ==> #[trigger] leaf_slot(Some(r.0), j) == if j == i { Some(v) } else { leaf_slot(l, j) },
        forall|j: int| 0 <= j < 128 ==> #[trigger] leaf_dirty(Some(r.0), j) == (j == i || leaf_dirty(l, j)),
{
    let mut b = match l {
        Some(b) => b,
        None => Block::new(),
    };
    proof {
        broadcast use lemma_bit_zero;
    }
    let prev = b.take(i);
    b.data[i as usize] = Some(v);
    let bit: u128 = 1u128 << i;
    let ghost pm0 = b.presence_mask;
    let ghost cm0 = b.change_mask;
    let ghost d0 = l;
    b.presence_mask = b.presence_mask | bit;
    b.absence_mask = b.presence_mask;
    b.change_mask = b.change_mask | bit;
    proof {
        assert forall|j: int| #[trigger] has_bit(b.presence_mask, j) == (has_bit(pm0, j) || j == i) by {
            lemma_bit_or(pm0, bit, j);
            lemma_bit_single(i, j);
        }
        assert forall|j: int| #[trigger] has_bit(b.change_mask, j) == (has_bit(cm0, j) || j == i) by {
            lemma_bit_or(cm0, bit, j);
            lemma_bit_single(i, j);
        }
        assert forall|j: int| 0 <= j < 128 implies (#[trigger] has_bit(b.presence_mask, j) <==> b.data@[j] is Some) by {
            if j != i {
                assert(b.data@[j] == leaf_slot(l, j));
            }
        }
        assert forall|j: int| #[trigger] has_bit(b.change_mask, j) implies has_bit(b.presence_mask, j) by {
            if j != i {
                assert(has_bit(cm0, j));
            }
        }
        assert(has_bit(b.presence_mask, i as int));
        assert(has_bit(b.change_mask, i as int));
        assert(b.presence_mask != 0) by {
            if b.presence_mask == 0 {
                lemma_bit_zero(i as int);
            }
        }
        assert(b.change_mask != 0) by {
            if b.change_mask == 0 {
                lemma_bit_zero(i as int);
            }
        }
        assert forall|j: int| 0 <= j < 128 implies #[trigger] leaf_dirty(Some(b), j) == (j == i || leaf_dirty(l, j)) by {
            assert(has_bit(b.change_mask, j) == (has_bit(cm0, j) || j == i));
        }
    }
    (b, prev)
}

/// Writes `v` into slot `i` of leaf `m` of a middle block (a new one when `b`
/// is `None`), marking it changed. Returns the new middle block and what the
/// slot held before.
fn mid_insert<T>(b: Option<Block<Block<T>>>, m: u32, i: u32, v: T) -> (r: (Block<Block<T>>, Option<T>))
    requires
        m < 128,
        i < 128,
        b is Some ==> mid_wf(b.unwrap()),
    ensures
        mid_wf(r.0),
        r.0.presence_mask != 0,
        r.0.change_mask != 0,
        r.1 == mid_slot(b, m as int, i as int),
        forall|p: int, j: int| 0 <= p < 128 && 0 <= j < 128 ==> #[trigger] mid_slot(Some(r.0), p, j) == if p == m && j == i { Some(v) } else { mid_slot(b, p, j) },
        forall|p: int, j: int| 0 <= p < 128 && 0 <= j < 128 ==> #[trigger] mid_dirty(Some(r.0), p, j) == ((p == m && j == i) || mid_dirty(b, p, j)),
{
    let mut mb = match b {
        Some(mb) => mb,
        None => Block::new(),
    };
    proof {
        broadcast use lemma_bit_zero;
    }
    let ghost mb0 = mb;
    let leaf = mb.take(m);
    let (nl, prev) = leaf_insert(leaf, i, v);
    let full = nl.presence_mask == u128::MAX;
    mb.data[m as usize] = Some(nl);
    let bit: u128 = 1u128 << m;
    mb.presence_mask = mb.presence_mask | bit;
    if full {
        mb.absence_mask = mb.absence_mask | bit;
    } else {
        mb.absence_mask = mb.absence_mask & !bit;
    }
    mb.change_mask = mb.change_mask | bit;
    proof {
        assert forall|p: int| #[trigger] has_bit(mb.presence_mask, p) == (has_bit(mb0.presence_mask, p) || p == m) by {
            lemma_bit_or(mb0.presence_mask, bit, p);
            lemma_bit_single(m, p);
        }
        assert forall|p: int| #[trigger] has_bit(mb.change_mask, p) == (has_bit(mb0.change_mask, p) || p == m) by {
            lemma_bit_or(mb0.change_mask, bit, p);
            lemma_bit_single(m, p);
        }
        assert forall|p: int| #[trigger] has_bit(mb.absence_mask, p) == (if p == m { full } else { has_bit(mb0.absence_mask, p) }) by {
            lemma_bit_or(mb0.absence_mask, bit, p);
            lemma_bit_and(mb0.absence_mask, !bit, p);
            lemma_bit_not(bit, p);
            lemma_bit_single(m, p);
        }
        assert forall|p: int| 0 <= p < 128 implies (#[trigger] has_bit(mb.presence_mask, p) <==> mb.data@[p] is Some) by {
            if p != m {
                assert(mb.data@[p] == mb0.data@[p]);
            }
        }
        assert(has_bit(mb.presence_mask, m as int));
        assert(has_bit(mb.change_mask, m as int));
        assert(mb.presence_mask != 0) by {
            if mb.presence_mask == 0 {
                lemma_bit_zero(m as int);
            }
        }
        assert(mb.change_mask != 0) by {
            if mb.change_mask == 0 {
                lemma_bit_zero(m as int);
            }
        }
        assert(mid_wf(mb)) by {
            assert forall|p: int| 0 <= p < 128 && #[trigger] mb.data@[p] is Some implies leaf_wf(mb.data@[p].unwrap()) && mb.data@[p].unwrap().presence_mask != 0 by {
                if p != m {
                    assert(mb.data@[p] == mb0.data@[p]);
                }
            }
            assert forall|p: int| 0 <= p < 128 implies (#[trigger] has_bit(mb.change_mask, p) <==> (mb.data@[p] is Some && mb.data@[p].unwrap().change_mask != 0)) by {
                if p != m {
                    assert(mb.data@[p] == mb0.data@[p]);
                }
            }
            assert forall|p: int| 0 <= p < 128 implies (#[trigger] has_bit(mb.absence_mask, p) <==> (mb.data@[p] is Some && mb.data@[p].unwrap().presence_mask == u128::MAX)) by {
                if p != m {
                    assert(mb.data@[p] == mb0.data@[p]);
                }
            }
        }
        assert forall|p: int, j: int| 0 <= p < 128 && 0 <= j < 128 implies #[trigger] mid_slot(Some(mb), p, j) == if p == m && j == i { Some(v) } else { mid_slot(b, p, j) } by {
            if p != m {
                assert(mb.data@[p] == mb0.data@[p]);
            } else {
                assert(leaf_slot(Some(nl), j) == if j == i { Some(v) } else { leaf_slot(leaf, j) });
            }
        }
        assert forall|p: int, j: int| 0 <= p < 128 && 0 <= j < 128 implies #[trigger] mid_dirty(Some(mb), p, j) == ((p == m && j == i) || mid_dirty(b, p, j)) by {
            if p != m {
                assert(mb.data@[p] == mb0.data@[p]);
            } else {
                assert(leaf_dirty(Some(nl), j) == (j == i || leaf_dirty(leaf, j)));
            }
        }
    }
    (mb, prev)
}

/// Empties slot `i` of a nonempty leaf. Returns the leaf, or `None` when it
/// became empty, and what the slot held.
fn leaf_remove<T>(l: Block<T>, i: u32) -> (r: (Option<Block<T>>, Option<T>))
    requires
        i < 128,
        leaf_wf(l),
        l.presence_mask != 0,
    ensures
        r.0 is Some ==> leaf_wf(r.0.unwrap()) && r.0.unwrap().presence_mask != 0 && r.0.unwrap().presence_mask != u128::MAX,
        r.1 == l.data@[i as int],
        forall|j: int| 0 <= j < 128 ==> #[trigger] leaf_slot(r.0, j) == if j == i { None } else { leaf_slot(Some(l), j) },
        forall|j: int| 0 <= j < 128 ==> #[trigger] leaf_dirty(r.0, j) == (j != i && leaf_dirty(Some(l), j)),
{
    let mut b = l;
    let prev = b.take(i);
    let bit: u128 = 1u128 << i;
    let ghost pm0 = b.presence_mask;
    let ghost cm0 = b.change_mask;
    b.presence_mask = b.presence_mask & !bit;
    b.absence_mask = b.presence_mask;
    b.change_mask = b.change_mask & !bit;
    proof {
        assert forall|j: int| #[trigger] has_bit(b.presence_mask, j) == (has_bit(pm0, j) && j != i) by {
            lemma_bit_and(pm0, !bit, j);
            lemma_bit_not(bit, j);
            lemma_bit_single(i, j);
        }
        assert forall|j: int| #[trigger] has_bit(b.change_mask, j) == (has_bit(cm0, j) && j != i) by {
            lemma_bit_and(cm0, !bit, j);
            lemma_bit_not(bit, j);
            lemma_bit_single(i, j);
        }
        assert forall|j: int| 0 <= j < 128 implies (#[trigger] has_bit(b.presence_mask, j) <==> b.data@[j] is Some) by {
            if j != i {
                assert(b.data@[j] == l.data@[j]);
            }
        }
        assert forall|j: int| #[trigger] has_bit(b.change_mask, j) implies has_bit(b.presence_mask, j) by {
            assert(has_bit(cm0, j));
        }
        assert(b.presence_mask != u128::MAX) by {
            lemma_bit_full(i as int);
        }
    }
    if b.presence_mask == 0 {
        proof {
            assert forall|j: int| 0 <= j < 128 implies #[trigger] leaf_slot(None::<Block<T>>, j) == if j == i { None } else { leaf_slot(Some(l), j) } by {
                if j != i {
                    lemma_bit_zero(j);
                    assert(!has_bit(b.presence_mask, j));
                    assert(b.data@[j] == l.data@[j]);
                }
            }
            assert forall|j: int| 0 <= j < 128 implies #[trigger] leaf_dirty(None::<Block<T>>, j) == (j != i && leaf_dirty(Some(l), j)) by {
                lemma_bit_zero(j);
                if j != i && has_bit(cm0, j) {
                    assert(has_bit(b.change_mask, j));
                }
            }
        }
        (None, prev)
    } else {
        (Some(b), prev)
    }
}

/// Empties slot `i` of leaf `m` of a nonempty middle block. Returns the
/// block, or `None` when it became empty, and what the slot held.
fn mid_remove<T>(b: Block<Block<T>>, m: u32, i: u32) -> (r: (Option<Block<Block<T>>>, Option<T>))
    requires
        m < 128,
        i < 128,
        mid_wf(b),
        b.presence_mask != 0,
    ensures
        r.0 is Some ==> mid_wf(r.0.unwrap()) && r.0.unwrap().presence_mask != 0,
        r.1 == mid_slot(Some(b), m as int, i as int),
        forall|p: int, j: int| 0 <= p < 128 && 0 <= j < 128 ==> #[trigger] mid_slot(r.0, p, j) == if p == m && j == i { None } else { mid_slot(Some(b), p, j) },
        forall|p: int, j: int| 0 <= p < 128 && 0 <= j < 128 ==> #[trigger] mid_dirty(r.0, p, j) == (!(p == m && j == i) && mid_dirty(Some(b), p, j)),
{
    let mut mb = b;
    let ghost mb0 = b;
    let leaf = mb.take(m);
    match leaf {
        None => {
            mb.data[m as usize] = None;
            proof {
                assert(mb.data@ =~= mb0.data@);
            }
            (Some(mb), None)
        },
        Some(lf) => {
            let (nl, prev) = leaf_remove(lf, i);
            let bit: u128 = 1u128 << m;
            let ghost pm0 = mb.presence_mask;
            let ghost am0 = mb.absence_mask;
            let ghost cm0 = mb.change_mask;
            let ghost nl_g = nl;
            match nl {
                None => {
                    mb.data[m as usize] = None;
                    mb.presence_mask = mb.presence_mask & !bit;
                    mb.change_mask = mb.change_mask & !bit;
                },
                Some(x) => {
                    let dirty = x.change_mask != 0;
                    mb.data[m as usize] = Some(x);
                    if dirty {
                        mb.change_mask = mb.change_mask | bit;
                    } else {
                        mb.change_mask = mb.change_mask & !bit;
                    }
                },
            }
            mb.absence_mask = mb.absence_mask & !bit;
            proof {
                assert forall|p: int| #[trigger] has_bit(mb.presence_mask, p) == (if p == m { nl_g is Some } else { has_bit(pm0, p) }) by {
                    lemma_bit_and(pm0, !bit, p);
                    lemma_bit_not(bit, p);
                    lemma_bit_single(m, p);
                }
                assert forall|p: int| #[trigger] has_bit(mb.change_mask, p) == (if p == m { nl_g is Some && nl_g.unwrap().change_mask != 0 } else { has_bit(cm0, p) }) by {
                    lemma_bit_and(cm0, !bit, p);
                    lemma_bit_or(cm0, bit, p);
                    lemma_bit_not(bit, p);
                    lemma_bit_single(m, p);
                }
                assert forall|p: int| #[trigger] has_bit(mb.absence_mask, p) == (p != m && has_bit(am0, p)) by {
                    lemma_bit_and(am0, !bit, p);
                    lemma_bit_not(bit, p);
                    lemma_bit_single(m, p);
                }
                assert(mid_wf(mb)) by {
                    assert forall|p: int| 0 <= p < 128 implies (#[trigger] has_bit(mb.presence_mask, p) <==> mb.data@[p] is Some) by {
                        if p != m {
                            assert(mb.data@[p] == mb0.data@[p]);
                        }
                    }
                    assert forall|p: int| 0 <= p < 128 && #[trigger] mb.data@[p] is Some implies leaf_wf(mb.data@[p].unwrap()) && mb.data@[p].unwrap().presence_mask != 0 by {
                        if p != m {
                            assert(mb.data@[p] == mb0.data@[p]);
                        }
                    }
                    assert forall|p: int| 0 <= p < 128 implies (#[trigger] has_bit(mb.change_mask, p) <==> (mb.data@[p] is Some && mb.data@[p].unwrap().change_mask != 0)) by {
                        if p != m {
                            assert(mb.data@[p] == mb0.data@[p]);
                        }
                    }
                    assert forall|p: int| 0 <= p < 128 implies (#[trigger] has_bit(mb.absence_mask, p) <==> (mb.data@[p] is Some && mb.data@[p].unwrap().presence_mask == u128::MAX)) by {
                        if p != m {
                            assert(mb.data@[p] == mb0.data@[p]);
                        }
                    }
                }
                assert forall|p: int, j: int| 0 <= p < 128 && 0 <= j < 128 implies #[trigger] mid_slot(Some(mb), p, j) == if p == m && j == i { None } else { mid_slot(Some(b), p, j) } by {
                    if p != m {
                        assert(mb.data@[p] == mb0.data@[p]);
                    } else {
                        assert(leaf_slot(nl_g, j) == if j == i { None } else { leaf_slot(Some(lf), j) });
                    }
                }
                assert forall|p: int, j: int| 0 <= p < 128 && 0 <= j < 128 implies #[trigger] mid_dirty(Some(mb), p, j) == (!(p == m && j == i) && mid_dirty(Some(b), p, j)) by {
                    if p != m {
                        assert(mb.data@[p] == mb0.data@[p]);
                    } else {
                        assert(leaf_dirty(nl_g, j) == (j != i && leaf_dirty(Some(lf), j)));
                    }
                }
            }
            if mb.presence_mask == 0 {
                proof {
                    assert forall|p: int, j: int| 0 <= p < 128 && 0 <= j < 128 implies #[trigger] mid_slot(None::<Block<Block<T>>>, p, j) == mid_slot(Some(mb), p, j) by {
                        lemma_bit_zero(p);
                        assert(!has_bit(mb.presence_mask, p));
                    }
                    assert forall|p: int, j: int| 0 <= p < 128 && 0 <= j < 128 implies #[trigger] mid_dirty(None::<Block<Block<T>>>, p, j) == mid_dirty(Some(mb), p, j) by {
                        lemma_bit_zero(p);
                        assert(!has_bit(mb.presence_mask, p));
                    }
                }
                (None, prev)
            } else {
                (Some(mb), prev)
            }
        },
    }
}

/// Sparse storage of components of type `T`, one slot per entity index below
/// `CAPACITY`.
pub struct Storage<T> {
    root: Block<Block<Block<T>>>,
    len: usize,
}

impl<T> Storage<T> {
    /// Content of the slot at address `o`, `m`, `i`.
    pub closed spec fn slot(&self, o: int, m: int, i: int) -> Option<T> {
        mid_slot(self.root.data@[o], m, i)
    }

    /// Whether the slot at address `o`, `m`, `i` holds a component.
    pub open spec fn has(&self, o: int, m: int, i: int) -> bool {
        in_range(o, m, i) && self.slot(o, m, i) is Some
    }

    /// Whether the slot at address `o`, `m`, `i` is marked changed.
    pub closed spec fn dirty(&self, o: int, m: int, i: int) -> bool {
        in_range(o, m, i) && mid_dirty(self.root.data@[o], m, i)
    }

    /// The indices whose components were written since the last clean-up.
    pub open spec fn changed(&self) -> Set<int> {
        Set::new(|idx: int| 0 <= idx < CAPACITY && self.dirty(outer_of(idx), middle_of(idx), inner_of(idx)))
    }

    /// The presence mask of the root block: bit `o` is set when middle block
    /// `o` holds something.
    pub closed spec fn root_presence(&self) -> u128 {
        self.root.presence_mask
    }

    /// The number of components the storage keeps count of.
    pub closed spec fn count(&self) -> nat {
        self.len as nat
    }

    pub closed spec fn wf(&self) -> bool {
        &&& root_wf(self.root)
        &&& self.len == self@.dom().len()
    }
}

impl<T> View for Storage<T> {
    type V = Map<int, T>;

    /// The stored components by entity index.
    open spec fn view(&self) -> Map<int, T> {
        Map::new(
            |idx: int| 0 <= idx < CAPACITY && self.has(outer_of(idx), middle_of(idx), inner_of(idx)),
            |idx: int| self.slot(outer_of(idx), middle_of(idx), inner_of(idx)).unwrap(),
        )
    }
}

/// The view of a storage holds indices below the capacity only, and so is finite.
pub proof fn lemma_view_finite<T>(s: Storage<T>)
    ensures
        s@.dom().finite(),
        s@.dom().len() <= CAPACITY,
        forall|idx: int| #[trigger] s@.dom().contains(idx) ==> 0 <= idx < CAPACITY,
{
    let range = vstd::set_lib::set_int_range(0, CAPACITY as int);
    vstd::set_lib::lemma_int_range(0, CAPACITY as int);
    assert(s@.dom().subset_of(range));
    vstd::set_lib::lemma_len_subset(s@.dom(), range);
}

/// What the view says of an index, read at its address.
pub proof fn lemma_view_at<T>(s: Storage<T>, o: int, m: int, i: int)
    requires
        in_range(o, m, i),
    ensures
        s@.dom().contains(ix(o, m, i)) == s.has(o, m, i),
        s.has(o, m, i) ==> s@[ix(o, m, i)] == s.slot(o, m, i).unwrap(),
        s.changed().contains(ix(o, m, i)) == s.dirty(o, m, i),
{
    lemma_ix_split(o, m, i);
}

/// When one slot changes and the others stay, the view changes at that index only.
proof fn lemma_view_update<T>(a: Storage<T>, b: Storage<T>, o: int, m: int, i: int)
    requires
        in_range(o, m, i),
        forall|p: int, q: int, j: int| in_range(p, q, j) && !(p == o && q == m && j == i) ==> #[trigger] b.slot(p, q, j) == a.slot(p, q, j),
    ensures
        b@ == match b.slot(o, m, i) {
            Some(v) => a@.insert(ix(o, m, i), v),
            None => a@.remove(ix(o, m, i)),
        },
{
    let k = ix(o, m, i);
    lemma_ix_split(o, m, i);
    let target = match b.slot(o, m, i) {
        Some(v) => a@.insert(k, v),
        None => a@.remove(k),
    };
    assert forall|idx: int| #[trigger] b@.dom().contains(idx) == target.dom().contains(idx) by {
        if 0 <= idx < CAPACITY {
            lemma_split_ix(idx);
            if idx != k {
                if outer_of(idx) == o && middle_of(idx) == m && inner_of(idx) == i {
                    assert(false);
                }
            }
        }
    }
    assert forall|idx: int| #[trigger] b@.dom().contains(idx) implies b@[idx] == target[idx] by {
        lemma_split_ix(idx);
        if idx != k {
            if outer_of(idx) == o && middle_of(idx) == m && inner_of(idx) == i {
                assert(false);
            }
        }
    }
    assert(b@ =~= target);
}

/// When one slot's change mark changes and the others stay, the changed set
/// changes at that index only.
proof fn lemma_changed_update<T>(a: Storage<T>, b: Storage<T>, o: int, m: int, i: int)
    requires
        in_range(o, m, i),
        forall|p: int, q: int, j: int| in_range(p, q, j) && !(p == o && q == m && j == i) ==> #[trigger] b.dirty(p, q, j) == a.dirty(p, q, j),
    ensures
        b.changed() == if b.dirty(o, m, i) { a.changed().insert(ix(o, m, i)) } else { a.changed().remove(ix(o, m, i)) },
{
    let k = ix(o, m, i);
    lemma_ix_split(o, m, i);
    let target = if b.dirty(o, m, i) { a.changed().insert(k) } else { a.changed().remove(k) };
    assert forall|idx: int| #[trigger] b.changed().contains(idx) == target.contains(idx) by {
        if 0 <= idx < CAPACITY {
            lemma_split_ix(idx);
            if idx != k {
                if outer_of(idx) == o && middle_of(idx) == m && inner_of(idx) == i {
                    assert(false);
                }
            }
        }
    }
    assert(b.changed() =~= target);
}

impl<T> Storage<T> {
    /// An empty storage.
    pub fn new() -> (r: Storage<T>)
        ensures
            r.wf(),
            r@ == Map::<int, T>::empty(),
            r.changed() == Set::<int>::empty(),
    {
        let r = Storage { root: Block::new(), len: 0 };
        proof {
            broadcast use lemma_bit_zero;
            assert(r@ =~= Map::<int, T>::empty());
            assert(r.changed() =~= Set::<int>::empty());
        }
        r
    }

    /// Number of stored components.
    pub fn len(&self) -> (r: usize)
        requires
            self.wf(),
        ensures
            r == self@.dom().len(),
    {
        self.len
    }

    /// Stores `value` for entity `idx`, replacing what was there, and marks it
    /// changed. Returns the component it replaced.
    pub fn set(&mut self, idx: u32, value: T) -> (r: Option<T>)
        requires
            old(self).wf(),
            idx < CAPACITY,
        ensures
            final(self).wf(),
            final(self)@ == old(self)@.insert(idx as int, value),
            final(self).changed() == old(self).changed().insert(idx as int),
            r == if old(self)@.dom().contains(idx as int) { Some(old(self)@[idx as int]) } else { None::<T> },
    {
        let (o, m, i) = split(idx);
        let ghost s0 = *self;
        let ghost r0 = self.root;
        proof {
            lemma_view_finite(s0);
            lemma_view_at(s0, o as int, m as int, i as int);
        }
        let mid = self.root.take(o);
        let (nb, prev) = mid_insert(mid, m, i, value);
        let full = nb.absence_mask == u128::MAX;
        self.root.data[o as usize] = Some(nb);
        let bit: u128 = 1u128 << o;
        self.root.presence_mask = self.root.presence_mask | bit;
        if full {
            self.root.absence_mask = self.root.absence_mask | bit;
        } else {
            self.root.absence_mask = self.root.absence_mask & !bit;
        }
        self.root.change_mask = self.root.change_mask | bit;
        proof {
            let rb = self.root;
            assert forall|p: int| #[trigger] has_bit(rb.presence_mask, p) == (has_bit(r0.presence_mask, p) || p == o) by {
                lemma_bit_or(r0.presence_mask, bit, p);
                lemma_bit_single(o, p);
            }
            assert forall|p: int| #[trigger] has_bit(rb.change_mask, p) == (has_bit(r0.change_mask, p) || p == o) by {
                lemma_bit_or(r0.change_mask, bit, p);
                lemma_bit_single(o, p);
            }
            assert forall|p: int| #[trigger] has_bit(rb.absence_mask, p) == (if p == o { full } else { has_bit(r0.absence_mask, p) }) by {
                lemma_bit_or(r0.absence_mask, bit, p);
                lemma_bit_and(r0.absence_mask, !bit, p);
                lemma_bit_not(bit, p);
                lemma_bit_single(o, p);
            }
            assert(root_wf(rb)) by {
                assert forall|p: int| 0 <= p < 128 implies (#[trigger] has_bit(rb.presence_mask, p) <==> rb.data@[p] is Some) by {
                    if p != o {
                        assert(rb.data@[p] == r0.data@[p]);
                    }
                }
                assert forall|p: int| 0 <= p < 128 && #[trigger] rb.data@[p] is Some implies mid_wf(rb.data@[p].unwrap()) && rb.data@[p].unwrap().presence_mask != 0 by {
                    if p != o {
                        assert(rb.data@[p] == r0.data@[p]);
                    }
                }
                assert forall|p: int| 0 <= p < 128 implies (#[trigger] has_bit(rb.change_mask, p) <==> (rb.data@[p] is Some && rb.data@[p].unwrap().change_mask != 0)) by {
                    if p != o {
                        assert(rb.data@[p] == r0.data@[p]);
                    }
                }
                assert forall|p: int| 0 <= p < 128 implies (#[trigger] has_bit(rb.absence_mask, p) <==> (rb.data@[p] is Some && rb.data@[p].unwrap().absence_mask == u128::MAX)) by {
                    if p != o {
                        assert(rb.data@[p] == r0.data@[p]);
                    }
                }
            }
            assert forall|p: int, q: int, j: int| in_range(p, q, j) && !(p == o && q == m && j == i) implies #[trigger] self.slot(p, q, j) == s0.slot(p, q, j) by {
                if p != o {
                    assert(rb.data@[p] == r0.data@[p]);
                } else {
                    assert(mid_slot(Some(nb), q, j) == mid_slot(mid, q, j));
                }
            }
            assert(self.slot(o as int, m as int, i as int) == Some(value)) by {
                assert(mid_slot(Some(nb), m as int, i as int) == Some(value));
            }
            lemma_view_update(s0, *self, o as int, m as int, i as int);
            assert forall|p: int, q: int, j: int| in_range(p, q, j) && !(p == o && q == m && j == i) implies #[trigger] self.dirty(p, q, j) == s0.dirty(p, q, j) by {
                if p != o {
                    assert(rb.data@[p] == r0.data@[p]);
                } else {
                    assert(mid_dirty(Some(nb), q, j) == mid_dirty(mid, q, j));
                }
            }
            assert(self.dirty(o as int, m as int, i as int)) by {
                assert(mid_dirty(Some(nb), m as int, i as int));
            }
            lemma_changed_update(s0, *self, o as int, m as int, i as int);
        }
        if prev.is_none() {
            proof {
                lemma_view_finite(s0);
            }
            let ghost v1 = self@;
            self.len = self.len + 1;
            proof {
                assert(self@ =~= v1);
            }
        }
        proof {
            assert(prev == s0.slot(o as int, m as int, i as int));
            if prev is Some {
                assert(self@.dom() =~= s0@.dom());
            } else {
                assert(self@.dom() =~= s0@.dom().insert(idx as int));
            }
        }
        prev
    }
}

impl<T> Storage<T> {
    /// Removes the component of entity `idx`, if any, and returns it.
    pub fn remove(&mut self, idx: u32) -> (r: Option<T>)
        requires
            old(self).wf(),
        ensures
            final(self).wf(),
            final(self)@ == old(self)@.remove(idx as int),
            final(self).changed() == old(self).changed().remove(idx as int),
            r == if old(self)@.dom().contains(idx as int) { Some(old(self)@[idx as int]) } else { None::<T> },
    {
        let ghost s0 = *self;
        proof {
            lemma_view_finite(s0);
        }
        if idx >= CAPACITY {
            proof {
                assert(self@ =~= s0@.remove(idx as int));
                assert(self.changed() =~= s0.changed().remove(idx as int));
                assert(self.len == self@.dom().len());
            }
            return None;
        }
        let (o, m, i) = split(idx);
        let ghost r0 = self.root;
        proof {
            lemma_view_at(s0, o as int, m as int, i as int);
        }
        let mid = self.root.take(o);
        match mid {
            None => {
                self.root.data[o as usize] = None;
                proof {
                    assert(self.root.data@ =~= r0.data@);
                    assert(root_wf(self.root));
                    assert(self@ =~= s0@.remove(idx as int));
                    assert(self@ =~= s0@);
                    assert(self.changed() =~= s0.changed().remove(idx as int));
                    assert(self.len == self@.dom().len());
                }
                None
            },
            Some(mb) => {
                let (nb, prev) = mid_remove(mb, m, i);
                let bit: u128 = 1u128 << o;
                let ghost nb_g = nb;
                match nb {
                    None => {
                        self.root.data[o as usize] = None;
                        self.root.presence_mask = self.root.presence_mask & !bit;
                        self.root.absence_mask = self.root.absence_mask & !bit;
                        self.root.change_mask = self.root.change_mask & !bit;
                    },
                    Some(x) => {
                        let full = x.absence_mask == u128::MAX;
                        let dirty = x.change_mask != 0;
                        self.root.data[o as usize] = Some(x);
                        if full {
                            self.root.absence_mask = self.root.absence_mask | bit;
                        } else {
                            self.root.absence_mask = self.root.absence_mask & !bit;
                        }
                        if dirty {
                            self.root.change_mask = self.root.change_mask | bit;
                        } else {
                            self.root.change_mask = self.root.change_mask & !bit;
                        }
                    },
                }
                proof {
                    let rb = self.root;
                    assert forall|p: int| #[trigger] has_bit(rb.presence_mask, p) == (if p == o { nb_g is Some } else { has_bit(r0.presence_mask, p) }) by {
                        lemma_bit_and(r0.presence_mask, !bit, p);
                        lemma_bit_not(bit, p);
                        lemma_bit_single(o, p);
                    }
                    assert forall|p: int| #[trigger] has_bit(rb.change_mask, p) == (if p == o { nb_g is Some && nb_g.unwrap().change_mask != 0 } else { has_bit(r0.change_mask, p) }) by {
                        lemma_bit_and(r0.change_mask, !bit, p);
                        lemma_bit_or(r0.change_mask, bit, p);
                        lemma_bit_not(bit, p);
                        lemma_bit_single(o, p);
                    }
                    assert forall|p: int| #[trigger] has_bit(rb.absence_mask, p) == (if p == o { nb_g is Some && nb_g.unwrap().absence_mask == u128::MAX } else { has_bit(r0.absence_mask, p) }) by {
                        lemma_bit_and(r0.absence_mask, !bit, p);
                        lemma_bit_or(r0.absence_mask, bit, p);
                        lemma_bit_not(bit, p);
                        lemma_bit_single(o, p);
                    }
                    assert(root_wf(rb)) by {
                        assert forall|p: int| 0 <= p < 128 implies (#[trigger] has_bit(rb.presence_mask, p) <==> rb.data@[p] is Some) by {
                            if p != o {
                                assert(rb.data@[p] == r0.data@[p]);
                            }
                        }
                        assert forall|p: int| 0 <= p < 128 && #[trigger] rb.data@[p] is Some implies mid_wf(rb.data@[p].unwrap()) && rb.data@[p].unwrap().presence_mask != 0 by {
                            if p != o {
                                assert(rb.data@[p] == r0.data@[p]);
                            }
                        }
                        assert forall|p: int| 0 <= p < 128 implies (#[trigger] has_bit(rb.change_mask, p) <==> (rb.data@[p] is Some && rb.data@[p].unwrap().change_mask != 0)) by {
                            if p != o {
                                assert(rb.data@[p] == r0.data@[p]);
                            }
                        }
                        assert forall|p: int| 0 <= p < 128 implies (#[trigger] has_bit(rb.absence_mask, p) <==> (rb.data@[p] is Some && rb.data@[p].unwrap().absence_mask == u128::MAX)) by {
                            if p != o {
                                assert(rb.data@[p] == r0.data@[p]);
                            }
                        }
                    }
                    assert forall|p: int, q: int, j: int| in_range(p, q, j) && !(p == o && q == m && j == i) implies #[trigger] self.slot(p, q, j) == s0.slot(p, q, j) by {
                        if p != o {
                            assert(rb.data@[p] == r0.data@[p]);
                        } else {
                            assert(mid_slot(nb_g, q, j) == mid_slot(Some(mb), q, j));
                        }
                    }
                    assert(self.slot(o as int, m as int, i as int) is None) by {
                        assert(mid_slot(nb_g, m as int, i as int) is None);
                    }
                    lemma_view_update(s0, *self, o as int, m as int, i as int);
                    assert forall|p: int, q: int, j: int| in_range(p, q, j) && !(p == o && q == m && j == i) implies #[trigger] self.dirty(p, q, j) == s0.dirty(p, q, j) by {
                        if p != o {
                            assert(rb.data@[p] == r0.data@[p]);
                        } else {
                            assert(mid_dirty(nb_g, q, j) == mid_dirty(Some(mb), q, j));
                        }
                    }
                    assert(!self.dirty(o as int, m as int, i as int)) by {
                        assert(!mid_dirty(nb_g, m as int, i as int));
                    }
                    lemma_changed_update(s0, *self, o as int, m as int, i as int);
                    assert(prev == s0.slot(o as int, m as int, i as int));
                }
                let ghost v1 = self@;
                if prev.is_some() {
                    proof {
                        assert(s0@.dom().contains(idx as int));
                        assert(self@.dom() =~= s0@.dom().remove(idx as int));
                        assert(s0@.dom().remove(idx as int).len() == s0@.dom().len() - 1);
                    }
                    self.len = self.len - 1;
                    proof {
                        assert(self@ =~= v1);
                    }
                } else {
                    proof {
                        assert(self@.dom() =~= s0@.dom());
                    }
                }
                assert(self.len == self@.dom().len());
                prev
            },
        }
    }

    /// Whether entity `idx` has a component here.
    pub fn contains(&self, idx: u32) -> (r: bool)
        requires
            self.wf(),
        ensures
            r == self@.dom().contains(idx as int),
    {
        if idx >= CAPACITY {
            return false;
        }
        let (o, m, i) = split(idx);
        proof {
            lemma_view_at(*self, o as int, m as int, i as int);
        }
        match &self.root.data[o as usize] {
            None => false,
            Some(mb) => match &mb.data[m as usize] {
                None => false,
                Some(lf) => lf.data[i as usize].is_some(),
            },
        }
    }

    /// The component of entity `idx`, if any.
    pub fn get(&self, idx: u32) -> (r: Option<&T>)
        requires
            self.wf(),
        ensures
            r == if self@.dom().contains(idx as int) { Some(&self@[idx as int]) } else { None::<&T> },
    {
        if idx >= CAPACITY {
            return None;
        }
        let (o, m, i) = split(idx);
        proof {
            lemma_view_at(*self, o as int, m as int, i as int);
        }
        match &self.root.data[o as usize] {
            None => None,
            Some(mb) => match &mb.data[m as usize] {
                None => None,
                Some(lf) => match &lf.data[i as usize] {
                    None => None,
                    Some(v) => Some(v),
                },
            },
        }
    }

    /// Shared access to the component of entity `idx`, if any.
    pub fn view_of(&self, idx: u32) -> (r: Option<ComponentView<'_, T>>)
        requires
            self.wf(),
        ensures
            r is Some <==> self@.dom().contains(idx as int),
            r is Some ==> *r.unwrap().data == self@[idx as int],
    {
        match self.get(idx) {
            Some(v) => Some(ComponentView::new(v)),
            None => None,
        }
    }

    /// Whether the component of entity `idx` was written since the last clean-up.
    pub fn is_changed(&self, idx: u32) -> (r: bool)
        requires
            self.wf(),
        ensures
            r == self.changed().contains(idx as int),
    {
        if idx >= CAPACITY {
            return false;
        }
        let (o, m, i) = split(idx);
        proof {
            lemma_view_at(*self, o as int, m as int, i as int);
        }
        match &self.root.data[o as usize] {
            None => false,
            Some(mb) => match &mb.data[m as usize] {
                None => false,
                Some(lf) => (lf.change_mask >> i) & 1 == 1,
            },
        }
    }
}

/// Clears the change marks of a middle block and of every leaf it holds.
fn mid_clear_changes<T>(b: Block<Block<T>>) -> (r: Block<Block<T>>)
    requires
        mid_wf(b),
        b.presence_mask != 0,
    ensures
        mid_wf(r),
        r.presence_mask == b.presence_mask,
        r.absence_mask == b.absence_mask,
        r.change_mask == 0,
        forall|q: int, j: int| 0 <= q < 128 && 0 <= j < 128 ==> #[trigger] mid_slot(Some(r), q, j) == mid_slot(Some(b), q, j),
        forall|q: int, j: int| 0 <= q < 128 && 0 <= j < 128 ==> !#[trigger] mid_dirty(Some(r), q, j),
{
    let mut mb = b;
    let mut q: u32 = 0;
    while q < 128
        invariant
            q <= 128,
            mid_wf(b),
            mb.data@.len() == 128,
            mb.presence_mask == b.presence_mask,
            mb.absence_mask == b.absence_mask,
            mb.change_mask == b.change_mask,
            forall|p: int| q <= p < 128 ==> #[trigger] mb.data@[p] == b.data@[p],
            forall|p: int| 0 <= p < q ==> (#[trigger] mb.data@[p] is Some) == (b.data@[p] is Some),
            forall|p: int| 0 <= p < q && #[trigger] mb.data@[p] is Some ==> {
                let l = mb.data@[p].unwrap();
                let l0 = b.data@[p].unwrap();
                &&& l.data@ == l0.data@
                &&& l.presence_mask == l0.presence_mask
                &&& l.absence_mask == l0.absence_mask
                &&& l.change_mask == 0
            },
        decreases 128 - q,
    {
        if (mb.change_mask >> q) & 1 == 1 {
            let leaf = mb.take(q);
            match leaf {
                Some(mut lf) => {
                    lf.change_mask = 0;
                    mb.data[q as usize] = Some(lf);
                },
                None => {
                    mb.data[q as usize] = None;
                },
            }
        } else {
            proof {
                if b.data@[q as int] is Some {
                    assert(!has_bit(b.change_mask, q as int));
                    assert(b.data@[q as int].unwrap().change_mask == 0);
                }
            }
        }
        q = q + 1;
    }
    mb.change_mask = 0;
    proof {
        broadcast use lemma_bit_zero;
        assert forall|p: int| 0 <= p < 128 && #[trigger] mb.data@[p] is Some implies leaf_wf(mb.data@[p].unwrap()) && mb.data@[p].unwrap().presence_mask != 0 by {
            let l = mb.data@[p].unwrap();
            assert(l.slots_wf());
        }
        assert forall|q: int, j: int| 0 <= q < 128 && 0 <= j < 128 implies #[trigger] mid_slot(Some(mb), q, j) == mid_slot(Some(b), q, j) by {
            if mb.data@[q] is Some {
                assert(mb.data@[q].unwrap().data@ == b.data@[q].unwrap().data@);
            }
        }
    }
    mb
}

impl<T> Storage<T> {
    /// Clears every change mark; the components stay as they are.
    pub fn clear_changes(&mut self)
        requires
            old(self).wf(),
        ensures
            final(self).wf(),
            final(self)@ == old(self)@,
            final(self).changed() == Set::<int>::empty(),
    {
        let ghost s0 = *self;
        let ghost r0 = self.root;
        let mut o: u32 = 0;
        while o < 128
            invariant
                o <= 128,
                self.len == s0.len,
                self.root.data@.len() == 128,
                self.root.presence_mask == r0.presence_mask,
                self.root.absence_mask == r0.absence_mask,
                self.root.change_mask == r0.change_mask,
                root_wf(r0),
                forall|p: int| o <= p < 128 ==> #[trigger] self.root.data@[p] == r0.data@[p],
                forall|p: int| 0 <= p < o ==> (#[trigger] self.root.data@[p] is Some) == (r0.data@[p] is Some),
                forall|p: int| 0 <= p < o && #[trigger] self.root.data@[p] is Some ==> {
                    let b = self.root.data@[p].unwrap();
                    let b0 = r0.data@[p].unwrap();
                    &&& mid_wf(b)
                    &&& b.presence_mask == b0.presence_mask
                    &&& b.absence_mask == b0.absence_mask
                    &&& b.change_mask == 0
                    &&& forall|q: int, j: int| 0 <= q < 128 && 0 <= j < 128 ==> #[trigger] mid_slot(Some(b), q, j) == mid_slot(Some(b0), q, j)
                    &&& forall|q: int, j: int| 0 <= q < 128 && 0 <= j < 128 ==> !#[trigger] mid_dirty(Some(b), q, j)
                },
            decreases 128 - o,
        {
            if (self.root.change_mask >> o) & 1 == 1 {
                let mid = self.root.take(o);
                match mid {
                    Some(mb) => {
                        let nb = mid_clear_changes(mb);
                        self.root.data[o as usize] = Some(nb);
                    },
                    None => {
                        self.root.data[o as usize] = None;
                    },
                }
            } else {
                proof {
                    if r0.data@[o as int] is Some {
                        let b0 = r0.data@[o as int].unwrap();
                        assert(!has_bit(r0.change_mask, o as int));
                        assert(b0.change_mask == 0);
                        assert forall|q: int, j: int| 0 <= q < 128 && 0 <= j < 128 implies !#[trigger] mid_dirty(Some(b0), q, j) by {
                            lemma_bit_zero(q);
                            if b0.data@[q] is Some {
                                assert(!has_bit(b0.change_mask, q));
                                assert(b0.data@[q].unwrap().change_mask == 0);
                                lemma_bit_zero(j);
                            }
                        }
                    }
                }
            }
            o = o + 1;
        }
        self.root.change_mask = 0;
        proof {
            broadcast use lemma_bit_zero;
            let rb = self.root;
            assert(root_wf(rb)) by {
                assert forall|p: int| 0 <= p < 128 implies (#[trigger] has_bit(rb.presence_mask, p) <==> rb.data@[p] is Some) by {
                    assert(has_bit(r0.presence_mask, p) <==> r0.data@[p] is Some);
                }
                assert forall|p: int| 0 <= p < 128 implies (#[trigger] has_bit(rb.absence_mask, p) <==> (rb.data@[p] is Some && rb.data@[p].unwrap().absence_mask == u128::MAX)) by {
                    assert(has_bit(r0.absence_mask, p) <==> (r0.data@[p] is Some && r0.data@[p].unwrap().absence_mask == u128::MAX));
                }
            }
            assert forall|p: int, q: int, j: int| in_range(p, q, j) implies #[trigger] self.slot(p, q, j) == s0.slot(p, q, j) by {
                if rb.data@[p] is Some {
                    let b = rb.data@[p].unwrap();
                    assert(mid_slot(Some(b), q, j) == mid_slot(r0.data@[p], q, j));
                }
            }
            assert(self@ =~= s0@);
            assert forall|idx: int| !#[trigger] self.changed().contains(idx) by {
                if 0 <= idx < CAPACITY {
                    lemma_split_ix(idx);
                    let p = outer_of(idx);
                    if rb.data@[p] is Some {
                        let b = rb.data@[p].unwrap();
                        assert(!mid_dirty(Some(b), middle_of(idx), inner_of(idx)));
                    }
                }
            }
            assert(self.changed() =~= Set::<int>::empty());
        }
    }
}

/// A storage that holds every address holds `CAPACITY` components.
proof fn lemma_all_present<T>(s: Storage<T>)
    requires
        forall|o: int, m: int, i: int| in_range(o, m, i) ==> #[trigger] s.has(o, m, i),
    ensures
        s@.dom().len() == CAPACITY,
{
    let range = vstd::set_lib::set_int_range(0, CAPACITY as int);
    vstd::set_lib::lemma_int_range(0, CAPACITY as int);
    assert forall|idx: int| #[trigger] range.contains(idx) implies s@.dom().contains(idx) by {
        lemma_split_ix(idx);
        assert(s.has(outer_of(idx), middle_of(idx), inner_of(idx)));
    }
    assert(s@.dom() =~= range);
}

impl Storage<Entity> {
    /// Creates an entity at the lowest free index and stores it there.
    pub fn spawn(&mut self) -> (e: Entity)
        requires
            old(self).wf(),
            old(self)@.dom().len() < CAPACITY,
        ensures
            final(self).wf(),
            e.index < CAPACITY,
            !old(self)@.dom().contains(e.index as int),
            forall|j: int| 0 <= j < e.index ==> old(self)@.dom().contains(j),
            final(self)@ == old(self)@.insert(e.index as int, e),
            final(self).changed() == old(self).changed().insert(e.index as int),
    {
        let ghost s0 = *self;
        let rb = &self.root;
        let o = lowest_bit(!rb.absence_mask);
        proof {
            if o == 128 {
                assert forall|p: int, q: int, j: int| in_range(p, q, j) implies #[trigger] s0.has(p, q, j) by {
                    lemma_bit_not(rb.absence_mask, p);
                    let b = rb.data@[p].unwrap();
                    lemma_bit_full(q);
                    lemma_bit_full(j);
                    assert(has_bit(b.absence_mask, q));
                    let l = b.data@[q].unwrap();
                    assert(has_bit(l.presence_mask, j));
                }
                lemma_all_present(s0);
            }
            lemma_bit_not(rb.absence_mask, o as int);
        }
        let (m, i) = match &rb.data[o as usize] {
            None => (0u32, 0u32),
            Some(mb) => {
                let m = lowest_bit(!mb.absence_mask);
                proof {
                    if m == 128 {
                        lemma_bit_not(mb.absence_mask, 0);
                        assert forall|q: int| 0 <= q < 128 implies has_bit(mb.absence_mask, q) by {
                            lemma_bit_not(mb.absence_mask, q);
                        }
                        assert(mb.absence_mask == u128::MAX) by {
                            assert forall|q: int| 0 <= q < 128 implies has_bit(mb.absence_mask, q) == has_bit(u128::MAX, q) by {
                                lemma_bit_not(mb.absence_mask, q);
                                lemma_bit_full(q);
                            }
                            crate::mask::lemma_bits_ext(mb.absence_mask, u128::MAX);
                        }
                    }
                    lemma_bit_not(mb.absence_mask, m as int);
                }
                match &mb.data[m as usize] {
                    None => (m, 0u32),
                    Some(lf) => {
                        let i = lowest_bit(!lf.presence_mask);
                        proof {
                            if i == 128 {
                                assert(lf.presence_mask == u128::MAX) by {
                                    assert forall|j: int| 0 <= j < 128 implies has_bit(lf.presence_mask, j) == has_bit(u128::MAX, j) by {
                                        lemma_bit_not(lf.presence_mask, j);
                                        lemma_bit_full(j);
                                    }
                                    crate::mask::lemma_bits_ext(lf.presence_mask, u128::MAX);
                                }
                            }
                            lemma_bit_not(lf.presence_mask, i as int);
                        }
                        (m, i)
                    },
                }
            },
        };
        let idx = join(o, m, i);
        proof {
            lemma_view_at(s0, o as int, m as int, i as int);
            assert(!s0.has(o as int, m as int, i as int));
            assert forall|j: int| 0 <= j < idx implies s0@.dom().contains(j) by {
                lemma_split_ix(j);
                let p = outer_of(j);
                let q = middle_of(j);
                let k = inner_of(j);
                lemma_ix_lex(o as int, m as int, i as int, p, q, k);
                lemma_view_at(s0, p, q, k);
                if p < o {
                    lemma_bit_not(rb.absence_mask, p);
                    let b = rb.data@[p].unwrap();
                    lemma_bit_full(q);
                    lemma_bit_full(k);
                    assert(has_bit(b.absence_mask, q));
                    let l = b.data@[q].unwrap();
                    assert(has_bit(l.presence_mask, k));
                } else if q < m {
                    let b = rb.data@[p].unwrap();
                    lemma_bit_not(b.absence_mask, q);
                    lemma_bit_full(k);
                    let l = b.data@[q].unwrap();
                    assert(has_bit(l.presence_mask, k));
                } else {
                    let b = rb.data@[p].unwrap();
                    let l = b.data@[q].unwrap();
                    lemma_bit_not(l.presence_mask, k);
                    assert(has_bit(l.presence_mask, k));
                }
            }
        }
        let e = Entity { index: idx };
        self.set(idx, e);
        e
    }
}

/// A changed slot is occupied and marked changed at every level above it.
proof fn lemma_dirty_summary<T>(s: Storage<T>, o: int, m: int, i: int)
    requires
        s.wf(),
        s.dirty(o, m, i),
    ensures
        s.has(o, m, i),
        has_bit(s.root.change_mask, o),
        has_bit(s.root.data@[o].unwrap().change_mask, m),
{
    let b = s.root.data@[o].unwrap();
    let l = b.data@[m].unwrap();
    assert(has_bit(l.change_mask, i));
    assert(l.change_mask != 0) by {
        if l.change_mask == 0 {
            lemma_bit_zero(i);
        }
    }
    assert(has_bit(b.change_mask, m));
    assert(b.change_mask != 0) by {
        if b.change_mask == 0 {
            lemma_bit_zero(m);
        }
    }
}

/// An occupied slot is marked present at every level above it.
proof fn lemma_has_summary<T>(s: Storage<T>, o: int, m: int, i: int)
    requires
        s.wf(),
        s.has(o, m, i),
    ensures
        has_bit(s.root.presence_mask, o),
        has_bit(s.root.data@[o].unwrap().presence_mask, m),
        has_bit(s.root.data@[o].unwrap().data@[m].unwrap().presence_mask, i),
{
}

/// A leaf marked present in middle block `o` holds some slot.
proof fn lemma_leaf_witness<T>(s: Storage<T>, o: int, m: int) -> (i: int)
    requires
        s.wf(),
        0 <= o < 128,
        0 <= m < 128,
        s.root.data@[o] is Some,
        has_bit(s.root.data@[o].unwrap().presence_mask, m),
    ensures
        0 <= i < 128,
        s.has(o, m, i),
{
    let l = s.root.data@[o].unwrap().data@[m].unwrap();
    crate::mask::lemma_nonzero_has_bit(l.presence_mask)
}

/// A middle block marked present holds some slot.
proof fn lemma_block_witness<T>(s: Storage<T>, o: int) -> (r: (int, int))
    requires
        s.wf(),
        0 <= o < 128,
        has_bit(s.root.presence_mask, o),
    ensures
        in_range(o, r.0, r.1),
        s.has(o, r.0, r.1),
{
    let b = s.root.data@[o].unwrap();
    let m = crate::mask::lemma_nonzero_has_bit(b.presence_mask);
    let i = lemma_leaf_witness(s, o, m);
    (m, i)
}

/// A leaf marked changed in middle block `o` has some changed slot.
proof fn lemma_leaf_change_witness<T>(s: Storage<T>, o: int, m: int) -> (i: int)
    requires
        s.wf(),
        0 <= o < 128,
        0 <= m < 128,
        s.root.data@[o] is Some,
        has_bit(s.root.data@[o].unwrap().change_mask, m),
    ensures
        0 <= i < 128,
        s.dirty(o, m, i),
{
    let l = s.root.data@[o].unwrap().data@[m].unwrap();
    crate::mask::lemma_nonzero_has_bit(l.change_mask)
}

/// A middle block marked changed has some changed slot.
proof fn lemma_block_change_witness<T>(s: Storage<T>, o: int) -> (r: (int, int))
    requires
        s.wf(),
        0 <= o < 128,
        has_bit(s.root.change_mask, o),
    ensures
        in_range(o, r.0, r.1),
        s.dirty(o, r.0, r.1),
{
    let b = s.root.data@[o].unwrap();
    let m = crate::mask::lemma_nonzero_has_bit(b.change_mask);
    let i = lemma_leaf_change_witness(s, o, m);
    (m, i)
}

/// The root presence mask of a well-formed storage is nonzero exactly when
/// the storage holds some component, and its count is the number of
/// components it holds.
pub proof fn lemma_root_presence<T>(s: Storage<T>)
    requires
        s.wf(),
    ensures
        (s.root_presence() != 0) <==> s@.dom().len() > 0,
        s.count() == s@.dom().len(),
        s@.dom().finite(),
{
    lemma_view_finite(s);
    if s.root.presence_mask != 0 {
        let o = crate::mask::lemma_nonzero_has_bit(s.root.presence_mask);
        let (m, i) = lemma_block_witness(s, o);
        lemma_ix_split(o, m, i);
        lemma_view_at(s, o, m, i);
        assert(s@.dom().contains(ix(o, m, i)));
    }
    if s@.dom().len() > 0 {
        let idx = s@.dom().choose();
        assert(s@.dom().contains(idx));
        lemma_split_ix(idx);
        lemma_view_at(s, outer_of(idx), middle_of(idx), inner_of(idx));
        lemma_has_summary(s, outer_of(idx), middle_of(idx), inner_of(idx));
        lemma_bit_zero(outer_of(idx));
    }
}

impl<T> Presence for Storage<T> {
    open spec fn valid(&self) -> bool {
        self.wf()
    }

    open spec fn holds(&self, o: int, m: int, i: int) -> bool {
        self.has(o, m, i)
    }

    open spec fn marked(&self, o: int, m: int, i: int) -> bool {
        self.dirty(o, m, i)
    }

    fn outer_presence(&self) -> (r: u128) {
        proof {
            assert forall|o: int, m: int, i: int| in_range(o, m, i) && #[trigger] self.has(o, m, i) implies has_bit(self.root.presence_mask, o) by {
                lemma_has_summary(*self, o, m, i);
            }
            assert forall|o: int| 0 <= o < 128 implies (#[trigger] has_bit(self.root.presence_mask, o) <==> exists|m: int, i: int| in_range(o, m, i) && #[trigger] self.holds(o, m, i)) by {
                if has_bit(self.root.presence_mask, o) {
                    let (m, i) = lemma_block_witness(*self, o);
                    assert(self.holds(o, m, i));
                }
                if exists|m: int, i: int| in_range(o, m, i) && #[trigger] self.holds(o, m, i) {
                    let (m, i) = choose|m: int, i: int| in_range(o, m, i) && #[trigger] self.holds(o, m, i);
                    lemma_has_summary(*self, o, m, i);
                }
            }
        }
        self.root.presence_mask
    }

    fn middle_presence(&self, o: u32) -> (r: u128) {
        proof {
            assert forall|m: int, i: int| in_range(o as int, m, i) && #[trigger] self.has(o as int, m, i) implies has_bit(self.root.data@[o as int].unwrap().presence_mask, m) by {
                lemma_has_summary(*self, o as int, m, i);
            }
        }
        match &self.root.data[o as usize] {
            Some(mb) => {
                proof {
                    assert forall|m: int| 0 <= m < 128 implies (#[trigger] has_bit(mb.presence_mask, m) <==> exists|i: int| 0 <= i < 128 && #[trigger] self.holds(o as int, m, i)) by {
                        if has_bit(mb.presence_mask, m) {
                            let i = lemma_leaf_witness(*self, o as int, m);
                            assert(self.holds(o as int, m, i));
                        }
                        if exists|i: int| 0 <= i < 128 && #[trigger] self.holds(o as int, m, i) {
                            let i = choose|i: int| 0 <= i < 128 && #[trigger] self.holds(o as int, m, i);
                            lemma_has_summary(*self, o as int, m, i);
                        }
                    }
                }
                mb.presence_mask
            },
            None => {
                proof {
                    broadcast use lemma_bit_zero;
                }
                0
            },
        }
    }

    fn middle_full(&self, o: u32) -> (r: u128) {
        match &self.root.data[o as usize] {
            Some(mb) => {
                proof {
                    assert forall|m: int, i: int| in_range(o as int, m, i) && has_bit(mb.absence_mask, m) implies #[trigger] self.has(o as int, m, i) by {
                        lemma_bit_full(i);
                    }
                    assert forall|m: int| 0 <= m < 128 implies (#[trigger] has_bit(mb.absence_mask, m) <==> forall|i: int| 0 <= i < 128 ==> #[trigger] self.holds(o as int, m, i)) by {
                        if has_bit(mb.absence_mask, m) {
                            assert forall|i: int| 0 <= i < 128 implies #[trigger] self.holds(o as int, m, i) by {
                                lemma_bit_full(i);
                            }
                        }
                        if forall|i: int| 0 <= i < 128 ==> #[trigger] self.holds(o as int, m, i) {
                            assert(self.holds(o as int, m, 0));
                            let l = mb.data@[m].unwrap();
                            assert forall|j: int| 0 <= j < 128 implies has_bit(l.presence_mask, j) == has_bit(u128::MAX, j) by {
                                assert(self.holds(o as int, m, j));
                                lemma_bit_full(j);
                            }
                            crate::mask::lemma_bits_ext(l.presence_mask, u128::MAX);
                        }
                    }
                }
                mb.absence_mask
            },
            None => {
                proof {
                    broadcast use lemma_bit_zero;
                    assert forall|m: int| 0 <= m < 128 implies (#[trigger] has_bit(0u128, m) <==> forall|i: int| 0 <= i < 128 ==> #[trigger] self.holds(o as int, m, i)) by {
                        assert(!self.holds(o as int, m, 0));
                    }
                }
                0
            },
        }
    }

    fn inner_presence(&self, o: u32, m: u32) -> (r: u128) {
        match &self.root.data[o as usize] {
            Some(mb) => match &mb.data[m as usize] {
                Some(lf) => lf.presence_mask,
                None => {
                    proof {
                        broadcast use lemma_bit_zero;
                    }
                    0
                },
            },
            None => {
                proof {
                    broadcast use lemma_bit_zero;
                }
                0
            },
        }
    }

    fn outer_change(&self) -> (r: u128) {
        proof {
            assert forall|o: int, m: int, i: int| in_range(o, m, i) && #[trigger] self.dirty(o, m, i) implies has_bit(self.root.change_mask, o) by {
                lemma_dirty_summary(*self, o, m, i);
            }
            assert forall|o: int| 0 <= o < 128 implies (#[trigger] has_bit(self.root.change_mask, o) <==> exists|m: int, i: int| in_range(o, m, i) && #[trigger] self.marked(o, m, i)) by {
                if has_bit(self.root.change_mask, o) {
                    let (m, i) = lemma_block_change_witness(*self, o);
                    assert(self.marked(o, m, i));
                }
                if exists|m: int, i: int| in_range(o, m, i) && #[trigger] self.marked(o, m, i) {
                    let (m, i) = choose|m: int, i: int| in_range(o, m, i) && #[trigger] self.marked(o, m, i);
                    lemma_dirty_summary(*self, o, m, i);
                }
            }
        }
        self.root.change_mask
    }

    fn middle_change(&self, o: u32) -> (r: u128) {
        proof {
            assert forall|m: int, i: int| in_range(o as int, m, i) && #[trigger] self.dirty(o as int, m, i) implies has_bit(self.root.data@[o as int].unwrap().change_mask, m) by {
                lemma_dirty_summary(*self, o as int, m, i);
            }
        }
        match &self.root.data[o as usize] {
            Some(mb) => {
                proof {
                    assert forall|m: int| 0 <= m < 128 implies (#[trigger] has_bit(mb.change_mask, m) <==> exists|i: int| 0 <= i < 128 && #[trigger] self.marked(o as int, m, i)) by {
                        if has_bit(mb.change_mask, m) {
                            let i = lemma_leaf_change_witness(*self, o as int, m);
                            assert(self.marked(o as int, m, i));
                        }
                        if exists|i: int| 0 <= i < 128 && #[trigger] self.marked(o as int, m, i) {
                            let i = choose|i: int| 0 <= i < 128 && #[trigger] self.marked(o as int, m, i);
                            lemma_dirty_summary(*self, o as int, m, i);
                        }
                    }
                }
                mb.change_mask
            },
            None => {
                proof {
                    broadcast use lemma_bit_zero;
                }
                0
            },
        }
    }

    fn inner_change(&self, o: u32, m: u32) -> (r: u128) {
        match &self.root.data[o as usize] {
            Some(mb) => match &mb.data[m as usize] {
                Some(lf) => lf.change_mask,
                None => {
                    proof {
                        broadcast use lemma_bit_zero;
                    }
                    0
                },
            },
            None => {
                proof {
                    broadcast use lemma_bit_zero;
                }
                0
            },
        }
    }
}

/// Only stored components are marked changed.
pub proof fn lemma_changed_subset<T>(s: Storage<T>)
    requires
        s.wf(),
    ensures
        s.changed().subset_of(s@.dom()),
{
    assert forall|idx: int| #[trigger] s.changed().contains(idx) implies s@.dom().contains(idx) by {
        lemma_split_ix(idx);
        lemma_dirty_summary(s, outer_of(idx), middle_of(idx), inner_of(idx));
    }
}

} // verus!
