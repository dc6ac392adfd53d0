//! Entity indices and their three-level address: an index names slot `inner`
//! of leaf block `middle` of middle block `outer`, 128 slots per level.
use vstd::prelude::*;

verus! {

/// Number of entity indices a storage can address: 128 * 128 * 128.
pub const CAPACITY: u32 = 2097152;

/// The index of slot `i` of leaf `m` of middle block `o`.
pub open spec fn ix(o: int, m: int, i: int) -> int {
    o * 16384 + m * 128 + i
}

pub open spec fn outer_of(idx: int) -> int {
    idx / 16384
}

pub open spec fn middle_of(idx: int) -> int {
    (idx / 128) % 128
}

pub open spec fn inner_of(idx: int) -> int {
    idx % 128
}

/// Whether `o`, `m`, `i` is an address within a storage.
pub open spec fn in_range(o: int, m: int, i: int) -> bool {
    0 <= o < 128 && 0 <= m < 128 && 0 <= i < 128
}

/// Composing an address and splitting the index give the address back.
pub proof fn lemma_ix_split(o: int, m: int, i: int)
    requires
        in_range(o, m, i),
    ensures
        0 <= ix(o, m, i) < CAPACITY,
        outer_of(ix(o, m, i)) == o,
        middle_of(ix(o, m, i)) == m,
        inner_of(ix(o, m, i)) == i,
{
    let idx = ix(o, m, i);
    assert(idx == (o * 128 + m) * 128 + i) by (nonlinear_arith)
        requires
            idx == o * 16384 + m * 128 + i,
    ;
    assert(idx / 128 == o * 128 + m) by (nonlinear_arith)
        requires
            idx == (o * 128 + m) * 128 + i,
            0 <= i < 128,
    ;
    assert(idx % 128 == i) by (nonlinear_arith)
        requires
            idx == (o * 128 + m) * 128 + i,
            0 <= i < 128,
    ;
    assert((o * 128 + m) % 128 == m) by (nonlinear_arith)
        requires
            0 <= m < 128,
    ;
    assert(idx / 16384 == o) by (nonlinear_arith)
        requires
            idx == o * 16384 + m * 128 + i,
            0 <= m < 128,
            0 <= i < 128,
    ;
    assert(0 <= idx < 2097152) by (nonlinear_arith)
        requires
            idx == o * 16384 + m * 128 + i,
            in_range(o, m, i),
    ;
}

/// Every index below the capacity is the index of its own address.
pub proof fn lemma_split_ix(idx: int)
    requires
        0 <= idx < CAPACITY,
    ensures
        in_range(outer_of(idx), middle_of(idx), inner_of(idx)),
        ix(outer_of(idx), middle_of(idx), inner_of(idx)) == idx,
{
    let q = idx / 128;
    let o = idx / 16384;
    let m = q % 128;
    let i = idx % 128;
    assert(idx == q * 128 + i) by (nonlinear_arith)
        requires
            q == idx / 128,
            i == idx % 128,
    ;
    assert(q == (q / 128) * 128 + m) by (nonlinear_arith)
        requires
            m == q % 128,
    ;
    assert(q / 128 == o) by (nonlinear_arith)
        requires
            q == idx / 128,
            o == idx / 16384,
            0 <= idx,
    ;
    assert(0 <= o < 128) by (nonlinear_arith)
        requires
            o == idx / 16384,
            0 <= idx < 2097152,
    ;
    assert(idx == o * 16384 + m * 128 + i) by (nonlinear_arith)
        requires
            idx == q * 128 + i,
            q == o * 128 + m,
    ;
}

/// Splits an index below the capacity into its address.
pub fn split(idx: u32) -> (r: (u32, u32, u32))
    requires
        idx < CAPACITY,
    ensures
        r.0 == outer_of(idx as int),
        r.1 == middle_of(idx as int),
        r.2 == inner_of(idx as int),
        in_range(r.0 as int, r.1 as int, r.2 as int),
        ix(r.0 as int, r.1 as int, r.2 as int) == idx,
{
    proof {
        lemma_split_ix(idx as int);
    }
    assert(idx >> 14u32 == idx / 16384) by (bit_vector);
    assert((idx >> 7u32) & 127u32 == (idx / 128) % 128) by (bit_vector);
    assert(idx & 127u32 == idx % 128) by (bit_vector);
    (idx >> 14, (idx >> 7) & 127, idx & 127)
}

/// The index of an address.
pub fn join(o: u32, m: u32, i: u32) -> (r: u32)
    requires
        in_range(o as int, m as int, i as int),
    ensures
        r == ix(o as int, m as int, i as int),
        r < CAPACITY,
{
    proof {
        lemma_ix_split(o as int, m as int, i as int);
    }
    o * 16384 + m * 128 + i
}

/// Indices order addresses lexicographically.
pub proof fn lemma_ix_lex(o: int, m: int, i: int, p: int, q: int, j: int)
    requires
        in_range(o, m, i),
        in_range(p, q, j),
        ix(p, q, j) < ix(o, m, i),
    ensures
        p < o || (p == o && q < m) || (p == o && q == m && j < i),
{
    if p > o {
        assert(ix(p, q, j) >= ix(o, m, i)) by (nonlinear_arith)
            requires
                p >= o + 1,
                in_range(o, m, i),
                in_range(p, q, j),
        ;
    } else if p == o && q > m {
        assert(ix(p, q, j) >= ix(o, m, i)) by (nonlinear_arith)
            requires
                p == o,
                q >= m + 1,
                in_range(o, m, i),
                in_range(p, q, j),
        ;
    }
}

/// The 128 indices from the first slot of leaf `m` of block `o` are exactly
/// the slots of that leaf.
pub proof fn lemma_ix_leaf(o: int, m: int, p: int, q: int, j: int)
    requires
        in_range(o, m, 0),
        in_range(p, q, j),
    ensures
        (ix(o, m, 0) <= ix(p, q, j) < ix(o, m, 0) + 128) == (p == o && q == m),
        p == o && q == m ==> ix(p, q, j) - ix(o, m, 0) == j,
{
    let a = p * 128 + q;
    let b = o * 128 + m;
    assert(ix(p, q, j) == a * 128 + j) by (nonlinear_arith)
        requires
            a == p * 128 + q,
    ;
    assert(ix(o, m, 0) == b * 128) by (nonlinear_arith)
        requires
            b == o * 128 + m,
    ;
    if ix(o, m, 0) <= ix(p, q, j) < ix(o, m, 0) + 128 {
        assert(a == b) by (nonlinear_arith)
            requires
                b * 128 <= a * 128 + j < b * 128 + 128,
                0 <= j < 128,
        ;
        assert(p == o && q == m) by (nonlinear_arith)
            requires
                p * 128 + q == o * 128 + m,
                0 <= q < 128,
                0 <= m < 128,
        ;
    }
}

/// The slots of a leaf come before those of every later leaf.
pub proof fn lemma_ix_leaf_order(o: int, m: int, p: int, q: int)
    requires
        in_range(o, m, 0),
        in_range(p, q, 0),
        o < p || (o == p && m < q),
    ensures
        ix(o, m, 0) + 128 <= ix(p, q, 0),
{
    assert(ix(o, m, 0) + 128 <= ix(p, q, 0)) by (nonlinear_arith)
        requires
            in_range(o, m, 0),
            in_range(p, q, 0),
            o < p || (o == p && m < q),
    ;
}

} // verus!
