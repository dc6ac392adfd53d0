//! 128-bit occupancy masks: the per-bit view of a `u128`, the scans over it
//! (lowest set bit, length of a run of ones) and the decomposition of a mask
//! into maximal runs of consecutive set bits.
use vstd::prelude::*;

verus! {

/// Whether bit `i` of `m` is set.
pub open spec fn has_bit(m: u128, i: int) -> bool {
    0 <= i < 128 && (m >> (i as u128)) & 1u128 == 1u128
}

pub broadcast proof fn lemma_bit_and(a: u128, b: u128, j: int)
    ensures
        #[trigger] has_bit(a & b, j) == (has_bit(a, j) && has_bit(b, j)),
{
    if 0 <= j < 128 {
        let jj = j as u128;
        assert(((a & b) >> jj) & 1u128 == 1u128 <==> ((a >> jj) & 1u128 == 1u128 && (b >> jj)
            & 1u128 == 1u128)) by (bit_vector);
    }
}

pub broadcast proof fn lemma_bit_or(a: u128, b: u128, j: int)
    ensures
        #[trigger] has_bit(a | b, j) == (has_bit(a, j) || has_bit(b, j)),
{
    if 0 <= j < 128 {
        let jj = j as u128;
        assert(((a | b) >> jj) & 1u128 == 1u128 <==> ((a >> jj) & 1u128 == 1u128 || (b >> jj)
            & 1u128 == 1u128)) by (bit_vector);
    }
}

pub broadcast proof fn lemma_bit_not(a: u128, j: int)
    ensures
        #[trigger] has_bit(!a, j) == (0 <= j < 128 && !has_bit(a, j)),
{
    if 0 <= j < 128 {
        let jj = j as u128;
        assert(((!a) >> jj) & 1u128 == 1u128 <==> !((a >> jj) & 1u128 == 1u128)) by (bit_vector)
            requires
                jj < 128,
        ;
    }
}

pub broadcast proof fn lemma_bit_zero(j: int)
    ensures
        !#[trigger] has_bit(0u128, j),
{
    if 0 <= j < 128 {
        let jj = j as u128;
        assert((0u128 >> jj) & 1u128 == 0u128) by (bit_vector);
    }
}

pub broadcast proof fn lemma_bit_full(j: int)
    ensures
        #[trigger] has_bit(u128::MAX, j) == (0 <= j < 128),
{
    if 0 <= j < 128 {
        let jj = j as u128;
        assert((0xffff_ffff_ffff_ffff_ffff_ffff_ffff_ffffu128 >> jj) & 1u128 == 1u128)
            by (bit_vector)
            requires
                jj < 128,
        ;
    }
}

/// The single-bit mask `1 << i`.
pub broadcast proof fn lemma_bit_single(i: u32, j: int)
    requires
        i < 128,
    ensures
        #[trigger] has_bit(1u128 << i, j) == (j == i),
{
    if 0 <= j < 128 {
        let jj = j as u128;
        let ii = i as u128;
        assert(((1u128 << ii) >> jj) & 1u128 == 1u128 <==> jj == ii) by (bit_vector)
            requires
                ii < 128,
                jj < 128,
        ;
    }
}

pub broadcast group group_mask_bits {
    lemma_bit_and,
    lemma_bit_or,
    lemma_bit_not,
    lemma_bit_zero,
    lemma_bit_full,
    lemma_bit_single,
}

/// Two masks with the same bits are the same mask.
pub proof fn lemma_bits_ext(a: u128, b: u128)
    requires
        forall|j: int| 0 <= j < 128 ==> has_bit(a, j) == has_bit(b, j),
    ensures
        a == b,
{
    broadcast use group_mask_bits;

    let d = a ^ b;
    assert forall|j: int| 0 <= j < 128 implies !has_bit(d, j) by {
        assert(has_bit(a, j) == has_bit(b, j));
        let jj = j as u128;
        assert(((a >> jj) & 1u128 == 1u128) == ((b >> jj) & 1u128 == 1u128) ==> ((a ^ b) >> jj)
            & 1u128 != 1u128) by (bit_vector)
            requires
                jj < 128,
        ;
    }
    lemma_no_bits_is_zero(d);
    assert(a ^ b == 0u128 ==> a == b) by (bit_vector);
}

/// A mask without set bits is zero.
pub proof fn lemma_no_bits_is_zero(m: u128)
    requires
        forall|j: int| 0 <= j < 128 ==> !has_bit(m, j),
    ensures
        m == 0,
{
    if m != 0 {
        let w = lemma_nonzero_has_bit(m);
        assert(has_bit(m, w));
    }
}

/// A nonzero mask has a set bit.
pub proof fn lemma_nonzero_has_bit(m: u128) -> (w: int)
    requires
        m != 0,
    ensures
        0 <= w < 128,
        has_bit(m, w),
    decreases m,
{
    if m & 1u128 == 1u128 {
        assert(m >> 0u128 == m) by (bit_vector);
        0
    } else {
        let h = m / 2;
        assert(m & 1u128 != 1u128 && m != 0 ==> m / 2 != 0 && m / 2 < m) by (bit_vector);
        let w = lemma_nonzero_has_bit(h);
        let ww = w as u128;
        assert(ww < 128 && ((m / 2) >> ww) & 1u128 == 1u128 ==> ww < 127 && (m >> (ww + 1)) & 1u128
            == 1u128) by (bit_vector);
        w + 1
    }
}

/// Bit `j` of `m` is bit `j` of its low half, and bit `j + 64` is bit `j`
/// of its high half.
proof fn lemma_halves(m: u128, j: u64)
    requires
        j < 64,
    ensures
        has_bit(m, j as int) == (((m as u64) >> j) & 1u64 == 1u64),
        has_bit(m, j + 64) == ((((m >> 64u128) as u64) >> j) & 1u64 == 1u64),
{
    let jj = j as u128;
    assert(((m >> jj) & 1u128 == 1u128) == (((m as u64) >> j) & 1u64 == 1u64)) by (bit_vector)
        requires
            jj == j as u128,
            j < 64,
    ;
    assert(((m >> (jj + 64)) & 1u128 == 1u128) == ((((m >> 64u128) as u64) >> j) & 1u64 == 1u64)) by (bit_vector)
        requires
            jj == j as u128,
            j < 64,
    ;
}

/// Index of the lowest set bit of `m`, or 128 when `m` is zero.
pub fn lowest_bit(m: u128) -> (r: u32)
    ensures
        r <= 128,
        r == 128 <==> m == 0,
        r < 128 ==> has_bit(m, r as int),
        forall|j: int| 0 <= j < r ==> !has_bit(m, j),
{
    broadcast use vstd::std_specs::bits::axiom_u64_trailing_zeros;

    let lo: u64 = #[verifier::truncate] (m as u64);
    let hi: u64 = #[verifier::truncate] ((m >> 64u128) as u64);
    if lo != 0 {
        let r = lo.trailing_zeros();
        proof {
            lemma_halves(m, r as u64);
            assert forall|j: int| 0 <= j < r implies !has_bit(m, j) by {
                lemma_halves(m, j as u64);
                assert((lo >> (j as u64)) & 1u64 == 0u64);
            }
        }
        r
    } else {
        proof {
            assert forall|j: int| 0 <= j < 64 implies !has_bit(m, j) by {
                let jj = j as u64;
                lemma_halves(m, jj);
                assert((0u64 >> jj) & 1u64 == 0u64) by (bit_vector);
            }
        }
        if hi == 0 {
            assert(m == 0) by (bit_vector)
                requires
                    lo == m as u64,
                    hi == (m >> 64u128) as u64,
                    lo == 0,
                    hi == 0,
            ;
            proof {
                broadcast use lemma_bit_zero;
            }
            128
        } else {
            let t = hi.trailing_zeros();
            proof {
                lemma_halves(m, t as u64);
                assert forall|j: int| 64 <= j < 64 + t implies !has_bit(m, j) by {
                    lemma_halves(m, (j - 64) as u64);
                    assert((hi >> ((j - 64) as u64)) & 1u64 == 0u64);
                }
                assert(m != 0) by (bit_vector)
                    requires
                        hi == (m >> 64u128) as u64,
                        hi != 0,
                ;
            }
            64 + t
        }
    }
}

/// Bit `j` of `m` shifted right by `s` is bit `s + j` of `m`, or clear
/// past the top.
proof fn lemma_shifted_bit(m: u128, s: u32, j: int)
    requires
        s < 128,
        0 <= j < 128,
    ensures
        has_bit(m >> (s as u128), j) == (s + j < 128 && has_bit(m, s + j)),
{
    let ss = s as u128;
    let jj = j as u128;
    assert((((m >> ss) >> jj) & 1u128 == 1u128) == (ss + jj < 128 && (m >> ((ss + jj) as u128)) & 1u128 == 1u128)) by (bit_vector)
        requires
            ss < 128,
            jj < 128,
    ;
}

/// Length of the run of set bits of `m` that begins at bit `start`.
pub fn run_length(m: u128, start: u32) -> (r: u32)
    requires
        start < 128,
    ensures
        start + r <= 128,
        forall|j: int| start <= j < start + r ==> has_bit(m, j),
        start + r == 128 || !has_bit(m, start + r),
{
    broadcast use vstd::std_specs::bits::axiom_u64_trailing_ones;

    let x: u128 = m >> start;
    let lo: u64 = #[verifier::truncate] (x as u64);
    let hi: u64 = #[verifier::truncate] ((x >> 64u128) as u64);
    proof {
        assert(x == m >> (start as u128));
        assert forall|j: int| 0 <= j < 64 implies (#[trigger] has_bit(x, j) == ((lo >> (j as u64)) & 1u64 == 1u64))
            && has_bit(x, j + 64) == ((hi >> (j as u64)) & 1u64 == 1u64) by {
            lemma_halves(x, j as u64);
        }
        assert forall|j: int| 0 <= j < 128 implies #[trigger] has_bit(x, j) == (start + j < 128 && has_bit(m, start + j)) by {
            lemma_shifted_bit(m, start, j);
        }
    }
    if lo != u64::MAX {
        let t = lo.trailing_ones();
        proof {
            assert forall|j: int| start <= j < start + t implies has_bit(m, j) by {
                assert((lo >> ((j - start) as u64)) & 1u64 == 1u64);
                assert(has_bit(x, j - start));
            }
            if t > 0 {
                assert((lo >> ((t - 1) as u64)) & 1u64 == 1u64);
                assert(has_bit(x, t - 1));
            }
            assert((lo >> (t as u64)) & 1u64 == 0u64);
            assert(!has_bit(x, t as int));
        }
        t
    } else {
        let t = hi.trailing_ones();
        proof {
            assert((lo >> 63u64) & 1u64 == 1u64);
            assert(has_bit(x, 63));
            assert forall|j: int| start <= j < start + 64 implies has_bit(m, j) by {
                assert((lo >> ((j - start) as u64)) & 1u64 == 1u64);
                assert(has_bit(x, j - start));
            }
            assert forall|j: int| start + 64 <= j < start + 64 + t implies has_bit(m, j) by {
                assert((hi >> ((j - start - 64) as u64)) & 1u64 == 1u64);
                lemma_halves(x, (j - start - 64) as u64);
                assert(has_bit(x, (j - start - 64) + 64));
            }
            if t > 0 {
                assert((hi >> ((t - 1) as u64)) & 1u64 == 1u64);
                lemma_halves(x, (t - 1) as u64);
                assert(has_bit(x, (t - 1) + 64));
            }
            if t < 64 {
                assert((hi >> (t as u64)) & 1u64 == 0u64);
                lemma_halves(x, t as u64);
                assert(!has_bit(x, t + 64));
            }
        }
        64 + t
    }
}

/// The mask whose set bits are exactly `start .. start + len`.
pub fn range_mask(start: u32, len: u32) -> (r: u128)
    requires
        1 <= len,
        start + len <= 128,
    ensures
        forall|j: int| #[trigger] has_bit(r, j) == (start <= j < start + len),
{
    if len == 128 {
        proof {
            broadcast use lemma_bit_full;

        }
        u128::MAX
    } else {
        let top = 1u128 << len;
        assert(1u128 << (len as u128) >= 1u128) by (bit_vector)
            requires
                len < 128,
        ;
        let low = top - 1;
        let r = low << start;
        assert forall|j: int| #[trigger] has_bit(r, j) == (start <= j < start + len) by {
            if 0 <= j < 128 {
                let jj = j as u128;
                let s = start as u128;
                let l = len as u128;
                assert(((low << s) >> jj) & 1u128 == 1u128 <==> (jj >= s && (low >> ((jj - s) as u128))
                    & 1u128 == 1u128)) by (bit_vector)
                    requires
                        s < 128,
                        jj < 128,
                ;
                if jj >= s {
                    let k = (jj - s) as u128;
                    assert((low >> k) & 1u128 == 1u128 <==> k < l) by (bit_vector)
                        requires
                            1 <= l < 128,
                            k < 128,
                            low + 1 == 1u128 << l,
                    ;
                }
            }
        }
        r
    }
}

/// Whether index `idx` lies in the run `r`, given as (first index, length).
pub open spec fn in_run(r: (u32, u32), idx: int) -> bool {
    r.0 <= idx < r.0 + r.1
}

/// Whether some run of `runs` covers index `idx`.
pub open spec fn covers(runs: Seq<(u32, u32)>, idx: int) -> bool {
    exists|k: int| 0 <= k < runs.len() && #[trigger] in_run(runs[k], idx)
}

/// Every run is nonempty and lies within `lo .. hi`.
pub open spec fn runs_within(runs: Seq<(u32, u32)>, lo: int, hi: int) -> bool {
    forall|k: int|
        0 <= k < runs.len() ==> {
            &&& #[trigger] runs[k].1 > 0
            &&& lo <= runs[k].0
            &&& runs[k].0 + runs[k].1 <= hi
        }
}

/// Runs come in increasing order, each ending before the next begins.
pub open spec fn runs_ordered(runs: Seq<(u32, u32)>) -> bool {
    forall|k: int, l: int|
        0 <= k < l < runs.len() ==> #[trigger] runs[k].0 + runs[k].1 <= #[trigger] runs[l].0
}

/// Runs come in increasing order with at least one uncovered index between
/// two of them: no two runs could be merged.
pub open spec fn runs_separated(runs: Seq<(u32, u32)>) -> bool {
    forall|k: int, l: int|
        0 <= k < l < runs.len() ==> #[trigger] runs[k].0 + runs[k].1 < #[trigger] runs[l].0
}

pub proof fn lemma_covers_push(runs: Seq<(u32, u32)>, r: (u32, u32), idx: int)
    ensures
        covers(runs.push(r), idx) == (covers(runs, idx) || in_run(r, idx)),
{
    let s = runs.push(r);
    if covers(runs, idx) {
        let k = choose|k: int| 0 <= k < runs.len() && #[trigger] in_run(runs[k], idx);
        assert(s[k] == runs[k]);
    }
    if in_run(r, idx) {
        assert(s[runs.len() as int] == r);
    }
    if covers(s, idx) {
        let k = choose|k: int| 0 <= k < s.len() && #[trigger] in_run(s[k], idx);
        if k < runs.len() {
            assert(s[k] == runs[k]);
        }
    }
}

pub proof fn lemma_covers_append(a: Seq<(u32, u32)>, b: Seq<(u32, u32)>, idx: int)
    ensures
        covers(a + b, idx) == (covers(a, idx) || covers(b, idx)),
{
    let s = a + b;
    if covers(a, idx) {
        let k = choose|k: int| 0 <= k < a.len() && #[trigger] in_run(a[k], idx);
        assert(s[k] == a[k]);
    }
    if covers(b, idx) {
        let k = choose|k: int| 0 <= k < b.len() && #[trigger] in_run(b[k], idx);
        assert(s[a.len() + k] == b[k]);
    }
    if covers(s, idx) {
        let k = choose|k: int| 0 <= k < s.len() && #[trigger] in_run(s[k], idx);
        if k < a.len() {
            assert(s[k] == a[k]);
        } else {
            assert(s[k] == b[k - a.len()]);
        }
    }
}

/// Appends to `out` the maximal runs of set bits of `m`, shifted by `base`,
/// lowest first.
pub fn push_runs(out: &mut Vec<(u32, u32)>, m: u128, base: u32)
    requires
        base + 128 <= u32::MAX,
    ensures
        final(out)@.len() >= old(out)@.len(),
        final(out)@.subrange(0, old(out)@.len() as int) == old(out)@,
        ({
            let added = final(out)@.subrange(old(out)@.len() as int, final(out)@.len() as int);
            &&& runs_within(added, base as int, base + 128)
            &&& runs_separated(added)
            &&& forall|idx: int|
                #[trigger] covers(added, idx) == (base <= idx < base + 128 && has_bit(
                    m,
                    idx - base,
                ))
        }),
{
    broadcast use group_mask_bits;

    let ghost n0 = out@.len() as int;
    let ghost first = out@;
    let mut rest = m;
    let mut floor: u32 = 0;
    assert(out@.subrange(n0, out@.len() as int) =~= Seq::<(u32, u32)>::empty());
    while rest != 0
        invariant
            base + 128 <= u32::MAX,
            0 <= n0 <= out@.len(),
            out@.subrange(0, n0) == first,
            floor <= 128,
            forall|j: int| #[trigger] has_bit(rest, j) ==> floor <= j && has_bit(m, j),
            ({
                let added = out@.subrange(n0, out@.len() as int);
                &&& runs_within(added, base as int, base + 128)
                &&& runs_separated(added)
                &&& forall|k: int|
                    0 <= k < added.len() ==> #[trigger] added[k].0 + added[k].1 <= base + floor
                &&& forall|k: int, j: int|
                    #![trigger added[k], has_bit(rest, j)]
                    0 <= k < added.len() && has_bit(rest, j) ==> added[k].0 + added[k].1 < base
                        + j
                &&& forall|idx: int|
                    #[trigger] covers(added, idx) == (base <= idx < base + 128 && has_bit(
                        m,
                        idx - base,
                    ) && !has_bit(rest, idx - base))
            }),
        decreases 128 - floor,
    {
        let ghost added = out@.subrange(n0, out@.len() as int);
        let start = lowest_bit(rest);
        let len = run_length(rest, start);
        assert(has_bit(rest, start as int));
        let run = (base + start, len);
        let ghost pre = out@;
        out.push(run);
        let range = range_mask(start, len);
        let ghost old_rest = rest;
        rest = rest & !range;
        floor = start + len;
        proof {
            let added2 = out@.subrange(n0, out@.len() as int);
            assert forall|j: int| #[trigger] has_bit(rest, j) == (has_bit(old_rest, j) && !(start
                <= j < floor)) by {
                lemma_bit_and(old_rest, !range, j);
                lemma_bit_not(range, j);
            }
            assert(out@ == pre.push(run));
            assert(added2 =~= added.push(run));
            assert(out@.subrange(0, n0) =~= pre.subrange(0, n0));
            assert forall|j: int| #[trigger] has_bit(rest, j) implies floor <= j && has_bit(m, j) by {
                assert(has_bit(old_rest & !range, j));
                lemma_bit_and(old_rest, !range, j);
                lemma_bit_not(range, j);
                assert(has_bit(!range, j));
                assert(has_bit(old_rest, j));
                if j < floor {
                    assert(start <= j);
                }
                if j == floor {
                    assert(!has_bit(old_rest, floor as int));
                }
            }
            assert forall|idx: int| #[trigger] covers(added2, idx) == (base <= idx < base + 128
                && has_bit(m, idx - base) && !has_bit(rest, idx - base)) by {
                lemma_covers_push(added, run, idx);
                if base <= idx < base + 128 {
                    lemma_bit_and(old_rest, !range, idx - base);
                    lemma_bit_not(range, idx - base);
                    assert(has_bit(rest, idx - base) == (has_bit(old_rest, idx - base) && !has_bit(
                        range,
                        idx - base,
                    )));
                }
            }
            assert forall|k: int, l: int|
                0 <= k < l < added2.len() implies #[trigger] added2[k].0 + added2[k].1
                < #[trigger] added2[l].0 by {
                if l == added2.len() - 1 {
                    assert(added2[k] == added[k]);
                    assert(has_bit(old_rest, start as int));
                } else {
                    assert(added2[k] == added[k]);
                    assert(added2[l] == added[l]);
                }
            }
            assert forall|k: int, j: int|
                #![trigger added2[k], has_bit(rest, j)]
                0 <= k < added2.len() && has_bit(rest, j) implies added2[k].0 + added2[k].1
                < base + j by {
                assert(floor <= j);
                if k < added.len() {
                    assert(added2[k] == added[k]);
                    assert(has_bit(old_rest, j));
                } else {
                    assert(j != floor) by {
                        assert(has_bit(old_rest, j));
                    }
                }
            }
            assert forall|k: int| 0 <= k < added2.len() implies #[trigger] added2[k].0
                + added2[k].1 <= base + floor by {
                if k < added.len() {
                    assert(added2[k] == added[k]);
                    assert(has_bit(old_rest, start as int));
                }
            }
            assert(runs_within(added2, base as int, base + 128)) by {
                assert forall|k: int| 0 <= k < added2.len() implies #[trigger] added2[k].1 > 0 && base <= added2[k].0 && added2[k].0 + added2[k].1 <= base + 128 by {
                    if k < added.len() {
                        assert(added2[k] == added[k]);
                    }
                }
            }
        }
    }
    proof {
        let added = out@.subrange(n0, out@.len() as int);
        assert forall|idx: int| #[trigger] covers(added, idx) == (base <= idx < base + 128
            && has_bit(m, idx - base)) by {
            assert(!has_bit(0u128, idx - base));
        }
    }
}

/// The maximal runs of set bits of `m`, lowest first.
pub fn runs(m: u128) -> (r: Vec<(u32, u32)>)
    ensures
        runs_within(r@, 0, 128),
        runs_separated(r@),
        forall|idx: int| #[trigger] covers(r@, idx) == has_bit(m, idx),
{
    let mut out: Vec<(u32, u32)> = Vec::new();
    push_runs(&mut out, m, 0);
    assert(out@.subrange(0, out@.len() as int) =~= out@);
    out
}

/// Clearing a set bit makes the mask smaller.
pub proof fn lemma_clear_bit_decreases(x: u128, i: u32)
    requires
        i < 128,
        has_bit(x, i as int),
    ensures
        x & !(1u128 << i) < x,
        forall|j: int| #[trigger] has_bit(x & !(1u128 << i), j) == (has_bit(x, j) && j != i),
{
    let ii = i as u128;
    assert((x >> ii) & 1u128 == 1u128 && ii < 128 ==> x & !(1u128 << ii) < x) by (bit_vector);
    assert forall|j: int| #[trigger] has_bit(x & !(1u128 << i), j) == (has_bit(x, j) && j != i) by {
        lemma_bit_and(x, !(1u128 << i), j);
        lemma_bit_not(1u128 << i, j);
        lemma_bit_single(i, j);
    }
}

} // verus!
