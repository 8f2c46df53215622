//! Sparse vectors of fixed-point values, and the operations the trainer
//! needs on them: value lookup, threshold pruning, L2-normalisation,
//! dot products and dense accumulation.

use vstd::prelude::*;
use vstd::pervasive::VecAdditionalExecFns;
use crate::fx::{SCALE, is_isqrt, isqrt_u128};

verus! {

/// One stored entry of a sparse vector: a column index and a fixed-point value.
#[derive(Clone, Copy, Debug, PartialEq, Eq, Structural)]
pub struct Entry {
    pub index: u32,
    pub value: i64,
}

/// Largest number of columns (features, bias included) a matrix may have.
pub const MAX_COLS: usize = 0x0200_0000;

/// Largest number of rows (examples or labels) a matrix may have.
pub const MAX_ROWS: usize = 0x0100_0000;

/// Largest magnitude a dataset's fixed-point value may have.
pub const VAL_MAX: i64 = 0x0400_0000;

/// Bound on the magnitude of accumulated fixed-point values
/// (`MAX_ROWS * VAL_MAX`).
pub const MAX_ACC: i64 = 0x0004_0000_0000_0000;

pub open spec fn abs1(x: int) -> int {
    if x < 0 { -x } else { x }
}

/// Well-formed sparse vector over `cols` columns: indices strictly
/// increasing and in range.
pub open spec fn sv_wf(s: Seq<Entry>, cols: int) -> bool {
    &&& forall|i: int| 0 <= i < s.len() ==> (#[trigger] s[i]).index < cols
    &&& forall|i: int, j: int| 0 <= i < j < s.len() ==> s[i].index < s[j].index
}

/// All stored values have magnitude at most `b`.
pub open spec fn sv_bounded(s: Seq<Entry>, b: int) -> bool {
    forall|i: int| 0 <= i < s.len() ==> abs1((#[trigger] s[i]).value as int) <= b
}

/// The (summed) value a sparse vector holds at column `c`.
pub open spec fn sv_at(s: Seq<Entry>, c: int) -> int
    decreases s.len(),
{
    if s.len() == 0 {
        0
    } else {
        sv_at(s.drop_last(), c) + if s.last().index == c { s.last().value as int } else { 0 }
    }
}

/// Sum of squared values of a sparse vector.
pub open spec fn sv_sumsq(s: Seq<Entry>) -> int
    decreases s.len(),
{
    if s.len() == 0 {
        0
    } else {
        sv_sumsq(s.drop_last()) + (s.last().value as int) * (s.last().value as int)
    }
}

pub proof fn lemma_take_succ<T>(s: Seq<T>, i: int)
    requires
        0 <= i < s.len(),
    ensures
        s.take(i + 1) == s.take(i).push(s[i]),
{
    assert(s.take(i + 1) =~= s.take(i).push(s[i]));
}

/// A sparse vector with no entry at column `c` holds 0 there.
pub proof fn lemma_sv_at_absent(s: Seq<Entry>, c: int)
    requires
        forall|i: int| 0 <= i < s.len() ==> (#[trigger] s[i]).index != c,
    ensures
        sv_at(s, c) == 0,
    decreases s.len(),
{
    if s.len() > 0 {
        lemma_sv_at_absent(s.drop_last(), c);
    }
}

/// In a well-formed sparse vector, `sv_at` returns the stored value.
pub proof fn lemma_sv_at_found(s: Seq<Entry>, cols: int, j: int)
    requires
        sv_wf(s, cols),
        0 <= j < s.len(),
    ensures
        sv_at(s, s[j].index as int) == s[j].value as int,
    decreases s.len(),
{
    let c = s[j].index as int;
    let t = s.drop_last();
    if j == s.len() - 1 {
        assert(forall|i: int| 0 <= i < t.len() ==> (#[trigger] t[i]).index != c);
        lemma_sv_at_absent(t, c);
    } else {
        assert(sv_wf(t, cols));
        lemma_sv_at_found(t, cols, j);
        assert(s.last().index != c);
    }
}

/// In a well-formed, bounded sparse vector every column value is bounded.
pub proof fn lemma_sv_at_bound(s: Seq<Entry>, cols: int, b: int, c: int)
    requires
        sv_wf(s, cols),
        sv_bounded(s, b),
        b >= 0,
    ensures
        -b <= sv_at(s, c) <= b,
    decreases s.len(),
{
    if s.len() > 0 {
        let t = s.drop_last();
        assert(sv_wf(t, cols));
        assert(sv_bounded(t, b));
        if s.last().index == c {
            assert(forall|i: int| 0 <= i < t.len() ==> (#[trigger] t[i]).index != c);
            lemma_sv_at_absent(t, c);
            assert(abs1(s.last().value as int) <= b);
        } else {
            lemma_sv_at_bound(t, cols, b, c);
        }
    }
}

/// Strictly increasing indices below `cols` leave at most `cols` entries.
pub proof fn lemma_sv_len(s: Seq<Entry>, cols: int)
    requires
        cols >= 0,
        sv_wf(s, cols),
    ensures
        s.len() <= cols,
    decreases s.len(),
{
    if s.len() > 0 {
        let t = s.drop_last();
        assert(forall|i: int| 0 <= i < t.len() ==> #[trigger] t[i] == s[i]);
        assert(sv_wf(t, s.last().index as int)) by {
            assert(forall|i: int| 0 <= i < t.len() ==> (#[trigger] t[i]).index < s.last().index);
        }
        lemma_sv_len(t, s.last().index as int);
        assert(t.len() <= s.last().index as int);
        assert(s[s.len() - 1] == s.last());
        assert((s.last().index as int) < cols);
        assert(s.len() == t.len() + 1);
    }
}

/// Entries whose magnitude is below the threshold `t`, dropped.
pub open spec fn spec_prune(s: Seq<Entry>, t: int) -> Seq<Entry>
    decreases s.len(),
{
    if s.len() == 0 {
        Seq::empty()
    } else {
        let rest = spec_prune(s.drop_last(), t);
        if abs1(s.last().value as int) >= t {
            rest.push(s.last())
        } else {
            rest
        }
    }
}

/// Every pruned entry is one of the original entries.
pub proof fn lemma_prune_entries(s: Seq<Entry>, t: int)
    ensures
        forall|k: int| 0 <= k < spec_prune(s, t).len()
            ==> s.contains(#[trigger] spec_prune(s, t)[k]),
    decreases s.len(),
{
    if s.len() > 0 {
        let rest = spec_prune(s.drop_last(), t);
        lemma_prune_entries(s.drop_last(), t);
        assert(forall|k: int| 0 <= k < s.drop_last().len() ==> #[trigger] s.drop_last()[k] == s[k]);
        assert forall|e: Entry| s.drop_last().contains(e) implies s.contains(e) by {
            let i = choose|i: int| 0 <= i < s.drop_last().len() && s.drop_last()[i] == e;
            assert(s[i] == e);
        }
        assert forall|k: int| 0 <= k < spec_prune(s, t).len()
            implies s.contains(#[trigger] spec_prune(s, t)[k]) by {
            if abs1(s.last().value as int) >= t && k == rest.len() {
                assert(s[s.len() - 1] == s.last());
            } else {
                assert(rest.contains(rest[k]));
                assert(s.drop_last().contains(rest[k]));
            }
        }
    }
}

/// Pruning keeps well-formedness and bounds.
pub proof fn lemma_prune_wf(s: Seq<Entry>, cols: int, b: int, t: int)
    requires
        sv_wf(s, cols),
        sv_bounded(s, b),
    ensures
        sv_wf(spec_prune(s, t), cols),
        sv_bounded(spec_prune(s, t), b),
        spec_prune(s, t).len() <= s.len(),
        forall|k: int| 0 <= k < spec_prune(s, t).len()
            ==> s.contains(#[trigger] spec_prune(s, t)[k]),
    decreases s.len(),
{
    lemma_prune_entries(s, t);
    if s.len() > 0 {
        let rest = spec_prune(s.drop_last(), t);
        assert(sv_wf(s.drop_last(), cols));
        assert(sv_bounded(s.drop_last(), b));
        lemma_prune_wf(s.drop_last(), cols, b, t);
        if abs1(s.last().value as int) >= t {
            assert forall|i: int| 0 <= i < rest.len() implies (#[trigger] rest[i]).index
                < s.last().index by {
                assert(s.drop_last().contains(rest[i]));
            }
        }
    }
}

/// Raising the threshold never adds entries: anything that survives the
/// higher threshold also survives the lower one.
pub proof fn lemma_prune_monotone(s: Seq<Entry>, t1: int, t2: int)
    requires
        t1 <= t2,
    ensures
        forall|e: Entry| spec_prune(s, t2).contains(e) ==> spec_prune(s, t1).contains(e),
    decreases s.len(),
{
    if s.len() > 0 {
        lemma_prune_monotone(s.drop_last(), t1, t2);
        let p1 = spec_prune(s.drop_last(), t1);
        let p2 = spec_prune(s.drop_last(), t2);
        assert forall|e: Entry| spec_prune(s, t2).contains(e)
            implies spec_prune(s, t1).contains(e) by {
            if p2.contains(e) {
                assert(p1.contains(e));
                let i = choose|i: int| 0 <= i < p1.len() && p1[i] == e;
                if abs1(s.last().value as int) >= t1 {
                    assert(p1.push(s.last())[i] == e);
                }
            } else {
                assert(abs1(s.last().value as int) >= t2 && e == s.last());
                assert(abs1(s.last().value as int) >= t1);
                assert(p1.push(s.last())[p1.len() as int] == e);
            }
        }
    }
}

/// Drops every entry whose magnitude is below `t`.
pub fn prune_with_threshold(v: &Vec<Entry>, t: i64) -> (r: Vec<Entry>)
    requires
        t >= 0,
    ensures
        r@ == spec_prune(v@, t as int),
{
    let mut r: Vec<Entry> = Vec::new();
    let n = v.len();
    for i in 0..n
        invariant
            n == v.len(),
            r@ == spec_prune(v@.take(i as int), t as int),
    {
        let e = v[i];
        proof {
            lemma_take_succ(v@, i as int);
            assert(v@.take(i + 1).drop_last() =~= v@.take(i as int));
        }
        if e.value >= t || e.value <= -t {
            r.push(e);
        }
    }
    proof {
        assert(v@.take(n as int) =~= v@);
    }
    r
}


/// The integer square root as a spec-level function.
pub open spec fn spec_isqrt(x: int) -> int
    decreases x,
{
    if x <= 0 {
        0
    } else {
        let r = spec_isqrt(x - 1);
        if (r + 1) * (r + 1) <= x {
            r + 1
        } else {
            r
        }
    }
}

pub proof fn lemma_spec_isqrt(x: int)
    requires
        x >= 0,
    ensures
        is_isqrt(x, spec_isqrt(x)),
    decreases x,
{
    if x > 0 {
        lemma_spec_isqrt(x - 1);
        let r = spec_isqrt(x - 1);
        if (r + 1) * (r + 1) <= x {
            assert((r + 2) * (r + 2) > x) by (nonlinear_arith)
                requires r >= 0 && x - 1 < (r + 1) * (r + 1),
            ;
        }
    }
}

pub proof fn lemma_isqrt_unique(x: int, r1: int, r2: int)
    requires
        is_isqrt(x, r1),
        is_isqrt(x, r2),
    ensures
        r1 == r2,
{
    assert(r1 == r2) by (nonlinear_arith)
        requires
            r1 >= 0 && r2 >= 0 && r1 * r1 <= x && x < (r1 + 1) * (r1 + 1) && r2 * r2 <= x && x < (
            r2 + 1) * (r2 + 1),
    ;
}

pub proof fn lemma_sumsq_nonneg(s: Seq<Entry>)
    ensures
        sv_sumsq(s) >= 0,
    decreases s.len(),
{
    if s.len() > 0 {
        lemma_sumsq_nonneg(s.drop_last());
        let v = s.last().value as int;
        assert(v * v >= 0) by (nonlinear_arith);
    }
}

/// Each entry's square is at most the whole sum of squares.
pub proof fn lemma_sumsq_elem(s: Seq<Entry>, i: int)
    requires
        0 <= i < s.len(),
    ensures
        (s[i].value as int) * (s[i].value as int) <= sv_sumsq(s),
    decreases s.len(),
{
    let v = s.last().value as int;
    assert(v * v >= 0) by (nonlinear_arith);
    if i < s.len() - 1 {
        lemma_sumsq_elem(s.drop_last(), i);
    } else {
        lemma_sumsq_nonneg(s.drop_last());
    }
}

/// One fixed-point value divided by the vector's L2 norm.
pub open spec fn spec_norm_val(q: int, n: int) -> int {
    if q >= 0 {
        (q * SCALE) / n
    } else {
        -(((-q) * SCALE) / n)
    }
}

/// L2 normalisation of a sparse vector. A vector whose norm is zero
/// becomes empty; otherwise every value is divided by the norm.
pub open spec fn spec_normalize(s: Seq<Entry>) -> Seq<Entry> {
    let ss = sv_sumsq(s);
    if ss == 0 {
        Seq::empty()
    } else {
        Seq::new(
            s.len(),
            |i: int|
                Entry {
                    index: s[i].index,
                    value: spec_norm_val(s[i].value as int, spec_isqrt(ss)) as i64,
                },
        )
    }
}

/// Normalisation keeps well-formedness: indices are unchanged (or the
/// vector becomes empty).
pub proof fn lemma_normalize_wf(s: Seq<Entry>, cols: int)
    requires
        sv_wf(s, cols),
    ensures
        sv_wf(spec_normalize(s), cols),
{
}

/// Divides every value by the vector's L2 norm (`sqrt` of the sum of
/// squares, in fixed point). A zero vector becomes empty.
pub fn l2_normalize(v: &Vec<Entry>) -> (r: Vec<Entry>)
    requires
        v@.len() <= MAX_COLS,
        sv_bounded(v@, MAX_ACC as int),
    ensures
        r@ == spec_normalize(v@),
        sv_bounded(r@, SCALE as int),
{
    let n = v.len();
    let mut ss: u128 = 0;
    for i in 0..n
        invariant
            n == v.len(),
            n <= MAX_COLS,
            sv_bounded(v@, MAX_ACC as int),
            ss as int == sv_sumsq(v@.take(i as int)),
            ss as int <= (i as int) * 0x10_0000_0000_0000_0000_0000_0000,
    {
        let q = v[i].value;
        let qa: u64 = if q >= 0 {
            q as u64
        } else {
            (-q) as u64
        };
        assert(qa as int == abs1(q as int));
        assert((qa as int) * (qa as int) == (q as int) * (q as int)) by (nonlinear_arith)
            requires qa as int == abs1(q as int),
        ;
        assert((qa as int) * (qa as int) <= 0x10_0000_0000_0000_0000_0000_0000)
            by (nonlinear_arith)
            requires 0 <= qa as int <= MAX_ACC as int,
        ;
        let sq: u128 = (qa as u128) * (qa as u128);
        proof {
            lemma_take_succ(v@, i as int);
            assert(v@.take(i + 1).drop_last() =~= v@.take(i as int));
        }
        ss = ss + sq;
    }
    proof {
        assert(v@.take(n as int) =~= v@);
    }
    if ss == 0 {
        let r: Vec<Entry> = Vec::new();
        assert(r@ =~= spec_normalize(v@));
        return r;
    }
    assert(ss as int <= 0x2000_0000_0000_0000_0000_0000_0000_0000) by {
        assert((n as int) * 0x10_0000_0000_0000_0000_0000_0000 <= 0x0200_0000
            * 0x10_0000_0000_0000_0000_0000_0000) by (nonlinear_arith)
            requires n as int <= 0x0200_0000,
        ;
    }
    let nrm = isqrt_u128(ss);
    proof {
        lemma_spec_isqrt(ss as int);
        lemma_isqrt_unique(ss as int, nrm as int, spec_isqrt(ss as int));
        assert(nrm as int >= 1) by (nonlinear_arith)
            requires
                ss as int >= 1 && nrm as int >= 0 && (ss as int) < ((nrm as int) + 1) * ((
                nrm as int) + 1),
        ;
    }
    let ghost target = spec_normalize(v@);
    let mut r: Vec<Entry> = Vec::new();
    for i in 0..n
        invariant
            n == v.len(),
            n <= MAX_COLS,
            sv_bounded(v@, MAX_ACC as int),
            sv_sumsq(v@) == ss as int,
            ss != 0,
            is_isqrt(ss as int, nrm as int),
            nrm >= 1,
            spec_isqrt(ss as int) == nrm as int,
            target == spec_normalize(v@),
            r@.len() == i,
            forall|k: int| 0 <= k < i ==> r@[k] == target[k],
            sv_bounded(r@, SCALE as int),
    {
        let q = v[i].value;
        let qa: u64 = if q >= 0 {
            q as u64
        } else {
            (-q) as u64
        };
        assert(qa as int == abs1(q as int));
        proof {
            lemma_sumsq_elem(v@, i as int);
            assert((qa as int) * (qa as int) == (q as int) * (q as int)) by (nonlinear_arith)
                requires qa as int == abs1(q as int),
            ;
            assert(qa as int <= nrm as int) by (nonlinear_arith)
                requires
                    qa as int >= 0 && nrm as int >= 0 && (qa as int) * (qa as int) <= ss as int
                        && (ss as int) < ((nrm as int) + 1) * ((nrm as int) + 1),
            ;
        }
        let num: u128 = (qa as u128) * (SCALE as u128);
        let val: u128 = num / nrm;
        proof {
            vstd::arithmetic::div_mod::lemma_div_is_ordered(
                num as int,
                (nrm as int) * (SCALE as int),
                nrm as int,
            );
            assert(num as int <= (nrm as int) * (SCALE as int)) by (nonlinear_arith)
                requires qa as int <= nrm as int && num as int == (qa as int) * (SCALE as int),
            ;
            vstd::arithmetic::div_mod::lemma_div_multiples_vanish(
                SCALE as int,
                nrm as int,
            );
            assert(val as int <= SCALE as int);
        }
        let value: i64 = if q >= 0 {
            val as i64
        } else {
            -(val as i64)
        };
        assert(value as int == spec_norm_val(q as int, nrm as int));
        assert(value as int == spec_norm_val(q as int, nrm as int) as i64);
        r.push(Entry { index: v[i].index, value });
    }
    assert(r@ =~= spec_normalize(v@));
    r
}

/// Column bound that every `u32` index satisfies.
pub const U32_COLS: u64 = 0x1_0000_0000;

/// Looks up the value stored at column `idx` (0 when absent).
pub fn sv_get(v: &Vec<Entry>, idx: u32) -> (r: i64)
    requires
        sv_wf(v@, U32_COLS as int),
    ensures
        r as int == sv_at(v@, idx as int),
{
    let n = v.len();
    for k in 0..n
        invariant
            n == v.len(),
            sv_wf(v@, U32_COLS as int),
            forall|j: int| 0 <= j < k ==> (#[trigger] v@[j]).index != idx,
    {
        if v[k].index == idx {
            proof {
                lemma_sv_at_found(v@, U32_COLS as int, k as int);
            }
            return v[k].value;
        }
    }
    proof {
        lemma_sv_at_absent(v@, idx as int);
    }
    0
}

/// Dot product of two sparse vectors: the sum, over the entries of `a`,
/// of the entry's value times the value `b` holds at the same column.
pub open spec fn spec_dot(a: Seq<Entry>, b: Seq<Entry>) -> int
    decreases a.len(),
{
    if a.len() == 0 {
        0
    } else {
        spec_dot(a.drop_last(), b) + (a.last().value as int) * sv_at(b, a.last().index as int)
    }
}

/// Computes the dot product of two well-formed sparse vectors whose
/// values are normalised (at most one fixed-point unit in magnitude).
pub fn sv_dot(a: &Vec<Entry>, b: &Vec<Entry>) -> (r: i64)
    requires
        sv_wf(a@, U32_COLS as int),
        sv_wf(b@, U32_COLS as int),
        a@.len() <= MAX_COLS,
        sv_bounded(a@, SCALE as int),
        sv_bounded(b@, SCALE as int),
    ensures
        r as int == spec_dot(a@, b@),
        abs1(r as int) <= 0x0200_0000_0000_0000,
{
    let n = a.len();
    let mut acc: i64 = 0;
    for k in 0..n
        invariant
            n == a.len(),
            n <= MAX_COLS,
            sv_wf(a@, U32_COLS as int),
            sv_wf(b@, U32_COLS as int),
            sv_bounded(a@, SCALE as int),
            sv_bounded(b@, SCALE as int),
            acc as int == spec_dot(a@.take(k as int), b@),
            abs1(acc as int) <= (k as int) * 0x1_0000_0000,
    {
        let e = a[k];
        let bv = sv_get(b, e.index);
        proof {
            lemma_sv_at_bound(b@, U32_COLS as int, SCALE as int, e.index as int);
            assert(abs1((e.value as int) * (bv as int)) <= 0x1_0000_0000) by (nonlinear_arith)
                requires abs1(e.value as int) <= SCALE as int && abs1(bv as int) <= SCALE as int,
            ;
            lemma_take_succ(a@, k as int);
            assert(a@.take(k + 1).drop_last() =~= a@.take(k as int));
        }
        let term = e.value * bv;
        acc = acc + term;
    }
    proof {
        assert(a@.take(n as int) =~= a@);
        assert((n as int) * 0x1_0000_0000 <= 0x0200_0000_0000_0000) by (nonlinear_arith)
            requires 0 <= n as int <= MAX_COLS,
        ;
    }
    acc
}

/// Adds a sparse row into a dense fixed-point accumulator.
pub fn acc_add_row(acc: &mut Vec<i64>, row: &Vec<Entry>)
    requires
        sv_wf(row@, old(acc)@.len() as int),
        sv_bounded(row@, VAL_MAX as int),
        forall|c: int| 0 <= c < old(acc)@.len()
            ==> abs1(#[trigger] old(acc)@[c] as int) <= MAX_ACC - VAL_MAX,
    ensures
        final(acc)@.len() == old(acc)@.len(),
        forall|c: int| 0 <= c < final(acc)@.len()
            ==> #[trigger] final(acc)@[c] as int == old(acc)@[c] + sv_at(row@, c),
        forall|c: int| 0 <= c < final(acc)@.len()
            ==> abs1(#[trigger] final(acc)@[c] as int) <= MAX_ACC as int,
{
    let n = row.len();
    for k in 0..n
        invariant
            n == row.len(),
            acc@.len() == old(acc)@.len(),
            sv_wf(row@, old(acc)@.len() as int),
            sv_bounded(row@, VAL_MAX as int),
            forall|c: int| 0 <= c < old(acc)@.len()
                ==> abs1(#[trigger] old(acc)@[c] as int) <= MAX_ACC - VAL_MAX,
            forall|c: int| 0 <= c < acc@.len()
                ==> #[trigger] acc@[c] as int == old(acc)@[c] + sv_at(row@.take(k as int), c),
    {
        let e = row[k];
        let idx = e.index as usize;
        proof {
            assert(forall|j: int| 0 <= j < k
                ==> (#[trigger] row@.take(k as int)[j]).index < e.index);
            lemma_sv_at_absent(row@.take(k as int), e.index as int);
            lemma_take_succ(row@, k as int);
            assert(row@.take(k + 1).drop_last() =~= row@.take(k as int));
        }
        let cur = acc[idx];
        acc.set(idx, cur + e.value);
        proof {
            assert forall|c: int| 0 <= c < acc@.len()
                implies #[trigger] acc@[c] as int == old(acc)@[c] + sv_at(
                row@.take(k as int + 1),
                c,
            ) by {
                if c != idx as int {
                    assert(sv_at(row@.take(k as int + 1), c) == sv_at(row@.take(k as int), c));
                }
            }
        }
    }
    proof {
        assert(row@.take(n as int) =~= row@);
        assert forall|c: int| 0 <= c < acc@.len()
            implies abs1(#[trigger] acc@[c] as int) <= MAX_ACC as int by {
            lemma_sv_at_bound(row@, acc@.len() as int, VAL_MAX as int, c);
        }
    }
}

/// The sparse form of a dense vector: one entry per non-zero cell,
/// indices ascending.
pub open spec fn spec_sparse_of(s: Seq<i64>) -> Seq<Entry>
    decreases s.len(),
{
    if s.len() == 0 {
        Seq::empty()
    } else {
        let rest = spec_sparse_of(s.drop_last());
        if s.last() != 0 {
            rest.push(Entry { index: (s.len() - 1) as u32, value: s.last() })
        } else {
            rest
        }
    }
}

/// The sparse form is well formed, stays bounded, and holds exactly the
/// dense values.
pub proof fn lemma_sparse_of_wf(s: Seq<i64>, b: int)
    requires
        s.len() <= U32_COLS,
        forall|c: int| 0 <= c < s.len() ==> abs1(#[trigger] s[c] as int) <= b,
    ensures
        sv_wf(spec_sparse_of(s), s.len() as int),
        sv_bounded(spec_sparse_of(s), b),
        forall|c: int| 0 <= c < s.len() ==> sv_at(spec_sparse_of(s), c) == s[c],
    decreases s.len(),
{
    if s.len() > 0 {
        let t = s.drop_last();
        let rest = spec_sparse_of(t);
        lemma_sparse_of_wf(t, b);
        if s.last() != 0 {
            let e = Entry { index: (s.len() - 1) as u32, value: s.last() };
            assert(rest.push(e).drop_last() =~= rest);
            lemma_sv_at_absent(rest, s.len() - 1);
            assert forall|c: int| 0 <= c < s.len()
                implies sv_at(spec_sparse_of(s), c) == s[c] by {
                if c < s.len() - 1 {
                    assert(sv_at(rest.push(e), c) == sv_at(rest, c));
                    assert(t[c] == s[c]);
                }
            }
        } else {
            assert forall|c: int| 0 <= c < s.len()
                implies sv_at(spec_sparse_of(s), c) == s[c] by {
                if c < s.len() - 1 {
                    assert(t[c] == s[c]);
                } else {
                    lemma_sv_at_absent(rest, c);
                }
            }
        }
    }
}

/// Collects the non-zero cells of a dense accumulator into a sparse vector.
pub fn dense_to_sparse(acc: &Vec<i64>) -> (r: Vec<Entry>)
    requires
        acc@.len() <= U32_COLS,
    ensures
        r@ == spec_sparse_of(acc@),
{
    let n = acc.len();
    let mut r: Vec<Entry> = Vec::new();
    for c in 0..n
        invariant
            n == acc.len(),
            n <= U32_COLS,
            r@ == spec_sparse_of(acc@.take(c as int)),
    {
        proof {
            lemma_take_succ(acc@, c as int);
            assert(acc@.take(c + 1).drop_last() =~= acc@.take(c as int));
        }
        if acc[c] != 0 {
            r.push(Entry { index: c as u32, value: acc[c] });
        }
    }
    proof {
        assert(acc@.take(n as int) =~= acc@);
    }
    r
}

/// Copies a sparse vector.
pub fn sv_clone(v: &Vec<Entry>) -> (r: Vec<Entry>)
    ensures
        r@ == v@,
{
    let n = v.len();
    let mut r: Vec<Entry> = Vec::new();
    for i in 0..n
        invariant
            n == v.len(),
            r@ == v@.take(i as int),
    {
        r.push(v[i]);
        proof {
            lemma_take_succ(v@, i as int);
        }
    }
    proof {
        assert(v@.take(n as int) =~= v@);
    }
    r
}

/// Sum of the magnitudes of a sparse vector's values.
pub open spec fn sv_sumabs(s: Seq<Entry>) -> int
    decreases s.len(),
{
    if s.len() == 0 {
        0
    } else {
        sv_sumabs(s.drop_last()) + abs1(s.last().value as int)
    }
}

proof fn lemma_sumabs_bound(s: Seq<Entry>, b: int)
    requires
        b >= 0,
        sv_bounded(s, b),
    ensures
        0 <= sv_sumabs(s) <= s.len() * b,
    decreases s.len(),
{
    if s.len() > 0 {
        let t = s.drop_last();
        assert(sv_bounded(t, b));
        lemma_sumabs_bound(t, b);
        assert((s.len() - 1) * b + b == s.len() * b) by (nonlinear_arith);
    }
}

proof fn lemma_norm_sumsq_upto(s: Seq<Entry>, n: int, i: int)
    requires
        1 <= n,
        0 <= i <= s.len(),
        forall|j: int| 0 <= j < s.len() ==> abs1((#[trigger] s[j]).value as int) <= n,
    ensures
        ({
            let t = Seq::new(
                s.len(),
                |j: int|
                    Entry {
                        index: s[j].index,
                        value: spec_norm_val(s[j].value as int, n) as i64,
                    },
            );
            &&& sv_sumsq(t.take(i)) * (n * n) <= SCALE * SCALE * sv_sumsq(s.take(i))
            &&& sv_sumsq(t.take(i)) * (n * n) >= SCALE * SCALE * sv_sumsq(s.take(i)) - 2 * SCALE
                * n * sv_sumabs(s.take(i))
        }),
    decreases i,
{
    let t = Seq::new(
        s.len(),
        |j: int| Entry { index: s[j].index, value: spec_norm_val(s[j].value as int, n) as i64 },
    );
    if i == 0 {
        assert(t.take(0) =~= Seq::<Entry>::empty());
        assert(s.take(0) =~= Seq::<Entry>::empty());
    } else {
        lemma_norm_sumsq_upto(s, n, i - 1);
        lemma_take_succ(s, i - 1);
        lemma_take_succ(t, i - 1);
        assert(s.take(i).drop_last() =~= s.take(i - 1));
        assert(t.take(i).drop_last() =~= t.take(i - 1));
        let q = s[i - 1].value as int;
        let a = abs1(q);
        assert(a <= n);
        let m = (a * SCALE) / n;
        vstd::arithmetic::div_mod::lemma_fundamental_div_mod(a * SCALE, n);
        vstd::arithmetic::div_mod::lemma_mod_bound(a * SCALE, n);
        assert(a * SCALE >= 0) by (nonlinear_arith)
            requires a >= 0,
        ;
        vstd::arithmetic::div_mod::lemma_div_pos_is_pos(a * SCALE, n);
        assert(m * n <= a * SCALE && a * SCALE < m * n + n) by (nonlinear_arith)
            requires
                a * SCALE == n * m + (a * SCALE) % n && 0 <= (a * SCALE) % n < n,
        ;
        assert(m <= SCALE) by {
            vstd::arithmetic::div_mod::lemma_div_is_ordered(a * SCALE, n * SCALE, n);
            assert(a * SCALE <= n * SCALE) by (nonlinear_arith)
                requires a <= n && SCALE > 0,
            ;
            vstd::arithmetic::div_mod::lemma_div_multiples_vanish(SCALE as int, n);
        }
        let tv = t.take(i).last().value as int;
        assert(t.take(i).last() == t[i - 1]);
        assert(tv == spec_norm_val(q, n) as i64);
        assert(spec_norm_val(q, n) == if q >= 0 { m } else { -m }) by {
            if q >= 0 {
                assert(a == q);
            } else {
                assert(a == -q);
            }
        }
        assert(-SCALE <= spec_norm_val(q, n) <= SCALE);
        assert(tv == spec_norm_val(q, n));
        assert(tv * tv == m * m) by (nonlinear_arith)
            requires tv == m || tv == -m,
        ;
        assert(s.take(i).last() == s[i - 1]);
        assert(sv_sumsq(t.take(i)) == sv_sumsq(t.take(i - 1)) + m * m);
        assert(sv_sumsq(s.take(i)) == sv_sumsq(s.take(i - 1)) + q * q);
        assert(sv_sumabs(s.take(i)) == sv_sumabs(s.take(i - 1)) + a);
        assert(q * q == a * a) by (nonlinear_arith)
            requires a == q || a == -q,
        ;
        // Upper bound: the truncated quotient squared stays below the
        // exact quotient squared.
        assert(sv_sumsq(t.take(i)) * (n * n) <= SCALE * SCALE * sv_sumsq(s.take(i)))
            by (nonlinear_arith)
            requires
                sv_sumsq(t.take(i)) == sv_sumsq(t.take(i - 1)) + m * m,
                sv_sumsq(s.take(i)) == sv_sumsq(s.take(i - 1)) + q * q,
                sv_sumsq(t.take(i - 1)) * (n * n) <= SCALE * SCALE * sv_sumsq(s.take(i - 1)),
                0 <= m * n <= a * SCALE,
                q * q == a * a,
                m >= 0 && a >= 0 && n >= 1 && SCALE > 0,
        ;
        // Lower bound: each truncation loses less than one unit of the
        // divisor.
        assert(m * m * (n * n) >= a * a * SCALE * SCALE - 2 * a * SCALE * n) by (nonlinear_arith)
            requires
                m * n <= a * SCALE < m * n + n,
                m >= 0 && a >= 0 && n >= 1 && SCALE > 0,
        ;
        assert(sv_sumsq(t.take(i)) * (n * n) >= SCALE * SCALE * sv_sumsq(s.take(i)) - 2 * SCALE
            * n * sv_sumabs(s.take(i))) by (nonlinear_arith)
            requires
                sv_sumsq(t.take(i)) == sv_sumsq(t.take(i - 1)) + m * m,
                sv_sumsq(s.take(i)) == sv_sumsq(s.take(i - 1)) + q * q,
                sv_sumabs(s.take(i)) == sv_sumabs(s.take(i - 1)) + a,
                sv_sumsq(t.take(i - 1)) * (n * n) >= SCALE * SCALE * sv_sumsq(s.take(i - 1)) - 2
                    * SCALE * n * sv_sumabs(s.take(i - 1)),
                m * m * (n * n) >= a * a * SCALE * SCALE - 2 * a * SCALE * n,
                q * q == a * a,
                m >= 0 && a >= 0 && n >= 1 && SCALE > 0,
        ;
    }
}

/// The L2 invariant of normalisation, in fixed point: for a non-zero
/// vector the sum of squares of the normalised values equals one (that
/// is, `SCALE * SCALE`) up to the truncation error: at most `2 * SCALE`
/// per stored entry below, and a factor `(1 + 1/n)^2` above, where `n`
/// is the fixed-point norm. Pruning afterwards can only remove further
/// mass.
pub proof fn lemma_normalize_sumsq(s: Seq<Entry>)
    requires
        sv_sumsq(s) >= 1,
    ensures
        ({
            let n = spec_isqrt(sv_sumsq(s));
            &&& n >= 1
            &&& sv_sumsq(spec_normalize(s)) * (n * n) <= SCALE * SCALE * ((n + 1) * (n + 1) - 1)
            &&& sv_sumsq(spec_normalize(s)) >= SCALE * SCALE - 2 * SCALE * s.len()
        }),
{
    let ss = sv_sumsq(s);
    let n = spec_isqrt(ss);
    lemma_spec_isqrt(ss);
    assert(n >= 1) by (nonlinear_arith)
        requires ss >= 1 && n >= 0 && ss < (n + 1) * (n + 1),
    ;
    assert forall|j: int| 0 <= j < s.len() implies abs1((#[trigger] s[j]).value as int) <= n by {
        lemma_sumsq_elem(s, j);
        let q = s[j].value as int;
        assert(abs1(q) <= n) by (nonlinear_arith)
            requires q * q <= ss && ss < (n + 1) * (n + 1) && n >= 0,
        ;
    }
    lemma_norm_sumsq_upto(s, n, s.len() as int);
    let t = Seq::new(
        s.len(),
        |j: int| Entry { index: s[j].index, value: spec_norm_val(s[j].value as int, n) as i64 },
    );
    assert(t.take(s.len() as int) =~= t);
    assert(s.take(s.len() as int) =~= s);
    assert(spec_normalize(s) =~= t);
    assert(sv_sumsq(t) * (n * n) <= SCALE * SCALE * ((n + 1) * (n + 1) - 1)) by (nonlinear_arith)
        requires
            sv_sumsq(t) * (n * n) <= SCALE * SCALE * ss,
            ss < (n + 1) * (n + 1),
            SCALE > 0,
    ;
    assert(sv_sumabs(s) <= s.len() * n) by {
        lemma_sumabs_bound(s, n);
    }
    assert(sv_sumsq(t) >= SCALE * SCALE - 2 * SCALE * s.len()) by (nonlinear_arith)
        requires
            sv_sumsq(t) * (n * n) >= SCALE * SCALE * sv_sumsq(s) - 2 * SCALE * n * sv_sumabs(s),
            sv_sumsq(s) >= n * n,
            sv_sumabs(s) <= s.len() * n,
            n >= 1 && SCALE > 0 && s.len() >= 0,
    ;
}

/// Pruning at threshold zero keeps every entry.
pub proof fn lemma_prune_zero(s: Seq<Entry>)
    ensures
        spec_prune(s, 0) == s,
    decreases s.len(),
{
    if s.len() > 0 {
        lemma_prune_zero(s.drop_last());
        assert(spec_prune(s, 0) =~= s);
    } else {
        assert(spec_prune(s, 0) =~= s);
    }
}

} // verus!
