use vstd::prelude::*;
use crate::data::MAX_SAMPLES;

verus! {

/// An AUC held exactly as the fraction `num / den`.
#[derive(Clone, Copy, Debug)]
pub struct Auc {
    pub num: u64,
    pub den: u64,
}

/// Credit of one positive/negative pair, in halves: a win counts 2, a tie 1.
pub open spec fn pair_credit(a: i128, b: i128) -> int {
    if a > b {
        2
    } else if a == b {
        1
    } else {
        0
    }
}

/// Credit, in halves, of a positive with score `a` against the negatives among
/// the first `m` samples.
pub open spec fn row_credit(s: Seq<i128>, y: Seq<u8>, a: i128, m: int) -> int
    decreases m,
{
    if m <= 0 {
        0
    } else {
        row_credit(s, y, a, m - 1) + if y[m - 1] == 0 { pair_credit(a, s[m - 1]) } else { 0 }
    }
}

/// Credit, in halves, of the positives among the first `n` samples against
/// every negative.
pub open spec fn total_credit(s: Seq<i128>, y: Seq<u8>, n: int) -> int
    decreases n,
{
    if n <= 0 {
        0
    } else {
        total_credit(s, y, n - 1) + if y[n - 1] == 1 {
            row_credit(s, y, s[n - 1], y.len() as int)
        } else {
            0
        }
    }
}

/// How many of the first `n` labels equal `c`.
pub open spec fn label_count(y: Seq<u8>, c: u8, n: int) -> int
    decreases n,
{
    if n <= 0 {
        0
    } else {
        label_count(y, c, n - 1) + if y[n - 1] == c { 1int } else { 0int }
    }
}

/// Labels with no positive (label 1) or no negative (label 0).
pub open spec fn degenerate_labels(y: Seq<u8>) -> bool {
    label_count(y, 1, y.len() as int) == 0 || label_count(y, 0, y.len() as int) == 0
}

/// Numerator of the AUC: wins count 2, ties 1; 1 (over 2) when degenerate.
pub open spec fn auc_num(s: Seq<i128>, y: Seq<u8>) -> int {
    if degenerate_labels(y) {
        1
    } else {
        total_credit(s, y, y.len() as int)
    }
}

/// Denominator of the AUC: twice the number of positive/negative pairs; 2 when
/// degenerate. It depends on the labels alone.
pub open spec fn auc_den(y: Seq<u8>) -> int {
    if degenerate_labels(y) {
        2
    } else {
        2 * label_count(y, 1, y.len() as int) * label_count(y, 0, y.len() as int)
    }
}

proof fn lemma_row_credit_bound(s: Seq<i128>, y: Seq<u8>, a: i128, m: int)
    ensures
        0 <= row_credit(s, y, a, m) <= 2 * label_count(y, 0, m),
    decreases m,
{
    if m > 0 {
        lemma_row_credit_bound(s, y, a, m - 1);
    }
}

proof fn lemma_label_count_bound(y: Seq<u8>, c: u8, n: int)
    requires
        0 <= n,
    ensures
        0 <= label_count(y, c, n) <= n,
    decreases n,
{
    if n > 0 {
        lemma_label_count_bound(y, c, n - 1);
    }
}

proof fn lemma_total_credit_bound(s: Seq<i128>, y: Seq<u8>, n: int)
    requires
        0 <= n <= y.len(),
        s.len() == y.len(),
    ensures
        0 <= total_credit(s, y, n) <= 2 * label_count(y, 1, n) * label_count(y, 0, y.len() as int),
    decreases n,
{
    if n > 0 {
        lemma_total_credit_bound(s, y, n - 1);
        lemma_row_credit_bound(s, y, s[n - 1], y.len() as int);
        let q = label_count(y, 0, y.len() as int);
        let p = label_count(y, 1, n - 1);
        lemma_label_count_bound(y, 0, y.len() as int);
        if y[n - 1] == 1 {
            assert(label_count(y, 1, n) == p + 1);
            assert(2 * (p + 1) * q == 2 * p * q + 2 * q) by (nonlinear_arith);
            assert(total_credit(s, y, n) <= 2 * (p + 1) * q);
        } else {
            assert(label_count(y, 1, n) == p);
            assert(total_credit(s, y, n) <= 2 * p * q);
        }
    } else {
        assert(label_count(y, 1, n) == 0);
        assert(2 * 0 * label_count(y, 0, y.len() as int) == 0);
    }
}

/// The AUC is a fraction in [0, 1] with a positive denominator that fits the
/// fixed-width fields.
pub proof fn lemma_auc_bounds(s: Seq<i128>, y: Seq<u8>)
    requires
        s.len() == y.len(),
        y.len() <= MAX_SAMPLES,
    ensures
        0 <= auc_num(s, y) <= auc_den(y),
        0 < auc_den(y) <= 0x2_0000_0000,
{
    let n = y.len() as int;
    lemma_label_count_bound(y, 0, n);
    lemma_label_count_bound(y, 1, n);
    lemma_total_credit_bound(s, y, n);
    let p = label_count(y, 1, n);
    let q = label_count(y, 0, n);
    if !degenerate_labels(y) {
        assert(0 < 2 * p * q <= 2 * 65536 * 65536) by (nonlinear_arith)
            requires
                0 < p <= 65536,
                0 < q <= 65536,
        ;
    }
}

/// Credit of a positive with score `a` against every negative.
fn row_credit_exec(scores: &Vec<i128>, y: &Vec<u8>, a: i128) -> (r: u64)
    requires
        scores.len() == y.len(),
        y.len() <= MAX_SAMPLES,
    ensures
        r == row_credit(scores@, y@, a, y.len() as int),
{
    let n = y.len();
    let mut r: u64 = 0;
    let mut j: usize = 0;
    while j < n
        invariant
            n == y.len(),
            scores.len() == n,
            n <= MAX_SAMPLES,
            j <= n,
            r == row_credit(scores@, y@, a, j as int),
            r <= 2 * j,
        decreases n - j,
    {
        proof {
            lemma_row_credit_bound(scores@, y@, a, j as int);
            lemma_label_count_bound(y@, 0, j as int);
        }
        if y[j] == 0 {
            if a > scores[j] {
                r = r + 2;
            } else if a == scores[j] {
                r = r + 1;
            }
        }
        j = j + 1;
    }
    r
}

/// Rank-based AUC of `scores` against `labels`: the chance that a positive
/// (label 1) scores above a negative (label 0), ties counting one half. With
/// no positive or no negative it is 1/2. Other labels take no part.
pub fn compute_auc(scores: &Vec<i128>, labels: &Vec<u8>) -> (r: Auc)
    requires
        scores.len() == labels.len(),
        labels.len() <= MAX_SAMPLES,
    ensures
        r.num == auc_num(scores@, labels@),
        r.den == auc_den(labels@),
        r.num <= r.den,
        0 < r.den <= 0x2_0000_0000,
{
    let n = labels.len();
    let mut pos: u64 = 0;
    let mut neg: u64 = 0;
    let mut total: u64 = 0;
    let mut i: usize = 0;
    while i < n
        invariant
            n == labels.len(),
            scores.len() == n,
            n <= MAX_SAMPLES,
            i <= n,
            pos == label_count(labels@, 1, i as int),
            neg == label_count(labels@, 0, i as int),
            total == total_credit(scores@, labels@, i as int),
            pos <= i,
            neg <= i,
        decreases n - i,
    {
        proof {
            lemma_total_credit_bound(scores@, labels@, i as int);
            lemma_label_count_bound(labels@, 0, n as int);
            lemma_label_count_bound(labels@, 1, i as int);
            let p = label_count(labels@, 1, i as int);
            let q = label_count(labels@, 0, n as int);
            assert(2 * p * q <= 2 * 65536 * 65536) by (nonlinear_arith)
                requires
                    0 <= p <= 65536,
                    0 <= q <= 65536,
            ;
        }
        if labels[i] == 1 {
            let c = row_credit_exec(scores, labels, scores[i]);
            proof {
                lemma_row_credit_bound(scores@, labels@, scores[i as int], n as int);
            }
            total = total + c;
            pos = pos + 1;
        } else if labels[i] == 0 {
            neg = neg + 1;
        }
        i = i + 1;
    }
    proof {
        lemma_auc_bounds(scores@, labels@);
    }
    if pos == 0 || neg == 0 {
        Auc { num: 1, den: 2 }
    } else {
        proof {
            assert(pos * neg <= 65536 * 65536) by (nonlinear_arith)
                requires
                    pos <= 65536,
                    neg <= 65536,
            ;
        }
        Auc { num: total, den: 2 * pos * neg }
    }
}

proof fn lemma_row_credit_same(s: Seq<i128>, t: Seq<i128>, y: Seq<u8>, a: i128, b: i128, m: int)
    requires
        forall|j: int| 0 <= j < m ==> pair_credit(b, t[j]) == pair_credit(a, #[trigger] s[j]),
    ensures
        row_credit(t, y, b, m) == row_credit(s, y, a, m),
    decreases m,
{
    if m > 0 {
        lemma_row_credit_same(s, t, y, a, b, m - 1);
        assert(pair_credit(b, t[m - 1]) == pair_credit(a, s[m - 1]));
    }
}

proof fn lemma_total_credit_same(s: Seq<i128>, t: Seq<i128>, y: Seq<u8>, n: int)
    requires
        s.len() == y.len(),
        t.len() == y.len(),
        n <= y.len(),
        forall|i: int, j: int|
            0 <= i < y.len() && 0 <= j < y.len() ==> pair_credit(t[i], t[j]) == pair_credit(
                #[trigger] s[i],
                #[trigger] s[j],
            ),
    ensures
        total_credit(t, y, n) == total_credit(s, y, n),
    decreases n,
{
    if n > 0 {
        lemma_total_credit_same(s, t, y, n - 1);
        assert forall|j: int| 0 <= j < y.len() implies pair_credit(t[n - 1], t[j]) == pair_credit(
            s[n - 1],
            #[trigger] s[j],
        ) by {
            assert(pair_credit(t[n - 1], t[j]) == pair_credit(s[n - 1], s[j]));
        }
        lemma_row_credit_same(s, t, y, s[n - 1], t[n - 1], y.len() as int);
    }
}

/// The AUC depends on the order of the scores alone: mapping every score
/// through one strictly increasing function leaves it unchanged.
pub proof fn lemma_auc_monotone_invariant(
    s: Seq<i128>,
    t: Seq<i128>,
    y: Seq<u8>,
    f: spec_fn(int) -> int,
)
    requires
        s.len() == y.len(),
        t.len() == y.len(),
        forall|a: int, b: int| a < b ==> #[trigger] f(a) < #[trigger] f(b),
        forall|i: int| 0 <= i < s.len() ==> t[i] as int == f(#[trigger] s[i] as int),
    ensures
        auc_num(t, y) == auc_num(s, y),
{
    assert forall|i: int, j: int|
        0 <= i < y.len() && 0 <= j < y.len() implies pair_credit(t[i], t[j]) == pair_credit(
        #[trigger] s[i],
        #[trigger] s[j],
    ) by {
        let a = s[i] as int;
        let b = s[j] as int;
        assert(t[i] as int == f(a));
        assert(t[j] as int == f(b));
        if a < b {
            assert(f(a) < f(b));
        } else if b < a {
            assert(f(b) < f(a));
        }
    }
    lemma_total_credit_same(s, t, y, y.len() as int);
}

} // verus!
