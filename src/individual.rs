use vstd::prelude::*;
use crate::data::{Data, MAX_FEATURES};
use crate::auc::{Auc, auc_num, auc_den, compute_auc, lemma_auc_bounds, lemma_auc_monotone_invariant};
use crate::utils::generate_random_vector;
use rand_chacha::ChaCha8Rng;

verus! {

/// Number of non-zero weights in `s`.
pub open spec fn nonzero_count(s: Seq<i8>) -> nat
    decreases s.len(),
{
    if s.len() == 0 {
        0
    } else {
        nonzero_count(s.drop_last()) + if s.last() != 0 { 1nat } else { 0nat }
    }
}

/// Every weight is -1, 0 or +1.
pub open spec fn signed_weights(s: Seq<i8>) -> bool {
    forall|i: int| 0 <= i < s.len() ==> -1 <= #[trigger] s[i] <= 1
}

pub proof fn lemma_nonzero_count_bound(s: Seq<i8>)
    ensures
        nonzero_count(s) <= s.len(),
    decreases s.len(),
{
    if s.len() > 0 {
        lemma_nonzero_count_bound(s.drop_last());
    }
}

/// Setting position `i` to `v` changes the count by the change at `i` alone.
pub proof fn lemma_nonzero_count_update(s: Seq<i8>, i: int, v: i8)
    requires
        0 <= i < s.len(),
    ensures
        nonzero_count(s.update(i, v)) + (if s[i] != 0 { 1int } else { 0int })
            == nonzero_count(s) + (if v != 0 { 1int } else { 0int }),
    decreases s.len(),
{
    let t = s.update(i, v);
    if i < s.len() - 1 {
        assert(t.drop_last() =~= s.drop_last().update(i, v));
        lemma_nonzero_count_update(s.drop_last(), i, v);
    } else {
        assert(t.drop_last() =~= s.drop_last());
    }
}

/// Score of sample `j` from the first `n` features: the sum of
/// `weight[f] * value[f][j]`.
pub open spec fn sample_score(w: Seq<i8>, x: Seq<Vec<i64>>, j: int, n: int) -> int
    decreases n,
{
    if n <= 0 {
        0
    } else {
        sample_score(w, x, j, n - 1) + w[n - 1] as int * x[n - 1]@[j] as int
    }
}

/// The score of every sample of `d` under weights `w`.
pub open spec fn scores_of(w: Seq<i8>, d: Data) -> Seq<i128> {
    Seq::new(d.y.len() as nat, |j: int| sample_score(w, d.x@, j, d.x.len() as int) as i128)
}

/// Scale of the fitness: a penalty of `kpenalty` takes `kpenalty / FIT_SCALE`
/// off the AUC for each selected feature.
pub const FIT_SCALE: i128 = 1000000;

/// Penalized fitness `auc - kpenalty / FIT_SCALE * k`, multiplied by
/// `auc.den * FIT_SCALE`. The AUC's denominator depends on the labels alone,
/// so on one data set this orders models as the fitness itself does.
pub open spec fn penalized_fit(auc: Auc, k: int, kpenalty: u32) -> int {
    auc.num * FIT_SCALE - kpenalty * k * auc.den
}

/// What a model is: its weights, their complexity, and its cached scores.
pub struct IndividualModel {
    pub features: Seq<i8>,
    pub k: usize,
    pub auc: Auc,
    pub fit: i128,
}

/// One candidate model: a signed weight per feature.
pub struct Individual {
    /// One weight in {-1, 0, +1} per feature.
    pub features: Vec<i8>,
    /// Number of non-zero weights.
    pub k: usize,
    /// Name of the fitness metric.
    pub fit_method: String,
    /// AUC at the last evaluation.
    pub auc: Auc,
    /// Penalized fitness at the last evaluation (see `penalized_fit`).
    pub fit: i128,
}

impl View for Individual {
    type V = IndividualModel;

    open spec fn view(&self) -> IndividualModel {
        IndividualModel { features: self.features@, k: self.k, auc: self.auc, fit: self.fit }
    }
}

impl IndividualModel {
    /// Weights in {-1, 0, +1}, and `k` counts the non-zero ones.
    pub open spec fn wf(self) -> bool {
        signed_weights(self.features) && self.k == nonzero_count(self.features)
    }

    /// The cached AUC and fitness are those of these weights on `d`.
    pub open spec fn evaluated_on(self, d: Data, kpenalty: u32) -> bool {
        &&& self.auc.num == auc_num(scores_of(self.features, d), d.y@)
        &&& self.auc.den == auc_den(d.y@)
        &&& self.fit == penalized_fit(self.auc, self.k as int, kpenalty)
    }
}

/// One more feature adds its value, subtracts it, or adds nothing.
proof fn lemma_score_step(w: Seq<i8>, x: Seq<Vec<i64>>, j: int, n: int)
    requires
        0 <= n < w.len(),
        -1 <= w[n] <= 1,
    ensures
        sample_score(w, x, j, n + 1) == sample_score(w, x, j, n) + if w[n] == 1 {
            x[n]@[j] as int
        } else if w[n] == -1 {
            -(x[n]@[j] as int)
        } else {
            0
        },
{
    let v = x[n]@[j] as int;
    if w[n] == 1 {
        assert(w[n] as int * v == v);
    } else if w[n] == -1 {
        assert(w[n] as int * v == -v);
    } else {
        assert(w[n] as int * v == 0);
    }
}

proof fn lemma_score_bound(w: Seq<i8>, x: Seq<Vec<i64>>, j: int, n: int)
    requires
        signed_weights(w),
        0 <= n <= w.len(),
    ensures
        -n * 0x8000_0000_0000_0000 <= sample_score(w, x, j, n) <= n * 0x8000_0000_0000_0000,
    decreases n,
{
    if n > 0 {
        lemma_score_bound(w, x, j, n - 1);
        lemma_score_step(w, x, j, n - 1);
    }
}

proof fn lemma_scaled_score(w: Seq<i8>, x1: Seq<Vec<i64>>, x2: Seq<Vec<i64>>, c: int, j: int, n: int)
    requires
        signed_weights(w),
        0 <= n <= w.len(),
        forall|f: int| 0 <= f < n ==> (#[trigger] x2[f])@[j] as int == c * x1[f]@[j] as int,
    ensures
        sample_score(w, x2, j, n) == c * sample_score(w, x1, j, n),
    decreases n,
{
    if n > 0 {
        lemma_scaled_score(w, x1, x2, c, j, n - 1);
        lemma_score_step(w, x1, j, n - 1);
        lemma_score_step(w, x2, j, n - 1);
        let a = sample_score(w, x1, j, n - 1);
        let v = x1[n - 1]@[j] as int;
        assert(x2[n - 1]@[j] as int == c * v);
        assert(c * (a + v) == c * a + c * v) by (nonlinear_arith);
        assert(c * (a - v) == c * a - c * v) by (nonlinear_arith);
    }
}

/// Multiplying every feature value by one positive factor leaves the AUC of
/// every model unchanged.
pub proof fn lemma_auc_scale_invariant(w: Seq<i8>, d1: Data, d2: Data, c: int)
    requires
        d1.wf(),
        d2.wf(),
        d2.y@ == d1.y@,
        d2.x.len() == d1.x.len(),
        w.len() == d1.x.len(),
        signed_weights(w),
        c > 0,
        forall|f: int, j: int|
            0 <= f < d1.x.len() && 0 <= j < d1.y.len() ==> #[trigger] d2.x[f]@[j] as int == c
                * d1.x[f]@[j] as int,
    ensures
        auc_num(scores_of(w, d2), d2.y@) == auc_num(scores_of(w, d1), d1.y@),
{
    let s = scores_of(w, d1);
    let t = scores_of(w, d2);
    let n = d1.x.len() as int;
    let f = |v: int| c * v;
    assert forall|a: int, b: int| a < b implies #[trigger] f(a) < #[trigger] f(b) by {
        assert(c * a < c * b) by (nonlinear_arith)
            requires
                c > 0,
                a < b,
        ;
    }
    assert forall|i: int| 0 <= i < s.len() implies t[i] as int == f(#[trigger] s[i] as int) by {
        assert forall|g: int| 0 <= g < n implies (#[trigger] d2.x@[g])@[i] as int == c * d1.x@[g]@[i] as int by {
            assert(d2.x[g]@[i] as int == c * d1.x[g]@[i] as int);
        }
        lemma_scaled_score(w, d1.x@, d2.x@, c, i, n);
        lemma_score_bound(w, d1.x@, i, n);
        lemma_score_bound(w, d2.x@, i, n);
    }
    lemma_auc_monotone_invariant(s, t, d1.y@, f);
}

impl Individual {
    /// A short description of the type.
    pub fn help() -> (r: &'static str) {
        "Individual: a signed weight in {-1, 0, +1} per feature, the count k of non-zero weights, the fitness method, and the AUC and penalized fitness of the last evaluation."
    }

    /// A model with every one of `feature_len` weights at 0.
    pub fn new(feature_len: usize) -> (r: Individual)
        ensures
            r.features.len() == feature_len,
            forall|i: int| 0 <= i < feature_len ==> #[trigger] r.features@[i] == 0,
            r.k == 0,
            r@.wf(),
            r.fit_method@ == "AUC"@,
    {
        let mut features: Vec<i8> = Vec::new();
        let mut i: usize = 0;
        while i < feature_len
            invariant
                i <= feature_len,
                features.len() == i,
                forall|t: int| 0 <= t < i ==> #[trigger] features@[t] == 0,
                nonzero_count(features@) == 0,
            decreases feature_len - i,
        {
            proof {
                assert(features@.push(0).drop_last() =~= features@);
            }
            features.push(0);
            i = i + 1;
        }
        Individual {
            features,
            k: 0,
            fit_method: String::from_str("AUC"),
            auc: Auc { num: 1, den: 2 },
            fit: 0,
        }
    }

    /// A model over the features of `d` with every weight drawn uniformly from
    /// {-1, 0, +1}; not yet evaluated.
    pub fn random(d: &Data, rng: &mut ChaCha8Rng) -> (r: Individual)
        ensures
            r.features.len() == d.x.len(),
            r@.wf(),
            r.fit_method@ == "AUC"@,
    {
        Individual::with_features(generate_random_vector(d.x.len(), rng))
    }

    /// A copy of the model, cached scores included.
    pub fn copy(&self) -> (r: Individual)
        ensures
            r@ == self@,
    {
        let mut features: Vec<i8> = Vec::new();
        let mut i: usize = 0;
        while i < self.features.len()
            invariant
                i <= self.features.len(),
                features@ == self.features@.subrange(0, i as int),
            decreases self.features.len() - i,
        {
            features.push(self.features[i]);
            i = i + 1;
        }
        assert(features@ =~= self.features@);
        Individual {
            features,
            k: self.k,
            fit_method: self.fit_method.clone(),
            auc: self.auc,
            fit: self.fit,
        }
    }

    /// A model with the given weights, `k` counted from them; not yet evaluated.
    pub fn with_features(features: Vec<i8>) -> (r: Individual)
        requires
            signed_weights(features@),
        ensures
            r@.features == features@,
            r@.wf(),
            r.fit_method@ == "AUC"@,
    {
        let mut r = Individual {
            features,
            k: 0,
            fit_method: String::from_str("AUC"),
            auc: Auc { num: 1, den: 2 },
            fit: 0,
        };
        r.count_k();
        r
    }

    /// Recounts `k` from the weights.
    pub fn count_k(&mut self)
        ensures
            final(self).k == nonzero_count(old(self).features@),
            final(self).features@ == old(self).features@,
            final(self).auc == old(self).auc,
            final(self).fit == old(self).fit,
            final(self).fit_method == old(self).fit_method,
    {
        let mut c: usize = 0;
        let mut i: usize = 0;
        while i < self.features.len()
            invariant
                i <= self.features.len(),
                c == nonzero_count(self.features@.subrange(0, i as int)),
            decreases self.features.len() - i,
        {
            proof {
                let s = self.features@;
                assert(s.subrange(0, i as int + 1).drop_last() =~= s.subrange(0, i as int));
                lemma_nonzero_count_bound(s.subrange(0, i as int));
            }
            if self.features[i] != 0 {
                c = c + 1;
            }
            i = i + 1;
        }
        proof {
            assert(self.features@.subrange(0, i as int) =~= self.features@);
        }
        self.k = c;
    }

    /// The score of every sample: the sum over features of weight times value.
    pub fn evaluate(&self, d: &Data) -> (r: Vec<i128>)
        requires
            d.wf(),
            self.features.len() == d.x.len(),
            signed_weights(self.features@),
        ensures
            r@ == scores_of(self.features@, *d),
    {
        let ns = d.y.len();
        let nf = d.x.len();
        let mut value: Vec<i128> = Vec::new();
        let mut j: usize = 0;
        while j < ns
            invariant
                j <= ns,
                value.len() == j,
                forall|t: int| 0 <= t < j ==> value[t] == 0,
            decreases ns - j,
        {
            value.push(0);
            j = j + 1;
        }
        let mut f: usize = 0;
        while f < nf
            invariant
                d.wf(),
                ns == d.y.len(),
                nf == d.x.len(),
                nf == self.features.len(),
                signed_weights(self.features@),
                f <= nf,
                value.len() == ns,
                forall|t: int|
                    0 <= t < ns ==> #[trigger] value[t] == sample_score(self.features@, d.x@, t, f as int),
            decreases nf - f,
        {
            let w = self.features[f];
            let row = &d.x[f];
            let mut j: usize = 0;
            while j < ns
                invariant
                    d.wf(),
                    ns == d.y.len(),
                    nf == d.x.len(),
                    nf == self.features.len(),
                    signed_weights(self.features@),
                    f < nf,
                    j <= ns,
                    w == self.features@[f as int],
                    row == d.x@[f as int],
                    value.len() == ns,
                    forall|t: int|
                        0 <= t < j ==> #[trigger] value[t] == sample_score(self.features@, d.x@, t, f + 1),
                    forall|t: int|
                        j <= t < ns ==> #[trigger] value[t] == sample_score(self.features@, d.x@, t, f as int),
                decreases ns - j,
            {
                proof {
                    lemma_score_bound(self.features@, d.x@, j as int, f as int);
                    assert(row@.len() == ns);
                }
                proof {
                    lemma_score_step(self.features@, d.x@, j as int, f as int);
                }
                let v = row[j] as i128;
                if w == 1 {
                    value[j] = value[j] + v;
                } else if w == -1 {
                    value[j] = value[j] - v;
                }
                j = j + 1;
            }
            f = f + 1;
        }
        assert(value@ =~= scores_of(self.features@, *d));
        value
    }

    /// Evaluates the model on `d` and caches its AUC and penalized fitness.
    pub fn compute_auc(&mut self, d: &Data, kpenalty: u32) -> (r: Auc)
        requires
            d.wf(),
            old(self).features.len() == d.x.len(),
            old(self)@.wf(),
        ensures
            final(self)@.features == old(self)@.features,
            final(self)@.k == old(self)@.k,
            final(self)@.evaluated_on(*d, kpenalty),
            r == final(self).auc,
    {
        let scores = self.evaluate(d);
        let auc = compute_auc(&scores, &d.y);
        proof {
            lemma_nonzero_count_bound(self.features@);
        }
        self.fit = fitness(auc, self.k, kpenalty);
        self.auc = auc;
        auc
    }
}

/// The penalized fitness of `auc` with `k` selected features.
pub fn fitness(auc: Auc, k: usize, kpenalty: u32) -> (r: i128)
    requires
        auc.num <= auc.den <= 0x2_0000_0000,
        k <= MAX_FEATURES,
    ensures
        r == penalized_fit(auc, k as int, kpenalty),
{
    let num = auc.num as i128;
    let den = auc.den as i128;
    let kp = kpenalty as i128;
    let kk = k as i128;
    proof {
        assert(0 <= kp * kk * den <= 0x1_0000_0000 * 1048576 * 0x2_0000_0000) by (nonlinear_arith)
            requires
                0 <= kp <= 0x1_0000_0000,
                0 <= kk <= 1048576,
                0 <= den <= 0x2_0000_0000,
        ;
        assert(0 <= kp * kk <= 0x1_0000_0000 * 1048576) by (nonlinear_arith)
            requires
                0 <= kp <= 0x1_0000_0000,
                0 <= kk <= 1048576,
        ;
    }
    num * FIT_SCALE - kp * kk * den
}

} // verus!
