use vstd::prelude::*;
use crate::data::{Data, MAX_FEATURES};
use crate::individual::{
    Individual, IndividualModel, nonzero_count, signed_weights, lemma_nonzero_count_update,
};
use crate::rng::{random_in, sample_indices};
use rand_chacha::ChaCha8Rng;

verus! {

/// `ceil(pct / 100 * n)`.
pub open spec fn pct_of(pct: u32, n: int) -> int {
    (pct * n + 99) / 100
}

/// `perm` lists each of `0..n` once.
pub open spec fn is_permutation(perm: Seq<int>, n: int) -> bool {
    &&& perm.len() == n
    &&& forall|i: int| 0 <= i < n ==> 0 <= #[trigger] perm[i] < n
    &&& forall|i: int, j: int| 0 <= i < j < n ==> perm[i] != perm[j]
}

/// `v` occurs in `order`.
pub open spec fn lists(order: Seq<usize>, v: int) -> bool {
    exists|k: int| 0 <= k < order.len() && order[k] as int == v
}

/// `ceil(pct / 100 * n)`, at most `n`.
pub fn pct_count(pct: u32, n: usize) -> (r: usize)
    requires
        pct <= 100,
    ensures
        r == pct_of(pct, n as int),
        r <= n,
{
    let p = pct as u128;
    let m = n as u128;
    proof {
        assert(p * m <= 100 * m) by (nonlinear_arith)
            requires
                p <= 100,
                0 <= m,
        ;
        assert((p * m + 99) / 100 <= m) by (nonlinear_arith)
            requires
                p * m <= 100 * m,
                0 <= m,
        ;
    }
    ((p * m + 99) / 100) as usize
}

/// A random model with `kmin..=kmax` non-zero weights: the count, the
/// positions and the signs are drawn uniformly.
fn random_with_k(nf: usize, kmin: usize, kmax: usize, rng: &mut ChaCha8Rng) -> (r: Individual)
    requires
        kmin <= kmax <= nf,
        nf <= MAX_FEATURES,
    ensures
        r@.wf(),
        r.features.len() == nf,
        kmin <= r.k <= kmax,
{
    let k = random_in(rng, kmin, kmax + 1);
    let pos = sample_indices(rng, nf, k);
    let mut w: Vec<i8> = Vec::new();
    let mut i: usize = 0;
    while i < nf
        invariant
            i <= nf,
            w.len() == i,
            forall|t: int| 0 <= t < i ==> w[t] == 0,
            nonzero_count(w@) == 0,
        decreases nf - i,
    {
        proof {
            assert(w@.push(0).drop_last() =~= w@);
        }
        w.push(0);
        i = i + 1;
    }
    let mut t: usize = 0;
    while t < k
        invariant
            k <= nf,
            pos.len() == k,
            forall|u: int| 0 <= u < k ==> #[trigger] pos[u] < nf,
            forall|u: int, v: int| 0 <= u < v < k ==> pos[u] != pos[v],
            t <= k,
            w.len() == nf,
            signed_weights(w@),
            nonzero_count(w@) == t,
            forall|u: int| t <= u < k ==> w@[#[trigger] pos[u] as int] == 0,
        decreases k - t,
    {
        let sign = random_in(rng, 0, 2);
        let v: i8 = if sign == 0 { -1 } else { 1 };
        let p = pos[t];
        proof {
            lemma_nonzero_count_update(w@, p as int, v);
        }
        w[p] = v;
        proof {
            assert forall|u: int| t + 1 <= u < k implies w@[#[trigger] pos[u] as int] == 0 by {
                assert(pos[t as int] != pos[u]);
            }
        }
        t = t + 1;
    }
    Individual::with_features(w)
}

/// A generation: an ordered collection of models over one feature space.
pub struct Population {
    pub individuals: Vec<Individual>,
    /// Name of each feature, by index.
    pub feature_names: Vec<String>,
}

impl Population {
    /// Every model is well formed and has one weight per each of `nf` features.
    pub open spec fn well_formed(&self, nf: nat) -> bool {
        forall|i: int|
            0 <= i < self.individuals.len() ==> {
                &&& (#[trigger] self.individuals[i])@.wf()
                &&& self.individuals[i].features.len() == nf
            }
    }

    /// Every model's cached scores are those on `d`.
    pub open spec fn evaluated_on(&self, d: Data, kpenalty: u32) -> bool {
        forall|i: int|
            0 <= i < self.individuals.len() ==> (#[trigger] self.individuals[i])@.evaluated_on(
                d,
                kpenalty,
            )
    }

    /// `m` is one of the models here.
    pub open spec fn holds_model(&self, m: IndividualModel) -> bool {
        exists|j: int| 0 <= j < self.individuals.len() && m == (#[trigger] self.individuals[j])@
    }

    /// Models are in order of non-increasing fitness.
    pub open spec fn is_sorted(&self) -> bool {
        forall|i: int, j: int|
            0 <= i < j < self.individuals.len() ==> self.individuals[i].fit
                >= self.individuals[j].fit
    }

    /// Model `a` comes before model `b` in the fitness order: fitter, or as fit
    /// and earlier.
    pub open spec fn ranks_before(&self, a: int, b: int) -> bool {
        ||| self.individuals[a].fit > self.individuals[b].fit
        ||| (self.individuals[a].fit == self.individuals[b].fit && a < b)
    }

    /// A short description of the type.
    pub fn help() -> (r: &'static str) {
        "Population: an ordered collection of individuals over one feature space, with the name of each feature."
    }

    /// An empty population.
    pub fn new() -> (r: Population)
        ensures
            r.individuals.len() == 0,
            r.feature_names.len() == 0,
    {
        Population { individuals: Vec::new(), feature_names: Vec::new() }
    }

    /// Appends the models of `other` after those already here.
    pub fn add(&mut self, other: Population)
        ensures
            final(self).individuals@ == old(self).individuals@ + other.individuals@,
    {
        let mut other = other;
        self.individuals.append(&mut other.individuals);
    }

    /// Appends `size` random models over the features of `d`, each with
    /// `kmin..=kmax` non-zero weights.
    pub fn generate(
        &mut self,
        size: usize,
        kmin: usize,
        kmax: usize,
        d: &Data,
        rng: &mut ChaCha8Rng,
    )
        requires
            d.wf(),
            kmin <= kmax <= d.x.len(),
        ensures
            final(self).individuals.len() == old(self).individuals.len() + size,
            forall|i: int|
                0 <= i < old(self).individuals.len() ==> final(self).individuals[i] == old(
                    self,
                ).individuals[i],
            forall|i: int|
                old(self).individuals.len() <= i < final(self).individuals.len() ==> {
                    &&& (#[trigger] final(self).individuals[i])@.wf()
                    &&& final(self).individuals[i].features.len() == d.x.len()
                    &&& kmin <= final(self).individuals[i].k <= kmax
                },
    {
        let ghost start = self.individuals.len();
        let mut t: usize = 0;
        while t < size
            invariant
                d.wf(),
                kmin <= kmax <= d.x.len(),
                t <= size,
                self.individuals.len() == start + t,
                forall|i: int| 0 <= i < start ==> self.individuals[i] == old(self).individuals[i],
                forall|i: int|
                    start <= i < self.individuals.len() ==> {
                        &&& (#[trigger] self.individuals[i])@.wf()
                        &&& self.individuals[i].features.len() == d.x.len()
                        &&& kmin <= self.individuals[i].k <= kmax
                    },
            decreases size - t,
        {
            let ind = random_with_k(d.x.len(), kmin, kmax, rng);
            self.individuals.push(ind);
            t = t + 1;
        }
    }

    /// Computes every model's AUC on `d` and its fitness less `kpenalty` per
    /// selected feature.
    pub fn evaluate_with_k_penalty(&mut self, d: &Data, kpenalty: u32)
        requires
            d.wf(),
            old(self).well_formed(d.x.len() as nat),
        ensures
            final(self).individuals.len() == old(self).individuals.len(),
            forall|i: int|
                0 <= i < final(self).individuals.len() ==> {
                    &&& (#[trigger] final(self).individuals[i])@.features == old(
                        self,
                    ).individuals[i]@.features
                    &&& final(self).individuals[i].k == old(self).individuals[i].k
                },
            final(self).well_formed(d.x.len() as nat),
            final(self).evaluated_on(*d, kpenalty),
    {
        let mut done: Vec<Individual> = Vec::new();
        let mut i: usize = 0;
        while i < self.individuals.len()
            invariant
                d.wf(),
                self.well_formed(d.x.len() as nat),
                i <= self.individuals.len(),
                done.len() == i,
                forall|t: int|
                    0 <= t < i ==> {
                        &&& (#[trigger] done[t])@.features == self.individuals[t]@.features
                        &&& done[t].k == self.individuals[t].k
                        &&& done[t]@.wf()
                        &&& done[t].features.len() == d.x.len()
                        &&& done[t]@.evaluated_on(*d, kpenalty)
                    },
            decreases self.individuals.len() - i,
        {
            let mut ind = self.individuals[i].copy();
            ind.compute_auc(d, kpenalty);
            done.push(ind);
            i = i + 1;
        }
        self.individuals = done;
    }

    /// The models in order of non-increasing fitness; models of equal fitness
    /// keep their order. The receiver is left as it is.
    pub fn sort(&self) -> (r: Population)
        ensures
            r.individuals.len() == self.individuals.len(),
            r.is_sorted(),
            forall|j: int|
                0 <= j < self.individuals.len() ==> r.holds_model((#[trigger] self.individuals[j])@),
            exists|perm: Seq<int>|
                {
                    &&& is_permutation(perm, self.individuals.len() as int)
                    &&& forall|i: int|
                        0 <= i < perm.len() ==> (#[trigger] r.individuals[i])@
                            == self.individuals[perm[i]]@
                    &&& forall|i: int, j: int|
                        0 <= i < j < perm.len() && r.individuals[i].fit == r.individuals[j].fit
                            ==> perm[i] < perm[j]
                },
    {
        let n = self.individuals.len();
        let mut order: Vec<usize> = Vec::new();
        let mut i: usize = 0;
        while i < n
            invariant
                n == self.individuals.len(),
                i <= n,
                order.len() == i,
                forall|t: int| 0 <= t < i ==> #[trigger] order[t] < i,
                forall|a: int, b: int|
                    0 <= a < b < i ==> self.ranks_before(order[a] as int, order[b] as int),
                forall|v: int| 0 <= v < i ==> #[trigger] lists(order@, v),
            decreases n - i,
        {
            let f = self.individuals[i].fit;
            let mut j: usize = 0;
            while j < order.len() && self.individuals[order[j]].fit >= f
                invariant
                    n == self.individuals.len(),
                    i < n,
                    order.len() == i,
                    forall|t: int| 0 <= t < i ==> #[trigger] order[t] < i,
                    f == self.individuals[i as int].fit,
                    j <= order.len(),
                    forall|t: int| 0 <= t < j ==> self.individuals[#[trigger] order[t] as int].fit >= f,
                decreases order.len() - j,
            {
                j = j + 1;
            }
            let ghost prev = order@;
            order.insert(j, i);
            proof {
                assert forall|v: int| 0 <= v < i + 1 implies #[trigger] lists(order@, v) by {
                    if v == i {
                        assert(order[j as int] == i);
                    } else {
                        assert(lists(prev, v));
                        let k = choose|k: int| 0 <= k < prev.len() && prev[k] as int == v;
                        if k < j {
                            assert(order[k] == prev[k]);
                        } else {
                            assert(order[k + 1] == prev[k]);
                        }
                    }
                }
                assert forall|a: int, b: int|
                    0 <= a < b < i + 1 implies self.ranks_before(order[a] as int, order[b] as int) by {
                    if b < j {
                        assert(order[a] == prev[a] && order[b] == prev[b]);
                    } else if b == j {
                        assert(order[a] == prev[a]);
                        assert(order[b] == i);
                    } else if a == j {
                        assert(order[b] == prev[b - 1]);
                        assert(self.ranks_before(prev[j as int] as int, prev[b - 1] as int) || b - 1 == j);
                    } else if a < j {
                        assert(order[a] == prev[a] && order[b] == prev[b - 1]);
                    } else {
                        assert(order[a] == prev[a - 1] && order[b] == prev[b - 1]);
                    }
                }
            }
            i = i + 1;
        }
        let mut out: Vec<Individual> = Vec::new();
        let mut t: usize = 0;
        while t < n
            invariant
                n == self.individuals.len(),
                order.len() == n,
                forall|u: int| 0 <= u < n ==> #[trigger] order[u] < n,
                t <= n,
                out.len() == t,
                forall|u: int|
                    0 <= u < t ==> (#[trigger] out[u])@ == self.individuals[order[u] as int]@,
            decreases n - t,
        {
            out.push(self.individuals[order[t]].copy());
            t = t + 1;
        }
        let r = Population { individuals: out, feature_names: self.feature_names.clone() };
        proof {
            let perm = order@.map_values(|v: usize| v as int);
            assert forall|a: int, b: int| 0 <= a < b < n implies perm[a] != perm[b] by {
                assert(self.ranks_before(order[a] as int, order[b] as int));
            }
            assert forall|a: int, b: int| 0 <= a < b < n implies r.individuals[a].fit
                >= r.individuals[b].fit by {
                assert(self.ranks_before(order[a] as int, order[b] as int));
            }
            assert forall|a: int, b: int|
                0 <= a < b < perm.len() && r.individuals[a].fit == r.individuals[b].fit implies perm[a]
                < perm[b] by {
                assert(self.ranks_before(order[a] as int, order[b] as int));
            }
            assert(forall|u: int| 0 <= u < n ==> (#[trigger] r.individuals[u])@ == self.individuals[perm[u]]@);
            assert(forall|u: int| 0 <= u < n ==> 0 <= #[trigger] perm[u] < n);
            assert(is_permutation(perm, n as int));
            assert forall|j: int| 0 <= j < n implies r.holds_model((#[trigger] self.individuals[j])@) by {
                assert(lists(order@, j));
                let k = choose|k: int| 0 <= k < order@.len() && order@[k] as int == j;
                assert(r.individuals[k]@ == self.individuals[j]@);
            }
        }
        r
    }

    /// The first `ceil(pct / 100 * len)` models, and how many that is.
    pub fn select_first_pct(&self, pct: u32) -> (r: (Population, usize))
        requires
            pct <= 100,
        ensures
            r.1 == pct_of(pct, self.individuals.len() as int),
            r.0.individuals.len() == r.1,
            forall|i: int| 0 <= i < r.1 ==> (#[trigger] r.0.individuals[i])@ == self.individuals[i]@,
    {
        let n = pct_count(pct, self.individuals.len());
        let mut out: Vec<Individual> = Vec::new();
        let mut t: usize = 0;
        while t < n
            invariant
                n <= self.individuals.len(),
                t <= n,
                out.len() == t,
                forall|u: int| 0 <= u < t ==> (#[trigger] out[u])@ == self.individuals[u]@,
            decreases n - t,
        {
            out.push(self.individuals[t].copy());
            t = t + 1;
        }
        (Population { individuals: out, feature_names: self.feature_names.clone() }, n)
    }

    /// `ceil(pct / 100 * (len - n))` models drawn uniformly, without
    /// replacement, from those at positions `n` and after.
    pub fn select_random_above_n(&self, pct: u32, n: usize, rng: &mut ChaCha8Rng) -> (r: Population)
        requires
            pct <= 100,
            n <= self.individuals.len(),
        ensures
            r.individuals.len() == pct_of(pct, self.individuals.len() - n),
            exists|pos: Seq<int>|
                {
                    &&& pos.len() == r.individuals.len()
                    &&& forall|i: int|
                        0 <= i < pos.len() ==> n <= #[trigger] pos[i] < self.individuals.len()
                    &&& forall|i: int|
                        0 <= i < pos.len() ==> (#[trigger] r.individuals[i])@
                            == self.individuals[pos[i]]@
                    &&& forall|i: int, j: int| 0 <= i < j < pos.len() ==> pos[i] != pos[j]
                },
    {
        let rest = self.individuals.len() - n;
        let m = pct_count(pct, rest);
        let idx = sample_indices(rng, rest, m);
        let mut out: Vec<Individual> = Vec::new();
        let mut t: usize = 0;
        while t < m
            invariant
                rest == self.individuals.len() - n,
                idx.len() == m,
                forall|u: int| 0 <= u < m ==> #[trigger] idx[u] < rest,
                t <= m,
                out.len() == t,
                forall|u: int|
                    0 <= u < t ==> (#[trigger] out[u])@ == self.individuals[n + idx[u]]@,
            decreases m - t,
        {
            out.push(self.individuals[n + idx[t]].copy());
            t = t + 1;
        }
        let r = Population { individuals: out, feature_names: self.feature_names.clone() };
        proof {
            let pos = idx@.map_values(|v: usize| n + v as int);
            assert(forall|u: int| 0 <= u < m ==> (#[trigger] r.individuals[u])@ == self.individuals[pos[u]]@);
            assert(forall|u: int| 0 <= u < m ==> n <= #[trigger] pos[u] < self.individuals.len());
            assert forall|a: int, b: int| 0 <= a < b < pos.len() implies pos[a] != pos[b] by {
                assert(idx[a] != idx[b]);
            }
            assert(pos.len() == r.individuals.len());
        }
        r
    }
}

} // verus!
