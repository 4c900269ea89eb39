use vstd::prelude::*;
use crate::data::{Data, MAX_FEATURES};
use crate::individual::{
    Individual, nonzero_count, signed_weights, lemma_nonzero_count_update,
    lemma_nonzero_count_bound,
};
use crate::param::{Param, ConfigError, parent_count, config_error};
use crate::auc::lemma_auc_bounds;
use crate::individual::{FIT_SCALE, IndividualModel, scores_of};
use crate::rng::seeded;
use crate::population::{Population, pct_of, is_permutation};
use crate::rng::{random_in, sample_indices};
use rand_chacha::ChaCha8Rng;

verus! {

/// `ceil(pct / 100 * n)` is at most `n`.
pub proof fn lemma_pct_of_bound(pct: u32, n: int)
    requires
        pct <= 100,
        0 <= n,
    ensures
        0 <= pct_of(pct, n) <= n,
{
    assert(0 <= pct * n <= 100 * n) by (nonlinear_arith)
        requires
            pct <= 100,
            0 <= n,
    ;
}

/// The models of `r` from position `n` on are copies of those of `pop` at
/// the distinct positions `pos`, all at `n` or after.
pub open spec fn drawn_after(r: Population, pop: Population, n: int, pos: Seq<int>) -> bool {
    &&& pos.len() == r.individuals.len() - n
    &&& forall|t: int| 0 <= t < pos.len() ==> n <= #[trigger] pos[t] < pop.individuals.len()
    &&& forall|t: int|
        0 <= t < pos.len() ==> (#[trigger] r.individuals[n + t])@ == pop.individuals[pos[t]]@
    &&& forall|t: int, u: int| 0 <= t < u < pos.len() ==> pos[t] != pos[u]
}

/// Parents of the next generation: the best `select_elite_pct` percent of
/// the sorted population `pop`, then `select_random_pct` percent of the
/// others, drawn at random.
pub fn select_parents(pop: &Population, param: &Param, rng: &mut ChaCha8Rng) -> (r: Population)
    requires
        param.select_elite_pct <= 100,
        param.select_random_pct <= 100,
        pop.individuals.len() == param.population_size,
    ensures
        r.individuals.len() == parent_count(*param),
        forall|i: int|
            0 <= i < r.individuals.len() ==> pop.holds_model((#[trigger] r.individuals[i])@),
        forall|i: int|
            0 <= i < pct_of(param.select_elite_pct, pop.individuals.len() as int)
                ==> (#[trigger] r.individuals[i])@ == pop.individuals[i]@,
        exists|pos: Seq<int>|
            #[trigger] drawn_after(
                r,
                *pop,
                pct_of(param.select_elite_pct, pop.individuals.len() as int),
                pos,
            ),
{
    let (mut parents, n) = pop.select_first_pct(param.select_elite_pct);
    proof {
        lemma_pct_of_bound(param.select_elite_pct, pop.individuals.len() as int);
    }
    let others = pop.select_random_above_n(param.select_random_pct, n, rng);
    let ghost first = parents.individuals@;
    let ghost drawn = others.individuals@;
    parents.add(others);
    proof {
        assert forall|i: int|
            0 <= i < parents.individuals.len() implies pop.holds_model(
                (#[trigger] parents.individuals[i])@,
            ) by {
            if i < first.len() {
                assert(parents.individuals[i]@ == pop.individuals[i]@);
            } else {
                let pos = choose|pos: Seq<int>|
                    {
                        &&& pos.len() == drawn.len()
                        &&& forall|t: int|
                            0 <= t < pos.len() ==> n <= #[trigger] pos[t] < pop.individuals.len()
                        &&& forall|t: int|
                            0 <= t < pos.len() ==> (#[trigger] drawn[t])@
                                == pop.individuals[pos[t]]@
                        &&& forall|t: int, u: int| 0 <= t < u < pos.len() ==> pos[t] != pos[u]
                    };
                let t = i - first.len();
                assert(parents.individuals[i]@ == pop.individuals[pos[t]]@);
            }
        }
        let pos = choose|pos: Seq<int>|
            {
                &&& pos.len() == drawn.len()
                &&& forall|t: int|
                    0 <= t < pos.len() ==> n <= #[trigger] pos[t] < pop.individuals.len()
                &&& forall|t: int|
                    0 <= t < pos.len() ==> (#[trigger] drawn[t])@ == pop.individuals[pos[t]]@
                &&& forall|t: int, u: int| 0 <= t < u < pos.len() ==> pos[t] != pos[u]
            };
        assert forall|t: int| 0 <= t < pos.len() implies (#[trigger] parents.individuals[n + t])@
            == pop.individuals[pos[t]]@ by {
            assert(parents.individuals[n + t] == drawn[t]);
        }
        assert forall|i: int| 0 <= i < n implies (#[trigger] parents.individuals[i])@
            == pop.individuals[i]@ by {
            assert(parents.individuals[i] == first[i]);
        }
        assert(drawn_after(parents, *pop, n as int, pos));
    }
    parents
}

/// Weights `a[0..x]` followed by `b[x..]`.
pub open spec fn spliced(a: Seq<i8>, b: Seq<i8>, x: int) -> Seq<i8> {
    a.subrange(0, x) + b.subrange(x, b.len() as int)
}

/// `w` is the splice of two distinct models of `parents` at a cut point in
/// `1..feature_len`.
pub open spec fn is_splice_of(w: Seq<i8>, parents: &Population, feature_len: int) -> bool {
    exists|a: int, b: int, x: int|
        {
            &&& 0 <= a < parents.individuals.len()
            &&& 0 <= b < parents.individuals.len()
            &&& a != b
            &&& 1 <= x < feature_len
            &&& w == #[trigger] spliced(
                parents.individuals[a]@.features,
                parents.individuals[b]@.features,
                x,
            )
        }
}

/// With two features the only cut point is 1: a splice is the first weight
/// of one parent followed by the second weight of another.
pub proof fn lemma_two_feature_splice(w: Seq<i8>, parents: &Population)
    requires
        is_splice_of(w, parents, 2),
        parents.well_formed(2),
    ensures
        exists|a: int, b: int|
            0 <= a < parents.individuals.len() && 0 <= b < parents.individuals.len() && a != b
                && w == seq![
                    (#[trigger] parents.individuals[a]).features@[0],
                    (#[trigger] parents.individuals[b]).features@[1],
                ],
{
    let (a, b, x) = choose|a: int, b: int, x: int|
        {
            &&& 0 <= a < parents.individuals.len()
            &&& 0 <= b < parents.individuals.len()
            &&& a != b
            &&& 1 <= x < 2
            &&& w == #[trigger] spliced(
                parents.individuals[a]@.features,
                parents.individuals[b]@.features,
                x,
            )
        };
    assert(parents.individuals[a].features@.len() == 2);
    assert(parents.individuals[b].features@.len() == 2);
    assert(w =~= seq![parents.individuals[a].features@[0], parents.individuals[b].features@[1]]);
}

/// Children that fill the generation up to `population_size`: each takes the
/// weights of one parent before a random cut point in `1..feature_len` and
/// those of another, distinct parent from it on.
pub fn cross_over(parents: &Population, param: &Param, feature_len: usize, rng: &mut ChaCha8Rng) -> (r: Population)
    requires
        parents.individuals.len() <= param.population_size,
        parents.individuals.len() >= 2 || parents.individuals.len() == param.population_size,
        parents.well_formed(feature_len as nat),
        2 <= feature_len,
    ensures
        r.individuals.len() == param.population_size - parents.individuals.len(),
        r.well_formed(feature_len as nat),
        forall|i: int|
            #![trigger r.individuals[i]]
            0 <= i < r.individuals.len() ==> is_splice_of(r.individuals[i]@.features, parents, feature_len as int),
{
    let count = param.population_size - parents.individuals.len();
    let mut children = Population::new();
    let mut c: usize = 0;
    while c < count
        invariant
            count == param.population_size - parents.individuals.len(),
            count > 0 ==> parents.individuals.len() >= 2,
            parents.well_formed(feature_len as nat),
            2 <= feature_len,
            c <= count,
            children.individuals.len() == c,
            children.well_formed(feature_len as nat),
            forall|i: int|
                #![trigger children.individuals[i]]
                0 <= i < c ==> is_splice_of(children.individuals[i]@.features, parents, feature_len as int),
        decreases count - c,
    {
        let pair = sample_indices(rng, parents.individuals.len(), 2);
        let a = pair[0];
        let b = pair[1];
        let x = random_in(rng, 1, feature_len);
        let left = &parents.individuals[a];
        let right = &parents.individuals[b];
        let mut w: Vec<i8> = Vec::new();
        let mut i: usize = 0;
        while i < feature_len
            invariant
                left.features.len() == feature_len,
                right.features.len() == feature_len,
                signed_weights(left.features@),
                signed_weights(right.features@),
                1 <= x < feature_len,
                i <= feature_len,
                w@ == spliced(left.features@, right.features@, x as int).subrange(0, i as int),
            decreases feature_len - i,
        {
            proof {
                let s = spliced(left.features@, right.features@, x as int);
                assert(s.subrange(0, i + 1) =~= s.subrange(0, i as int).push(s[i as int]));
            }
            if i < x {
                w.push(left.features[i]);
            } else {
                w.push(right.features[i]);
            }
            i = i + 1;
        }
        proof {
            let s = spliced(left.features@, right.features@, x as int);
            assert(w@ =~= s);
        }
        let child = Individual::with_features(w);
        let ghost before = children.individuals@;
        children.individuals.push(child);
        proof {
            assert forall|t: int|
                #![trigger children.individuals[t]]
                0 <= t < c + 1 implies is_splice_of(children.individuals[t]@.features, parents, feature_len as int) by {
                if t < c {
                    assert(children.individuals[t] == before[t]);
                } else {
                    assert(children.individuals[t]@.features == spliced(
                        parents.individuals[a as int]@.features,
                        parents.individuals[b as int]@.features,
                        x as int,
                    ));
                }
            }
        }
        c = c + 1;
    }
    children
}

/// `floor(pct / 100 * n)`, at most `n`.
fn pct_floor(pct: u32, n: usize) -> (r: usize)
    requires
        pct <= 100,
    ensures
        r == (pct * n) / 100,
        r <= n,
{
    let p = pct as u128;
    let m = n as u128;
    proof {
        assert(p * m <= 100 * m) by (nonlinear_arith)
            requires
                p <= 100,
                0 <= m,
        ;
    }
    ((p * m) / 100) as usize
}

/// The weight that a draw `r` in `0..200` gives when the chance of a
/// non-zero weight is `p` percent: +1 below `p`, -1 below `2 p`, else 0.
pub open spec fn weight_of_draw(r: int, p: int) -> i8 {
    if r < p {
        1i8
    } else if r < 2 * p {
        -1i8
    } else {
        0i8
    }
}

/// `w` is what some draw in `0..200` gives at a non-zero chance of `p` percent.
pub open spec fn is_draw(w: i8, p: int) -> bool {
    exists|r: int| 0 <= r < 200 && w == #[trigger] weight_of_draw(r, p)
}

/// The weight that draw `r` gives at a non-zero chance of `non_null_pct`
/// percent.
pub fn reroll_weight(r: usize, non_null_pct: u32) -> (v: i8)
    requires
        r < 200,
        non_null_pct <= 100,
    ensures
        v == weight_of_draw(r as int, non_null_pct as int),
{
    let p = non_null_pct as usize;
    if r < p {
        1
    } else if r < 2 * p {
        -1
    } else {
        0
    }
}

/// Draws weight `i` again: +1 or -1, each with chance `non_null_pct / 200`,
/// else 0. Keeps `k` equal to the number of non-zero weights.
fn reroll(ind: &mut Individual, i: usize, non_null_pct: u32, rng: &mut ChaCha8Rng)
    requires
        old(ind)@.wf(),
        i < old(ind).features.len(),
        non_null_pct <= 100,
    ensures
        final(ind)@.wf(),
        final(ind).features@ == old(ind).features@.update(i as int, final(ind).features@[i as int]),
        is_draw(final(ind).features@[i as int], non_null_pct as int),
{
    proof {
        lemma_nonzero_count_update(ind.features@, i as int, 0);
        lemma_nonzero_count_bound(ind.features@);
    }
    if ind.features[i] != 0 {
        ind.k = ind.k - 1;
    }
    let r = random_in(rng, 0, 200);
    let v = reroll_weight(r, non_null_pct);
    let ghost before = ind.features@;
    proof {
        lemma_nonzero_count_update(before, i as int, v);
        lemma_nonzero_count_bound(before.update(i as int, v));
        assert(is_draw(v, non_null_pct as int)) by {
            assert(v == weight_of_draw(r as int, non_null_pct as int));
        }
    }
    if v != 0 {
        ind.k = ind.k + 1;
    }
    ind.features[i] = v;
}

/// `new` differs from `old` at most at the positions listed in `pos`.
pub open spec fn changed_only_at(old: Seq<i8>, new: Seq<i8>, pos: Seq<usize>) -> bool {
    &&& new.len() == old.len()
    &&& forall|j: int| 0 <= j < old.len() && !pos.contains(j as usize) ==> #[trigger] new[j] == old[j]
}

/// `new` is `old` with the weights at the distinct positions `pos` drawn
/// again, at a non-zero chance of `p` percent.
pub open spec fn redrawn_at(old: Seq<i8>, new: Seq<i8>, pos: Seq<usize>, p: int) -> bool {
    &&& changed_only_at(old, new, pos)
    &&& forall|u: int, v: int| 0 <= u < v < pos.len() ==> pos[u] != pos[v]
    &&& forall|u: int| 0 <= u < pos.len() ==> #[trigger] pos[u] < old.len()
    &&& forall|u: int| 0 <= u < pos.len() ==> is_draw(new[#[trigger] pos[u] as int], p)
}

/// `new` is `old` with the weights at `count` distinct positions drawn again.
pub open spec fn redrawn_in(old: Seq<i8>, new: Seq<i8>, count: int, p: int) -> bool {
    exists|pos: Seq<usize>| pos.len() == count && #[trigger] redrawn_at(old, new, pos, p)
}

/// How many children `mutate` draws.
pub open spec fn mutated_children_count(param: Param, n: int) -> int {
    if param.mutated_children_pct > 0 {
        (param.mutated_children_pct * n) / 100
    } else {
        0
    }
}

/// Mutates `mutated_children_pct` percent of the children (rounded down),
/// chosen at random: in each, `mutated_features_pct` percent of the weights
/// (rounded down), at distinct random positions, are drawn again. The other
/// children are left as they are.
pub fn mutate(children: &mut Population, param: &Param, feature_len: usize, rng: &mut ChaCha8Rng)
    requires
        old(children).well_formed(feature_len as nat),
        param.mutated_children_pct <= 100,
        param.mutated_features_pct <= 100,
        param.mutation_non_null_chance_pct <= 100,
    ensures
        final(children).individuals.len() == old(children).individuals.len(),
        final(children).well_formed(feature_len as nat),
        exists|chosen: Seq<usize>|
            {
                &&& chosen.len() == mutated_children_count(
                    *param,
                    old(children).individuals.len() as int,
                )
                &&& forall|u: int, v: int| 0 <= u < v < chosen.len() ==> chosen[u] != chosen[v]
                &&& forall|u: int|
                    0 <= u < chosen.len() ==> #[trigger] chosen[u] < old(children).individuals.len()
                &&& forall|i: int|
                    0 <= i < old(children).individuals.len() && !chosen.contains(i as usize)
                        ==> (#[trigger] final(children).individuals[i])@ == old(children).individuals[i]@
                &&& forall|u: int|
                    0 <= u < chosen.len() ==> redrawn_in(
                        old(children).individuals[#[trigger] chosen[u] as int]@.features,
                        final(children).individuals[chosen[u] as int]@.features,
                        (param.mutated_features_pct * feature_len) / 100,
                        param.mutation_non_null_chance_pct as int,
                    )
            },
{
    let ghost start = children.individuals@;
    let ghost pct = param.mutation_non_null_chance_pct as int;
    let num_features = pct_floor(param.mutated_features_pct, feature_len);
    if param.mutated_children_pct > 0 {
        let n = children.individuals.len();
        let num_individuals = pct_floor(param.mutated_children_pct, n);
        let chosen = sample_indices(rng, n, num_individuals);
        let mut t: usize = 0;
        while t < num_individuals
            invariant
                n == children.individuals.len(),
                n == start.len(),
                pct == param.mutation_non_null_chance_pct as int,
                children.well_formed(feature_len as nat),
                chosen.len() == num_individuals,
                forall|u: int| 0 <= u < num_individuals ==> #[trigger] chosen[u] < n,
                forall|u: int, v: int| 0 <= u < v < num_individuals ==> chosen[u] != chosen[v],
                num_features <= feature_len,
                num_features == (param.mutated_features_pct * feature_len) / 100,
                param.mutation_non_null_chance_pct <= 100,
                t <= num_individuals,
                forall|i: int|
                    0 <= i < n && !chosen@.take(t as int).contains(i as usize)
                        ==> (#[trigger] children.individuals[i])@ == start[i]@,
                forall|u: int|
                    0 <= u < t ==> redrawn_in(
                        start[#[trigger] chosen[u] as int]@.features,
                        children.individuals[chosen[u] as int]@.features,
                        num_features as int,
                        pct,
                    ),
            decreases num_individuals - t,
        {
            let idx = chosen[t];
            proof {
                if chosen@.take(t as int).contains(idx) {
                    let u = choose|u: int| 0 <= u < t && chosen@.take(t as int)[u] == idx;
                    assert(chosen[u] != chosen[t as int]);
                }
                assert(!chosen@.take(t as int).contains(idx));
                assert(children.individuals[idx as int]@ == start[idx as int]@);
            }
            let mut ind = children.individuals[idx].copy();
            let ghost orig = ind.features@;
            let positions = sample_indices(rng, feature_len, num_features);
            let mut u: usize = 0;
            while u < num_features
                invariant
                    ind@.wf(),
                    ind.features.len() == feature_len,
                    orig.len() == feature_len,
                    pct == param.mutation_non_null_chance_pct as int,
                    positions.len() == num_features,
                    forall|v: int| 0 <= v < num_features ==> #[trigger] positions[v] < feature_len,
                    forall|v: int, w: int| 0 <= v < w < num_features ==> positions[v] != positions[w],
                    param.mutation_non_null_chance_pct <= 100,
                    u <= num_features,
                    changed_only_at(orig, ind.features@, positions@.take(u as int)),
                    forall|v: int| 0 <= v < u ==> is_draw(ind.features@[#[trigger] positions[v] as int], pct),
                decreases num_features - u,
            {
                let ghost before = ind.features@;
                reroll(&mut ind, positions[u], param.mutation_non_null_chance_pct, rng);
                proof {
                    assert forall|j: int|
                        0 <= j < orig.len() && !positions@.take(u + 1).contains(j as usize)
                            implies #[trigger] ind.features@[j] == orig[j] by {
                        assert(positions@.take(u + 1)[u as int] == positions[u as int]);
                        if positions@.take(u as int).contains(j as usize) {
                            let v = choose|v: int|
                                0 <= v < u && positions@.take(u as int)[v] == j as usize;
                            assert(positions@.take(u + 1)[v] == j as usize);
                        }
                    }
                    assert forall|v: int| 0 <= v < u + 1 implies is_draw(
                        ind.features@[#[trigger] positions[v] as int],
                        pct,
                    ) by {
                        if v < u {
                            assert(positions[v] != positions[u as int]);
                            assert(ind.features@[positions[v] as int] == before[positions[v] as int]);
                        }
                    }
                }
                u = u + 1;
            }
            proof {
                assert(positions@.take(num_features as int) =~= positions@);
                assert(redrawn_at(orig, ind.features@, positions@, pct));
            }
            let ghost before = children.individuals@;
            children.individuals[idx] = ind;
            proof {
                assert forall|i: int|
                    0 <= i < n && !chosen@.take(t + 1).contains(i as usize)
                        implies (#[trigger] children.individuals[i])@ == start[i]@ by {
                    assert(chosen@.take(t + 1)[t as int] == idx);
                    if chosen@.take(t as int).contains(i as usize) {
                        let v = choose|v: int| 0 <= v < t && chosen@.take(t as int)[v] == i as usize;
                        assert(chosen@.take(t + 1)[v] == i as usize);
                    }
                    assert(i != idx);
                    assert(children.individuals[i] == before[i]);
                }
                assert forall|v: int| 0 <= v < t + 1 implies redrawn_in(
                    start[#[trigger] chosen[v] as int]@.features,
                    children.individuals[chosen[v] as int]@.features,
                    num_features as int,
                    pct,
                ) by {
                    if v < t {
                        assert(chosen[v] != chosen[t as int]);
                        assert(children.individuals[chosen[v] as int] == before[chosen[v] as int]);
                    } else {
                        assert(orig == start[idx as int]@.features);
                        assert(children.individuals[idx as int]@.features == ind.features@);
                        assert(redrawn_at(
                            start[idx as int]@.features,
                            children.individuals[idx as int]@.features,
                            positions@,
                            pct,
                        ));
                    }
                }
            }
            t = t + 1;
        }
        proof {
            assert(chosen@.take(num_individuals as int) =~= chosen@);
            assert(chosen@.len() == mutated_children_count(*param, n as int));
            assert(forall|i: int|
                0 <= i < n && !chosen@.contains(i as usize)
                    ==> (#[trigger] children.individuals[i])@ == start[i]@);
        }
    } else {
        proof {
            let none = Seq::<usize>::empty();
            assert(none.len() == mutated_children_count(*param, start.len() as int));
            assert(forall|i: int| 0 <= i < start.len() && !none.contains(i as usize)
                ==> (#[trigger] children.individuals[i])@ == start[i]@);
        }
    }
}

/// Number of last best fitnesses that the stability test looks at.
pub const STABILITY_WINDOW: usize = 10;

/// `max_divergence` is given in millionths of the mean. Over ten values with
/// sum `s`, the mean is `s / 10` and the mean absolute deviation is
/// `spread / 100` (see `spread_range`), so `deviation < max_divergence / 10^6
/// * mean` reads `spread * DIVERGENCE_SCALE < s * max_divergence`.
pub const DIVERGENCE_SCALE: i128 = 100000;

/// Largest magnitude of a penalized fitness on a data set within the limits.
pub const FIT_BOUND: i128 = 0x400_0000_0000_0000_0000_0000;

pub open spec fn abs(v: int) -> int {
    if v < 0 {
        -v
    } else {
        v
    }
}

/// `h[a] + ... + h[b - 1]`.
pub open spec fn sum_range(h: Seq<i128>, a: int, b: int) -> int
    decreases b - a,
{
    if b <= a {
        0
    } else {
        sum_range(h, a, b - 1) + h[b - 1]
    }
}

/// `|10 h[a] - s| + ... + |10 h[b - 1] - s|`. With `s` the sum of ten values
/// this is 100 times their mean absolute deviation from their mean.
pub open spec fn spread_range(h: Seq<i128>, a: int, b: int, s: int) -> int
    decreases b - a,
{
    if b <= a {
        0
    } else {
        spread_range(h, a, b - 1, s) + abs(10 * h[b - 1] - s)
    }
}

/// The mean absolute deviation of the last ten values of `h` from their mean
/// is below `max_divergence` millionths of that mean, compared exactly in
/// integers (see `DIVERGENCE_SCALE`).
pub open spec fn is_stable(h: Seq<i128>, max_divergence: u32) -> bool {
    h.len() >= STABILITY_WINDOW && {
        let a = h.len() - STABILITY_WINDOW;
        let s = sum_range(h, a, h.len() as int);
        spread_range(h, a, h.len() as int, s) * DIVERGENCE_SCALE < s * max_divergence
    }
}

/// Whether the run stops after `epoch` generations with best fitnesses `h`.
pub open spec fn stop_decision(epoch: int, h: Seq<i128>, p: Param) -> bool {
    epoch >= p.epochs || (epoch >= p.min_epochs && is_stable(h, p.max_divergence))
}

/// Every value is at most `FIT_BOUND` in magnitude.
pub open spec fn bounded(h: Seq<i128>) -> bool {
    forall|t: int| 0 <= t < h.len() ==> -FIT_BOUND <= #[trigger] h[t] <= FIT_BOUND
}

proof fn lemma_sum_range_bound(h: Seq<i128>, a: int, b: int)
    requires
        bounded(h),
        0 <= a <= b <= h.len(),
    ensures
        -(b - a) * FIT_BOUND <= sum_range(h, a, b) <= (b - a) * FIT_BOUND,
    decreases b - a,
{
    if b > a {
        lemma_sum_range_bound(h, a, b - 1);
    }
}

proof fn lemma_spread_range_bound(h: Seq<i128>, a: int, b: int, s: int)
    requires
        bounded(h),
        0 <= a <= b <= h.len(),
        -10 * FIT_BOUND <= s <= 10 * FIT_BOUND,
    ensures
        0 <= spread_range(h, a, b, s) <= (b - a) * 20 * FIT_BOUND,
    decreases b - a,
{
    if b > a {
        lemma_spread_range_bound(h, a, b - 1, s);
    }
}

/// Whether the last ten best fitnesses in `history` are stable.
pub fn is_converged(history: &Vec<i128>, max_divergence: u32) -> (r: bool)
    requires
        bounded(history@),
    ensures
        r == is_stable(history@, max_divergence),
{
    let n = history.len();
    if n < STABILITY_WINDOW {
        return false;
    }
    let a = n - STABILITY_WINDOW;
    let mut s: i128 = 0;
    let mut t: usize = a;
    while t < n
        invariant
            n == history.len(),
            bounded(history@),
            a <= t <= n,
            n - a == STABILITY_WINDOW,
            s == sum_range(history@, a as int, t as int),
        decreases n - t,
    {
        proof {
            lemma_sum_range_bound(history@, a as int, t as int);
        }
        s = s + history[t];
        t = t + 1;
    }
    proof {
        lemma_sum_range_bound(history@, a as int, n as int);
    }
    let mut spread: i128 = 0;
    let mut t: usize = a;
    while t < n
        invariant
            n == history.len(),
            bounded(history@),
            a <= t <= n,
            n - a == STABILITY_WINDOW,
            -10 * FIT_BOUND <= s <= 10 * FIT_BOUND,
            s == sum_range(history@, a as int, n as int),
            spread == spread_range(history@, a as int, t as int, s as int),
        decreases n - t,
    {
        proof {
            lemma_spread_range_bound(history@, a as int, t as int, s as int);
        }
        let d = 10 * history[t] - s;
        if d < 0 {
            spread = spread - d;
        } else {
            spread = spread + d;
        }
        t = t + 1;
    }
    proof {
        lemma_spread_range_bound(history@, a as int, n as int, s as int);
        assert(-10 * FIT_BOUND * 0x1_0000_0000 <= s * max_divergence <= 10 * FIT_BOUND * 0x1_0000_0000)
            by (nonlinear_arith)
            requires
                -10 * FIT_BOUND <= s <= 10 * FIT_BOUND,
                0 <= max_divergence <= 0x1_0000_0000,
        ;
    }
    spread * DIVERGENCE_SCALE < s * (max_divergence as i128)
}

/// Whether the run stops after `epoch` generations: the generation cap is
/// reached, or at least `min_epochs` have run and the best fitness is stable.
pub fn should_stop(epoch: usize, history: &Vec<i128>, param: &Param) -> (r: bool)
    requires
        bounded(history@),
    ensures
        r == stop_decision(epoch as int, history@, *param),
{
    if epoch >= param.epochs {
        return true;
    }
    epoch >= param.min_epochs && is_converged(history, param.max_divergence)
}

proof fn lemma_sum_constant(h: Seq<i128>, a: int, b: int, v: i128)
    requires
        0 <= a <= b <= h.len(),
        forall|t: int| a <= t < b ==> h[t] == v,
    ensures
        sum_range(h, a, b) == (b - a) * v,
    decreases b - a,
{
    if b > a {
        lemma_sum_constant(h, a, b - 1, v);
        assert((b - a - 1) * v + v == (b - a) * v) by (nonlinear_arith);
    } else {
        assert((b - a) * v == 0) by (nonlinear_arith)
            requires
                b == a,
        ;
    }
}

proof fn lemma_spread_constant(h: Seq<i128>, a: int, b: int, v: i128)
    requires
        0 <= a <= b <= h.len(),
        forall|t: int| a <= t < b ==> h[t] == v,
    ensures
        spread_range(h, a, b, 10 * v) == 0,
    decreases b - a,
{
    if b > a {
        lemma_spread_constant(h, a, b - 1, v);
    }
}

/// Ten equal, positive best fitnesses stop the run once `min_epochs` have
/// run, whatever positive threshold is set.
pub proof fn lemma_constant_best_fitness_stops(epoch: int, h: Seq<i128>, v: i128, p: Param)
    requires
        h.len() >= STABILITY_WINDOW,
        forall|t: int| h.len() - STABILITY_WINDOW <= t < h.len() ==> h[t] == v,
        v > 0,
        p.max_divergence > 0,
        epoch >= p.min_epochs,
    ensures
        stop_decision(epoch, h, p),
{
    let a = h.len() - STABILITY_WINDOW;
    lemma_sum_constant(h, a, h.len() as int, v);
    lemma_spread_constant(h, a, h.len() as int, v);
    assert(0 < (10 * v) * p.max_divergence) by (nonlinear_arith)
        requires
            v > 0,
            p.max_divergence > 0,
    ;
}

/// Before the generation cap, a window of best fitnesses whose mean absolute
/// deviation is not below `max_divergence` times its mean never stops the run.
pub proof fn lemma_divergent_best_fitness_continues(epoch: int, h: Seq<i128>, p: Param)
    requires
        epoch < p.epochs,
        h.len() >= STABILITY_WINDOW,
        ({
            let a = h.len() - STABILITY_WINDOW;
            let s = sum_range(h, a, h.len() as int);
            spread_range(h, a, h.len() as int, s) * DIVERGENCE_SCALE >= s * p.max_divergence
        }),
    ensures
        !stop_decision(epoch, h, p),
{
}

/// The best fitness of each population, in order.
pub open spec fn best_fits(pops: Seq<Population>) -> Seq<i128> {
    pops.map_values(|p: Population| p.individuals[0].fit)
}

/// A finished generation of a run of `param` on `d`: of the configured size,
/// every model well formed and evaluated, best first.
pub open spec fn is_generation(p: Population, d: Data, param: Param) -> bool {
    &&& p.individuals.len() == param.population_size
    &&& p.well_formed(d.x.len() as nat)
    &&& p.evaluated_on(d, param.kpenalty)
    &&& p.is_sorted()
}

proof fn lemma_fit_bound(m: IndividualModel, d: Data, kpenalty: u32)
    requires
        d.wf(),
        m.wf(),
        m.features.len() == d.x.len(),
        m.evaluated_on(d, kpenalty),
    ensures
        -FIT_BOUND <= m.fit <= FIT_BOUND,
{
    lemma_auc_bounds(scores_of(m.features, d), d.y@);
    lemma_nonzero_count_bound(m.features);
    let num = m.auc.num as int;
    let den = m.auc.den as int;
    let k = m.k as int;
    assert(0 <= kpenalty * k * den <= 0x1_0000_0000 * 1048576 * 0x2_0000_0000) by (nonlinear_arith)
        requires
            0 <= kpenalty <= 0x1_0000_0000,
            0 <= k <= 1048576,
            0 <= den <= 0x2_0000_0000,
    ;
}

/// Models copied from a well-formed, evaluated population are so too.
proof fn lemma_drawn_from(r: Population, src: Population, d: Data, kpenalty: u32)
    requires
        src.well_formed(d.x.len() as nat),
        src.evaluated_on(d, kpenalty),
        forall|i: int|
            0 <= i < r.individuals.len() ==> src.holds_model((#[trigger] r.individuals[i])@),
    ensures
        r.well_formed(d.x.len() as nat),
        r.evaluated_on(d, kpenalty),
{
    assert forall|i: int| 0 <= i < r.individuals.len() implies {
        &&& (#[trigger] r.individuals[i])@.wf()
        &&& r.individuals[i].features.len() == d.x.len()
        &&& r.individuals[i]@.evaluated_on(d, kpenalty)
    } by {
        let j = choose|j: int|
            0 <= j < src.individuals.len() && r.individuals[i]@ == (#[trigger] src.individuals[j])@;
        assert(r.individuals[i].features@.len() == src.individuals[j].features@.len());
    }
}

/// Appending keeps a population well formed and evaluated.
proof fn lemma_appended(c: Population, a: Population, b: Population, d: Data, kpenalty: u32)
    requires
        c.individuals@ == a.individuals@ + b.individuals@,
        a.well_formed(d.x.len() as nat),
        a.evaluated_on(d, kpenalty),
        b.well_formed(d.x.len() as nat),
        b.evaluated_on(d, kpenalty),
    ensures
        c.well_formed(d.x.len() as nat),
        c.evaluated_on(d, kpenalty),
{
    assert forall|i: int| 0 <= i < c.individuals.len() implies {
        &&& (#[trigger] c.individuals[i])@.wf()
        &&& c.individuals[i].features.len() == d.x.len()
        &&& c.individuals[i]@.evaluated_on(d, kpenalty)
    } by {
        if i < a.individuals.len() {
            assert(c.individuals[i] == a.individuals[i]);
        } else {
            assert(c.individuals[i] == b.individuals[i - a.individuals.len()]);
        }
    }
}

/// Number of elite parents: `ceil(select_elite_pct / 100 * population_size)`.
pub open spec fn elite_count(param: Param) -> int {
    pct_of(param.select_elite_pct, param.population_size as int)
}

/// Each of the first `m` models of `prev` is among those of `next`.
pub open spec fn carries_elite(prev: Population, next: Population, m: int) -> bool {
    forall|i: int| 0 <= i < m ==> next.holds_model((#[trigger] prev.individuals[i])@)
}

/// Runs the genetic algorithm on `data` and returns every generation, each
/// sorted best first. The run stops at the generation cap, or once at least
/// `min_epochs` generations have run and the last ten best fitnesses are
/// stable; it is refused before it starts on a bad configuration.
pub fn ga(data: &Data, param: &Param) -> (r: Result<Vec<Population>, ConfigError>)
    ensures
        r is Err <==> config_error(*param, *data) is Some,
        r matches Err(e) ==> config_error(*param, *data) == Some(e),
        r matches Ok(pops) ==> {
            &&& 1 <= pops.len()
            &&& pops.len() <= param.epochs || pops.len() == 1
            &&& forall|i: int| 0 <= i < pops.len() ==> is_generation(#[trigger] pops[i], *data, *param)
            &&& stop_decision(pops.len() as int, best_fits(pops@), *param)
            &&& forall|e: int|
                1 <= e < pops.len() ==> !stop_decision(e, #[trigger] best_fits(pops@).take(e), *param)
            &&& forall|e: int|
                0 <= e < pops.len() - 1 ==> carries_elite(#[trigger] pops[e], pops[e + 1], elite_count(*param))
            &&& param.select_elite_pct > 0 ==> forall|e: int|
                0 <= e < pops.len() - 1 ==> pops[e + 1].individuals[0].fit
                    >= (#[trigger] pops[e]).individuals[0].fit
        },
{
    match param.validate(data) {
        Err(e) => {
            return Err(e);
        },
        Ok(_) => {},
    }
    let nf = data.x.len();
    let n = param.population_size;
    let kpenalty = param.kpenalty;
    let mut rng = seeded(param.seed);
    let mut pop = Population::new();
    pop.feature_names = data.features.clone();
    pop.generate(n, param.kmin, param.kmax, data, &mut rng);
    pop.evaluate_with_k_penalty(data, kpenalty);
    let mut epoch: usize = 0;
    let mut populations: Vec<Population> = Vec::new();
    let mut history: Vec<i128> = Vec::new();
    proof {
        lemma_pct_of_bound(param.select_elite_pct, n as int);
        lemma_pct_of_bound(
            param.select_random_pct,
            n - pct_of(param.select_elite_pct, n as int),
        );
        assert(history@ =~= best_fits(populations@));
    }
    loop
        invariant_except_break
            epoch == 0 || epoch < param.epochs,
            forall|e: int|
                1 <= e <= epoch ==> !stop_decision(e, #[trigger] history@.take(e), *param),
        invariant
            config_error(*param, *data) is None,
            parent_count(*param) <= n,
            elite_count(*param) <= n,
            nf == data.x.len(),
            n == param.population_size,
            kpenalty == param.kpenalty,
            pop.individuals.len() == n,
            pop.well_formed(nf as nat),
            pop.evaluated_on(*data, kpenalty),
            epoch == populations.len(),
            history@ == best_fits(populations@),
            bounded(history@),
            forall|i: int|
                0 <= i < populations.len() ==> is_generation(#[trigger] populations[i], *data, *param),
            epoch >= 1 ==> forall|i: int|
                0 <= i < elite_count(*param) ==> (#[trigger] pop.individuals[i])@
                    == populations[epoch - 1].individuals[i]@,
            forall|e: int|
                0 <= e < populations.len() - 1 ==> carries_elite(
                    #[trigger] populations[e],
                    populations[e + 1],
                    elite_count(*param),
                ),
        ensures
            1 <= populations.len(),
            populations.len() <= param.epochs || populations.len() == 1,
            forall|i: int|
                0 <= i < populations.len() ==> is_generation(#[trigger] populations[i], *data, *param),
            stop_decision(populations.len() as int, best_fits(populations@), *param),
            forall|e: int|
                1 <= e < populations.len() ==> !stop_decision(e, #[trigger] best_fits(populations@).take(e), *param),
            forall|e: int|
                0 <= e < populations.len() - 1 ==> carries_elite(
                    #[trigger] populations[e],
                    populations[e + 1],
                    elite_count(*param),
                ),
        decreases param.epochs - epoch,
    {
        let ghost prev_epoch = epoch;
        epoch = epoch + 1;
        let sorted = pop.sort();
        proof {
            let perm = choose|perm: Seq<int>|
                {
                    &&& is_permutation(perm, pop.individuals.len() as int)
                    &&& forall|i: int|
                        0 <= i < perm.len() ==> (#[trigger] sorted.individuals[i])@
                            == pop.individuals[perm[i]]@
                    &&& forall|i: int, j: int|
                        0 <= i < j < perm.len() && sorted.individuals[i].fit == sorted.individuals[j].fit
                            ==> perm[i] < perm[j]
                };
            assert forall|i: int|
                0 <= i < sorted.individuals.len() implies pop.holds_model(
                (#[trigger] sorted.individuals[i])@,
            ) by {
                assert(sorted.individuals[i]@ == pop.individuals[perm[i]]@);
            }
            lemma_drawn_from(sorted, pop, *data, kpenalty);
            lemma_fit_bound(sorted.individuals[0]@, *data, kpenalty);
            if prev_epoch >= 1 {
                assert forall|i: int| 0 <= i < elite_count(*param) implies sorted.holds_model(
                    (#[trigger] populations[prev_epoch - 1].individuals[i])@,
                ) by {
                    assert(pop.individuals[i]@ == populations[prev_epoch - 1].individuals[i]@);
                    assert(sorted.holds_model(pop.individuals[i]@));
                }
                assert(carries_elite(populations[prev_epoch - 1], sorted, elite_count(*param)));
            }
        }
        let ghost prev_history = history@;
        history.push(sorted.individuals[0].fit);
        let mut new_pop = select_parents(&sorted, param, &mut rng);
        proof {
            lemma_drawn_from(new_pop, sorted, *data, kpenalty);
        }
        let mut children = cross_over(&new_pop, param, nf, &mut rng);
        mutate(&mut children, param, nf, &mut rng);
        children.evaluate_with_k_penalty(data, kpenalty);
        let ghost parents = new_pop;
        new_pop.add(children);
        proof {
            lemma_appended(new_pop, parents, children, *data, kpenalty);
        }
        let ghost prev_pops = populations@;
        populations.push(sorted);
        pop = new_pop;
        proof {
            assert forall|i: int| 0 <= i < elite_count(*param) implies (#[trigger] pop.individuals[i])@
                == populations[epoch - 1].individuals[i]@ by {
                assert(pop.individuals[i] == parents.individuals[i]);
            }
            assert forall|e: int| 0 <= e < populations.len() - 1 implies carries_elite(
                #[trigger] populations[e],
                populations[e + 1],
                elite_count(*param),
            ) by {
                if e + 1 < prev_pops.len() {
                    assert(populations[e] == prev_pops[e]);
                    assert(populations[e + 1] == prev_pops[e + 1]);
                }
            }
            assert(history@ =~= best_fits(populations@));
            assert forall|e: int| 1 <= e < epoch implies !stop_decision(e, #[trigger] history@.take(e), *param) by {
                assert(history@.take(e) =~= prev_history.take(e));
                assert(!stop_decision(e, prev_history.take(e), *param));
            }
            assert(history@.take(epoch as int) =~= history@);
        }
        if should_stop(epoch, &history, param) {
            break;
        }
    }
    proof {
        if param.select_elite_pct > 0 {
            assert(elite_count(*param) >= 1) by {
                assert(param.select_elite_pct * n >= 1) by (nonlinear_arith)
                    requires
                        param.select_elite_pct >= 1,
                        n >= 1,
                ;
            }
            assert forall|e: int| 0 <= e < populations.len() - 1 implies populations[e + 1].individuals[0].fit
                >= (#[trigger] populations[e]).individuals[0].fit by {
                assert(carries_elite(populations[e], populations[e + 1], elite_count(*param)));
                assert(populations[e + 1].holds_model(populations[e].individuals[0]@));
                let next = populations[e + 1];
                let j = choose|j: int|
                    0 <= j < next.individuals.len() && populations[e].individuals[0]@
                        == (#[trigger] next.individuals[j])@;
                assert(is_generation(next, *data, *param));
                if j > 0 {
                    assert(next.individuals[0].fit >= next.individuals[j].fit);
                }
            }
        }
    }
    Ok(populations)
}

} // verus!
