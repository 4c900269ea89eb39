use gpredomics::auc::{compute_auc, Auc};
use gpredomics::data::Data;
use gpredomics::ga::{cross_over, ga, is_converged, mutate, reroll_weight, select_parents, should_stop};
use gpredomics::individual::{fitness, Individual};
use gpredomics::param::{ConfigError, Param};
use gpredomics::population::{pct_count, Population};
use gpredomics::utils::{generate_random_vector, split_into_balanced_random_chunks, weight_of_index};
use rand::SeedableRng;
use rand_chacha::ChaCha8Rng;

fn sample_data() -> Data {
    let mut d = Data::new();
    d.x = vec![
        vec![100000, 200000, 300000],
        vec![0, 0, 0],
        vec![900000, 800000, 700000],
    ];
    d.y = vec![0, 1, 1];
    d.samples = vec!["a".to_string(), "b".to_string(), "c".to_string()];
    d.features = vec!["msp1".to_string(), "msp2".to_string(), "msp3".to_string()];
    d
}

fn larger_data() -> Data {
    let mut d = Data::new();
    let ns = 12;
    let nf = 8;
    for f in 0..nf {
        let mut row = Vec::new();
        for s in 0..ns {
            row.push(((f * 7 + s * 13) % 17) as i64 * 1000 - 5000 + if s % 2 == 1 && f < 3 { 4000 } else { 0 });
        }
        d.x.push(row);
    }
    for s in 0..ns {
        d.y.push((s % 2) as u8);
        d.samples.push(format!("s{}", s));
    }
    for f in 0..nf {
        d.features.push(format!("f{}", f));
    }
    d
}

fn default_param() -> Param {
    Param {
        seed: 42,
        population_size: 20,
        kmin: 1,
        kmax: 4,
        kpenalty: 1000,
        epochs: 15,
        min_epochs: 5,
        max_divergence: 1000,
        select_elite_pct: 20,
        select_random_pct: 20,
        mutated_children_pct: 50,
        mutated_features_pct: 25,
        mutation_non_null_chance_pct: 20,
    }
}

fn model(w: Vec<i8>, fit: i128) -> Individual {
    let mut ind = Individual::with_features(w);
    ind.fit = fit;
    ind
}

fn count_nonzero(w: &[i8]) -> usize {
    w.iter().filter(|v| **v != 0).count()
}

#[test]
fn basic_test() {
    let d = sample_data();
    let mut ind = Individual::new(3);
    assert_eq!(ind.features, vec![0, 0, 0]);
    assert_eq!(ind.k, 0);
    assert_eq!(ind.fit_method, "AUC");
    ind.features = vec![1, 0, -1];
    ind.count_k();
    assert_eq!(ind.k, 2);
    assert_eq!(ind.evaluate(&d), vec![-800000, -600000, -400000]);
    let auc = ind.compute_auc(&d, 0);
    assert_eq!(auc.num, auc.den);
    assert_eq!((auc.num, auc.den), (4, 4));
}

#[test]
fn auc_counts_ties_as_half() {
    let auc = compute_auc(&vec![5, 5, 1, 7], &vec![0, 1, 0, 1]);
    // pairs: (5 vs 5) tie, (5 vs 1) win, (7 vs 5) win, (7 vs 1) win
    assert_eq!((auc.num, auc.den), (7, 8));
}

#[test]
fn auc_degenerate_labels_is_half() {
    let auc = compute_auc(&vec![1, 2, 3], &vec![1, 1, 1]);
    assert_eq!((auc.num, auc.den), (1, 2));
    let auc = compute_auc(&vec![], &vec![]);
    assert_eq!((auc.num, auc.den), (1, 2));
}

#[test]
fn auc_invariant_under_monotone_map() {
    let y = vec![0, 1, 1, 0, 1, 0];
    let s = vec![-3, 4, 4, 2, -1, 9];
    let t: Vec<i128> = s.iter().map(|v| v * v * v + 10 * v + 1000).collect();
    let a = compute_auc(&s, &y);
    let b = compute_auc(&t, &y);
    assert_eq!((a.num, a.den), (b.num, b.den));
}

#[test]
fn fitness_exact_value() {
    let auc = Auc { num: 4, den: 4 };
    assert_eq!(fitness(auc, 2, 10000), 4 * 1000000 - 10000 * 2 * 4);
}

#[test]
fn pct_count_rounds_up() {
    assert_eq!(pct_count(25, 10), 3);
    assert_eq!(pct_count(0, 10), 0);
    assert_eq!(pct_count(100, 7), 7);
    assert_eq!(pct_count(1, 1), 1);
}

#[test]
fn select_first_pct_is_prefix() {
    let mut pop = Population::new();
    for i in 0..10 {
        pop.individuals.push(model(vec![1, 0], 100 - i as i128));
    }
    let (first, n) = pop.select_first_pct(25);
    assert_eq!(n, 3);
    assert_eq!(first.individuals.len(), 3);
    for i in 0..3 {
        assert_eq!(first.individuals[i].fit, pop.individuals[i].fit);
    }
}

#[test]
fn select_random_above_n_draws_distinct_later_models() {
    let mut pop = Population::new();
    for i in 0..10 {
        pop.individuals.push(model(vec![1, 0], i as i128));
    }
    let mut rng = ChaCha8Rng::seed_from_u64(7);
    let drawn = pop.select_random_above_n(50, 4, &mut rng);
    assert_eq!(drawn.individuals.len(), 3);
    let mut fits: Vec<i128> = drawn.individuals.iter().map(|i| i.fit).collect();
    assert!(fits.iter().all(|f| *f >= 4 && *f < 10));
    fits.sort();
    fits.dedup();
    assert_eq!(fits.len(), 3);
}

#[test]
fn sort_is_descending_and_stable() {
    let mut pop = Population::new();
    let fits = [3, 7, 3, 9, 7];
    for (i, f) in fits.iter().enumerate() {
        let mut w = vec![0i8; 5];
        w[i] = 1;
        pop.individuals.push(model(w, *f));
    }
    let sorted = pop.sort();
    let got: Vec<(i128, usize)> = sorted
        .individuals
        .iter()
        .map(|m| (m.fit, m.features.iter().position(|v| *v == 1).unwrap()))
        .collect();
    assert_eq!(got, vec![(9, 3), (7, 1), (7, 4), (3, 0), (3, 2)]);
    assert_eq!(pop.individuals[0].fit, 3);
}

#[test]
fn add_appends_in_order() {
    let mut a = Population::new();
    a.individuals.push(model(vec![1], 1));
    let mut b = Population::new();
    b.individuals.push(model(vec![-1], 2));
    b.individuals.push(model(vec![0], 3));
    a.add(b);
    let fits: Vec<i128> = a.individuals.iter().map(|m| m.fit).collect();
    assert_eq!(fits, vec![1, 2, 3]);
}

#[test]
fn generate_respects_k_range() {
    let d = larger_data();
    let mut rng = ChaCha8Rng::seed_from_u64(3);
    let mut pop = Population::new();
    pop.generate(30, 2, 5, &d, &mut rng);
    assert_eq!(pop.individuals.len(), 30);
    for m in &pop.individuals {
        assert_eq!(m.features.len(), 8);
        assert!(m.k >= 2 && m.k <= 5);
        assert_eq!(m.k, count_nonzero(&m.features));
    }
}

#[test]
fn crossover_with_two_features() {
    let mut parents = Population::new();
    parents.individuals.push(model(vec![1, -1], 0));
    parents.individuals.push(model(vec![-1, 1], 0));
    let mut p = default_param();
    p.population_size = 6;
    let mut rng = ChaCha8Rng::seed_from_u64(11);
    let children = cross_over(&parents, &p, 2, &mut rng);
    assert_eq!(children.individuals.len(), 4);
    for c in &children.individuals {
        assert!(c.features == vec![1, 1] || c.features == vec![-1, -1]);
        assert_eq!(c.k, 2);
    }
}

#[test]
fn mutation_keeps_k_in_step() {
    let d = larger_data();
    let mut rng = ChaCha8Rng::seed_from_u64(5);
    let mut pop = Population::new();
    pop.generate(20, 1, 3, &d, &mut rng);
    let before: Vec<Vec<i8>> = pop.individuals.iter().map(|m| m.features.clone()).collect();
    let mut p = default_param();
    p.mutated_children_pct = 100;
    p.mutated_features_pct = 100;
    p.mutation_non_null_chance_pct = 100;
    mutate(&mut pop, &p, 8, &mut rng);
    assert_eq!(pop.individuals.len(), 20);
    let after: Vec<Vec<i8>> = pop.individuals.iter().map(|m| m.features.clone()).collect();
    assert_ne!(before, after);
    for m in &pop.individuals {
        assert_eq!(m.k, count_nonzero(&m.features));
        assert!(m.features.iter().all(|v| *v == 1 || *v == -1));
    }
}

#[test]
fn parents_have_configured_count() {
    let d = larger_data();
    let mut rng = ChaCha8Rng::seed_from_u64(9);
    let mut pop = Population::new();
    pop.generate(20, 1, 3, &d, &mut rng);
    pop.evaluate_with_k_penalty(&d, 0);
    let sorted = pop.sort();
    let p = default_param();
    let parents = select_parents(&sorted, &p, &mut rng);
    // 4 elite, then ceil(20% of 16) = 4
    assert_eq!(parents.individuals.len(), 8);
    for i in 0..4 {
        assert_eq!(parents.individuals[i].fit, sorted.individuals[i].fit);
    }
}

#[test]
fn stable_history_stops() {
    let h: Vec<i128> = vec![500; 10];
    assert!(is_converged(&h, 1000));
    let p = default_param();
    assert!(should_stop(5, &h, &p));
    assert!(!should_stop(4, &h, &p));
    assert!(!is_converged(&vec![500; 9], 1000));
}

#[test]
fn divergent_history_continues() {
    let h: Vec<i128> = vec![100, 900, 100, 900, 100, 900, 100, 900, 100, 900];
    assert!(!is_converged(&h, 1000));
    let p = default_param();
    assert!(!should_stop(6, &h, &p));
    assert!(should_stop(15, &h, &p));
}

#[test]
fn ga_generations_have_configured_size() {
    let d = larger_data();
    let p = default_param();
    let pops = ga(&d, &p).unwrap();
    assert!(!pops.is_empty() && pops.len() <= 15);
    for pop in &pops {
        assert_eq!(pop.individuals.len(), 20);
        for w in pop.individuals.windows(2) {
            assert!(w[0].fit >= w[1].fit);
        }
        for m in &pop.individuals {
            assert_eq!(m.k, count_nonzero(&m.features));
        }
    }
}

#[test]
fn ga_is_deterministic() {
    let d = larger_data();
    let p = default_param();
    let a = ga(&d, &p).unwrap();
    let b = ga(&d, &p).unwrap();
    assert_eq!(a.len(), b.len());
    for (x, y) in a.iter().zip(b.iter()) {
        for (m, n) in x.individuals.iter().zip(y.individuals.iter()) {
            assert_eq!(m.features, n.features);
            assert_eq!(m.fit, n.fit);
        }
    }
}

#[test]
fn ga_refuses_bad_configuration() {
    let d = larger_data();
    let mut p = default_param();
    p.select_elite_pct = 101;
    assert_eq!(ga(&d, &p).err(), Some(ConfigError::Percentage));
    let mut p = default_param();
    p.population_size = 0;
    assert_eq!(ga(&d, &p).err(), Some(ConfigError::EmptyPopulation));
    let mut p = default_param();
    p.kmin = 5;
    p.kmax = 2;
    assert_eq!(ga(&d, &p).err(), Some(ConfigError::KRange));
    let mut p = default_param();
    p.select_elite_pct = 1;
    p.select_random_pct = 0;
    assert_eq!(ga(&d, &p).err(), Some(ConfigError::TooFewParents));
    let mut one = Data::new();
    one.x = vec![vec![1, 2]];
    one.y = vec![0, 1];
    one.features = vec!["f".to_string()];
    one.samples = vec!["a".to_string(), "b".to_string()];
    let mut p = default_param();
    p.kmin = 0;
    p.kmax = 1;
    assert_eq!(ga(&one, &p).err(), Some(ConfigError::TooFewFeatures));
    let mut bad = larger_data();
    bad.x[2].pop();
    assert_eq!(ga(&bad, &default_param()).err(), Some(ConfigError::DataShape));
    let mut unnamed = larger_data();
    unnamed.features.pop();
    assert_eq!(ga(&unnamed, &default_param()).err(), Some(ConfigError::DataShape));
}

#[test]
fn random_vector_is_signed() {
    let mut rng = ChaCha8Rng::seed_from_u64(1);
    let v = generate_random_vector(200, &mut rng);
    assert_eq!(v.len(), 200);
    assert!(v.iter().all(|w| *w >= -1 && *w <= 1));
    assert!(v.contains(&-1) && v.contains(&0) && v.contains(&1));
    let d = larger_data();
    let ind = Individual::random(&d, &mut rng);
    assert_eq!(ind.features.len(), 8);
    assert_eq!(ind.k, count_nonzero(&ind.features));
}

#[test]
fn balanced_chunks() {
    let mut rng = ChaCha8Rng::seed_from_u64(2);
    let items: Vec<u32> = (0..20).collect();
    let chunks = split_into_balanced_random_chunks(items.clone(), 3, &mut rng);
    let sizes: Vec<usize> = chunks.iter().map(|c| c.len()).collect();
    assert_eq!(sizes, vec![7, 7, 6]);
    let flat: Vec<u32> = chunks.concat();
    assert_ne!(flat, items);
    let mut sorted = flat.clone();
    sorted.sort();
    assert_eq!(sorted, items);
}

#[test]
fn help_texts_are_present() {
    assert!(Individual::help().contains("Individual"));
    assert!(Population::help().contains("Population"));
}

#[test]
fn mean_deviation_threshold() {
    // nine values of 100 and one of 110: mean 101, mean absolute deviation 1.8,
    // below 2% of the mean (2.02), but not below 1.5% (1.515)
    let mut h: Vec<i128> = vec![100; 9];
    h.push(110);
    assert!(is_converged(&h, 20000));
    assert!(!is_converged(&h, 15000));
}

#[test]
fn reroll_weight_mapping() {
    assert_eq!(reroll_weight(0, 20), 1);
    assert_eq!(reroll_weight(19, 20), 1);
    assert_eq!(reroll_weight(20, 20), -1);
    assert_eq!(reroll_weight(39, 20), -1);
    assert_eq!(reroll_weight(40, 20), 0);
    assert_eq!(reroll_weight(0, 0), 0);
    assert_eq!(reroll_weight(199, 100), -1);
    assert_eq!(weight_of_index(0), -1);
    assert_eq!(weight_of_index(1), 0);
    assert_eq!(weight_of_index(2), 1);
}

#[test]
fn mutation_at_zero_chance_only_clears() {
    let d = larger_data();
    let mut rng = ChaCha8Rng::seed_from_u64(8);
    let mut pop = Population::new();
    pop.generate(20, 3, 6, &d, &mut rng);
    let before: Vec<Vec<i8>> = pop.individuals.iter().map(|m| m.features.clone()).collect();
    let mut p = default_param();
    p.mutated_children_pct = 50;
    p.mutated_features_pct = 50;
    p.mutation_non_null_chance_pct = 0;
    mutate(&mut pop, &p, 8, &mut rng);
    let mut changed_children = 0;
    for (m, old) in pop.individuals.iter().zip(before.iter()) {
        if m.features != *old {
            changed_children += 1;
        }
        for (a, b) in m.features.iter().zip(old.iter()) {
            if a != b {
                assert_eq!(*a, 0);
            }
        }
        assert_eq!(m.k, count_nonzero(&m.features));
    }
    assert!(changed_children > 0 && changed_children <= 10);
}

#[test]
fn full_elite_keeps_population() {
    let d = larger_data();
    let mut rng = ChaCha8Rng::seed_from_u64(4);
    let mut pop = Population::new();
    pop.generate(20, 1, 3, &d, &mut rng);
    pop.evaluate_with_k_penalty(&d, 0);
    let sorted = pop.sort();
    let mut p = default_param();
    p.select_elite_pct = 100;
    let parents = select_parents(&sorted, &p, &mut rng);
    assert_eq!(parents.individuals.len(), 20);
    for (a, b) in parents.individuals.iter().zip(sorted.individuals.iter()) {
        assert_eq!(a.features, b.features);
        assert_eq!(a.fit, b.fit);
    }
}

#[test]
fn ga_best_fitness_never_falls() {
    let d = larger_data();
    let p = default_param();
    let pops = ga(&d, &p).unwrap();
    for w in pops.windows(2) {
        assert!(w[1].individuals[0].fit >= w[0].individuals[0].fit);
        for elite in &w[0].individuals[..4] {
            assert!(w[1]
                .individuals
                .iter()
                .any(|m| m.features == elite.features && m.fit == elite.fit));
        }
    }
}
