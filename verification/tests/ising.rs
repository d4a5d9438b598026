use physim::ising::{frame_sweep, Ising, UpdateRule};
use rand::rngs::StdRng;
use rand::{Rng, SeedableRng};

#[test]
fn cold_start_is_fully_magnetized_ground_state() {
    let model = Ising::new(4);
    assert_eq!(model.l(), 4);
    assert_eq!(model.spins().len(), 16);
    assert!(model.spins().iter().all(|&s| s == 1));
    assert_eq!(model.magnetization_sum(), 16);
    assert_eq!(model.energy_sum(), -32);
}

#[test]
fn index_wraps_periodically() {
    let model = Ising::new(4);
    assert_eq!(model.index(0, 0), 0);
    assert_eq!(model.index(1, 2), 6);
    assert_eq!(model.index(4, 0), 0);
    assert_eq!(model.index(5, 7), 7);
    assert_eq!(model.index(3, 3), 15);
}

#[test]
fn delta_energy_matches_the_energy_change() {
    let mut model = Ising::new(4);
    assert_eq!(model.delta_energy(5), 8);
    let before = model.energy_sum();
    model.flip(5);
    assert_eq!(model.energy_sum() - before, 8);
    assert_eq!(model.magnetization_sum(), 14);
    // a neighbour of the reversed spin now costs less to reverse
    assert_eq!(model.delta_energy(6), 4);
    let before = model.energy_sum();
    model.flip(6);
    assert_eq!(model.energy_sum() - before, 4);
    // reversing back is downhill
    assert_eq!(model.delta_energy(5), -4);
}

#[test]
fn flip_twice_restores() {
    let mut model = Ising::new(3);
    let original = model.spins().to_vec();
    model.flip(4);
    assert_eq!(model.spins()[4], -1);
    model.flip(4);
    assert_eq!(model.spins(), &original[..]);
}

#[test]
fn two_by_two_lattice_counts_doubled_bonds() {
    let mut model = Ising::new(2);
    assert_eq!(model.energy_sum(), -8);
    assert_eq!(model.delta_energy(0), 8);
    model.flip(0);
    assert_eq!(model.energy_sum(), 0);
}

#[test]
fn metropolis_decision() {
    let mut model = Ising::new(4);
    // uphill and the thermal test failed: nothing happens
    assert!(!model.attempt_flip(0, false));
    assert_eq!(model.magnetization_sum(), 16);
    // uphill and the thermal test passed
    assert!(model.attempt_flip(0, true));
    assert_eq!(model.spins()[0], -1);
    // downhill moves are always taken
    assert!(model.attempt_flip(0, false));
    assert_eq!(model.spins()[0], 1);
}

#[test]
fn random_sites_lie_on_the_lattice() {
    let model = Ising::new(3);
    let mut rng = StdRng::seed_from_u64(2026);
    let mut seen = [false; 9];
    for _ in 0..500 {
        let site = model.random_site(&mut rng);
        assert!(site < 9);
        seen[site] = true;
    }
    assert!(seen.iter().all(|&hit| hit));
}

#[test]
fn update_rules_parse_by_name() {
    assert_eq!(UpdateRule::parse("metropolis"), Some(UpdateRule::Metropolis));
    assert_eq!(UpdateRule::parse("wolff"), Some(UpdateRule::Wolff));
    assert_eq!(UpdateRule::parse("Metropolis"), None);
    assert_eq!(UpdateRule::parse("heat-bath"), None);
    assert_eq!(UpdateRule::parse(""), None);
    for rule in [UpdateRule::Metropolis, UpdateRule::Wolff] {
        assert_eq!(UpdateRule::parse(rule.name()), Some(rule));
    }
    assert_eq!(UpdateRule::Metropolis.time_unit(), "sweep");
    assert_eq!(UpdateRule::Wolff.time_unit(), "cluster_flip");
}

fn is_neighbour(model: &Ising, a: usize, b: usize) -> bool {
    let l = model.l();
    let (row, col) = (a / l, a % l);
    [
        model.index(row + 1, col),
        model.index(row + l - 1, col),
        model.index(row, col + 1),
        model.index(row, col + l - 1),
    ]
    .contains(&b)
}

#[test]
fn wolff_with_no_bonds_flips_only_the_seed() {
    let mut model = Ising::new(4);
    let mut rng = StdRng::seed_from_u64(7);
    let outcome = model.wolff_update(5, &mut rng, 0);
    let cluster = outcome.cluster;
    // the four aligned neighbours were tested, and none bonded
    let mut tested: Vec<usize> = outcome.bond_tests.iter().map(|t| t.candidate).collect();
    tested.sort();
    assert_eq!(tested, vec![1, 4, 6, 9]);
    assert!(outcome.bond_tests.iter().all(|t| t.member == 5));
    assert_eq!(cluster, vec![5]);
    assert_eq!(model.spins()[5], -1);
    assert_eq!(model.magnetization_sum(), 14);
}

#[test]
fn wolff_with_certain_bonds_flips_the_aligned_component() {
    let mut model = Ising::new(4);
    for site in 4..8 {
        model.flip(site);
    }
    assert_eq!(model.magnetization_sum(), 8);
    let mut rng = StdRng::seed_from_u64(1);
    let cluster = model.wolff_update(0, &mut rng, u64::MAX).cluster;
    // every up spin is connected to site 0 through the periodic rows
    assert_eq!(cluster.len(), 12);
    assert_eq!(cluster[0], 0);
    let mut sorted = cluster.clone();
    sorted.sort();
    sorted.dedup();
    assert_eq!(sorted.len(), 12);
    assert!(cluster.iter().all(|&site| !(4..8).contains(&site)));
    for (i, &site) in cluster.iter().enumerate().skip(1) {
        assert!(cluster[..i].iter().any(|&earlier| is_neighbour(&model, earlier, site)));
    }
    assert!(model.spins().iter().all(|&spin| spin == -1));
    assert_eq!(model.magnetization_sum(), 8 - 2 * 12);
}

#[test]
fn wolff_clusters_are_aligned_and_connected() {
    let mut model = Ising::new(6);
    let mut rng = StdRng::seed_from_u64(2026);
    for update in 0..40 {
        let before = model.spins().to_vec();
        let seed = model.random_site(&mut rng);
        let threshold = if update % 2 == 0 { u64::MAX / 2 } else { u64::MAX / 5 };
        let outcome = model.wolff_update(seed, &mut rng, threshold);
        let cluster = outcome.cluster.clone();
        let mut expected_cluster = vec![seed];
        for test in &outcome.bond_tests {
            assert!(expected_cluster.contains(&test.member));
            assert!(!expected_cluster.contains(&test.candidate));
            assert!(is_neighbour(&model, test.member, test.candidate));
            assert_eq!(before[test.candidate], before[seed]);
            if test.word < threshold {
                expected_cluster.push(test.candidate);
            }
        }
        assert_eq!(cluster, expected_cluster);
        assert_eq!(cluster[0], seed);
        assert!(cluster.iter().all(|&site| before[site] == before[seed]));
        for (i, &site) in cluster.iter().enumerate().skip(1) {
            assert!(cluster[..i].iter().any(|&earlier| is_neighbour(&model, earlier, site)));
        }
        for site in 0..36 {
            let expected = if cluster.contains(&site) { -before[site] } else { before[site] };
            assert_eq!(model.spins()[site], expected);
        }
    }
}

#[test]
fn frame_sweeps_count_across_temperatures() {
    // discard 1, measure 2, every 1: frames at cumulative updates 2, 3, then 5, 6
    assert_eq!(frame_sweep(1, 2, 1, 0, 1), Some(2));
    assert_eq!(frame_sweep(1, 2, 1, 0, 2), Some(3));
    assert_eq!(frame_sweep(1, 2, 1, 1, 1), Some(5));
    assert_eq!(frame_sweep(1, 2, 1, 1, 2), Some(6));
    assert_eq!(frame_sweep(1, 2, 2, 1, 1), None);
    assert_eq!(frame_sweep(1, 2, 2, 1, 2), Some(6));
    assert_eq!(frame_sweep(1, 2, 0, 1, 2), None);
}

#[test]
fn metropolis_sweep_matches_the_floating_point_test() {
    // The sweep's integer thresholds reproduce `u < exp(-cost / T)` with
    // `u = rng.gen::<f64>()`, drawing the same random numbers.
    for (seed, temperature) in [(2026_u64, 1.5_f64), (7, 2.27), (42, 3.5), (1, 0.8)] {
        let threshold = |cost: f64| ((-cost / temperature).exp() * 9_007_199_254_740_992.0).ceil() as u64;
        let mut verified = Ising::new(6);
        let mut reference = Ising::new(6);
        let mut rng_a = StdRng::seed_from_u64(seed);
        let mut rng_b = StdRng::seed_from_u64(seed);
        for _ in 0..30 {
            let outcome = verified.metropolis_sweep(&mut rng_a, threshold(4.0), threshold(8.0));
            assert_eq!(outcome.proposals.len(), 36);
            let mut accepted = 0;
            for _ in 0..36 {
                let site = reference.random_site(&mut rng_b);
                let delta = reference.delta_energy(site);
                let uphill = delta > 0 && rng_b.gen::<f64>() < (-(delta as f64) / temperature).exp();
                if reference.attempt_flip(site, uphill) {
                    accepted += 1;
                }
            }
            assert_eq!(outcome.accepted, accepted);
            assert_eq!(verified.spins(), reference.spins());
        }
    }
}

#[test]
fn metropolis_sweep_records_words_only_for_uphill_moves() {
    let mut model = Ising::new(4);
    let mut rng = StdRng::seed_from_u64(3);
    // from the all-up state every first move is uphill (cost 8) and is refused
    let outcome = model.metropolis_sweep(&mut rng, 0, 0);
    assert_eq!(outcome.accepted, 0);
    assert_eq!(outcome.proposals.len(), 16);
    assert!(outcome.proposals.iter().all(|p| p.word.is_some() && p.site < 16));
    assert_eq!(model.magnetization_sum(), 16);
}
