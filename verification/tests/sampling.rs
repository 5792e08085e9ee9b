use rand::rngs::SmallRng;
use rand::{Rng, RngCore, SeedableRng};

use zonal_balancer::backend::{Backend, BackendId, Subset, Zone};
use zonal_balancer::client::Client;
use zonal_balancer::random::{RandomSource, DRAW_RANGE};
use zonal_balancer::sampler::{accept, select_backend, Reservoir};
use zonal_balancer::weights::ONE;
use zonal_balancer::zone_table::ZoneTable;

fn backend(id: u32, zone: u64, subset: u8, capacity: u32) -> Backend {
    Backend { id: BackendId(id), zone: Zone(zone), subset: Subset(subset), capacity }
}

#[test]
fn draws_are_the_upper_53_bits() {
    assert_eq!(DRAW_RANGE, 1u64 << 53);
    let mut source = RandomSource::seeded(42);
    let mut reference = SmallRng::seed_from_u64(42);
    for _ in 0..1_000 {
        let draw = source.next_draw();
        assert!(draw < DRAW_RANGE);
        assert_eq!(draw, reference.next_u64() >> 11);
    }
}

#[test]
fn draws_stand_for_the_reals_of_the_generator() {
    let mut source = RandomSource::new(SmallRng::seed_from_u64(5));
    let mut reference = SmallRng::seed_from_u64(5);
    for _ in 0..1_000 {
        let draw = source.next_draw();
        let real: f64 = reference.gen();
        assert_eq!(draw as f64 / DRAW_RANGE as f64, real);
    }
}

#[test]
fn seeds_give_different_streams() {
    let mut one = RandomSource::seeded(1);
    let mut two = RandomSource::seeded(2);
    let first: Vec<u64> = (0..8).map(|_| one.next_draw()).collect();
    let second: Vec<u64> = (0..8).map(|_| two.next_draw()).collect();
    assert_ne!(first, second);
}

#[test]
fn accept_compares_the_draw_with_the_share() {
    let half = DRAW_RANGE / 2;
    // the first candidate with weight is always taken
    assert!(accept(0, 1, 1));
    assert!(accept(DRAW_RANGE - 1, 1, 1));
    assert!(accept(DRAW_RANGE - 1, 7, 7));
    // a candidate without weight is never taken
    assert!(!accept(0, 0, 0));
    assert!(!accept(0, 0, 5));
    // share 1/2: taken for draws below one half
    assert!(accept(half - 1, 1, 2));
    assert!(!accept(half, 1, 2));
    // share 1/3: 3 * draw < DRAW_RANGE
    assert!(accept(DRAW_RANGE / 3, 1, 3));
    assert!(!accept(DRAW_RANGE / 3 + 1, 1, 3));
    // weights far beyond 64 bits
    let big = (ONE as u128) << 32;
    assert!(accept(half - 1, big, 2 * big));
    assert!(!accept(half, big, 2 * big));
    assert!(accept(DRAW_RANGE - 1, u128::MAX, u128::MAX));
    assert!(accept(DRAW_RANGE - 1, u128::MAX - 1, u128::MAX));
    assert!(!accept(DRAW_RANGE - 1, u128::MAX / 2, u128::MAX));
    assert!(accept(half - 1, u128::MAX / 2, u128::MAX));
}

#[test]
fn reservoir_adds_the_weight_before_it_decides() {
    let mut reservoir = Reservoir::new();
    assert_eq!(reservoir.total_weight, 0);
    assert_eq!(reservoir.current, None);
    reservoir.offer(BackendId(1), 0, 0);
    assert_eq!(reservoir.current, None);
    reservoir.offer(BackendId(2), 3, DRAW_RANGE - 1);
    assert_eq!(reservoir.total_weight, 3);
    assert_eq!(reservoir.current, Some(BackendId(2)));
    // share 1/4 of the new total: a draw of one half keeps the old backend
    reservoir.offer(BackendId(3), 1, DRAW_RANGE / 2);
    assert_eq!(reservoir.total_weight, 4);
    assert_eq!(reservoir.current, Some(BackendId(2)));
    // share 4/8: a draw just below one half takes the new backend
    reservoir.offer(BackendId(4), 4, DRAW_RANGE / 2 - 1);
    assert_eq!(reservoir.total_weight, 8);
    assert_eq!(reservoir.current, Some(BackendId(4)));
}

#[test]
fn same_seed_gives_the_same_selections() {
    let backends: Vec<Backend> =
        (0..40u32).map(|i| backend(i, (i % 4) as u64, 0, 1 + i % 3)).collect();
    let mut one = Client::new(Zone(0), backends.clone(), RandomSource::seeded(99)).unwrap();
    let mut two = Client::new(Zone(0), backends.clone(), RandomSource::seeded(99)).unwrap();
    let first: Vec<Option<BackendId>> = (0..500).map(|_| one.sample(|b| b.id.0 % 2 == 0)).collect();
    let second: Vec<Option<BackendId>> = (0..500).map(|_| two.sample(|b| b.id.0 % 2 == 0)).collect();
    assert_eq!(first, second);
    assert!(first.iter().any(|picked| *picked != first[0]));
}

#[test]
fn a_predicate_that_rejects_all_selects_none() {
    let backends: Vec<Backend> = (0..15u32).map(|i| backend(i, (i % 3) as u64, 0, 1)).collect();
    for seed in 0..20 {
        let mut client = Client::new(Zone(1), backends.clone(), RandomSource::seeded(seed)).unwrap();
        for _ in 0..50 {
            assert_eq!(client.sample(|_| false), None);
        }
    }
}

#[test]
fn a_rejected_backend_takes_no_draw() {
    let backends: Vec<Backend> = (0..15u32).map(|i| backend(i, (i % 3) as u64, 0, 1)).collect();
    let mut idle = Client::new(Zone(1), backends.clone(), RandomSource::seeded(8)).unwrap();
    let mut fresh = Client::new(Zone(1), backends.clone(), RandomSource::seeded(8)).unwrap();
    for _ in 0..10 {
        assert_eq!(idle.sample(|_| false), None);
    }
    for _ in 0..100 {
        assert_eq!(idle.sample_any(), fresh.sample_any());
    }
}

#[test]
fn only_eligible_backends_are_selected() {
    let backends: Vec<Backend> =
        (0..30u32).map(|i| backend(i, (i % 3) as u64, (i % 5) as u8, 1 + i % 4)).collect();
    let mut client = Client::new(Zone(0), backends.clone(), RandomSource::seeded(4)).unwrap();
    let mut hits = 0;
    for _ in 0..2_000 {
        if let Some(picked) = client.sample(|b| b.subset == Subset(3)) {
            assert_eq!(backends[picked.0 as usize].subset, Subset(3));
            hits += 1;
        }
    }
    assert!(hits > 0);
}

#[test]
fn zones_without_a_multiplier_are_never_selected() {
    let backends: Vec<Backend> = (0..12u32).map(|i| backend(i, (i % 4) as u64, 0, 2)).collect();
    let mut multipliers = ZoneTable::new();
    multipliers.append(Zone(1), ONE / 2);
    multipliers.append(Zone(3), ONE / 4);
    let mut rng = RandomSource::seeded(21);
    let mut in_one = 0u32;
    let mut in_three = 0u32;
    let rounds = 30_000;
    for _ in 0..rounds {
        let picked = select_backend(&backends, &multipliers, |_| true, &mut rng).unwrap();
        match backends[picked.0 as usize].zone {
            Zone(1) => in_one += 1,
            Zone(3) => in_three += 1,
            other => panic!("selected a backend of zone {other:?}"),
        }
    }
    let share = in_one as f64 / rounds as f64;
    assert!((share - 2.0 / 3.0).abs() < 0.01, "share of zone 1 = {share}");
    assert_eq!(in_one + in_three, rounds);
}

#[test]
fn without_multipliers_nothing_is_selected() {
    let backends: Vec<Backend> = (0..12u32).map(|i| backend(i, (i % 4) as u64, 0, 2)).collect();
    let multipliers = ZoneTable::new();
    let mut rng = RandomSource::seeded(21);
    let mut reference = RandomSource::seeded(21);
    for _ in 0..100 {
        assert_eq!(select_backend(&backends, &multipliers, |_| true, &mut rng), None);
    }
    assert_eq!(rng.next_draw(), reference.next_draw());
}

#[test]
fn multipliers_of_zero_select_nothing() {
    let backends: Vec<Backend> = (0..6u32).map(|i| backend(i, 1, 0, 2)).collect();
    let mut multipliers = ZoneTable::new();
    multipliers.append(Zone(1), 0);
    let mut rng = RandomSource::seeded(2);
    for _ in 0..100 {
        assert_eq!(select_backend(&backends, &multipliers, |_| true, &mut rng), None);
    }
}

#[test]
fn selection_frequencies_follow_the_weights() {
    // one zone, capacities 1, 2, 3, 4: shares 0.1, 0.2, 0.3, 0.4
    let backends: Vec<Backend> = (0..4u32).map(|i| backend(i, 1, 0, i + 1)).collect();
    let mut client = Client::new(Zone(1), backends.clone(), RandomSource::seeded(42)).unwrap();
    let rounds = 100_000;
    let mut counts = [0u32; 4];
    for _ in 0..rounds {
        let picked = client.sample_any().unwrap();
        counts[picked.0 as usize] += 1;
    }
    for (i, count) in counts.iter().enumerate() {
        let share = *count as f64 / rounds as f64;
        let expected = (i + 1) as f64 / 10.0;
        assert!((share - expected).abs() < 0.01, "share of backend {i} = {share}");
    }
}

#[test]
fn selection_frequencies_do_not_depend_on_the_order() {
    let forward: Vec<Backend> = (0..4u32).map(|i| backend(i, 1, 0, i + 1)).collect();
    let mut backward = forward.clone();
    backward.reverse();
    let rounds = 100_000;
    for backends in [forward, backward] {
        let mut client = Client::new(Zone(1), backends, RandomSource::seeded(17)).unwrap();
        let mut counts = [0u32; 4];
        for _ in 0..rounds {
            counts[client.sample_any().unwrap().0 as usize] += 1;
        }
        for (i, count) in counts.iter().enumerate() {
            let share = *count as f64 / rounds as f64;
            let expected = (i + 1) as f64 / 10.0;
            assert!((share - expected).abs() < 0.01, "share of backend {i} = {share}");
        }
    }
}
