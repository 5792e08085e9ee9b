use std::collections::BTreeMap;

use zonal_balancer::backend::{Backend, BackendId, Subset, Zone};
use zonal_balancer::client::Client;
use zonal_balancer::random::RandomSource;

#[test]
fn naive() {
    let iterations = 100_000;
    let backends: BTreeMap<BackendId, Backend> = [(b'a', 1), (b'b', 5), (b'c', 9)]
        .into_iter()
        .flat_map(|(zone, count)| std::iter::repeat(Zone(zone as u64)).take(count))
        .enumerate()
        .map(|(idx, zone)| {
            let id = BackendId(idx as u32);
            (
                id,
                Backend {
                    id,
                    zone,
                    capacity: 1,
                    subset: Subset(0),
                },
            )
        })
        .collect();

    let mut clients: Vec<Client> = [b'a', b'b', b'c']
        .into_iter()
        .map(|zone| {
            let zone = Zone(zone as u64);
            Client::new(
                zone,
                backends.values().cloned().collect(),
                RandomSource::seeded(42),
            )
            .unwrap()
        })
        .collect();

    let mut tally: BTreeMap<BackendId, u32> = BTreeMap::new();
    let mut in_zone = 0;
    let mut total = 0;
    for client in &mut clients {
        for _ in 0..iterations {
            let b = client.sample(|_| true).unwrap();
            *tally.entry(b).or_default() += 1;
            if backends[&b].zone == client.zone() {
                in_zone += 1;
            }
            total += 1;
        }
    }

    let avg = total as f64 / backends.len() as f64;
    let min_load = tally.values().min().copied().unwrap() as f64 / avg;
    let max_load = tally.values().max().copied().unwrap() as f64 / avg;

    assert!(0.95 <= min_load, "min load = {min_load}");
    assert!(max_load <= 1.05, "max load = {max_load}");

    let in_zone_frac = in_zone as f64 / total as f64;
    assert!(in_zone_frac > 0.70, "in_zone = {in_zone_frac}");
}

#[test]
fn every_backend_of_the_scenario_is_selected() {
    let mut backends = Vec::new();
    for (zone, count) in [(b'a', 1u32), (b'b', 5), (b'c', 9)] {
        for _ in 0..count {
            backends.push(Backend {
                id: BackendId(backends.len() as u32),
                zone: Zone(zone as u64),
                subset: Subset(0),
                capacity: 1,
            });
        }
    }
    let mut seen = vec![false; backends.len()];
    for zone in [b'a', b'b', b'c'] {
        let mut client =
            Client::new(Zone(zone as u64), backends.clone(), RandomSource::seeded(7)).unwrap();
        for _ in 0..2_000 {
            let picked = client.sample_any().unwrap();
            seen[picked.0 as usize] = true;
        }
    }
    assert!(seen.iter().all(|hit| *hit));
}

#[test]
fn clients_at_or_above_average_stay_in_their_zone() {
    let mut backends = Vec::new();
    for (zone, count) in [(b'a', 1u32), (b'b', 5), (b'c', 9)] {
        for _ in 0..count {
            backends.push(Backend {
                id: BackendId(backends.len() as u32),
                zone: Zone(zone as u64),
                subset: Subset(0),
                capacity: 1,
            });
        }
    }
    for zone in [b'b', b'c'] {
        let home = Zone(zone as u64);
        let mut client = Client::new(home, backends.clone(), RandomSource::seeded(3)).unwrap();
        for _ in 0..5_000 {
            let picked = client.sample_any().unwrap();
            assert_eq!(backends[picked.0 as usize].zone, home);
        }
    }
}

#[test]
fn client_below_average_spills_to_the_zone_with_surplus() {
    let mut backends = Vec::new();
    for (zone, count) in [(b'a', 1u32), (b'b', 5), (b'c', 9)] {
        for _ in 0..count {
            backends.push(Backend {
                id: BackendId(backends.len() as u32),
                zone: Zone(zone as u64),
                subset: Subset(0),
                capacity: 1,
            });
        }
    }
    let mut client =
        Client::new(Zone(b'a' as u64), backends.clone(), RandomSource::seeded(11)).unwrap();
    let rounds = 50_000;
    let mut at_home = 0u32;
    let mut in_c = 0u32;
    for _ in 0..rounds {
        let picked = client.sample_any().unwrap();
        let zone = backends[picked.0 as usize].zone;
        assert_ne!(zone, Zone(b'b' as u64));
        if zone == Zone(b'a' as u64) {
            at_home += 1;
        } else {
            in_c += 1;
        }
    }
    let home_share = at_home as f64 / rounds as f64;
    let c_share = in_c as f64 / rounds as f64;
    assert!((home_share - 0.2).abs() < 0.01, "home share = {home_share}");
    assert!((c_share - 0.8).abs() < 0.01, "share of c = {c_share}");
}
