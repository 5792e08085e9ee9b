use zonal_balancer::backend::{Backend, BackendId, Error, Subset, Zone};
use zonal_balancer::capacity::{aggregate, ZoneCapacities};
use zonal_balancer::client::Client;
use zonal_balancer::random::RandomSource;
use zonal_balancer::weights::{
    scaled_surplus, zone_multipliers, zone_multipliers_known_home, ONE,
};
use zonal_balancer::zone_table::ZoneEntry;

fn registry(zones: &[(u64, u32, u32)]) -> Vec<Backend> {
    let mut backends = Vec::new();
    for (zone, count, capacity) in zones {
        for _ in 0..*count {
            backends.push(Backend {
                id: BackendId(backends.len() as u32),
                zone: Zone(*zone),
                subset: Subset(0),
                capacity: *capacity,
            });
        }
    }
    backends
}

fn capacities(zones: &[(u64, u32, u32)]) -> ZoneCapacities {
    aggregate(&registry(zones)).unwrap()
}

fn normalization(capacities: &ZoneCapacities, home: Zone) -> u128 {
    let map = zone_multipliers(capacities, home);
    let mut sum = 0u128;
    for i in 0..capacities.per_zone.len() {
        let entry = capacities.per_zone.entry(i);
        let multiplier = map.get(entry.zone).unwrap_or(0);
        sum += multiplier as u128 * entry.value as u128;
    }
    sum
}

#[test]
fn one_is_two_to_the_sixty_second() {
    assert_eq!(ONE, 1u64 << 62);
    assert_eq!(ONE, 4611686018427387904);
}

#[test]
fn surplus_is_counted_in_units_of_the_zone_count() {
    // capacities 1, 5, 9: average 5, surplus 4, three zones
    assert_eq!(scaled_surplus(&capacities(&[(1, 1, 1), (2, 5, 1), (3, 9, 1)])), 12);
    // capacities 2, 5, 6, 7: average 5, surplus 1 + 2, four zones
    assert_eq!(scaled_surplus(&capacities(&[(1, 1, 2), (2, 1, 5), (3, 1, 6), (4, 1, 7)])), 12);
    // all zones at the average
    assert_eq!(scaled_surplus(&capacities(&[(1, 2, 2), (2, 1, 4), (3, 4, 1)])), 0);
}

#[test]
fn client_below_average_gets_a_row_for_each_zone() {
    let caps = capacities(&[(1, 1, 1), (2, 5, 1), (3, 9, 1)]);
    let map = zone_multipliers(&caps, Zone(1));
    assert_eq!(map.len(), 3);
    // in-zone fraction 1/5; cross-zone fraction 4/5, all of it to zone 3
    assert_eq!(map.entry(0), ZoneEntry { zone: Zone(1), value: 922337203685477580 });
    assert_eq!(map.entry(1), ZoneEntry { zone: Zone(2), value: 0 });
    assert_eq!(map.entry(2), ZoneEntry { zone: Zone(3), value: 409927646082434480 });
    assert_eq!(map.get(Zone(3)), Some((ONE - ONE / 5) / 9));
}

#[test]
fn surplus_is_shared_out_in_proportion() {
    let caps = capacities(&[(1, 1, 2), (2, 1, 5), (3, 1, 6), (4, 1, 7)]);
    let map = zone_multipliers(&caps, Zone(1));
    assert_eq!(map.len(), 4);
    assert_eq!(map.get(Zone(1)), Some(922337203685477580));
    assert_eq!(map.get(Zone(2)), Some(0));
    assert_eq!(map.get(Zone(3)), Some(153722867280912930));
    assert_eq!(map.get(Zone(4)), Some(263524915338707880));
}

#[test]
fn client_at_the_average_keeps_everything_local() {
    let caps = capacities(&[(1, 1, 1), (2, 5, 1), (3, 9, 1)]);
    let map = zone_multipliers(&caps, Zone(2));
    assert_eq!(map.len(), 1);
    assert_eq!(map.entry(0), ZoneEntry { zone: Zone(2), value: ONE });
    assert_eq!(map.get(Zone(1)), None);
    assert_eq!(map.get(Zone(3)), None);
}

#[test]
fn client_above_the_average_keeps_everything_local() {
    let caps = capacities(&[(1, 1, 1), (2, 5, 1), (3, 9, 1)]);
    let map = zone_multipliers(&caps, Zone(3));
    assert_eq!(map.len(), 1);
    assert_eq!(map.get(Zone(3)), Some(ONE));
}

#[test]
fn client_of_a_zone_without_backends_sends_everything_away() {
    let caps = capacities(&[(1, 1, 1), (2, 5, 1), (3, 9, 1)]);
    let map = zone_multipliers(&caps, Zone(4));
    assert_eq!(map.len(), 3);
    assert_eq!(map.get(Zone(1)), Some(0));
    assert_eq!(map.get(Zone(2)), Some(0));
    assert_eq!(map.get(Zone(3)), Some(512409557603043100));
    assert_eq!(map.get(Zone(4)), None);
}

#[test]
fn without_surplus_a_client_stays_local_even_without_backends() {
    let caps = capacities(&[(1, 2, 2), (2, 1, 4), (3, 4, 1)]);
    let map = zone_multipliers(&caps, Zone(9));
    assert_eq!(map.len(), 1);
    assert_eq!(map.entry(0), ZoneEntry { zone: Zone(9), value: ONE });

    let backends = registry(&[(1, 2, 2), (2, 1, 4), (3, 4, 1)]);
    let mut client = Client::new(Zone(9), backends, RandomSource::seeded(1)).unwrap();
    for _ in 0..100 {
        assert_eq!(client.sample_any(), None);
    }
}

#[test]
fn known_home_is_required_on_request() {
    let caps = capacities(&[(1, 1, 1), (2, 5, 1), (3, 9, 1)]);
    assert!(matches!(zone_multipliers_known_home(&caps, Zone(4)), Err(Error::UnknownHomeZone)));
    let map = zone_multipliers_known_home(&caps, Zone(1)).unwrap();
    assert_eq!(map.get(Zone(1)), Some(922337203685477580));
    assert_eq!(map.get(Zone(3)), Some(409927646082434480));
}

#[test]
fn multipliers_of_a_spilling_client_are_normalized() {
    for zones in [
        vec![(1u64, 1u32, 1u32), (2, 5, 1), (3, 9, 1)],
        vec![(1, 1, 2), (2, 1, 5), (3, 1, 6), (4, 1, 7)],
        vec![(1, 3, 7), (2, 2, 100), (3, 1, 1), (4, 10, 13), (5, 1, 64)],
    ] {
        let caps = capacities(&zones);
        let total = caps.total as u128;
        for home in [1u64, 3, 77] {
            let map = zone_multipliers(&caps, Zone(home));
            if map.len() == 1 {
                continue;
            }
            let sum = normalization(&caps, Zone(home));
            assert!(sum <= ONE as u128);
            assert!(sum > ONE as u128 - total);
        }
    }
    let caps = capacities(&[(1, 1, 2), (2, 1, 5), (3, 1, 6), (4, 1, 7)]);
    assert_eq!(normalization(&caps, Zone(1)), ONE as u128 - 4);
}

#[test]
fn multipliers_of_a_local_client_hand_out_one_per_unit_of_capacity() {
    let caps = capacities(&[(1, 1, 1), (2, 5, 1), (3, 9, 1)]);
    assert_eq!(normalization(&caps, Zone(2)), 5 * ONE as u128);
    let even = capacities(&[(1, 1, 1), (2, 1, 1)]);
    assert_eq!(normalization(&even, Zone(1)), ONE as u128);
}

#[test]
fn client_exposes_what_it_was_built_from() {
    let backends = registry(&[(1, 1, 1), (2, 5, 1), (3, 9, 1)]);
    let client = Client::new(Zone(1), backends.clone(), RandomSource::seeded(42)).unwrap();
    assert_eq!(client.zone(), Zone(1));
    assert_eq!(client.backends(), &backends);
    assert_eq!(client.multiplier(Zone(1)), Some(922337203685477580));
    assert_eq!(client.multiplier(Zone(2)), Some(0));
    assert_eq!(client.multiplier(Zone(3)), Some(409927646082434480));
    assert_eq!(client.multiplier(Zone(4)), None);
}

#[test]
fn client_of_an_empty_registry_cannot_be_built() {
    let result = Client::new(Zone(1), Vec::new(), RandomSource::seeded(42));
    assert!(matches!(result, Err(Error::EmptyRegistry)));
}
