use zonal_balancer::backend::{
    is_valid_registry, Backend, BackendId, Error, Subset, Zone, MAX_TOTAL_CAPACITY,
};
use zonal_balancer::capacity::aggregate;
use zonal_balancer::zone_table::{ZoneEntry, ZoneTable};

fn backend(id: u32, zone: u64, capacity: u32) -> Backend {
    Backend { id: BackendId(id), zone: Zone(zone), subset: Subset(0), capacity }
}

#[test]
fn aggregate_sums_by_zone_and_overall() {
    let backends = vec![
        backend(0, 30, 4),
        backend(1, 10, 1),
        backend(2, 20, 2),
        backend(3, 30, 5),
        backend(4, 10, 3),
    ];
    assert!(is_valid_registry(&backends));
    let capacities = aggregate(&backends).unwrap();
    assert_eq!(capacities.total, 15);
    assert_eq!(capacities.zone_count, 3);
    assert_eq!(capacities.per_zone.len(), 3);
    assert_eq!(capacities.per_zone.entry(0), ZoneEntry { zone: Zone(10), value: 4 });
    assert_eq!(capacities.per_zone.entry(1), ZoneEntry { zone: Zone(20), value: 2 });
    assert_eq!(capacities.per_zone.entry(2), ZoneEntry { zone: Zone(30), value: 9 });
    assert_eq!(capacities.per_zone.get(Zone(10)), Some(4));
    assert_eq!(capacities.per_zone.get(Zone(20)), Some(2));
    assert_eq!(capacities.per_zone.get(Zone(30)), Some(9));
    assert_eq!(capacities.per_zone.get(Zone(25)), None);
}

#[test]
fn aggregate_values_add_up_to_the_total() {
    let backends: Vec<Backend> =
        (0..100u32).map(|i| backend(i, (i % 7) as u64, 1 + i % 5)).collect();
    assert!(is_valid_registry(&backends));
    let capacities = aggregate(&backends).unwrap();
    let mut sum = 0u64;
    for i in 0..capacities.per_zone.len() {
        sum += capacities.per_zone.entry(i).value;
    }
    assert_eq!(sum, capacities.total);
    assert_eq!(sum, backends.iter().map(|b| b.capacity as u64).sum::<u64>());
    assert_eq!(capacities.zone_count, 7);
}

#[test]
fn aggregate_of_nothing_is_an_error() {
    let backends: Vec<Backend> = Vec::new();
    assert!(is_valid_registry(&backends));
    assert!(matches!(aggregate(&backends), Err(Error::EmptyRegistry)));
}

#[test]
fn a_backend_without_capacity_makes_the_registry_invalid() {
    let backends = vec![backend(0, 1, 3), backend(1, 2, 0)];
    assert!(!is_valid_registry(&backends));
}

#[test]
fn too_much_capacity_makes_the_registry_invalid() {
    let within = vec![backend(0, 1, u32::MAX)];
    assert_eq!(within[0].capacity as u64, MAX_TOTAL_CAPACITY);
    assert!(is_valid_registry(&within));
    let beyond = vec![backend(0, 1, u32::MAX), backend(1, 2, 1)];
    assert!(!is_valid_registry(&beyond));
}

#[test]
fn table_keeps_zones_in_ascending_order() {
    let mut table = ZoneTable::new();
    assert_eq!(table.len(), 0);
    assert_eq!(table.get(Zone(5)), None);
    table.credit(Zone(5), 2);
    table.credit(Zone(1), 7);
    table.credit(Zone(9), 1);
    table.credit(Zone(5), 3);
    assert_eq!(table.len(), 3);
    assert_eq!(table.entry(0), ZoneEntry { zone: Zone(1), value: 7 });
    assert_eq!(table.entry(1), ZoneEntry { zone: Zone(5), value: 5 });
    assert_eq!(table.entry(2), ZoneEntry { zone: Zone(9), value: 1 });
    assert_eq!(table.position(Zone(0)), 0);
    assert_eq!(table.position(Zone(1)), 0);
    assert_eq!(table.position(Zone(2)), 1);
    assert_eq!(table.position(Zone(5)), 1);
    assert_eq!(table.position(Zone(9)), 2);
    assert_eq!(table.position(Zone(10)), 3);
    table.append(Zone(12), 4);
    assert_eq!(table.len(), 4);
    assert_eq!(table.get(Zone(12)), Some(4));
    assert_eq!(table.get(Zone(9)), Some(1));
}
