use drone_net::initializer::{
    assign_attempt, assign_step, astor_step, check_initializer, check_neighbors_id, controller_for, drone_kind, foreach_step,
    links_resolve, DroneConfig, DroneKind, EndpointConfig, NetworkConfig,
};

fn neighbours_cases() {
    let neighbors: Vec<u8> = [2, 3, 4, 5].to_vec();
    let neighbors_not: Vec<u8> = [2, 3, 4, 3].to_vec();
    assert_eq!(check_neighbors_id(1, &neighbors), true);
    assert_eq!(check_neighbors_id(4, &neighbors), false);
    assert_eq!(check_neighbors_id(1, &neighbors_not), false);
}

#[test]
fn test_neigbors() {
    neighbours_cases();
}

#[test]
fn lib_test_neigbors() {
    neighbours_cases();
}

fn drone(id: u8, links: &[u8]) -> DroneConfig {
    DroneConfig { id, connected_node_ids: links.to_vec(), pdr_in_range: true }
}

fn endpoint(id: u8, links: &[u8]) -> EndpointConfig {
    EndpointConfig { id, connected_drone_ids: links.to_vec() }
}

fn sample_config() -> NetworkConfig {
    NetworkConfig {
        drone: vec![drone(1, &[2, 3, 5]), drone(2, &[1, 3, 4, 6]), drone(3, &[1, 2, 4]), drone(4, &[2, 3, 6])],
        client: vec![endpoint(5, &[1])],
        server: vec![endpoint(6, &[2, 4])],
    }
}

#[test]
fn valid_configuration_is_accepted() {
    assert!(check_initializer(&sample_config()));
    assert!(links_resolve(&sample_config()));
}

#[test]
fn drop_rate_out_of_range_is_refused() {
    let mut cfg = sample_config();
    cfg.drone[2].pdr_in_range = false;
    assert!(!check_initializer(&cfg));
}

#[test]
fn self_link_or_repeated_link_is_refused() {
    let mut cfg = sample_config();
    cfg.client[0].connected_drone_ids = vec![5];
    assert!(!check_initializer(&cfg));
    let mut cfg = sample_config();
    cfg.server[0].connected_drone_ids = vec![2, 2];
    assert!(!check_initializer(&cfg));
}

#[test]
fn identifier_repeating_the_previous_one_is_refused() {
    let mut cfg = sample_config();
    cfg.drone[1].id = 1;
    cfg.drone[1].connected_node_ids = vec![3];
    assert!(!check_initializer(&cfg));
    // only the entry just before is compared: a repeat further apart passes
    let mut cfg = sample_config();
    cfg.server[0].id = 1;
    assert!(check_initializer(&cfg));
}

#[test]
fn first_identifier_zero_is_refused() {
    let cfg = NetworkConfig { drone: vec![drone(0, &[1]), drone(1, &[0])], client: vec![], server: vec![] };
    assert!(!check_initializer(&cfg));
}

#[test]
fn empty_configuration_is_accepted() {
    let cfg = NetworkConfig { drone: vec![], client: vec![], server: vec![] };
    assert!(check_initializer(&cfg));
    assert!(links_resolve(&cfg));
}

#[test]
fn unknown_link_does_not_resolve() {
    let mut cfg = sample_config();
    cfg.client[0].connected_drone_ids = vec![1, 42];
    assert!(!links_resolve(&cfg));
}

#[test]
fn controller_knows_each_drone_and_its_links() {
    let mut drones = sample_config().drone;
    drones.push(drone(3, &[4]));
    let ctrl = controller_for(&drones);
    assert_eq!(ctrl.drones.len(), 4);
    assert_eq!(ctrl.droness.get(&1), Some(&vec![2, 3, 5]));
    // the last entry of a repeated identifier wins
    assert_eq!(ctrl.droness.get(&3), Some(&vec![4]));
    assert!(ctrl.droness.get(&5).is_none());
}

#[test]
fn drone_kinds_by_number() {
    assert_eq!(drone_kind(0), Some(DroneKind::BagelBomber));
    assert_eq!(drone_kind(1), Some(DroneKind::BetterCallDrone));
    assert_eq!(drone_kind(2), Some(DroneKind::RustRoveri));
    assert_eq!(drone_kind(3), Some(DroneKind::GetDroned));
    assert_eq!(drone_kind(4), Some(DroneKind::CppEnjoyers));
    assert_eq!(drone_kind(5), Some(DroneKind::DRONE));
    assert_eq!(drone_kind(6), Some(DroneKind::NullPointerPatrol));
    assert_eq!(drone_kind(7), Some(DroneKind::Rustafarian));
    assert_eq!(drone_kind(8), Some(DroneKind::DrOnes));
    assert_eq!(drone_kind(9), Some(DroneKind::RustEze));
    assert_eq!(drone_kind(10), None);
}

#[test]
fn balanced_draws_from_fresh_counters() {
    let mut counters = [0i32; 10];
    // every draw from equal counts is taken
    assert_eq!(astor_step(&mut counters, 13), Some(3));
    assert_eq!(counters, [0, 0, 0, 1, 0, 0, 0, 0, 0, 0]);
    // a kind already drawn more often is refused, counters unchanged
    assert_eq!(astor_step(&mut counters, 3), None);
    assert_eq!(counters, [0, 0, 0, 1, 0, 0, 0, 0, 0, 0]);
    assert_eq!(astor_step(&mut counters, 27), Some(7));
    assert_eq!(counters, [0, 0, 0, 1, 0, 0, 0, 1, 0, 0]);
}

#[test]
fn balanced_draw_of_the_only_least_used_kind_is_refused() {
    let mut counters = [1i32, 1, 1, 1, 0, 1, 1, 1, 1, 1];
    assert_eq!(astor_step(&mut counters, 4), None);
    assert_eq!(counters, [1, 1, 1, 1, 0, 1, 1, 1, 1, 1]);
    for draw in 0..10 {
        assert_eq!(astor_step(&mut counters, draw), None);
    }
}

#[test]
fn untaken_kind_draws() {
    let mut counters = [0i32; 10];
    assert_eq!(foreach_step(&mut counters, 5), Some(5));
    assert_eq!(counters[5], 1);
    assert_eq!(foreach_step(&mut counters, 15), None);
    assert_eq!(foreach_step(&mut counters, 106), Some(6));
}

#[test]
fn assignment_depends_on_network_size() {
    let mut small = [0i32, 0, 1, 0, 0, 0, 0, 0, 0, 0];
    assert_eq!(assign_step(&mut small, 4, 2), None);
    let mut large = [0i32, 0, 1, 0, 0, 0, 0, 0, 0, 0];
    assert_eq!(assign_step(&mut large, 12, 2), None);
    assert_eq!(assign_step(&mut large, 12, 1), Some(1));
    let mut small = [0i32; 10];
    assert_eq!(assign_step(&mut small, 3, 9), Some(9));
}

#[test]
fn random_attempt_from_fresh_counters_is_taken() {
    let mut small = [0i32; 10];
    let v = assign_attempt(&mut small, 3).unwrap();
    assert!(v < 10);
    assert_eq!(small.iter().sum::<i32>(), 1);
    assert_eq!(small[v], 1);
    let mut large = [0i32; 10];
    let w = assign_attempt(&mut large, 15).unwrap();
    assert_eq!(large[w], 1);
}
