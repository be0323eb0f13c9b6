use crossbeam_channel::unbounded;
use rustbusters_client::edge_stats::BASE_WEIGHT;
use rustbusters_client::types::NodeKind;
use rustbusters_client::RustbustersClient;

fn create_test_client() -> RustbustersClient {
    let (tx_event, _rx_event) = unbounded();
    RustbustersClient::new(1, tx_event, Vec::new(), None, 0)
}

#[test]
fn test_edge_stats_initial_state() {
    let mut client = create_test_client();
    let stats = client.get_or_create_edge_stats(1, 2);

    assert_eq!(stats.get_estimated_pdr(), 0);
    assert_eq!(stats.get_consecutive_nacks(), 0);
    assert_eq!(stats.get_edge_weight(), BASE_WEIGHT);
}

#[test]
fn test_edge_stats_update() {
    let mut client = create_test_client();
    client.update_edge_stats(1, 2, true);
    let stats = client.edge_stats_at(1, 2).unwrap();

    // Simulate a packet drop
    assert!(stats.get_estimated_pdr() > 0);
    assert_eq!(stats.get_consecutive_nacks(), 1);

    // Simulate successful transmission
    client.update_edge_stats(1, 2, false);
    let stats = client.edge_stats_at(1, 2).unwrap();
    assert_eq!(stats.get_consecutive_nacks(), 0);
}

#[test]
fn test_path_finding_simple() {
    let mut client = create_test_client();

    // Setup a simple topology:
    // Client (1) -> Drone (2) -> Server (3)
    client.known_nodes[1] = Some(NodeKind::Client);
    client.known_nodes[2] = Some(NodeKind::Drone);
    client.known_nodes[3] = Some(NodeKind::Server);

    client.topology.add_edge(1, 2, BASE_WEIGHT);
    client.topology.add_edge(2, 3, BASE_WEIGHT);

    let path = client.find_weighted_path(3);
    assert_eq!(path, Some(vec![1, 2, 3]));
}

#[test]
fn test_path_finding_invalid_path() {
    let mut client = create_test_client();

    // Setup an invalid topology:
    // Client (1) -> Client (2) -> Server (3)
    client.known_nodes[1] = Some(NodeKind::Client);
    client.known_nodes[2] = Some(NodeKind::Client);
    client.known_nodes[3] = Some(NodeKind::Server);

    client.topology.add_edge(1, 2, BASE_WEIGHT);
    client.topology.add_edge(2, 3, BASE_WEIGHT);

    let path = client.find_weighted_path(3);
    assert_eq!(path, None);
}

#[test]
fn test_weighted_path_multiple_options() {
    let mut client = create_test_client();

    // Setup a topology with multiple paths:
    //                    (3)
    //                   /   \
    // Client(1) -- Drone(2)  Drone(4) -- Server(6)
    //                   \   /
    //                  Drone(5)

    client.known_nodes[1] = Some(NodeKind::Client);
    for id in [2usize, 3, 4, 5] {
        client.known_nodes[id] = Some(NodeKind::Drone);
    }
    client.known_nodes[6] = Some(NodeKind::Server);

    // Add edges with different weights (in thousandths)
    client.topology.add_edge(1, 2, BASE_WEIGHT); // Client to first drone
    client.topology.add_edge(2, 3, 1200); // Path through upper drones
    client.topology.add_edge(3, 4, 1100);
    client.topology.add_edge(2, 5, BASE_WEIGHT); // Path through lower drone
    client.topology.add_edge(5, 4, BASE_WEIGHT);
    client.topology.add_edge(4, 6, BASE_WEIGHT); // Final hop to server

    let path = client.find_weighted_path(6);
    // Should choose path [1, 2, 5, 4, 6] as it has lower total weight
    assert_eq!(path, Some(vec![1, 2, 5, 4, 6]));
}

#[test]
fn test_weighted_path_congested_network() {
    let mut client = create_test_client();

    // Setup a topology where the shortest path is congested:
    // Client(1) -- Drone(2) ====== Server(4)
    //              |
    //           Drone(3) ------- Server(4)
    // (where === represents a congested/high weight path)

    client.known_nodes[1] = Some(NodeKind::Client);
    client.known_nodes[2] = Some(NodeKind::Drone);
    client.known_nodes[3] = Some(NodeKind::Drone);
    client.known_nodes[4] = Some(NodeKind::Server);

    // Add edges - direct path is congested
    client.topology.add_edge(1, 2, BASE_WEIGHT);
    client.topology.add_edge(2, 4, 3000); // Congested direct path
    client.topology.add_edge(2, 3, BASE_WEIGHT);
    client.topology.add_edge(3, 4, 1500); // Better alternative

    let path = client.find_weighted_path(4);
    // Should choose longer but less congested path [1, 2, 3, 4]
    assert_eq!(path, Some(vec![1, 2, 3, 4]));
}

#[test]
fn test_weighted_path_mesh_network() {
    let mut client = create_test_client();

    // Setup a complex mesh topology:
    //
    //           Drone(3) ---- Drone(4) ---- Drone(5)
    //          /    |    \     |      \     |     \
    // Client(1)     |     \    |       \    |    Server(8)
    //          \    |      \   |        \   |     /
    //           Drone(2) ---- Drone(6) ---- Drone(7)

    client.known_nodes[1] = Some(NodeKind::Client);
    for id in 2usize..=7 {
        client.known_nodes[id] = Some(NodeKind::Drone);
    }
    client.known_nodes[8] = Some(NodeKind::Server);

    // Add edges with varying weights to simulate different network conditions
    // Client connections
    client.topology.add_edge(1, 2, BASE_WEIGHT);
    client.topology.add_edge(1, 3, 1100);

    // First level connections
    client.topology.add_edge(2, 3, BASE_WEIGHT);
    client.topology.add_edge(2, 6, 1200);

    // Second level connections
    client.topology.add_edge(3, 4, BASE_WEIGHT);
    client.topology.add_edge(3, 6, 1500);
    client.topology.add_edge(4, 5, BASE_WEIGHT);
    client.topology.add_edge(4, 6, 1300);
    client.topology.add_edge(4, 7, 1100);

    // Third level connections
    client.topology.add_edge(5, 7, BASE_WEIGHT);
    client.topology.add_edge(5, 8, 1400);
    client.topology.add_edge(6, 7, BASE_WEIGHT);

    // Server connections
    client.topology.add_edge(7, 8, BASE_WEIGHT);

    let path = client.find_weighted_path(8);
    // The path with lowest total weight should be [1, 3, 4, 7, 8]
    assert_eq!(path, Some(vec![1, 3, 4, 7, 8]));
}

#[test]
fn test_weighted_path_redundant_layers() {
    let mut client = create_test_client();

    // Setup a layered topology with redundant paths:
    //
    //              Drone(2) -------- Drone(5) -------- Server(8)
    //             /          \      /          \
    // Client(1) ----- Drone(3) -- Drone(6) ---- Server(9)
    //             \          /      \          /
    //              Drone(4) -------- Drone(7) -------- Server(10)

    client.known_nodes[1] = Some(NodeKind::Client);
    for id in 2usize..=7 {
        client.known_nodes[id] = Some(NodeKind::Drone);
    }
    for id in 8usize..=10 {
        client.known_nodes[id] = Some(NodeKind::Server);
    }

    // First layer connections
    client.topology.add_edge(1, 2, BASE_WEIGHT);
    client.topology.add_edge(1, 3, 1100);
    client.topology.add_edge(1, 4, 1200);

    // Second layer mesh
    client.topology.add_edge(2, 5, BASE_WEIGHT);
    client.topology.add_edge(2, 6, 2000); // congested
    client.topology.add_edge(3, 5, 1300);
    client.topology.add_edge(3, 6, BASE_WEIGHT);
    client.topology.add_edge(3, 7, 1400);
    client.topology.add_edge(4, 6, 1200);
    client.topology.add_edge(4, 7, BASE_WEIGHT);

    // Final layer to servers
    client.topology.add_edge(5, 8, BASE_WEIGHT);
    client.topology.add_edge(6, 9, BASE_WEIGHT);
    client.topology.add_edge(7, 10, 1100);

    // Test paths to different servers
    let path_to_8 = client.find_weighted_path(8);
    let path_to_9 = client.find_weighted_path(9);
    let path_to_10 = client.find_weighted_path(10);

    // Verify that we get different optimal paths to each server
    assert_eq!(path_to_8, Some(vec![1, 2, 5, 8]));
    assert_eq!(path_to_9, Some(vec![1, 3, 6, 9]));
    assert_eq!(path_to_10, Some(vec![1, 4, 7, 10]));
}
