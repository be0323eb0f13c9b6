use crossbeam_channel::unbounded;
use rustbusters_client::client::Command;
use rustbusters_client::edge_stats::BASE_WEIGHT;
use rustbusters_client::types::{NodeKind, PacketKind};
use rustbusters_client::RustbustersClient;
use serde_json::Value;

fn make_client() -> RustbustersClient {
    let (tx_event, _rx_event) = unbounded();
    RustbustersClient::new(1, tx_event, Vec::new(), None, 0)
}

/// A synthesized message such as the surrounding process builds for a
/// send-random-message command.
fn random_message_bytes() -> Vec<u8> {
    let mut content = serde_json::Map::new();
    content.insert("Text".to_string(), Value::String("hello".to_string()));
    let mut body = serde_json::Map::new();
    body.insert("sender_id".to_string(), Value::Number(1.into()));
    body.insert("timestamp".to_string(), Value::String("11:00".to_string()));
    body.insert("content".to_string(), Value::Object(content));
    let mut variant = serde_json::Map::new();
    variant.insert("recipient_id".to_string(), Value::Number(5.into()));
    variant.insert("message".to_string(), Value::Object(body));
    let mut send = serde_json::Map::new();
    send.insert("SendPrivateMessage".to_string(), Value::Object(variant));
    let mut outer = serde_json::Map::new();
    outer.insert("FromClient".to_string(), Value::Object(send));
    serde_json::to_string(&Value::Object(outer))
        .unwrap()
        .into_bytes()
}

#[test]
fn test_send_random_message() {
    let mut client = make_client();
    let (packet_2_tx, packet_2_rx) = unbounded();
    let dest = 3;

    // setup neighbors
    client.topology.add_edge(1, 2, BASE_WEIGHT);
    client.topology.add_edge(2, 3, BASE_WEIGHT);

    // setup known nodes
    client.known_nodes[1] = Some(NodeKind::Client);
    client.known_nodes[2] = Some(NodeKind::Drone);
    client.known_nodes[3] = Some(NodeKind::Server);

    // setup packet senders
    client.packet_send.push((2, packet_2_tx.clone()));

    // the surrounding process synthesizes the message and calls the send path
    let message = random_message_bytes();
    client.send_message(dest, &message, 0);

    if let Ok(packet) = packet_2_rx.try_recv() {
        assert_eq!(packet.routing_header.hops, vec![1, 2, 3]);
    } else {
        panic!("No message was sent");
    }
}

#[test]
fn test_discover_network() {
    let mut client = make_client();
    let (packet_2_tx, packet_2_rx) = unbounded();

    // Setup topology
    client.known_nodes[2] = Some(NodeKind::Drone);
    client.packet_send.push((2, packet_2_tx));

    client.handle_command(Command::DiscoverNetwork);

    // Verify that discovery packets are sent to neighbors
    if let Ok(packet) = packet_2_rx.try_recv() {
        if let PacketKind::FloodRequest(flood_request) = packet.pack_type {
            assert_eq!(flood_request.initiator_id, 1);
            assert_eq!(flood_request.path_trace, vec![(1, NodeKind::Client)]);
        } else {
            panic!("Unexpected packet type received");
        }
    } else {
        panic!("No discovery packet was sent");
    }
}

#[test]
fn test_add_remove_sender() {
    let mut client = make_client();
    let (sender, receiver) = unbounded();
    let sender_id = 3;

    // Setup the new node
    client.known_nodes[sender_id as usize] = Some(NodeKind::Drone);

    // Test Add Sender
    client.handle_command(Command::AddSender(sender_id, sender.clone()));
    assert!(client.packet_send.iter().any(|e| e.0 == sender_id));

    // Verify that discovery packet was sent to the new sender
    if let Ok(packet) = receiver.try_recv() {
        if let PacketKind::FloodRequest(flood_request) = packet.pack_type {
            assert_eq!(flood_request.initiator_id, 1);
            assert_eq!(flood_request.path_trace, vec![(1, NodeKind::Client)]);
        } else {
            panic!("Unexpected packet type received after add");
        }
    } else {
        panic!("No discovery packet was sent after add");
    }

    // Test Remove Sender and verify discovery is triggered
    let (new_sender, new_receiver) = unbounded();
    client.packet_send.push((2, new_sender)); // Add another node to receive discovery after remove
    client.known_nodes[2] = Some(NodeKind::Drone);

    client.handle_command(Command::RemoveSender(sender_id));
    assert!(!client.packet_send.iter().any(|e| e.0 == sender_id));

    // Verify that discovery packet was sent to remaining nodes
    if let Ok(packet) = new_receiver.try_recv() {
        if let PacketKind::FloodRequest(flood_request) = packet.pack_type {
            assert_eq!(flood_request.initiator_id, 1);
            assert_eq!(flood_request.path_trace, vec![(1, NodeKind::Client)]);
        } else {
            panic!("Unexpected packet type received after remove");
        }
    } else {
        panic!("No discovery packet was sent after remove");
    }
}
