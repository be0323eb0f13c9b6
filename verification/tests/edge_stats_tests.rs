use crossbeam_channel::unbounded;
use rustbusters_client::client::SentEntry;
use rustbusters_client::types::{Fragment, NackKind, Packet, PacketKind, RoutingHeader};
use rustbusters_client::RustbustersClient;

fn make_client() -> RustbustersClient {
    let (tx_event, _rx_event) = unbounded();
    RustbustersClient::new(1, tx_event, Vec::new(), None, 0)
}

// Local helper function for creating test packets
fn create_test_packet(session_id: u64, fragment_index: u64, path: &[u8]) -> Packet {
    let mut data = vec![0u8; 128];
    data[0] = 1;
    data[1] = 2;
    data[2] = 3;
    Packet {
        session_id,
        routing_header: RoutingHeader {
            hops: path.to_vec(),
            hop_index: 1,
        },
        pack_type: PacketKind::MsgFragment(Fragment {
            fragment_index,
            total_n_fragments: 1,
            data,
            length: 3,
        }),
    }
}

#[test]
fn test_edge_stats_ack_handling() {
    let mut client = make_client();

    // Setup initial path
    let path = vec![1u8, 2, 3, 4];
    let session_id = 1;
    let fragment_index = 0;

    // Create a dummy packet and add it to pending_sent
    let packet = create_test_packet(session_id, fragment_index, &path);
    client.pending_sent.push(SentEntry {
        session: session_id,
        fragment: fragment_index,
        packet,
    });

    // Handle ACK
    client.handle_ack(session_id, fragment_index, 0);

    // Verify edge stats were updated correctly
    for window in path.windows(2) {
        let stats = client.get_or_create_edge_stats(window[0], window[1]);
        assert_eq!(stats.get_consecutive_nacks(), 0);
        assert_eq!(stats.get_estimated_pdr(), 0); // Perfect transmission
    }
}

#[test]
fn test_edge_stats_nack_handling() {
    let mut client = make_client();

    // Setup path where drop occurred
    let path = vec![3u8, 2, 1]; // NACK path is reversed
    let session_id = 1;
    let fragment_index = 0;

    // Create a dummy packet and add it to pending_sent
    let original_path = vec![1u8, 2, 3, 4];
    let packet = create_test_packet(session_id, fragment_index, &original_path);
    client.pending_sent.push(SentEntry {
        session: session_id,
        fragment: fragment_index,
        packet,
    });

    // Create NACK header
    let nack_header = RoutingHeader {
        hops: path.clone(),
        hop_index: 0,
    };

    // Handle NACK
    client.handle_nack(session_id, fragment_index, NackKind::Dropped, &nack_header);

    // Verify edge stats for the dropping edge
    let stats = client.get_or_create_edge_stats(path[0], path[1]);
    assert!(stats.get_estimated_pdr() > 0); // Should indicate some packet loss
    assert_eq!(stats.get_consecutive_nacks(), 1);
}

#[test]
fn test_edge_stats_multiple_nacks() {
    let mut client = make_client();

    let path = vec![3u8, 2, 1];
    let session_id = 1;
    let fragment_index = 0;

    // Setup original packet
    let original_path = vec![1u8, 2, 3, 4];
    let packet = create_test_packet(session_id, fragment_index, &original_path);
    client.pending_sent.push(SentEntry {
        session: session_id,
        fragment: fragment_index,
        packet,
    });

    let nack_header = RoutingHeader {
        hops: path.clone(),
        hop_index: 0,
    };

    // Send multiple NACKs
    for _ in 0..3 {
        client.handle_nack(session_id, fragment_index, NackKind::Dropped, &nack_header);
    }

    // Verify edge stats show deteriorating condition
    let stats = client.get_or_create_edge_stats(path[0], path[1]);
    assert!(stats.get_estimated_pdr() > 500); // Should indicate significant packet loss
    assert_eq!(stats.get_consecutive_nacks(), 3);
}
