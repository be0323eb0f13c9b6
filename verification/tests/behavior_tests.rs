use crossbeam_channel::unbounded;
use rustbusters_client::client::SentEntry;
use rustbusters_client::codec;
use rustbusters_client::edge_stats::{EdgeStats, BASE_WEIGHT};
use rustbusters_client::mime::get_mime_type;
use rustbusters_client::types::{
    Event, FloodRequest, FloodResponse, Fragment, NackKind, NodeKind, PacketKind,
    ReassemblyError, RoutingHeader, UiError,
};
use rustbusters_client::RustbustersClient;
use serde_json::Value;

fn make_client() -> (
    RustbustersClient,
    crossbeam_channel::Receiver<Event>,
) {
    let (tx_event, rx_event) = unbounded();
    (
        RustbustersClient::new(1, tx_event, Vec::new(), None, 0),
        rx_event,
    )
}

fn register_user_bytes(name: &str) -> Vec<u8> {
    let mut inner = serde_json::Map::new();
    inner.insert("name".to_string(), Value::String(name.to_string()));
    let mut variant = serde_json::Map::new();
    variant.insert("RegisterUser".to_string(), Value::Object(inner));
    let mut outer = serde_json::Map::new();
    outer.insert("FromClient".to_string(), Value::Object(variant));
    serde_json::to_string(&Value::Object(outer))
        .unwrap()
        .into_bytes()
}

/// A full send-and-acknowledge cycle: exactly one fragment goes out, the
/// acknowledgment empties the pending store, and exactly one completed-
/// message event fires; a duplicate acknowledgment is spurious and fires
/// nothing.
#[test]
fn test_ack_chain_completes_session() {
    let (mut client, rx_event) = make_client();
    let (packet_2_tx, packet_2_rx) = unbounded();

    client.known_nodes[1] = Some(NodeKind::Client);
    client.known_nodes[2] = Some(NodeKind::Drone);
    client.known_nodes[3] = Some(NodeKind::Server);
    client.topology.add_edge(1, 2, BASE_WEIGHT);
    client.topology.add_edge(2, 3, BASE_WEIGHT);
    client.packet_send.push((2, packet_2_tx));

    let message = register_user_bytes("Alice");
    let errors = client.send_message(3, &message, 100);
    assert!(errors.is_empty());

    // Exactly one fragment on the channel to node 2, of bounded length.
    let packet = packet_2_rx.try_recv().expect("no fragment was sent");
    let session = packet.session_id;
    match packet.pack_type {
        PacketKind::MsgFragment(f) => {
            assert_eq!(f.fragment_index, 0);
            assert!(f.length as usize <= 128);
        }
        _ => panic!("unexpected packet kind"),
    }
    assert!(packet_2_rx.try_recv().is_err());
    assert_eq!(client.pending_sent.len(), 1);

    // The acknowledgment empties pending-sent and fires one event.
    let completed = client.handle_ack(session, 0, 150);
    assert!(completed);
    assert!(client.pending_sent.is_empty());
    let mut sent_events = 0;
    while let Ok(ev) = rx_event.try_recv() {
        if let Event::MessageSent {
            destination,
            latency_ms,
            ..
        } = ev
        {
            assert_eq!(destination, 3);
            assert_eq!(latency_ms, 50);
            sent_events += 1;
        }
    }
    assert_eq!(sent_events, 1);

    // A duplicate acknowledgment is spurious: no second event.
    let completed_again = client.handle_ack(session, 0, 200);
    assert!(!completed_again);
    while let Ok(ev) = rx_event.try_recv() {
        if let Event::MessageSent { .. } = ev {
            panic!("a second completed-message event fired");
        }
    }
}

/// Severing a neighbor removes the local edge and both directed
/// reliability records on it.
#[test]
fn test_remove_sender_purges_edge_state() {
    let (mut client, _rx) = make_client();
    let (tx, _rx2) = unbounded();
    client.packet_send.push((4, tx));
    client.topology.add_edge(1, 4, BASE_WEIGHT);
    client.update_edge_stats(1, 4, false);
    client.update_edge_stats(4, 1, false);

    client.remove_sender(4);

    assert!(!client.packet_send.iter().any(|e| e.0 == 4));
    assert_eq!(client.topology.edge_weight(1, 4), None);
    assert_eq!(client.topology.edge_weight(4, 1), None);
    assert!(client.edge_stats_at(1, 4).is_none());
    assert!(client.edge_stats_at(4, 1).is_none());
}

/// Three drop reports on the same fragment drive the penalized edge's
/// estimate past one half and trigger a reroute onto the alternative path.
#[test]
fn test_three_drops_cause_reroute() {
    let (mut client, _rx) = make_client();
    let (tx2, rx2) = unbounded();
    let (tx3, rx3) = unbounded();

    client.known_nodes[1] = Some(NodeKind::Client);
    client.known_nodes[2] = Some(NodeKind::Drone);
    client.known_nodes[3] = Some(NodeKind::Drone);
    client.known_nodes[4] = Some(NodeKind::Server);
    client.topology.add_edge(1, 2, BASE_WEIGHT);
    client.topology.add_edge(2, 4, BASE_WEIGHT);
    client.topology.add_edge(1, 3, 1100);
    client.topology.add_edge(3, 4, 1100);
    client.packet_send.push((2, tx2));
    client.packet_send.push((3, tx3));

    let mut data = vec![0u8; 128];
    data[0] = 7;
    client.pending_sent.push(SentEntry {
        session: 9,
        fragment: 0,
        packet: rustbusters_client::types::Packet {
            pack_type: PacketKind::MsgFragment(Fragment {
                fragment_index: 0,
                total_n_fragments: 1,
                length: 1,
                data,
            }),
            routing_header: RoutingHeader {
                hop_index: 1,
                hops: vec![1, 2, 4],
            },
            session_id: 9,
        },
    });

    // The drop is observed on the first pair of the backward trace (2, 1).
    let nack_header = RoutingHeader {
        hop_index: 0,
        hops: vec![2, 1],
    };
    for _ in 0..3 {
        client.handle_nack(9, 0, NackKind::Dropped, &nack_header);
    }

    let stats = client.edge_stats_at(2, 1).unwrap();
    assert_eq!(stats.get_consecutive_nacks(), 3);
    assert!(stats.get_estimated_pdr() > 500);

    // The first two resends keep the stored route through node 2; the
    // third, with the penalized edge now expensive, goes through node 3.
    assert!(rx2.try_recv().is_ok());
    let mut rerouted = None;
    while let Ok(p) = rx3.try_recv() {
        rerouted = Some(p);
    }
    let rerouted = rerouted.expect("no rerouted resend reached the alternative path");
    assert_eq!(rerouted.routing_header.hops, vec![1, 3, 4]);
    assert_eq!(rerouted.routing_header.hop_index, 1);
}

/// Disassembling and reassembling is the identity on a multi-fragment
/// payload without zero bytes.
#[test]
fn test_round_trip_multi_fragment() {
    let mut bytes: Vec<u8> = Vec::new();
    for i in 0..300u32 {
        bytes.push((1 + (i % 255)) as u8);
    }
    let fragments = codec::disassemble_message(&bytes);
    assert_eq!(fragments.len(), 3);
    let slots: Vec<Option<Fragment>> = fragments.into_iter().map(Some).collect();
    let rebuilt = codec::assemble_payload(&slots).expect("a fragment was missing");
    assert_eq!(rebuilt, bytes);
}

/// A duplicate fragment does not advance the received count.
#[test]
fn test_duplicate_fragment_not_counted() {
    let (mut client, _rx) = make_client();
    let fragment = Fragment {
        fragment_index: 0,
        total_n_fragments: 2,
        length: 3,
        data: vec![1u8; 128],
    };
    assert!(!client.set_pending(77, fragment.clone()));
    assert!(!client.set_pending(77, fragment));
    let entry = client
        .pending_received
        .iter()
        .find(|e| e.session == 77)
        .unwrap();
    assert_eq!(entry.received, 1);
}

/// Reassembly errors name their condition: an unknown session, or a
/// missing fragment.
#[test]
fn test_reassembly_error_variants() {
    let (mut client, _rx) = make_client();
    assert_eq!(
        client.reassemble_fragments(42),
        Err(ReassemblyError::UnknownSession)
    );

    let fragment = Fragment {
        fragment_index: 0,
        total_n_fragments: 2,
        length: 3,
        data: vec![1u8; 128],
    };
    client.set_pending(43, fragment);
    assert_eq!(
        client.reassemble_fragments(43),
        Err(ReassemblyError::MissingFragment)
    );
}

/// Without an admissible route the send path reports the destination as
/// unreachable; a refused channel reports a failed send.
#[test]
fn test_send_error_notices() {
    let (mut client, _rx) = make_client();
    let message = register_user_bytes("Bob");
    assert_eq!(
        client.send_message(3, &message, 0),
        vec![UiError::DestinationUnreachable]
    );

    client.known_nodes[1] = Some(NodeKind::Client);
    client.known_nodes[2] = Some(NodeKind::Drone);
    client.known_nodes[3] = Some(NodeKind::Server);
    client.topology.add_edge(1, 2, BASE_WEIGHT);
    client.topology.add_edge(2, 3, BASE_WEIGHT);
    let (tx2, rx2) = unbounded();
    drop(rx2); // the channel refuses every send
    client.packet_send.push((2, tx2));
    assert_eq!(
        client.send_message(3, &message, 0),
        vec![UiError::SendFailed]
    );
}

/// Absorbing a flood response teaches kinds and edges, opens a route, and
/// absorbing the same response again reaches the same state.
#[test]
fn test_flood_response_absorption_idempotent() {
    let (mut client, _rx) = make_client();
    let response = FloodResponse {
        flood_id: 8,
        path_trace: vec![
            (1, NodeKind::Client),
            (2, NodeKind::Drone),
            (3, NodeKind::Server),
        ],
    };
    client.handle_flood_response(&response);
    assert_eq!(client.topology.edge_weight(1, 2), Some(BASE_WEIGHT));
    assert_eq!(client.topology.edge_weight(3, 2), Some(BASE_WEIGHT));
    assert_eq!(client.find_weighted_path(3), Some(vec![1, 2, 3]));
    let snapshot = client.known_nodes_snapshot();

    client.handle_flood_response(&response);
    assert_eq!(client.known_nodes_snapshot(), snapshot);
    assert_eq!(client.find_weighted_path(3), Some(vec![1, 2, 3]));
}

/// Answering a foreign flood request appends this client to the trace and
/// routes the response back along the reversed trace.
#[test]
fn test_flood_request_answered() {
    let (mut client, _rx) = make_client();
    let (tx2, rx2) = unbounded();
    client.packet_send.push((2, tx2));

    let request = FloodRequest {
        flood_id: 9,
        initiator_id: 5,
        path_trace: vec![(5, NodeKind::Client), (2, NodeKind::Drone)],
    };
    client.handle_flood_request(&request, 31);

    let packet = rx2.try_recv().expect("no flood response was sent");
    assert_eq!(packet.session_id, 31);
    assert_eq!(packet.routing_header.hop_index, 1);
    assert_eq!(packet.routing_header.hops, vec![1, 2, 5]);
    match packet.pack_type {
        PacketKind::FloodResponse(r) => {
            assert_eq!(r.flood_id, 9);
            assert_eq!(
                r.path_trace,
                vec![
                    (5, NodeKind::Client),
                    (2, NodeKind::Drone),
                    (1, NodeKind::Client),
                ]
            );
        }
        _ => panic!("unexpected packet kind"),
    }
}

/// A request this client itself originated is absorbed locally: the trace
/// becomes topology and nothing is sent.
#[test]
fn test_own_flood_request_absorbed() {
    let (mut client, _rx) = make_client();
    let (tx2, rx2) = unbounded();
    client.packet_send.push((2, tx2));

    let request = FloodRequest {
        flood_id: 10,
        initiator_id: 1,
        path_trace: vec![(1, NodeKind::Client), (2, NodeKind::Drone)],
    };
    client.handle_flood_request(&request, 0);
    assert!(rx2.try_recv().is_err());
    assert_eq!(client.topology.edge_weight(1, 2), Some(BASE_WEIGHT));
}

/// The run counters exclude each other and the smoothing factor stays
/// clamped through an arbitrary outcome sequence.
#[test]
fn test_estimator_invariants_hold() {
    let mut stats = EdgeStats::new(200);
    let outcomes = [
        true, true, true, true, false, false, false, false, false, false, true, false, true,
        true, true, true, true, true, false,
    ];
    for &dropped in outcomes.iter() {
        stats.update(dropped);
        let nacks = stats.get_consecutive_nacks();
        let acks = stats.consecutive_acks;
        assert!((nacks == 0) != (acks == 0));
        assert!(stats.alpha >= 200 && stats.alpha <= 800);
        assert!(stats.get_estimated_pdr() <= 1000);
        assert!(stats.confidence > 500 && stats.confidence <= 1000);
        assert!(stats.get_edge_weight() >= BASE_WEIGHT);
    }
}

/// The weight formula: base weight plus the confidence-weighted drop rate
/// plus half a unit per consecutive drop beyond the second.
#[test]
fn test_edge_weight_formula() {
    let mut stats = EdgeStats::new(200);
    for _ in 0..3 {
        stats.update(true);
    }
    // pdr is 552/1000 after three drops with the adapting factor.
    assert_eq!(stats.get_estimated_pdr(), 552);
    let expected = BASE_WEIGHT + 552 * stats.confidence / 1000 + 500;
    assert_eq!(stats.get_edge_weight(), expected);
}

/// MIME types follow the file extension, with a byte-stream fallback.
#[test]
fn test_mime_types() {
    assert_eq!(get_mime_type("index.html"), "text/html");
    assert_eq!(get_mime_type("style.css"), "text/css");
    assert_eq!(get_mime_type("app.js"), "application/javascript");
    assert_eq!(get_mime_type("logo.png"), "image/png");
    assert_eq!(get_mime_type("photo.jpg"), "image/jpeg");
    assert_eq!(get_mime_type("photo.jpeg"), "image/jpeg");
    assert_eq!(get_mime_type("clip.webm"), "video/webm");
    assert_eq!(get_mime_type("notes.txt"), "application/octet-stream");
    assert_eq!(get_mime_type(""), "application/octet-stream");
}

/// A routing-error report excises the offending drone everywhere.
#[test]
fn test_error_in_routing_excises_drone() {
    let (mut client, _rx) = make_client();
    client.known_nodes[1] = Some(NodeKind::Client);
    client.known_nodes[2] = Some(NodeKind::Drone);
    client.known_nodes[4] = Some(NodeKind::Server);
    client.topology.add_edge(1, 2, BASE_WEIGHT);
    client.topology.add_edge(2, 4, BASE_WEIGHT);
    client.update_edge_stats(2, 4, false);

    let mut data = vec![0u8; 128];
    data[0] = 9;
    client.pending_sent.push(SentEntry {
        session: 5,
        fragment: 0,
        packet: rustbusters_client::types::Packet {
            pack_type: PacketKind::MsgFragment(Fragment {
                fragment_index: 0,
                total_n_fragments: 1,
                length: 1,
                data,
            }),
            routing_header: RoutingHeader {
                hop_index: 1,
                hops: vec![1, 2, 4],
            },
            session_id: 5,
        },
    });

    let header = RoutingHeader {
        hop_index: 0,
        hops: vec![2, 1],
    };
    client.handle_nack(5, 0, NackKind::ErrorInRouting(2), &header);

    assert_eq!(client.known_nodes[2], None);
    assert_eq!(client.topology.edge_weight(1, 2), None);
    assert_eq!(client.topology.edge_weight(2, 4), None);
    assert!(client.edge_stats_at(2, 4).is_none());
    assert!(client.edge_stats_at(4, 2).is_none());
    // The pending entry stays attributable for later reports.
    assert_eq!(client.pending_sent.len(), 1);
}

/// An arriving fragment is acknowledged toward its source along the
/// reversed header, and a complete single-fragment session is delivered.
#[test]
fn test_fragment_arrival_acked_and_delivered() {
    let (mut client, _rx) = make_client();
    let (tx2, rx2) = unbounded();
    client.packet_send.push((2, tx2));

    let payload = register_user_bytes("Carol");
    let fragments = codec::disassemble_message(&payload);
    assert_eq!(fragments.len(), 1);
    let header = RoutingHeader {
        hop_index: 2,
        hops: vec![3, 2, 1],
    };
    let delivered = client.handle_message_fragment(&fragments[0], 21, &header);

    let (source, bytes) = delivered.expect("the completed message was not delivered");
    assert_eq!(source, 3);
    assert_eq!(bytes, payload);

    let ack = rx2.try_recv().expect("no acknowledgment was sent");
    assert_eq!(ack.session_id, 21);
    assert_eq!(ack.routing_header.hops, vec![1, 2, 3]);
    match ack.pack_type {
        PacketKind::Ack { fragment_index } => assert_eq!(fragment_index, 0),
        _ => panic!("unexpected packet kind"),
    }
}

/// The dispatcher routes a wire packet to the matching handler: an
/// acknowledgment packet clears the pending entry it names.
#[test]
fn test_packet_dispatch_ack() {
    let (mut client, _rx) = make_client();
    let mut data = vec![0u8; 128];
    data[0] = 2;
    client.pending_sent.push(SentEntry {
        session: 11,
        fragment: 0,
        packet: rustbusters_client::types::Packet {
            pack_type: PacketKind::MsgFragment(Fragment {
                fragment_index: 0,
                total_n_fragments: 1,
                length: 1,
                data,
            }),
            routing_header: RoutingHeader {
                hop_index: 1,
                hops: vec![1, 2, 3],
            },
            session_id: 11,
        },
    });

    let ack = rustbusters_client::types::Packet {
        pack_type: PacketKind::Ack { fragment_index: 0 },
        routing_header: RoutingHeader {
            hop_index: 1,
            hops: vec![3, 2, 1],
        },
        session_id: 11,
    };
    let delivered = client.handle_packet(ack, 0);
    assert!(delivered.is_none());
    assert!(client.pending_sent.is_empty());
}

/// A statistics request answers with the current counters and changes
/// nothing.
#[test]
fn test_stats_request_snapshot() {
    let (mut client, rx_event) = make_client();
    client.known_nodes[1] = Some(NodeKind::Client);
    let stats = client
        .handle_command(rustbusters_client::client::Command::StatsRequest)
        .expect("no statistics came back");
    assert_eq!(stats.floods_started, 73);
    assert_eq!(stats.sessions_started, 73);
    assert_eq!(stats.known_node_count, 1);
    match rx_event.try_recv() {
        Ok(Event::StatsResponse(s)) => assert_eq!(s, stats),
        _ => panic!("no statistics event was reported"),
    }
}

/// The periodic-rediscovery predicate measures from the last recorded
/// round.
#[test]
fn test_discovery_due_after_interval() {
    let (mut client, _rx) = make_client();
    client.mark_discovery(1000);
    assert!(!client.should_perform_discovery(1500));
    assert!(client.should_perform_discovery(21000));
    assert_eq!(client.get_node_type(9), None);
}
