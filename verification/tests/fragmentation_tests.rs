use crossbeam_channel::unbounded;
use rustbusters_client::client::RecvEntry;
use rustbusters_client::types::FRAGMENT_DSIZE;
use rustbusters_client::RustbustersClient;
use serde_json::Value;

fn make_client() -> RustbustersClient {
    let (tx_event, _rx_event) = unbounded();
    RustbustersClient::new(1, tx_event, Vec::new(), None, 0)
}

/// The serialized form of a register-user message, as the application
/// encodes it on the wire.
fn register_user_bytes(name: &str) -> Vec<u8> {
    let mut inner = serde_json::Map::new();
    inner.insert("name".to_string(), Value::String(name.to_string()));
    let mut variant = serde_json::Map::new();
    variant.insert("RegisterUser".to_string(), Value::Object(inner));
    let mut outer = serde_json::Map::new();
    outer.insert("FromClient".to_string(), Value::Object(variant));
    serde_json::to_string(&Value::Object(outer))
        .unwrap()
        .into_bytes()
}

/// The serialized form of a private text message.
fn private_message_bytes(recipient_id: u8, sender_id: u8, text: &str, timestamp: &str) -> Vec<u8> {
    let mut content = serde_json::Map::new();
    content.insert("Text".to_string(), Value::String(text.to_string()));
    let mut body = serde_json::Map::new();
    body.insert("sender_id".to_string(), Value::Number(sender_id.into()));
    body.insert(
        "timestamp".to_string(),
        Value::String(timestamp.to_string()),
    );
    body.insert("content".to_string(), Value::Object(content));
    let mut variant = serde_json::Map::new();
    variant.insert(
        "recipient_id".to_string(),
        Value::Number(recipient_id.into()),
    );
    variant.insert("message".to_string(), Value::Object(body));
    let mut send = serde_json::Map::new();
    send.insert("SendPrivateMessage".to_string(), Value::Object(variant));
    let mut outer = serde_json::Map::new();
    outer.insert("FromClient".to_string(), Value::Object(send));
    serde_json::to_string(&Value::Object(outer))
        .unwrap()
        .into_bytes()
}

#[test]
fn test_small_message_fragmentation() {
    let bytes = register_user_bytes("Alice");

    let fragments = rustbusters_client::codec::disassemble_message(&bytes);
    assert_eq!(fragments.len(), 1);
    assert_eq!(fragments[0].fragment_index, 0);
    assert_eq!(fragments[0].total_n_fragments, 1);
    assert!(fragments[0].length > 0);
    assert!(fragments[0].length as usize <= FRAGMENT_DSIZE);
}

#[test]
fn test_large_message_fragmentation() {
    let large_content = "A".repeat(FRAGMENT_DSIZE * 3);
    let bytes = private_message_bytes(2, 1, &large_content, "12:00");

    let fragments = rustbusters_client::codec::disassemble_message(&bytes);
    assert!(fragments.len() > 1);

    // Check fragment properties
    for (i, fragment) in fragments.iter().enumerate() {
        assert_eq!(fragment.fragment_index, i as u64);
        assert_eq!(fragment.total_n_fragments, fragments.len() as u64);
        assert!(fragment.length > 0);
        assert!(fragment.length as usize <= FRAGMENT_DSIZE);
    }
}

#[test]
fn test_fragment_reassembly() {
    let mut client = make_client();
    let original_bytes = register_user_bytes("Alice");

    // Fragment the message
    let fragments = rustbusters_client::codec::disassemble_message(&original_bytes);
    let session_id = 1234;

    // Simulate receiving fragments
    let received = fragments.len() as u64;
    client.pending_received.push(RecvEntry {
        session: session_id,
        slots: fragments.into_iter().map(Some).collect(),
        received,
    });

    // Attempt reassembly
    let result = client.reassemble_fragments(session_id);
    assert!(result.is_ok());

    // Compare with original
    let value: Value = serde_json::from_slice(&result.unwrap()).unwrap();
    match &value["FromClient"]["RegisterUser"]["name"] {
        Value::String(name) => {
            assert_eq!(name, "Alice");
        }
        _ => panic!("Unexpected message type"),
    }
}

#[test]
fn test_incomplete_reassembly() {
    let mut client = make_client();
    let bytes = register_user_bytes("Alice");

    // Fragment the message
    let fragments = rustbusters_client::codec::disassemble_message(&bytes);
    let session_id = 5678;

    // Simulate receiving fragments but skip one
    let total = fragments.len();
    let mut slots: Vec<_> = fragments
        .into_iter()
        .take(total - 1)
        .map(Some)
        .collect();
    slots.push(None);
    client.pending_received.push(RecvEntry {
        session: session_id,
        slots,
        received: (total - 1) as u64,
    });

    // Attempt reassembly should fail
    let result = client.reassemble_fragments(session_id);
    assert!(result.is_err());
}
