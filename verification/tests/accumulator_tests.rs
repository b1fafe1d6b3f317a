use vlc::accumulator::{Message, ServerState};

fn holds(state: &ServerState, item: &str) -> bool {
    state.items().iter().any(|s| s == item)
}

#[test]
fn merge_broadcasts_only_growth() {
    let mut node = ServerState::new();
    assert!(node.merge(&vec!["hello".to_string()]));
    assert!(holds(&node, "hello"));

    // Merging what is already known changes nothing, so nothing is sent.
    assert!(!node.merge(&vec!["hello".to_string()]));
    assert!(node.merge(&vec!["hello".to_string(), "world".to_string()]));
    assert!(holds(&node, "world"));
    assert_eq!(node.items().len(), 2);
}

#[test]
fn handle_msg_accumulates_client_items() {
    let mut node = ServerState::new();
    node.start();
    assert!(node.handle_msg(&Message::FromClient { item: "hello".to_string() }));
    assert!(!node.handle_msg(&Message::FromClient { item: "hello".to_string() }));
    assert!(node.is_running());
    assert!(holds(&node, "hello"));
}

#[test]
fn handle_msg_merges_peer_state() {
    let mut node = ServerState::new();
    node.start();
    assert!(node.handle_msg(&Message::FromClient { item: "a".to_string() }));
    let peer_state = vec!["a".to_string(), "b".to_string()];
    assert!(node.handle_msg(&Message::FromServer { state: peer_state }));
    assert!(holds(&node, "a"));
    assert!(holds(&node, "b"));
    assert_eq!(node.items().len(), 2);
}

#[test]
fn handle_msg_terminate_stops_node() {
    let mut node = ServerState::new();
    node.start();
    assert!(node.is_running());
    assert!(!node.handle_msg(&Message::Terminate));
    assert!(!node.is_running());
}
