use chat_relay::websocket::ServerMessage;
use chat_relay::websocket::WebSocketManager;
use chat_relay::websocket::WebSocketSession;

#[test]
fn member_count_returns_to_its_pre_join_value_and_empty_rooms_are_pruned() {
    let mut mgr = WebSocketManager::new();
    assert_eq!(mgr.member_count("room"), 0);
    mgr.add_session("c1".to_string(), "room".to_string());
    assert_eq!(mgr.member_count("room"), 1);
    mgr.remove_session("c1", "room");
    assert_eq!(mgr.member_count("room"), 0);
    assert_eq!(mgr.rooms.len(), 0);
}

#[test]
fn adding_the_same_connection_twice_counts_once() {
    let mut mgr = WebSocketManager::new();
    mgr.add_session("c1".to_string(), "room".to_string());
    mgr.add_session("c1".to_string(), "room".to_string());
    assert_eq!(mgr.member_count("room"), 1);
    assert_eq!(mgr.sessions.len(), 1);
}

#[test]
fn removing_a_non_member_changes_nothing() {
    let mut mgr = WebSocketManager::new();
    mgr.add_session("c1".to_string(), "room".to_string());
    mgr.remove_session("ghost", "room");
    assert_eq!(mgr.member_count("room"), 1);
    mgr.remove_session("c1", "other");
    assert_eq!(mgr.member_count("room"), 1);
}

#[test]
fn leave_is_idempotent_on_the_registry() {
    let mut mgr = WebSocketManager::new();
    mgr.add_session("c1".to_string(), "room".to_string());
    mgr.add_session("c2".to_string(), "room".to_string());
    mgr.remove_session("c1", "room");
    assert_eq!(mgr.member_count("room"), 1);
    mgr.remove_session("c1", "room");
    assert_eq!(mgr.member_count("room"), 1);
    assert_eq!(mgr.sessions, vec!["c2".to_string()]);
}

#[test]
fn broadcast_excludes_the_sender_and_reaches_everyone_else() {
    let mut mgr = WebSocketManager::new();
    mgr.add_session("a".to_string(), "room".to_string());
    mgr.add_session("b".to_string(), "room".to_string());
    mgr.add_session("c".to_string(), "room".to_string());
    let recipients = mgr.broadcast_to_room("room", Some("b"));
    assert_eq!(recipients, vec!["a".to_string(), "c".to_string()]);
    let everyone = mgr.broadcast_to_room("room", None);
    assert_eq!(
        everyone,
        vec!["a".to_string(), "b".to_string(), "c".to_string()]
    );
    assert_eq!(mgr.broadcast_to_room("empty", None).len(), 0);
}

#[test]
fn broadcast_skips_members_whose_handle_is_gone() {
    let mut mgr = WebSocketManager::new();
    mgr.add_session("a".to_string(), "one".to_string());
    mgr.add_session("a".to_string(), "two".to_string());
    mgr.add_session("b".to_string(), "two".to_string());
    // Dropping `a`'s connection from room "one" takes its live handle away,
    // while its leaked membership in room "two" stays behind.
    mgr.remove_session("a", "one");
    let recipients = mgr.broadcast_to_room("two", None);
    assert_eq!(recipients, vec!["b".to_string()]);
}

#[test]
fn join_and_notify_announces_to_everyone_but_the_newcomer() {
    let mut mgr = WebSocketManager::new();
    let (_, first) = mgr.join_and_notify(
        &"a".to_string(),
        &"room".to_string(),
        &"alice".to_string(),
        5,
    );
    assert_eq!(first.len(), 0);
    let (msg, second) = mgr.join_and_notify(
        &"b".to_string(),
        &"room".to_string(),
        &"bob".to_string(),
        7,
    );
    assert_eq!(second, vec!["a".to_string()]);
    match msg {
        ServerMessage::UserJoined {
            username,
            user_id,
            timestamp,
        } => {
            assert_eq!(username, "bob");
            assert_eq!(user_id, "b");
            assert_eq!(timestamp, 7);
        }
        other => panic!("expected a user_joined notice, got {:?}", other),
    }
}

#[test]
fn a_connection_past_two_silent_probes_is_removed_and_announced() {
    let mut mgr = WebSocketManager::new();
    mgr.add_session("a".to_string(), "room".to_string());
    mgr.add_session("b".to_string(), "room".to_string());
    let mut session = WebSocketSession {
        id: "a".to_string(),
        room_id: Some("room".to_string()),
        username: Some("alice".to_string()),
        hb: 1_000,
    };
    // Two probe intervals pass without an answer: 5s, 10s, and a bit more.
    assert!(!session.heartbeat_expired(11_000));
    assert!(session.heartbeat_expired(11_001));
    let (msg, recipients) = session
        .stopped(&mut mgr, 11_001)
        .expect("cleanup should fire");
    match msg {
        ServerMessage::UserLeft {
            username,
            user_id,
            timestamp,
        } => {
            assert_eq!(username, "alice");
            assert_eq!(user_id, "a");
            assert_eq!(timestamp, 11_001);
        }
        other => panic!("expected a user_left notice, got {:?}", other),
    }
    assert_eq!(recipients, vec!["b".to_string()]);
    assert_eq!(mgr.member_count("room"), 1);
    // Cleanup is single-fire: a second stop does nothing and emits nothing.
    assert!(session.stopped(&mut mgr, 12_000).is_none());
    assert_eq!(mgr.member_count("room"), 1);
}
