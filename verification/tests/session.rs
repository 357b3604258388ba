use chat_relay::chatroom::ChatRoomManager;
use chat_relay::chatroom::RoomError;
use chat_relay::handlers::ApiResponse;
use chat_relay::websocket::ClientMessage;
use chat_relay::websocket::Effect;
use chat_relay::websocket::Frame;
use chat_relay::websocket::ServerMessage;
use chat_relay::websocket::WebSocketManager;
use chat_relay::websocket::WebSocketSession;

fn fresh_session(id: &str) -> WebSocketSession {
    WebSocketSession {
        id: id.to_string(),
        room_id: None,
        username: None,
        hb: 0,
    }
}

#[test]
fn new_sessions_start_outside_any_room_with_a_fresh_id() {
    let s = WebSocketSession::new();
    assert_eq!(s.id.len(), 36);
    assert!(s.room_id.is_none());
    assert!(s.username.is_none());
}

#[test]
fn transport_pings_are_echoed_and_refresh_the_heartbeat() {
    let mut s = fresh_session("c1");
    let effects = s.handle_event(Frame::Ping(vec![1, 2]), 42);
    assert_eq!(s.hb, 42);
    assert_eq!(effects.len(), 1);
    assert!(matches!(&effects[0], Effect::Pong(p) if p == &vec![1, 2]));
}

#[test]
fn pong_replies_refresh_the_heartbeat_quietly() {
    let mut s = fresh_session("c1");
    let effects = s.handle_event(Frame::Pong, 42);
    assert_eq!(s.hb, 42);
    assert!(effects.is_empty());
}

#[test]
fn chat_outside_a_room_goes_nowhere() {
    let mut s = fresh_session("c1");
    let effects = s.handle_event(
        Frame::Text(ClientMessage::Chat {
            content: "hi".to_string(),
            username: "alice".to_string(),
        }),
        5,
    );
    assert!(effects.is_empty());
}

#[test]
fn chat_in_a_room_is_broadcast_without_exclusion() {
    let mut s = fresh_session("c1");
    s.room_id = Some("room".to_string());
    let effects = s.handle_event(
        Frame::Text(ClientMessage::Chat {
            content: "hi".to_string(),
            username: "alice".to_string(),
        }),
        5,
    );
    assert_eq!(effects.len(), 1);
    match &effects[0] {
        Effect::Broadcast { room_id, message } => {
            assert_eq!(room_id, "room");
            match message {
                ServerMessage::Chat {
                    content,
                    username,
                    timestamp,
                    user_id,
                } => {
                    assert_eq!(content, "hi");
                    assert_eq!(username, "alice");
                    assert_eq!(*timestamp, 5);
                    assert_eq!(user_id, "c1");
                }
                other => panic!("expected a chat envelope, got {:?}", other),
            }
        }
        _ => panic!("expected a broadcast effect"),
    }
}

#[test]
fn join_intent_records_the_room_and_asks_for_registration_and_an_ack() {
    let mut s = fresh_session("c1");
    let effects = s.handle_event(
        Frame::Text(ClientMessage::Join {
            room_id: "room".to_string(),
            username: "alice".to_string(),
            password: Some("x".to_string()),
        }),
        5,
    );
    assert_eq!(s.room_id, Some("room".to_string()));
    assert_eq!(s.username, Some("alice".to_string()));
    assert_eq!(effects.len(), 2);
    match &effects[0] {
        Effect::Register {
            room_id,
            username,
            password,
        } => {
            assert_eq!(room_id, "room");
            assert_eq!(username, "alice");
            assert_eq!(password, &Some("x".to_string()));
        }
        _ => panic!("expected the registration work first"),
    }
    match &effects[1] {
        Effect::Reply(ServerMessage::Joined { room_id, user_id }) => {
            assert_eq!(room_id, "room");
            assert_eq!(user_id, "c1");
        }
        _ => panic!("expected the join acknowledgement second"),
    }
}

#[test]
fn client_pings_get_a_pong_envelope() {
    let mut s = fresh_session("c1");
    let effects = s.handle_event(Frame::Text(ClientMessage::Ping), 5);
    assert_eq!(effects.len(), 1);
    assert!(matches!(&effects[0], Effect::Reply(ServerMessage::Pong)));
}

#[test]
fn malformed_payloads_get_a_non_fatal_error_reply() {
    let mut s = fresh_session("c1");
    let effects = s.handle_event(Frame::Malformed("missing field".to_string()), 5);
    assert_eq!(s.hb, 5);
    assert_eq!(effects.len(), 1);
    match &effects[0] {
        Effect::Reply(ServerMessage::Error { message }) => {
            assert_eq!(message, "Invalid message format: missing field");
        }
        _ => panic!("expected an error reply"),
    }
}

#[test]
fn binary_frames_are_ignored_and_the_connection_stays_open() {
    let mut s = fresh_session("c1");
    let effects = s.handle_event(Frame::Binary(vec![0, 1]), 5);
    assert!(effects.is_empty());
    assert_eq!(s.hb, 0);
}

#[test]
fn close_and_transport_errors_stop_the_session() {
    let mut s = fresh_session("c1");
    let effects = s.handle_event(Frame::Close, 5);
    assert_eq!(effects.len(), 2);
    assert!(matches!(effects[0], Effect::CloseConnection));
    assert!(matches!(effects[1], Effect::Stop));

    let mut s2 = fresh_session("c2");
    let effects2 = s2.handle_event(Frame::ProtocolError, 5);
    assert_eq!(effects2.len(), 1);
    assert!(matches!(effects2[0], Effect::Stop));
}

#[test]
fn lobby_scenario_from_password_prompt_to_shared_chat() {
    let mut directory = ChatRoomManager::new();
    let mut registry = WebSocketManager::new();
    let lobby = directory
        .create_room("lobby".to_string(), Some("x".to_string()))
        .unwrap();

    // First connection: no password, wrong password, then the right one.
    assert_eq!(
        directory.join_room(&lobby, "c1".to_string(), None),
        Err(RoomError::PasswordRequired)
    );
    assert_eq!(
        directory.join_room(&lobby, "c1".to_string(), Some("y".to_string())),
        Err(RoomError::WrongPassword)
    );
    assert_eq!(
        directory.join_room(&lobby, "c1".to_string(), Some("x".to_string())),
        Ok(())
    );
    let infos = directory.list_rooms();
    assert_eq!(infos[0].user_count, 1);

    registry.add_session("c1".to_string(), lobby.clone());

    // Second connection joins; the first sees the arrival notice.
    assert_eq!(
        directory.join_room(&lobby, "c2".to_string(), Some("x".to_string())),
        Ok(())
    );
    let (notice, recipients) =
        registry.join_and_notify(&"c2".to_string(), &lobby, &"bob".to_string(), 9);
    assert!(matches!(notice, ServerMessage::UserJoined { .. }));
    assert_eq!(recipients, vec!["c1".to_string()]);

    // The second connection chats; both members receive it, sender included.
    let mut s2 = fresh_session("c2");
    s2.room_id = Some(lobby.clone());
    s2.username = Some("bob".to_string());
    let effects = s2.handle_event(
        Frame::Text(ClientMessage::Chat {
            content: "hi".to_string(),
            username: "bob".to_string(),
        }),
        10,
    );
    match &effects[0] {
        Effect::Broadcast { room_id, message } => {
            assert_eq!(room_id, &lobby);
            assert!(
                matches!(message, ServerMessage::Chat { content, .. } if content == "hi")
            );
            let targets = registry.broadcast_to_room(room_id, None);
            assert_eq!(targets, vec!["c1".to_string(), "c2".to_string()]);
        }
        _ => panic!("expected a broadcast effect"),
    }
}

#[test]
fn api_responses_carry_either_a_payload_or_a_message() {
    let ok: ApiResponse<u32> = ApiResponse::success(7);
    assert!(ok.success);
    assert_eq!(ok.data, Some(7));
    assert!(ok.message.is_none());

    let err: ApiResponse<u32> = ApiResponse::error("boom".to_string());
    assert!(!err.success);
    assert!(err.data.is_none());
    assert_eq!(err.message, Some("boom".to_string()));
}
