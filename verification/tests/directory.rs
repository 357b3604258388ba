use chat_relay::chatroom::ChatRoom;
use chat_relay::chatroom::ChatRoomManager;
use chat_relay::chatroom::RoomError;

#[test]
fn create_room_rejects_blank_names() {
    let mut mgr = ChatRoomManager::new();
    assert_eq!(
        mgr.create_room(String::new(), None),
        Err(RoomError::InvalidInput)
    );
    assert_eq!(
        mgr.create_room("   ".to_string(), None),
        Err(RoomError::InvalidInput)
    );
    assert_eq!(
        mgr.create_room("\t\n ".to_string(), Some("pw".to_string())),
        Err(RoomError::InvalidInput)
    );
    assert_eq!(mgr.list_rooms().len(), 0);
}

#[test]
fn create_room_yields_a_fresh_id_and_stores_the_room() {
    let mut mgr = ChatRoomManager::new();
    let id = mgr
        .create_room("general".to_string(), None)
        .expect("creation should succeed");
    assert_eq!(id.len(), 36);
    let room = mgr.get_room(&id).expect("room should be found");
    assert_eq!(room.name, "general");
    assert_eq!(room.password, None);
    assert!(mgr.get_room("no-such-id").is_none());
}

#[test]
fn list_rooms_reports_metadata_but_never_the_password() {
    let mut mgr = ChatRoomManager::new();
    let open_id = mgr.create_room("open".to_string(), None).unwrap();
    let locked_id = mgr
        .create_room("locked".to_string(), Some("secret".to_string()))
        .unwrap();
    let infos = mgr.list_rooms();
    assert_eq!(infos.len(), 2);
    let open = infos.iter().find(|i| i.id == open_id).unwrap();
    let locked = infos.iter().find(|i| i.id == locked_id).unwrap();
    assert_eq!(open.name, "open");
    assert!(!open.has_password);
    assert_eq!(open.user_count, 0);
    assert_eq!(locked.name, "locked");
    assert!(locked.has_password);
    assert_eq!(locked.user_count, 0);
}

#[test]
fn update_password_on_missing_room_is_not_found_and_changes_nothing() {
    let mut mgr = ChatRoomManager::new();
    let id = mgr
        .create_room("keep".to_string(), Some("old".to_string()))
        .unwrap();
    assert_eq!(
        mgr.update_room_password("missing", "new".to_string()),
        Err(RoomError::NotFound)
    );
    let room = mgr.get_room(&id).unwrap();
    assert_eq!(room.password, Some("old".to_string()));
    assert_eq!(mgr.list_rooms().len(), 1);
}

#[test]
fn update_password_rejects_blank_and_accepts_real_replacements() {
    let mut mgr = ChatRoomManager::new();
    let id = mgr.create_room("room".to_string(), None).unwrap();
    assert_eq!(
        mgr.update_room_password(&id, "  ".to_string()),
        Err(RoomError::InvalidInput)
    );
    assert_eq!(mgr.get_room(&id).unwrap().password, None);
    assert_eq!(mgr.update_room_password(&id, "pw1".to_string()), Ok(()));
    assert_eq!(mgr.get_room(&id).unwrap().password, Some("pw1".to_string()));
}

#[test]
fn verify_password_is_exact_and_open_rooms_accept_anything() {
    let open = ChatRoom::new("open".to_string(), None);
    assert!(!open.has_password());
    assert!(open.verify_password("whatever"));
    assert!(open.verify_password(""));

    let locked = ChatRoom::new("locked".to_string(), Some("Secret".to_string()));
    assert!(locked.has_password());
    assert!(locked.verify_password("Secret"));
    assert!(!locked.verify_password("secret"));
    assert!(!locked.verify_password(""));
}

#[test]
fn join_with_wrong_or_missing_password_fails_and_keeps_membership() {
    let mut mgr = ChatRoomManager::new();
    let id = mgr
        .create_room("lobby".to_string(), Some("x".to_string()))
        .unwrap();
    assert_eq!(
        mgr.join_room(&id, "c1".to_string(), None),
        Err(RoomError::PasswordRequired)
    );
    assert_eq!(
        mgr.join_room(&id, "c1".to_string(), Some("y".to_string())),
        Err(RoomError::WrongPassword)
    );
    assert_eq!(mgr.get_room(&id).unwrap().sessions.len(), 0);
    assert_eq!(
        mgr.join_room("missing", "c1".to_string(), Some("x".to_string())),
        Err(RoomError::NotFound)
    );
}

#[test]
fn join_without_a_room_password_succeeds_with_any_password() {
    let mut mgr = ChatRoomManager::new();
    let id = mgr.create_room("open".to_string(), None).unwrap();
    assert_eq!(mgr.join_room(&id, "c1".to_string(), None), Ok(()));
    assert_eq!(
        mgr.join_room(&id, "c2".to_string(), Some("ignored".to_string())),
        Ok(())
    );
    assert_eq!(mgr.get_room(&id).unwrap().sessions.len(), 2);
}

#[test]
fn joining_twice_keeps_membership_a_set() {
    let mut mgr = ChatRoomManager::new();
    let id = mgr.create_room("open".to_string(), None).unwrap();
    assert_eq!(mgr.join_room(&id, "c1".to_string(), None), Ok(()));
    assert_eq!(mgr.join_room(&id, "c1".to_string(), None), Ok(()));
    assert_eq!(mgr.get_room(&id).unwrap().sessions.len(), 1);
}

#[test]
fn get_room_mut_edits_the_stored_room() {
    let mut mgr = ChatRoomManager::new();
    let id = mgr.create_room("room".to_string(), None).unwrap();
    assert!(mgr.get_room_mut("missing").is_none());
    {
        let room = mgr.get_room_mut(&id).unwrap();
        assert_eq!(room.update_password("pw".to_string()), Ok(()));
    }
    assert_eq!(mgr.get_room(&id).unwrap().password, Some("pw".to_string()));
}

#[test]
fn room_leave_is_idempotent() {
    let mut room = ChatRoom::new("r".to_string(), None);
    room.add_session("c1".to_string());
    room.add_session("c2".to_string());
    room.remove_session("c1");
    assert_eq!(room.sessions, vec!["c2".to_string()]);
    room.remove_session("c1");
    assert_eq!(room.sessions, vec!["c2".to_string()]);
}

#[test]
fn check_join_mirrors_the_join_rules_without_mutating() {
    let mut mgr = ChatRoomManager::new();
    let id = mgr
        .create_room("lobby".to_string(), Some("x".to_string()))
        .unwrap();
    assert_eq!(
        mgr.check_join("missing", &None),
        Err(RoomError::NotFound)
    );
    assert_eq!(mgr.check_join(&id, &None), Err(RoomError::PasswordRequired));
    assert_eq!(
        mgr.check_join(&id, &Some("y".to_string())),
        Err(RoomError::WrongPassword)
    );
    let (rid, rname) = mgr.check_join(&id, &Some("x".to_string())).unwrap();
    assert_eq!(rid, id);
    assert_eq!(rname, "lobby");
    assert_eq!(mgr.get_room(&id).unwrap().sessions.len(), 0);
}
