use chatroom::ids::room_id_from_seed;
use chatroom::model::{Member, Message, Room, ServerState};
use chatroom::relay::{drain_inbox, format_message};
use chatroom::session::{handle_line, leave_room, new_session, Command, Outcome, RelayChange, Session};
use chatroom::session::parse;
use chatroom::text::{split_first, str_eq, trim, truncate_chars, u64_to_dec};

fn connect(state: &mut ServerState, nick_line: &str) -> Session {
    let id = state.fresh_client_id();
    let (sess, ok) = new_session(id, nick_line);
    assert_eq!(ok, "OK\n");
    sess
}

fn room_of(sess: &Session) -> String {
    sess.room.as_ref().expect("session should be in a room").clone()
}

#[test]
fn handshake_replies_ok() {
    let (sess, ok) = new_session(1, "alice\n");
    assert_eq!(ok, "OK\n");
    assert_eq!(sess.nickname, "alice");
    assert!(sess.room.is_none());
}

#[test]
fn blank_nickname_defaults_to_user_id() {
    let (sess, _ok) = new_session(7, "  \n");
    assert_eq!(sess.nickname, "user-7");
    let (sess2, _ok2) = new_session(1234567890, "\n");
    assert_eq!(sess2.nickname, "user-1234567890");
}

#[test]
fn nickname_of_forty_chars_is_stored_truncated_to_32() {
    let long = "a".repeat(40);
    let (sess, _ok) = new_session(1, &long);
    assert_eq!(sess.nickname.chars().count(), 32);
    assert_eq!(sess.nickname, "a".repeat(32));
}

#[test]
fn message_of_1500_chars_is_truncated_to_1000_before_broadcast() {
    let mut state = ServerState::new();
    let mut a = connect(&mut state, "alice\n");
    let mut b = connect(&mut state, "bob\n");
    handle_line(&mut state, &mut a, "/create\n");
    let rid = room_of(&a);
    handle_line(&mut state, &mut b, &format!("/join {}\n", rid));
    // clear the join notices
    drain_inbox(&mut state, &rid, a.client_id);
    drain_inbox(&mut state, &rid, b.client_id);
    let long = "x".repeat(1500);
    handle_line(&mut state, &mut a, &format!("{}\n", long));
    let lines = drain_inbox(&mut state, &rid, b.client_id);
    assert_eq!(lines.len(), 1);
    assert_eq!(lines[0], format!("alice: {}\n", "x".repeat(1000)));
}

#[test]
fn create_then_join_notifies_first_client() {
    let mut state = ServerState::new();
    let mut a = connect(&mut state, "nick1\n");
    let mut b = connect(&mut state, "nick2\n");
    let out = handle_line(&mut state, &mut a, "/create\n");
    assert_eq!(out.replies.len(), 1);
    assert!(out.replies[0].starts_with("Room created: room-"));
    assert!(out.replies[0].ends_with("\nShare this ID with others to join.\n"));
    let rid = room_of(&a);
    assert!(matches!(&out.relay, RelayChange::Subscribe(r) if *r == rid));
    let out2 = handle_line(&mut state, &mut b, &format!("/join {}\n", rid));
    assert_eq!(out2.replies.len(), 1);
    assert_eq!(out2.replies[0], format!("Joined room: {}\n", rid));
    assert_eq!(out2.notify.as_deref(), Some(rid.as_str()));
    let lines = drain_inbox(&mut state, &rid, a.client_id);
    assert_eq!(lines, vec!["[nick2 joined]\n".to_string()]);
}

#[test]
fn join_missing_room_leaves_client_outside() {
    let mut state = ServerState::new();
    let mut a = connect(&mut state, "alice\n");
    let out = handle_line(&mut state, &mut a, "/join does-not-exist\n");
    assert_eq!(out.replies, vec!["Room not found: does-not-exist\n".to_string()]);
    assert!(a.room.is_none());
    assert!(matches!(out.relay, RelayChange::Keep));
    assert_eq!(state.rooms.len(), 0);
}

#[test]
fn quit_by_sole_member_removes_the_room() {
    let mut state = ServerState::new();
    let mut a = connect(&mut state, "alice\n");
    handle_line(&mut state, &mut a, "/create\n");
    let rid = room_of(&a);
    let out = handle_line(&mut state, &mut a, "/quit\n");
    assert_eq!(out.replies, vec!["Left the room.\n".to_string()]);
    assert!(matches!(out.relay, RelayChange::Cancel));
    assert!(a.room.is_none());
    let mut b = connect(&mut state, "bob\n");
    let out2 = handle_line(&mut state, &mut b, &format!("/join {}\n", rid));
    assert_eq!(out2.replies, vec![format!("Room not found: {}\n", rid)]);
    assert!(b.room.is_none());
}

#[test]
fn unknown_command_is_reported() {
    let mut state = ServerState::new();
    let mut a = connect(&mut state, "alice\n");
    let out = handle_line(&mut state, &mut a, "/foo\n");
    assert_eq!(out.replies, vec!["Unknown command: /foo\n".to_string()]);
    let out2 = handle_line(&mut state, &mut a, "/foo bar\n");
    assert_eq!(out2.replies, vec!["Unknown command: /foo\n".to_string()]);
}

#[test]
fn chat_reaches_other_members_and_never_the_sender() {
    let mut state = ServerState::new();
    let mut a = connect(&mut state, "alice\n");
    let mut b = connect(&mut state, "bob\n");
    let mut c = connect(&mut state, "carol\n");
    handle_line(&mut state, &mut a, "/create\n");
    let rid = room_of(&a);
    handle_line(&mut state, &mut b, &format!("/join {}\n", rid));
    handle_line(&mut state, &mut c, &format!("/join {}\n", rid));
    drain_inbox(&mut state, &rid, a.client_id);
    drain_inbox(&mut state, &rid, b.client_id);
    drain_inbox(&mut state, &rid, c.client_id);
    let out = handle_line(&mut state, &mut a, "hello there\n");
    assert_eq!(out.notify.as_deref(), Some(rid.as_str()));
    assert!(out.replies.is_empty());
    assert_eq!(
        drain_inbox(&mut state, &rid, b.client_id),
        vec!["alice: hello there\n".to_string()]
    );
    assert_eq!(
        drain_inbox(&mut state, &rid, c.client_id),
        vec!["alice: hello there\n".to_string()]
    );
    assert_eq!(drain_inbox(&mut state, &rid, a.client_id), Vec::<String>::new());
}

#[test]
fn full_inbox_drops_its_oldest_message() {
    let mut state = ServerState::new();
    let mut a = connect(&mut state, "alice\n");
    let mut b = connect(&mut state, "bob\n");
    handle_line(&mut state, &mut a, "/create\n");
    let rid = room_of(&a);
    handle_line(&mut state, &mut b, &format!("/join {}\n", rid));
    // bob's inbox: his own join notice, then 1001 chat messages; the cap
    // of 1000 drops the two oldest entries
    for n in 0..1001u32 {
        handle_line(&mut state, &mut a, &format!("m{}\n", n));
    }
    let lines = drain_inbox(&mut state, &rid, b.client_id);
    assert_eq!(lines.len(), 1000);
    assert_eq!(lines[0], "alice: m1\n");
    assert_eq!(lines[999], "alice: m1000\n");
}

#[test]
fn chat_while_idle_is_rejected() {
    let mut state = ServerState::new();
    let mut a = connect(&mut state, "alice\n");
    let out = handle_line(&mut state, &mut a, "hello\n");
    assert_eq!(
        out.replies,
        vec!["You must join a room first. Use /create or /join <id>\n".to_string()]
    );
}

#[test]
fn quit_while_idle_is_reported() {
    let mut state = ServerState::new();
    let mut a = connect(&mut state, "alice\n");
    let out = handle_line(&mut state, &mut a, "/quit\n");
    assert_eq!(out.replies, vec!["You are not in any room.\n".to_string()]);
}

#[test]
fn join_without_argument_prints_usage() {
    let mut state = ServerState::new();
    let mut a = connect(&mut state, "alice\n");
    let out = handle_line(&mut state, &mut a, "/join\n");
    assert_eq!(out.replies, vec!["Usage: /join <room-id>\n".to_string()]);
    let out2 = handle_line(&mut state, &mut a, "/join   \n");
    assert_eq!(out2.replies, vec!["Usage: /join <room-id>\n".to_string()]);
}

#[test]
fn help_prints_the_command_list() {
    let mut state = ServerState::new();
    let mut a = connect(&mut state, "alice\n");
    let out = handle_line(&mut state, &mut a, "/help\n");
    assert_eq!(
        out.replies,
        vec![
            "Commands:\n  /create       - Create a new room\n  /join <id>    - Join existing room\n  /quit         - Leave room\n  /help         - Show commands\n"
                .to_string(),
        ]
    );
}

#[test]
fn blank_line_does_nothing() {
    let mut state = ServerState::new();
    let mut a = connect(&mut state, "alice\n");
    let out = handle_line(&mut state, &mut a, "   \n");
    assert!(out.replies.is_empty());
    assert!(matches!(out.relay, RelayChange::Keep));
    assert!(out.notify.is_none());
}

#[test]
fn switching_rooms_leaves_the_old_one() {
    let mut state = ServerState::new();
    let mut a = connect(&mut state, "alice\n");
    let mut b = connect(&mut state, "bob\n");
    handle_line(&mut state, &mut a, "/create\n");
    let r1 = room_of(&a);
    handle_line(&mut state, &mut b, &format!("/join {}\n", r1));
    let out = handle_line(&mut state, &mut a, "/create\n");
    let r2 = room_of(&a);
    assert_ne!(r1, r2);
    assert!(matches!(&out.relay, RelayChange::Subscribe(r) if *r == r2));
    assert_eq!(state.rooms.len(), 2);
    // alice is only a member of the new room
    for room in &state.rooms {
        let here = room.members.iter().any(|m| m.client_id == a.client_id);
        assert_eq!(here, room.id == r2);
    }
}

#[test]
fn disconnect_cleanup_removes_membership() {
    let mut state = ServerState::new();
    let mut a = connect(&mut state, "alice\n");
    let mut b = connect(&mut state, "bob\n");
    handle_line(&mut state, &mut a, "/create\n");
    let rid = room_of(&a);
    handle_line(&mut state, &mut b, &format!("/join {}\n", rid));
    leave_room(&mut state, &mut b);
    assert!(b.room.is_none());
    assert_eq!(state.rooms.len(), 1);
    assert_eq!(state.rooms[0].members.len(), 1);
    leave_room(&mut state, &mut a);
    assert_eq!(state.rooms.len(), 0);
}

#[test]
fn fresh_client_ids_increase() {
    let mut state = ServerState::new();
    assert_eq!(state.fresh_client_id(), 1);
    assert_eq!(state.fresh_client_id(), 2);
    assert_eq!(state.fresh_client_id(), 3);
}

#[test]
fn created_room_ids_have_the_expected_shape() {
    let mut state = ServerState::new();
    let id = state.create_room();
    assert!(id.starts_with("room-"));
    assert!(id.chars().count() >= 10);
    assert!(state.get_room(&id).is_some());
    let id2 = state.create_room();
    assert_ne!(id, id2);
    assert_eq!(state.rooms.len(), 2);
}

#[test]
fn room_id_from_seed_is_deterministic() {
    assert_eq!(room_id_from_seed(0), "room-aaaaa");
    assert_eq!(room_id_from_seed(1), "room-baaaa");
    assert_eq!(room_id_from_seed(36), "room-abaaa");
    assert_eq!(room_id_from_seed(35), "room-9aaaa");
    assert_eq!(room_id_from_seed(36 * 36 * 36 * 36 * 36), "room-aaaaa");
}

#[test]
fn remove_room_if_empty_is_idempotent_and_guarded() {
    let mut state = ServerState::new();
    let id = state.create_room();
    state.remove_room_if_empty(&id);
    assert!(state.get_room(&id).is_none());
    state.remove_room_if_empty(&id);
    assert!(state.get_room(&id).is_none());
    let id2 = state.create_room();
    state.add_member(0, 42, "alice");
    state.remove_room_if_empty(&id2);
    assert!(state.get_room(&id2).is_some());
}

#[test]
fn format_message_excludes_self_and_formats_notices() {
    let m = Message { sender: 1, nickname: "alice".to_string(), text: "hi".to_string() };
    assert!(format_message(1, &m).is_none());
    assert_eq!(format_message(2, &m), Some("alice: hi\n".to_string()));
    let n = Message { sender: 1, nickname: "alice".to_string(), text: "[alice joined]".to_string() };
    assert_eq!(format_message(2, &n), Some("[alice joined]\n".to_string()));
}

#[test]
fn drain_on_missing_room_or_member_yields_nothing() {
    let mut state = ServerState::new();
    assert!(drain_inbox(&mut state, "room-aaaaa", 1).is_empty());
    let id = state.create_room();
    state.add_member(0, 5, "eve");
    assert!(drain_inbox(&mut state, &id, 9).is_empty());
}

#[test]
fn parse_classifies_lines() {
    assert!(matches!(parse("  \n"), Command::Empty));
    assert!(matches!(parse("/create\n"), Command::Create));
    assert!(matches!(parse("/create extra\n"), Command::Create));
    assert!(matches!(parse("/join\n"), Command::JoinUsage));
    match parse("/join  room-abcde  extra\n") {
        Command::Join(a) => assert_eq!(a, "room-abcde"),
        _ => panic!("expected a join command"),
    }
    assert!(matches!(parse("/quit\n"), Command::Quit));
    assert!(matches!(parse("/help\n"), Command::Help));
    match parse("/frobnicate\n") {
        Command::Unknown(t) => assert_eq!(t, "/frobnicate"),
        _ => panic!("expected an unknown command"),
    }
    match parse("  hello world \n") {
        Command::Chat(t) => assert_eq!(t, "hello world"),
        _ => panic!("expected chat text"),
    }
}

#[test]
fn text_utilities_behave() {
    assert_eq!(trim("  hi there \r\n"), "hi there");
    assert_eq!(trim(" \t \n"), "");
    assert!(str_eq("abc", "abc"));
    assert!(!str_eq("abc", "abd"));
    assert!(!str_eq("abc", "ab"));
    assert_eq!(truncate_chars("hello", 3), "hel");
    assert_eq!(truncate_chars("hello", 10), "hello");
    assert_eq!(truncate_chars("héllo", 2), "hé");
    assert_eq!(u64_to_dec(0), "0");
    assert_eq!(u64_to_dec(1234567890), "1234567890");
    assert_eq!(u64_to_dec(u64::MAX), format!("{}", u64::MAX));
    let (tok, rest) = split_first("/join   a b ");
    assert_eq!(tok, "/join");
    assert_eq!(rest, "a b ");
}

#[test]
fn state_view_matches_manual_construction() {
    let room = Room {
        id: "room-aaaaa".to_string(),
        members: vec![Member { client_id: 3, nickname: "zoe".to_string(), inbox: Vec::new() }],
    };
    let mut state = ServerState { rooms: vec![room], client_counter: 3 };
    let mut sess = Session { client_id: 3, nickname: "zoe".to_string(), room: Some("room-aaaaa".to_string()) };
    let out: Outcome = handle_line(&mut state, &mut sess, "/quit\n");
    assert_eq!(out.replies, vec!["Left the room.\n".to_string()]);
    assert!(state.rooms.is_empty());
}

#[test]
fn rejoining_own_room_as_sole_member_finds_it_gone() {
    // leaving is performed before re-entry, so the room of a sole member
    // is removed the moment it is left and the id no longer resolves
    let mut state = ServerState::new();
    let mut a = connect(&mut state, "alice\n");
    handle_line(&mut state, &mut a, "/create\n");
    let rid = room_of(&a);
    let out = handle_line(&mut state, &mut a, &format!("/join {}\n", rid));
    assert_eq!(out.replies, vec![format!("Room not found: {}\n", rid)]);
    assert!(a.room.is_none());
    assert!(matches!(out.relay, RelayChange::Cancel));
    assert_eq!(state.rooms.len(), 0);
}

#[test]
fn rejoining_a_shared_room_works_and_notifies_the_other_member() {
    let mut state = ServerState::new();
    let mut a = connect(&mut state, "alice\n");
    let mut b = connect(&mut state, "bob\n");
    handle_line(&mut state, &mut a, "/create\n");
    let rid = room_of(&a);
    handle_line(&mut state, &mut b, &format!("/join {}\n", rid));
    drain_inbox(&mut state, &rid, b.client_id);
    let out = handle_line(&mut state, &mut a, &format!("/join {}\n", rid));
    assert_eq!(out.replies, vec![format!("Joined room: {}\n", rid)]);
    assert_eq!(room_of(&a), rid);
    assert_eq!(state.rooms.len(), 1);
    assert_eq!(state.rooms[0].members.len(), 2);
    assert_eq!(
        drain_inbox(&mut state, &rid, b.client_id),
        vec!["[alice joined]\n".to_string()]
    );
}
