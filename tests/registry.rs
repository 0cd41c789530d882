use chat_server::registry::{ChatState, Client, Notice};

fn client(id: u64, nickname: &str, color: &str) -> Client {
    Client { id, nickname: nickname.to_string(), color: color.to_string() }
}

fn members(state: &ChatState, room: &str) -> Vec<u64> {
    let r = state.rooms.iter().find(|r| r.name == room).expect("room exists");
    r.clients.iter().map(|c| c.id).collect()
}

fn rooms_holding(state: &ChatState, id: u64) -> usize {
    state.rooms.iter().filter(|r| r.clients.iter().any(|c| c.id == id)).count()
}

#[test]
fn joins_keep_client_in_one_room() {
    let mut s = ChatState::new();
    let mut out: Vec<Notice> = Vec::new();
    let none: Vec<u64> = Vec::new();
    for room in ["general", "a", "b", "general", "b", "c"] {
        assert!(s.join_room(room, client(1, "alice", "ff0000"), None, &none, &mut out).is_ok());
        assert_eq!(rooms_holding(&s, 1), 1);
        assert_eq!(members(&s, room), vec![1]);
    }
    assert_eq!(s.rooms.len(), 4);
}

#[test]
fn new_room_takes_password_and_refuses_others() {
    let mut s = ChatState::new();
    let mut out: Vec<Notice> = Vec::new();
    let none: Vec<u64> = Vec::new();
    assert!(s.join_room("secret", client(1, "alice", "ff0000"), Some("pw".to_string()), &none, &mut out).is_ok());
    assert_eq!(s.rooms[0].password, Some("pw".to_string()));
    assert!(out.is_empty());
    let r = s.join_room("secret", client(2, "bob", "00ff00"), Some("other".to_string()), &none, &mut out);
    assert_eq!(r, Err("Incorrect password".to_string()));
    assert_eq!(members(&s, "secret"), vec![1]);
    let r = s.join_room("secret", client(2, "bob", "00ff00"), None, &none, &mut out);
    assert!(r.is_err());
    assert_eq!(members(&s, "secret"), vec![1]);
    assert!(s.join_room("secret", client(2, "bob", "00ff00"), Some("pw".to_string()), &none, &mut out).is_ok());
    assert_eq!(members(&s, "secret"), vec![1, 2]);
}

#[test]
fn open_room_admits_only_no_password() {
    let mut s = ChatState::new();
    let mut out: Vec<Notice> = Vec::new();
    let none: Vec<u64> = Vec::new();
    assert!(s.join_room("general", client(1, "alice", "ff0000"), None, &none, &mut out).is_ok());
    assert!(s.join_room("general", client(2, "bob", "00ff00"), Some("x".to_string()), &none, &mut out).is_err());
    assert!(s.join_room("general", client(2, "bob", "00ff00"), None, &none, &mut out).is_ok());
    assert_eq!(members(&s, "general"), vec![1, 2]);
}

#[test]
fn refused_join_leaves_old_room() {
    let mut s = ChatState::new();
    let mut out: Vec<Notice> = Vec::new();
    let none: Vec<u64> = Vec::new();
    s.join_room("general", client(1, "alice", "ff0000"), None, &none, &mut out).unwrap();
    s.join_room("general", client(2, "bob", "00ff00"), None, &none, &mut out).unwrap();
    s.join_room("locked", client(3, "carol", "0000ff"), Some("pw".to_string()), &none, &mut out).unwrap();
    out.clear();
    assert!(s.join_room("locked", client(2, "bob", "00ff00"), None, &none, &mut out).is_err());
    assert_eq!(members(&s, "general"), vec![1]);
    assert_eq!(members(&s, "locked"), vec![3]);
    assert_eq!(rooms_holding(&s, 2), 0);
    assert_eq!(out.len(), 1);
    assert_eq!(out[0].message.content, "bob has left the room...");
    assert_eq!(out[0].message.room, "general");
    assert_eq!(out[0].message.client_count, 1);
    assert_eq!(out[0].recipients, vec![1]);
}

#[test]
fn join_notices_name_counts() {
    let mut s = ChatState::new();
    let mut out: Vec<Notice> = Vec::new();
    let none: Vec<u64> = Vec::new();
    s.join_room("general", client(1, "alice", "ff0000"), None, &none, &mut out).unwrap();
    s.join_room("general", client(2, "bob", "00ff00"), None, &none, &mut out).unwrap();
    assert_eq!(out.len(), 1);
    let m = &out[0].message;
    assert_eq!(m.msg_type, "info");
    assert_eq!(m.sender, "server");
    assert_eq!(m.color, "0000ff");
    assert_eq!(m.content, "bob has joined the room...");
    assert_eq!(m.room, "general");
    assert_eq!(m.client_count, 2);
    assert_eq!(out[0].recipients, vec![1]);
    out.clear();
    s.join_room("other", client(1, "alice", "ff0000"), None, &none, &mut out).unwrap();
    assert_eq!(out.len(), 1);
    assert_eq!(out[0].message.content, "alice has left the room...");
    assert_eq!(out[0].message.room, "general");
    assert_eq!(out[0].message.client_count, 1);
    assert_eq!(out[0].recipients, vec![2]);
}

#[test]
fn broadcast_reaches_every_member_with_sender_details() {
    let mut s = ChatState::new();
    let mut out: Vec<Notice> = Vec::new();
    let none: Vec<u64> = Vec::new();
    s.join_room("general", client(1, "alice", "ff0000"), None, &none, &mut out).unwrap();
    s.join_room("general", client(2, "bob", "00ff00"), None, &none, &mut out).unwrap();
    let n = s.broadcast("general", "hello", 1, &none).expect("sender is a member");
    assert_eq!(n.message.msg_type, "chat");
    assert_eq!(n.message.sender, "alice");
    assert_eq!(n.message.color, "ff0000");
    assert_eq!(n.message.content, "hello");
    assert_eq!(n.message.room, "general");
    assert_eq!(n.message.client_count, 2);
    assert_eq!(n.recipients, vec![1, 2]);
    assert_eq!(n.recipients.iter().filter(|&&r| r == 2).count(), 1);
}

#[test]
fn broadcast_from_non_member_or_missing_room_does_nothing() {
    let mut s = ChatState::new();
    let mut out: Vec<Notice> = Vec::new();
    let none: Vec<u64> = Vec::new();
    s.join_room("general", client(1, "alice", "ff0000"), None, &none, &mut out).unwrap();
    assert!(s.broadcast("general", "hi", 9, &none).is_none());
    assert!(s.broadcast("nowhere", "hi", 1, &none).is_none());
    assert_eq!(members(&s, "general"), vec![1]);
}

#[test]
fn closed_member_pruned_on_next_broadcast() {
    let mut s = ChatState::new();
    let mut out: Vec<Notice> = Vec::new();
    let none: Vec<u64> = Vec::new();
    for (id, name) in [(1, "alice"), (2, "bob"), (3, "carol")] {
        s.join_room("general", client(id, name, "ffffff"), None, &none, &mut out).unwrap();
    }
    let closed = vec![2];
    let n = s.broadcast("general", "hello", 1, &closed).unwrap();
    assert_eq!(n.recipients, vec![1, 3]);
    assert_eq!(n.message.client_count, 3);
    assert_eq!(members(&s, "general"), vec![1, 3]);
}

#[test]
fn color_change_touches_only_that_client() {
    let mut s = ChatState::new();
    let mut out: Vec<Notice> = Vec::new();
    let none: Vec<u64> = Vec::new();
    s.join_room("general", client(1, "alice", "ff0000"), None, &none, &mut out).unwrap();
    s.join_room("general", client(2, "bob", "00ff00"), None, &none, &mut out).unwrap();
    s.join_room("other", client(3, "carol", "0000ff"), None, &none, &mut out).unwrap();
    assert!(s.set_color(1, "newcolor"));
    assert_eq!(s.rooms[0].clients[0].color, "newcolor");
    assert_eq!(s.rooms[0].clients[1].color, "00ff00");
    assert_eq!(s.rooms[1].clients[0].color, "0000ff");
    assert!(!s.set_color(7, "abc"));
}

#[test]
fn same_nickname_two_members() {
    let mut s = ChatState::new();
    let mut out: Vec<Notice> = Vec::new();
    let none: Vec<u64> = Vec::new();
    s.join_room("general", client(1, "sam", "ff0000"), None, &none, &mut out).unwrap();
    s.join_room("general", client(2, "sam", "00ff00"), None, &none, &mut out).unwrap();
    assert_eq!(members(&s, "general"), vec![1, 2]);
    let n = s.broadcast("general", "hi", 2, &none).unwrap();
    assert_eq!(n.message.color, "00ff00");
    assert_eq!(n.recipients, vec![1, 2]);
}

#[test]
fn empty_room_persists_with_password() {
    let mut s = ChatState::new();
    let mut out: Vec<Notice> = Vec::new();
    let none: Vec<u64> = Vec::new();
    s.join_room("locked", client(1, "alice", "ff0000"), Some("pw".to_string()), &none, &mut out).unwrap();
    s.join_room("general", client(1, "alice", "ff0000"), None, &none, &mut out).unwrap();
    assert_eq!(members(&s, "locked"), Vec::<u64>::new());
    assert!(s.join_room("locked", client(2, "bob", "00ff00"), None, &none, &mut out).is_err());
}

#[test]
fn move_tells_only_the_two_rooms_involved() {
    let mut s = ChatState::new();
    let mut out: Vec<Notice> = Vec::new();
    let none: Vec<u64> = Vec::new();
    s.join_room("a", client(1, "alice", "ff0000"), None, &none, &mut out).unwrap();
    s.join_room("a", client(2, "bob", "00ff00"), None, &none, &mut out).unwrap();
    s.join_room("b", client(3, "carol", "0000ff"), None, &none, &mut out).unwrap();
    s.join_room("c", client(4, "dave", "ffffff"), None, &none, &mut out).unwrap();
    out.clear();
    s.join_room("b", client(1, "alice", "ff0000"), None, &none, &mut out).unwrap();
    assert_eq!(out.len(), 2);
    assert_eq!(out[0].message.room, "a");
    assert_eq!(out[0].message.client_count, 1);
    assert_eq!(out[0].recipients, vec![2]);
    assert_eq!(out[1].message.content, "alice has joined the room...");
    assert_eq!(out[1].message.room, "b");
    assert_eq!(out[1].message.client_count, 2);
    assert_eq!(out[1].recipients, vec![3]);
    assert!(out.iter().all(|n| !n.recipients.contains(&4)));
    assert_eq!(members(&s, "b"), vec![3, 1]);
}
