use chat_server::command::{parse_command, Command};
use chat_server::registry::{ChatState, Notice};
use chat_server::session::{Handshake, Session};

#[test]
fn parses_join_with_and_without_password() {
    match parse_command("/join room1 secret") {
        Command::Join { room, password } => {
            assert_eq!(room, "room1");
            assert_eq!(password, Some("secret".to_string()));
        }
        _ => panic!("expected a join"),
    }
    match parse_command("/join   lobby") {
        Command::Join { room, password } => {
            assert_eq!(room, "lobby");
            assert_eq!(password, None);
        }
        _ => panic!("expected a join"),
    }
    assert!(matches!(parse_command("/join "), Command::Ignore));
    assert!(matches!(parse_command("/join\u{3000}x"), Command::Chat));
}

#[test]
fn parses_color_and_chat() {
    match parse_command("/color abcdef extra") {
        Command::Color(c) => assert_eq!(c, Some("abcdef".to_string())),
        _ => panic!("expected a color"),
    }
    assert!(matches!(parse_command("/color "), Command::Color(None)));
    assert!(matches!(parse_command("/color"), Command::Chat));
    assert!(matches!(parse_command("hello there"), Command::Chat));
    assert!(matches!(parse_command(""), Command::Ignore));
}

#[test]
fn session_flow() {
    let mut s = ChatState::new();
    let mut out: Vec<Notice> = Vec::new();
    let none: Vec<u64> = Vec::new();
    let mut a = Session::start(1, "alice".to_string(), "ff0000".to_string(), "general", &mut s, &none, &mut out);
    let mut b = Session::start(2, "bob".to_string(), "00ff00".to_string(), "general", &mut s, &none, &mut out);
    out.clear();

    a.handle(&mut s, "hello", &none, &mut out);
    assert_eq!(out.len(), 1);
    assert_eq!(out[0].message.sender, "alice");
    assert_eq!(out[0].recipients, vec![1, 2]);
    out.clear();

    b.handle(&mut s, "/color newcolor", &none, &mut out);
    assert_eq!(b.color, "newcolor");
    assert_eq!(out[0].message.content, "Your color has been set to #newcolor");
    assert_eq!(out[0].message.color, "newcolor");
    assert_eq!(out[0].recipients, vec![2]);
    out.clear();

    b.handle(&mut s, "/color ", &none, &mut out);
    assert_eq!(out[0].message.msg_type, "error");
    assert_eq!(out[0].message.content, "Please provide a hex color (e.g., #RRGGBB)");
    out.clear();

    a.handle(&mut s, "/join private pw", &none, &mut out);
    assert_eq!(a.room, Some("private".to_string()));
    let last = out.last().unwrap();
    assert_eq!(last.message.content, "Joined room private");
    assert_eq!(last.message.room, "private");
    out.clear();

    b.handle(&mut s, "/join private wrong", &none, &mut out);
    assert_eq!(b.room, None);
    assert_eq!(out.len(), 2);
    assert_eq!(out[0].message.content, "bob has left the room...");
    assert_eq!(out[0].message.room, "general");
    assert!(out[0].recipients.is_empty());
    let last = out.last().unwrap();
    assert_eq!(last.recipients, vec![2]);
    assert_eq!(last.message.room, "");
    assert_eq!(last.message.msg_type, "error");
    assert_eq!(last.message.content, "Failed to join room: Incorrect password");
    out.clear();

    b.handle(&mut s, "hello?", &none, &mut out);
    assert!(out.is_empty());

    b.handle(&mut s, "/color 123456", &none, &mut out);
    assert_eq!(out[0].message.content, "Failed to change color. Are you in a room?");
    assert_eq!(b.color, "newcolor");
}

#[test]
fn handshake_takes_nickname_then_color() {
    let h = Handshake::AwaitingNickname;
    assert_eq!(h.prompt().unwrap().content, "Enter your nickname:");
    let h = h.step(Some("alice".to_string()));
    assert_eq!(h.prompt().unwrap().content, "Enter your hex color (e.g., #RRGGBB):");
    match h.step(Some("ff0000".to_string())) {
        Handshake::Ready(n, c) => {
            assert_eq!(n, "alice");
            assert_eq!(c, "ff0000");
        }
        _ => panic!("expected ready"),
    }
    assert!(matches!(Handshake::AwaitingNickname.step(None), Handshake::Closed));
    assert!(matches!(Handshake::AwaitingColor("a".to_string()).step(None), Handshake::Closed));
    assert!(Handshake::Closed.prompt().is_none());
}
