use vstd::prelude::*;
use crate::command::{first_arg, opt_text, parse_command, second_arg, starts, Command};
use crate::registry::{admits, has_member, join_notices, joins, recolors, sends, ChatMessage, ChatState, Client, Notice};

verus! {

/// The protocol state of one connection whose handshake is done.
pub struct Session {
    pub id: u64,
    pub nickname: String,
    pub color: String,
    /// The room this client is in. A refused join has already taken the
    /// client out of its old room, so the session is then in none.
    pub room: Option<String>,
}

/// The identity handshake of a connection.
pub enum Handshake {
    AwaitingNickname,
    AwaitingColor(String),
    /// Nickname and color are known: the session can start.
    Ready(String, String),
    /// The peer sent something other than text, or went away.
    Closed,
}

impl Handshake {
    /// Takes the next inbound frame: `Some` with its text for a text frame,
    /// `None` for any other frame or the end of the stream.
    pub fn step(self, frame: Option<String>) -> (r: Handshake)
        ensures
            match self {
                Handshake::AwaitingNickname => match frame {
                    Some(t) => r == Handshake::AwaitingColor(t),
                    None => r is Closed,
                },
                Handshake::AwaitingColor(n) => match frame {
                    Some(c) => r == Handshake::Ready(n, c),
                    None => r is Closed,
                },
                _ => r == self,
            },
    {
        match self {
            Handshake::AwaitingNickname => match frame {
                Some(t) => Handshake::AwaitingColor(t),
                None => Handshake::Closed,
            },
            Handshake::AwaitingColor(n) => match frame {
                Some(c) => Handshake::Ready(n, c),
                None => Handshake::Closed,
            },
            other => other,
        }
    }

    /// The prompt sent on entering this stage, if it has one.
    pub fn prompt(&self) -> (m: Option<ChatMessage>)
        ensures
            m.is_some() == (self is AwaitingNickname || self is AwaitingColor),
            m.is_some() ==> {
                let m = m.unwrap();
                &&& m.msg_type@ == "info"@
                &&& m.sender@ == "server"@
                &&& m.color@ == "0000ff"@
                &&& m.content@ == if self is AwaitingNickname {
                    "Enter your nickname:"@
                } else {
                    "Enter your hex color (e.g., #RRGGBB):"@
                }
                &&& m.room@.len() == 0
                &&& m.client_count == 0
            },
    {
        let content = match self {
            Handshake::AwaitingNickname => "Enter your nickname:",
            Handshake::AwaitingColor(_) => "Enter your hex color (e.g., #RRGGBB):",
            _ => {
                return None;
            },
        };
        Some(
            ChatMessage {
                msg_type: String::from_str("info"),
                sender: String::from_str("server"),
                color: String::from_str("0000ff"),
                content: String::from_str(content),
                room: String::new(),
                client_count: 0,
            },
        )
    }
}

/// The name of a session's room as its replies give it: empty where it is
/// in none.
pub open spec fn room_label(room: Option<String>) -> Seq<char> {
    match room {
        Some(r) => r@,
        None => Seq::empty(),
    }
}

fn label(room: &Option<String>) -> (r: String)
    ensures
        r@ == room_label(*room),
{
    match room {
        Some(r) => r.clone(),
        None => String::new(),
    }
}

/// A notice from the server to one client.
fn reply(to: u64, msg_type: &str, color: &str, content: String, room: &Option<String>) -> (n: Notice)
    ensures
        n.recipients@ == seq![to],
        n.message.msg_type@ == msg_type@,
        n.message.sender@ == "server"@,
        n.message.color@ == color@,
        n.message.content == content,
        n.message.room@ == room_label(*room),
        n.message.client_count == 0,
{
    let mut recipients: Vec<u64> = Vec::new();
    recipients.push(to);
    Notice {
        message: ChatMessage {
            msg_type: String::from_str(msg_type),
            sender: String::from_str("server"),
            color: String::from_str(color),
            content,
            room: label(room),
            client_count: 0,
        },
        recipients,
    }
}

/// `head` followed by `tail`.
fn join_text(head: &str, tail: &str) -> (r: String)
    ensures
        r@ == head@ + tail@,
{
    let mut r = String::from_str(head);
    r.append(tail);
    r
}

/// `n` is a notice of kind `msg_type` with `content`, from the server to
/// client `to` alone, about `room`.
pub open spec fn told(n: Notice, to: u64, msg_type: Seq<char>, content: Seq<char>, room: Seq<char>) -> bool {
    &&& n.recipients@ == seq![to]
    &&& n.message.msg_type@ == msg_type
    &&& n.message.sender@ == "server"@
    &&& n.message.content@ == content
    &&& n.message.room@ == room
    &&& n.message.client_count == 0
}

impl Session {
    pub open spec fn client(&self) -> Client {
        Client { id: self.id, nickname: self.nickname, color: self.color }
    }

    fn handle_of(&self) -> (c: Client)
        ensures
            c == self.client(),
    {
        Client { id: self.id, nickname: self.nickname.clone(), color: self.color.clone() }
    }

    /// Ends the handshake of client `id`: it joins `default_room` without a
    /// password.
    pub fn start(
        id: u64,
        nickname: String,
        color: String,
        default_room: &str,
        state: &mut ChatState,
        closed: &Vec<u64>,
        out: &mut Vec<Notice>,
    ) -> (s: Session)
        requires
            old(state).wf(),
        ensures
            final(state).wf(),
            s.id == id,
            s.nickname == nickname,
            s.color == color,
            opt_text(s.room) == if admits(old(state).rooms@, default_room@, None) {
                Some(default_room@)
            } else {
                None
            },
            joins(
                old(state).rooms@,
                final(state).rooms@,
                default_room@,
                s.client(),
                None,
                closed@,
                admits(old(state).rooms@, default_room@, None),
            ),
            join_notices(
                old(out)@,
                final(out)@,
                old(state).rooms@,
                default_room@,
                s.client(),
                closed@,
                admits(old(state).rooms@, default_room@, None),
            ),
    {
        let mut s = Session { id, nickname, color, room: None };
        if state.join_room(default_room, s.handle_of(), None, closed, out).is_ok() {
            s.room = Some(String::from_str(default_room));
        }
        s
    }

    /// Carries out one inbound text frame of this client.
    pub fn handle(&mut self, state: &mut ChatState, text: &str, closed: &Vec<u64>, out: &mut Vec<Notice>)
        requires
            old(state).wf(),
        ensures
            final(state).wf(),
            final(self).id == old(self).id,
            final(self).nickname == old(self).nickname,
            starts(text@, "/join "@) && first_arg(text@).is_some() ==> ({
                    let ok = admits(old(state).rooms@, first_arg(text@).unwrap(), second_arg(text@));
                    &&& joins(
                        old(state).rooms@,
                        final(state).rooms@,
                        first_arg(text@).unwrap(),
                        old(self).client(),
                        second_arg(text@),
                        closed@,
                        ok,
                    )
                    &&& final(self).color == old(self).color
                    &&& opt_text(final(self).room) == if ok { Some(first_arg(text@).unwrap()) } else { None }
                    &&& final(out)@.len() > 0
                    &&& join_notices(
                        old(out)@,
                        final(out)@.drop_last(),
                        old(state).rooms@,
                        first_arg(text@).unwrap(),
                        old(self).client(),
                        closed@,
                        ok,
                    )
                    &&& told(final(out)@.last(), old(self).id, if ok { "info"@ } else { "error"@ }, if ok {
                        "Joined room "@ + first_arg(text@).unwrap()
                    } else {
                        "Failed to join room: Incorrect password"@
                    }, room_label(final(self).room))
                }),
            !starts(text@, "/join "@) && starts(text@, "/color "@) && first_arg(text@).is_some()
                ==> ({
                    let found = exists|k: int|
                        0 <= k < old(state).rooms@.len() && has_member(#[trigger] old(state).rooms@[k].clients@, old(self).id);
                    &&& recolors(old(state).rooms@, final(state).rooms@, old(self).id, first_arg(text@).unwrap(), found)
                    &&& found ==> final(self).color@ == first_arg(text@).unwrap()
                    &&& !found ==> final(self).color == old(self).color
                    &&& final(self).room == old(self).room
                    &&& final(out)@ == old(out)@.push(final(out)@.last())
                    &&& told(final(out)@.last(), old(self).id, if found { "info"@ } else { "error"@ }, if found {
                        "Your color has been set to #"@ + first_arg(text@).unwrap()
                    } else {
                        "Failed to change color. Are you in a room?"@
                    }, room_label(old(self).room))
                }),
            !starts(text@, "/join "@) && starts(text@, "/color "@) && first_arg(text@).is_none() ==> {
                &&& final(state).rooms@ == old(state).rooms@
                &&& *final(self) == *old(self)
                &&& final(out)@ == old(out)@.push(final(out)@.last())
                &&& told(final(out)@.last(), old(self).id, "error"@, "Please provide a hex color (e.g., #RRGGBB)"@, room_label(old(self).room))
            },
            !starts(text@, "/join "@) && !starts(text@, "/color "@) && text@.len() > 0 && old(self).room is Some
                ==> exists|n: Option<Notice>|
                {
                    &&& sends(old(state).rooms@, final(state).rooms@, old(self).room.unwrap()@, text@, old(self).id, closed@, n)
                    &&& *final(self) == *old(self)
                    &&& final(out)@ == match n {
                        Some(n) => old(out)@.push(n),
                        None => old(out)@,
                    }
                },
            first_arg(text@).is_none() && starts(text@, "/join "@) || text@.len() == 0 || (!starts(text@, "/join "@)
                && !starts(text@, "/color "@) && old(self).room is None) ==> {
                &&& final(state).rooms@ == old(state).rooms@
                &&& *final(self) == *old(self)
                &&& final(out)@ == old(out)@
            },
    {
        let ghost rooms0 = state.rooms@;
        let ghost me0 = *self;
        proof {
            reveal_strlit("/join ");
            reveal_strlit("/color ");
        }
        match parse_command(text) {
            Command::Join { room, password } => {
                let client = self.handle_of();
                let ghost name = room@;
                let r = state.join_room(room.as_str(), client, password, closed, out);
                let ok = r.is_ok();
                let ghost out_mid = out@;
                assert(joins(rooms0, state.rooms@, name, me0.client(), second_arg(text@), closed@, ok));
                match r {
                    Ok(()) => {
                        let content = join_text("Joined room ", room.as_str());
                        self.room = Some(room);
                        out.push(reply(self.id, "info", "0000ff", content, &self.room));
                    },
                    Err(e) => {
                        proof {
                            reveal_strlit("Failed to join room: ");
                            reveal_strlit("Incorrect password");
                            reveal_strlit("Failed to join room: Incorrect password");
                            assert("Failed to join room: "@ + e@ =~= "Failed to join room: Incorrect password"@);
                        }
                        let content = join_text("Failed to join room: ", e.as_str());
                        self.room = None;
                        out.push(reply(self.id, "error", "FF0000", content, &self.room));
                    },
                }
                assert(out@.drop_last() =~= out_mid);
                assert(self.color == me0.color);
            },
            Command::Color(Some(c)) => {
                let found = state.set_color(self.id, c.as_str());
                assert(recolors(rooms0, state.rooms@, me0.id, c@, found));
                if found {
                    let content = join_text("Your color has been set to #", c.as_str());
                    out.push(reply(self.id, "info", c.as_str(), content, &self.room));
                    self.color = c;
                } else {
                    let content = String::from_str("Failed to change color. Are you in a room?");
                    out.push(reply(self.id, "error", "FF0000", content, &self.room));
                }
                assert(found ==> self.color@ == c@);
                assert(!found ==> self.color == me0.color);
                assert(self.room == me0.room);
            },
            Command::Color(None) => {
                let content = String::from_str("Please provide a hex color (e.g., #RRGGBB)");
                out.push(reply(self.id, "error", "FF0000", content, &self.room));
            },
            Command::Chat => {
                match &self.room {
                    Some(room) => {
                        let n = state.broadcast(room.as_str(), text, self.id, closed);
                        match n {
                            Some(n) => out.push(n),
                            None => {},
                        }
                    },
                    None => {},
                }
            },
            Command::Ignore => {},
        }
    }
}

} // verus!
