use vstd::prelude::*;

verus! {

/// One envelope sent to clients.
pub struct ChatMessage {
    pub msg_type: String,
    pub sender: String,
    pub color: String,
    pub content: String,
    pub room: String,
    pub client_count: usize,
}

/// A connected, identified participant; `id` names its delivery target.
pub struct Client {
    pub id: u64,
    pub nickname: String,
    pub color: String,
}

/// A named broadcast group.
pub struct Room {
    pub name: String,
    pub clients: Vec<Client>,
    pub password: Option<String>,
}

/// A message together with the ids of the clients it is handed to.
pub struct Notice {
    pub message: ChatMessage,
    pub recipients: Vec<u64>,
}

/// The registry: every room, keyed by its name.
pub struct ChatState {
    pub rooms: Vec<Room>,
}

pub open spec fn ids(cs: Seq<Client>) -> Seq<u64> {
    cs.map_values(|c: Client| c.id)
}

/// The members left once the client `id` is taken out.
pub open spec fn without(cs: Seq<Client>, id: u64) -> Seq<Client> {
    cs.filter(|c: Client| c.id != id)
}

/// The members whose delivery target is not closed.
pub open spec fn live(cs: Seq<Client>, closed: Seq<u64>) -> Seq<Client> {
    cs.filter(|c: Client| !closed.contains(c.id))
}

pub open spec fn has_member(cs: Seq<Client>, id: u64) -> bool {
    exists|i: int| 0 <= i < cs.len() && cs[i].id == id
}

/// A room's members after `id` leaves it: where it was a member, the rest
/// are told, and those that cannot be reached are pruned.
pub open spec fn after_leave(cs: Seq<Client>, id: u64, closed: Seq<u64>) -> Seq<Client> {
    if has_member(cs, id) {
        live(without(cs, id), closed)
    } else {
        cs
    }
}

pub open spec fn opt_view(p: Option<String>) -> Option<Seq<char>> {
    match p {
        Some(s) => Some(s@),
        None => None,
    }
}

/// No two rooms share a name.
pub open spec fn names_distinct(rooms: Seq<Room>) -> bool {
    forall|i: int, j: int|
        0 <= i < rooms.len() && 0 <= j < rooms.len() && i != j ==> rooms[i].name@ != rooms[j].name@
}

/// Every client is listed in at most one room.
pub open spec fn single_room(rooms: Seq<Room>) -> bool {
    forall|i: int, j: int, id: u64|
        0 <= i < rooms.len() && 0 <= j < rooms.len() && #[trigger] has_member(rooms[i].clients@, id)
            && #[trigger] has_member(rooms[j].clients@, id) ==> i == j
}

/// No client stands twice in a member list.
pub open spec fn ids_unique(cs: Seq<Client>) -> bool {
    forall|i: int, j: int| 0 <= i < j < cs.len() ==> (#[trigger] cs[i]).id != (#[trigger] cs[j]).id
}

/// No client stands twice in any room's member list.
pub open spec fn lists_unique(rooms: Seq<Room>) -> bool {
    forall|k: int| 0 <= k < rooms.len() ==> ids_unique(#[trigger] rooms[k].clients@)
}

pub proof fn lemma_filter_unique(s: Seq<Client>, p: spec_fn(Client) -> bool)
    requires
        ids_unique(s),
    ensures
        ids_unique(s.filter(p)),
    decreases s.len(),
{
    if s.len() > 0 {
        let t = s.drop_last();
        let x = s.last();
        assert(s =~= t.push(x));
        lemma_filter_push(t, x, p);
        assert(ids_unique(t)) by {
            assert forall|i: int, j: int| 0 <= i < j < t.len() implies (#[trigger] t[i]).id != (#[trigger] t[j]).id by {
                assert(s[i] == t[i] && s[j] == t[j]);
            }
        }
        lemma_filter_unique(t, p);
        if p(x) {
            lemma_filter_member(t, p, x.id);
            if has_member(t, x.id) {
                let i = choose|i: int| 0 <= i < t.len() && t[i].id == x.id;
                assert(s[i] == t[i]);
                assert(s[s.len() - 1] == x);
            }
            let f = t.filter(p);
            assert forall|i: int, j: int| 0 <= i < j < f.push(x).len() implies (#[trigger] f.push(x)[i]).id != (
            #[trigger] f.push(x)[j]).id by {
                if j == f.len() {
                    assert(f.push(x)[i] == f[i]);
                    assert(has_member(f, x.id) ==> has_member(t, x.id));
                    if f[i].id == x.id {
                        assert(has_member(f, x.id));
                    }
                } else {
                    assert(f.push(x)[i] == f[i] && f.push(x)[j] == f[j]);
                }
            }
        }
    }
}

/// A member list after `id` leaves it still has each client once.
pub proof fn lemma_after_leave_unique(cs: Seq<Client>, id: u64, closed: Seq<u64>)
    requires
        ids_unique(cs),
    ensures
        ids_unique(after_leave(cs, id, closed)),
{
    if has_member(cs, id) {
        lemma_filter_unique(cs, |c: Client| c.id != id);
        lemma_filter_unique(without(cs, id), |c: Client| !closed.contains(c.id));
    }
}

pub proof fn lemma_push_unique(s: Seq<Client>, c: Client)
    requires
        ids_unique(s),
        !has_member(s, c.id),
    ensures
        ids_unique(s.push(c)),
{
    assert forall|i: int, j: int| 0 <= i < j < s.push(c).len() implies (#[trigger] s.push(c)[i]).id != (
    #[trigger] s.push(c)[j]).id by {
        assert(s.push(c)[i] == s[i]);
        if j < s.len() {
            assert(s.push(c)[j] == s[j]);
        }
    }
}

pub proof fn lemma_filter_push(s: Seq<Client>, x: Client, p: spec_fn(Client) -> bool)
    ensures
        s.push(x).filter(p) == (if p(x) { s.filter(p).push(x) } else { s.filter(p) }),
{
    reveal(Seq::filter);
    assert(s.push(x).drop_last() =~= s);
}

/// What a filter keeps was there before, and satisfies the predicate.
pub proof fn lemma_filter_member(s: Seq<Client>, p: spec_fn(Client) -> bool, id: u64)
    ensures
        has_member(s.filter(p), id) ==> has_member(s, id),
        has_member(s.filter(p), id) ==> exists|i: int|
            0 <= i < s.filter(p).len() && s.filter(p)[i].id == id && p(s.filter(p)[i]),
    decreases s.len(),
{
    broadcast use vstd::seq_lib::group_filter_ensures;
    if has_member(s.filter(p), id) {
        let i = choose|i: int| 0 <= i < s.filter(p).len() && s.filter(p)[i].id == id;
        assert(p(s.filter(p)[i]));
        if s.len() > 0 {
            let t = s.drop_last();
            assert(s =~= t.push(s.last()));
            lemma_filter_push(t, s.last(), p);
            lemma_filter_member(t, p, id);
            if p(s.last()) && i == s.filter(p).len() - 1 {
                assert(s[s.len() - 1].id == id);
            } else {
                assert(t.filter(p)[i] == s.filter(p)[i]);
                assert(has_member(t.filter(p), id));
                let k = choose|k: int| 0 <= k < t.len() && t[k].id == id;
                assert(s[k] == t[k]);
            }
        }
    }
}

pub proof fn lemma_without_absent(cs: Seq<Client>, id: u64)
    requires
        !has_member(cs, id),
    ensures
        without(cs, id) == cs,
    decreases cs.len(),
{
    reveal(Seq::filter);
    if cs.len() > 0 {
        let t = cs.drop_last();
        if has_member(t, id) {
            let i = choose|i: int| 0 <= i < t.len() && t[i].id == id;
            assert(cs[i] == t[i]);
        }
        lemma_without_absent(t, id);
        assert(cs.last().id != id);
        assert(t.push(cs.last()) =~= cs);
    }
}

pub proof fn lemma_push_member(s: Seq<Client>, c: Client, id: u64)
    ensures
        has_member(s.push(c), id) == (has_member(s, id) || c.id == id),
{
    if has_member(s, id) {
        let i = choose|i: int| 0 <= i < s.len() && s[i].id == id;
        assert(s.push(c)[i] == s[i]);
    }
    if c.id == id {
        assert(s.push(c)[s.len() as int] == c);
    }
    if has_member(s.push(c), id) && c.id != id {
        let i = choose|i: int| 0 <= i < s.push(c).len() && s.push(c)[i].id == id;
        assert(s[i] == s.push(c)[i]);
    }
}

/// The members after `id` leaves are all members before, and `id` is gone.
pub proof fn lemma_after_leave_member(cs: Seq<Client>, id: u64, closed: Seq<u64>, x: u64)
    ensures
        has_member(after_leave(cs, id, closed), x) ==> has_member(cs, x) && x != id,
{
    if has_member(cs, id) {
        let w = without(cs, id);
        lemma_filter_member(cs, |c: Client| c.id != id, x);
        lemma_filter_member(w, |c: Client| !closed.contains(c.id), x);
    }
}

/// The room's members after the joined notice is handed out, with the
/// newcomer appended.
pub open spec fn joined(cs: Seq<Client>, client: Client, closed: Seq<u64>) -> Seq<Client> {
    live(after_leave(cs, client.id, closed), closed).push(client)
}

/// `i` is where client `id` first stands in `cs`.
pub open spec fn first_at(cs: Seq<Client>, id: u64, i: int) -> bool {
    0 <= i < cs.len() && cs[i].id == id && forall|j: int| 0 <= j < i ==> cs[j].id != id
}

pub open spec fn named(rooms: Seq<Room>, name: Seq<char>) -> bool {
    exists|k: int| 0 <= k < rooms.len() && rooms[k].name@ == name
}

/// Whether a join of `name` with `password` is let in.
pub open spec fn admits(rooms: Seq<Room>, name: Seq<char>, password: Option<Seq<char>>) -> bool {
    forall|k: int|
        0 <= k < rooms.len() && rooms[k].name@ == name ==> opt_view(rooms[k].password) == password
}

/// `new` is the registry after `client` asked to join `room` with
/// `password`, and `ok` tells whether it was let in.
pub open spec fn joins(
    old: Seq<Room>,
    new: Seq<Room>,
    room: Seq<char>,
    client: Client,
    password: Option<Seq<char>>,
    closed: Seq<u64>,
    ok: bool,
) -> bool {
    &&& ok == admits(old, room, password)
    &&& named(old, room) ==> new.len() == old.len()
    &&& !named(old, room) ==> {
        &&& new.len() == old.len() + 1
        &&& new.last().name@ == room
        &&& opt_view(new.last().password) == password
        &&& new.last().clients@ == seq![client]
    }
    &&& forall|k: int|
        0 <= k < old.len() ==> {
            &&& (#[trigger] new[k]).name == old[k].name
            &&& new[k].password == old[k].password
            &&& new[k].clients@ == if ok && old[k].name@ == room {
                joined(old[k].clients@, client, closed)
            } else {
                after_leave(old[k].clients@, client.id, closed)
            }
        }
}

/// `new` is the registry after `sender` sent `content` to `room`, and `n`
/// is the message handed out, if any.
pub open spec fn sends(
    old: Seq<Room>,
    new: Seq<Room>,
    room: Seq<char>,
    content: Seq<char>,
    sender: u64,
    closed: Seq<u64>,
    n: Option<Notice>,
) -> bool {
    &&& new.len() == old.len()
    &&& n.is_none() <==> !exists|k: int|
        0 <= k < old.len() && old[k].name@ == room && has_member(old[k].clients@, sender)
    &&& n.is_none() ==> new == old
    &&& forall|k: int|
        0 <= k < old.len() ==> {
            &&& (#[trigger] new[k]).name == old[k].name
            &&& new[k].password == old[k].password
            &&& new[k].clients@ == if n.is_some() && old[k].name@ == room {
                live(old[k].clients@, closed)
            } else {
                old[k].clients@
            }
        }
    &&& n.is_some() ==> exists|k: int, i: int|
        0 <= k < old.len() && old[k].name@ == room && #[trigger] first_at(old[k].clients@, sender, i)
            && {
            let m = n.unwrap().message;
            let cs = old[k].clients@;
            &&& m.msg_type@ == "chat"@
            &&& m.sender == cs[i].nickname
            &&& m.color == cs[i].color
            &&& m.content@ == content
            &&& m.room@ == room
            &&& m.client_count == cs.len()
            &&& n.unwrap().recipients@ == ids(live(cs, closed))
        }
}

/// `new` is the registry after client `id` asked for `color`, and `found`
/// tells whether it was in a room.
pub open spec fn recolors(old: Seq<Room>, new: Seq<Room>, id: u64, color: Seq<char>, found: bool) -> bool {
    &&& found == exists|k: int| 0 <= k < old.len() && has_member(#[trigger] old[k].clients@, id)
    &&& !found ==> new == old
    &&& new.len() == old.len()
    &&& found ==> exists|k: int, i: int|
        0 <= k < old.len() && #[trigger] first_at(old[k].clients@, id, i) && {
            let cs = old[k].clients@;
            let ns = new[k].clients@;
            &&& ns.len() == cs.len()
            &&& ns[i].id == id
            &&& ns[i].nickname == cs[i].nickname
            &&& ns[i].color@ == color
            &&& forall|j: int| 0 <= j < cs.len() && j != i ==> ns[j] == cs[j]
            &&& new[k].name == old[k].name
            &&& new[k].password == old[k].password
            &&& forall|m: int| 0 <= m < old.len() && m != k ==> new[m] == old[m]
        }
}

/// A room made by a join keeps the password it was made with: a later join
/// with any other password is refused, and where that joiner is in no room
/// no member list changes.
pub proof fn law_password_set_at_creation(
    r0: Seq<Room>,
    r1: Seq<Room>,
    r2: Seq<Room>,
    room: Seq<char>,
    first: Client,
    p: Option<Seq<char>>,
    second: Client,
    q: Option<Seq<char>>,
    closed1: Seq<u64>,
    closed2: Seq<u64>,
    ok1: bool,
    ok2: bool,
)
    requires
        !named(r0, room),
        names_distinct(r1),
        joins(r0, r1, room, first, p, closed1, ok1),
        joins(r1, r2, room, second, q, closed2, ok2),
        q != p,
        forall|k: int| 0 <= k < r1.len() ==> !has_member(#[trigger] r1[k].clients@, second.id),
    ensures
        ok1,
        r1.last().name@ == room && opt_view(r1.last().password) == p,
        !ok2,
        r2.len() == r1.len(),
        forall|k: int| 0 <= k < r1.len() ==> (#[trigger] r2[k]).clients@ == r1[k].clients@,
{
    let n = r1.len() - 1;
    assert(r1[n].name@ == room);
    assert(named(r1, room));
    assert(!admits(r1, room, q));
    assert forall|k: int| 0 <= k < r1.len() implies (#[trigger] r2[k]).clients@ == r1[k].clients@ by {
        lemma_without_absent(r1[k].clients@, second.id);
    }
}

/// Where every client is in at most one room and stands once in its list,
/// each client stands at one place at most.
pub proof fn law_one_place(rooms: Seq<Room>, id: u64, k1: int, i1: int, k2: int, i2: int)
    requires
        single_room(rooms),
        lists_unique(rooms),
        0 <= k1 < rooms.len(),
        0 <= k2 < rooms.len(),
        0 <= i1 < rooms[k1].clients@.len(),
        0 <= i2 < rooms[k2].clients@.len(),
        rooms[k1].clients@[i1].id == id,
        rooms[k2].clients@[i2].id == id,
    ensures
        k1 == k2 && i1 == i2,
{
    assert(has_member(rooms[k1].clients@, id));
    assert(has_member(rooms[k2].clients@, id));
    assert(ids_unique(rooms[k1].clients@));
    if i1 < i2 {
        assert(rooms[k1].clients@[i1].id != rooms[k1].clients@[i2].id);
    } else if i2 < i1 {
        assert(rooms[k1].clients@[i2].id != rooms[k1].clients@[i1].id);
    }
}

/// After a join the joiner is in the room it asked for where it was let in,
/// and in no room where it was refused.
pub proof fn law_joiner_placed(
    old: Seq<Room>,
    new: Seq<Room>,
    room: Seq<char>,
    client: Client,
    password: Option<Seq<char>>,
    closed: Seq<u64>,
    ok: bool,
)
    requires
        joins(old, new, room, client, password, closed, ok),
    ensures
        ok ==> exists|k: int| 0 <= k < new.len() && new[k].name@ == room && #[trigger] has_member(new[k].clients@, client.id),
        !ok ==> !in_some_room(new, client.id),
{
    if ok {
        if named(old, room) {
            let k = choose|k: int| 0 <= k < old.len() && old[k].name@ == room;
            assert(new[k].name == old[k].name);
            lemma_push_member(live(after_leave(old[k].clients@, client.id, closed), closed), client, client.id);
            assert(has_member(new[k].clients@, client.id));
        } else {
            let n = new.len() - 1;
            assert(new[n].clients@[0] == client);
            assert(has_member(new[n].clients@, client.id));
        }
    } else {
        assert(named(old, room));
        assert forall|k: int| 0 <= k < new.len() implies !#[trigger] has_member(new[k].clients@, client.id) by {
            lemma_after_leave_member(old[k].clients@, client.id, closed, client.id);
        }
    }
}

/// A color change reaches every place where the client stands.
pub proof fn law_recolor_every_entry(old: Seq<Room>, new: Seq<Room>, id: u64, color: Seq<char>)
    requires
        single_room(old),
        lists_unique(old),
        recolors(old, new, id, color, true),
    ensures
        forall|k: int, i: int|
            0 <= k < new.len() && 0 <= i < new[k].clients@.len() && (#[trigger] new[k].clients@[i]).id == id
                ==> new[k].clients@[i].color@ == color,
{
    let (k0, i0) = choose|k: int, i: int|
        0 <= k < old.len() && #[trigger] first_at(old[k].clients@, id, i) && {
            let cs = old[k].clients@;
            let ns = new[k].clients@;
            &&& ns.len() == cs.len()
            &&& ns[i].id == id
            &&& ns[i].nickname == cs[i].nickname
            &&& ns[i].color@ == color
            &&& forall|j: int| 0 <= j < cs.len() && j != i ==> ns[j] == cs[j]
            &&& new[k].name == old[k].name
            &&& new[k].password == old[k].password
            &&& forall|m: int| 0 <= m < old.len() && m != k ==> new[m] == old[m]
        };
    assert forall|k: int, i: int|
        0 <= k < new.len() && 0 <= i < new[k].clients@.len() && (#[trigger] new[k].clients@[i]).id == id
            implies new[k].clients@[i].color@ == color by {
        let cs = old[k0].clients@;
        assert(has_member(cs, id));
        if k != k0 {
            assert(new[k] == old[k]);
            assert(old[k].clients@[i].id == id);
            assert(has_member(old[k].clients@, id));
        } else if i != i0 {
            assert(new[k].clients@[i] == cs[i]);
            assert(ids_unique(cs));
            if i < i0 {
                assert(cs[i].id != cs[i0].id);
            } else {
                assert(cs[i0].id != cs[i].id);
            }
        }
    }
}

/// A room without a password lets in exactly the joins that give none.
pub proof fn law_open_room(rooms: Seq<Room>, room: Seq<char>, k: int, q: Option<Seq<char>>)
    requires
        names_distinct(rooms),
        0 <= k < rooms.len(),
        rooms[k].name@ == room,
        rooms[k].password.is_none(),
    ensures
        admits(rooms, room, q) <==> q.is_none(),
{
    if admits(rooms, room, q) {
        assert(opt_view(rooms[k].password) == q);
    }
}

/// A message handed out in a room reaches exactly its members whose target
/// is not closed: the closed ones are pruned, without error.
pub proof fn law_delivered_to_live(cs: Seq<Client>, closed: Seq<u64>, x: u64)
    ensures
        ids(live(cs, closed)).contains(x) <==> has_member(cs, x) && !closed.contains(x),
{
    let f = |c: Client| !closed.contains(c.id);
    let l = live(cs, closed);
    broadcast use vstd::seq_lib::group_filter_ensures;
    if ids(l).contains(x) {
        let i = choose|i: int| 0 <= i < ids(l).len() && ids(l)[i] == x;
        assert(l[i].id == x);
        assert(has_member(l, x));
        lemma_filter_member(cs, f, x);
    }
    if has_member(cs, x) && !closed.contains(x) {
        let i = choose|i: int| 0 <= i < cs.len() && cs[i].id == x;
        assert(l.contains(cs[i]));
        let j = choose|j: int| 0 <= j < l.len() && l[j] == cs[i];
        assert(ids(l)[j] == x);
    }
}

/// Client `id` is in some room.
pub open spec fn in_some_room(rooms: Seq<Room>, id: u64) -> bool {
    exists|k: int| 0 <= k < rooms.len() && #[trigger] has_member(rooms[k].clients@, id)
}

/// The notice that `nickname` left the room `room`, whose members were `cs`,
/// sent to those left behind whose target is not closed.
pub open spec fn left_notice(
    n: Notice,
    nickname: Seq<char>,
    cs: Seq<Client>,
    id: u64,
    room: Seq<char>,
    closed: Seq<u64>,
) -> bool {
    &&& n.message.msg_type@ == "info"@
    &&& n.message.sender@ == "server"@
    &&& n.message.content@ == nickname + " has left the room..."@
    &&& n.message.room@ == room
    &&& n.message.client_count == without(cs, id).len()
    &&& n.recipients@ == ids(live(without(cs, id), closed))
}

/// `new` is `old` with one left notice appended where client `id` was in a
/// room of `rooms`: the notice of that room.
pub open spec fn told_left(
    old: Seq<Notice>,
    new: Seq<Notice>,
    rooms: Seq<Room>,
    id: u64,
    nickname: Seq<char>,
    closed: Seq<u64>,
) -> bool {
    &&& new.len() == old.len() + if in_some_room(rooms, id) { 1int } else { 0int }
    &&& new.subrange(0, old.len() as int) == old
    &&& forall|k: int|
        0 <= k < rooms.len() && #[trigger] has_member(rooms[k].clients@, id) ==> left_notice(
            new[old.len() as int],
            nickname,
            rooms[k].clients@,
            id,
            rooms[k].name@,
            closed,
        )
}

/// The notice that `client` joined `room`, whose members were `cs` once
/// it had left its old room.
pub open spec fn joined_notice(n: Notice, client: Client, cs: Seq<Client>, room: Seq<char>, closed: Seq<u64>) -> bool {
    &&& n.message.msg_type@ == "info"@
    &&& n.message.sender@ == "server"@
    &&& n.message.content@ == client.nickname@ + " has joined the room..."@
    &&& n.message.room@ == room
    &&& n.message.client_count == if cs.len() + 1 > usize::MAX { usize::MAX as int } else { cs.len() + 1int }
    &&& n.recipients@ == ids(live(cs, closed))
}

/// `new` is `old` with the notices of a join of `room` by `client` appended:
/// the left notice where it was in a room, then the joined notice where it
/// was let into an existing room.
pub open spec fn join_notices(
    old: Seq<Notice>,
    new: Seq<Notice>,
    rooms: Seq<Room>,
    room: Seq<char>,
    client: Client,
    closed: Seq<u64>,
    ok: bool,
) -> bool {
    let mid = old.len() + if in_some_room(rooms, client.id) { 1int } else { 0int };
    &&& new.len() == mid + if ok && named(rooms, room) { 1int } else { 0int }
    &&& new.subrange(0, old.len() as int) == old
    &&& forall|k: int|
        0 <= k < rooms.len() && #[trigger] has_member(rooms[k].clients@, client.id) ==> left_notice(
            new[old.len() as int],
            client.nickname@,
            rooms[k].clients@,
            client.id,
            rooms[k].name@,
            closed,
        )
    &&& ok && named(rooms, room) ==> forall|k: int|
        0 <= k < rooms.len() && rooms[k].name@ == room ==> joined_notice(
            new.last(),
            client,
            after_leave(#[trigger] rooms[k].clients@, client.id, closed),
            room,
            closed,
        )
}

/// A chat message that was sent leaves in its room exactly the members
/// whose target is not closed, and hands the message to each of them.
pub proof fn law_send_prunes_closed(
    old: Seq<Room>,
    new: Seq<Room>,
    room: Seq<char>,
    content: Seq<char>,
    sender: u64,
    closed: Seq<u64>,
    n: Option<Notice>,
    k: int,
    x: u64,
)
    requires
        names_distinct(old),
        sends(old, new, room, content, sender, closed, n),
        n is Some,
        0 <= k < old.len(),
        old[k].name@ == room,
    ensures
        has_member(new[k].clients@, x) <==> has_member(old[k].clients@, x) && !closed.contains(x),
        has_member(new[k].clients@, x) <==> n.unwrap().recipients@.contains(x),
{
    let cs = old[k].clients@;
    let l = live(cs, closed);
    assert(new[k].clients@ == l);
    law_delivered_to_live(cs, closed, x);
    let (k0, i0) = choose|k0: int, i0: int|
        0 <= k0 < old.len() && old[k0].name@ == room && #[trigger] first_at(old[k0].clients@, sender, i0) && {
            let m = n.unwrap().message;
            let cs = old[k0].clients@;
            &&& m.msg_type@ == "chat"@
            &&& m.sender == cs[i0].nickname
            &&& m.color == cs[i0].color
            &&& m.content@ == content
            &&& m.room@ == room
            &&& m.client_count == cs.len()
            &&& n.unwrap().recipients@ == ids(live(cs, closed))
        };
    assert(k0 == k);
    if has_member(l, x) {
        let i = choose|i: int| 0 <= i < l.len() && l[i].id == x;
        assert(ids(l)[i] == x);
    }
    if ids(l).contains(x) {
        let i = choose|i: int| 0 <= i < ids(l).len() && ids(l)[i] == x;
        assert(l[i].id == x);
    }
}

/// Removes the client `id` from a member list; tells whether it was there.
fn take_out(cs: &mut Vec<Client>, id: u64) -> (removed: bool)
    ensures
        final(cs)@ == without(old(cs)@, id),
        removed == has_member(old(cs)@, id),
{
    let ghost orig = cs@;
    let mut src: Vec<Client> = Vec::new();
    std::mem::swap(cs, &mut src);
    let mut removed = false;
    let ghost mut k: int = 0;
    assert(orig.subrange(0, 0).filter(|c: Client| c.id != id) =~= Seq::<Client>::empty()) by {
        reveal(Seq::filter);
    }
    while src.len() > 0
        invariant
            0 <= k <= orig.len(),
            src@ == orig.subrange(k, orig.len() as int),
            cs@ == without(orig.subrange(0, k), id),
            removed == has_member(orig.subrange(0, k), id),
        decreases src.len(),
    {
        let c = src.remove(0);
        proof {
            assert(orig.subrange(0, k + 1) =~= orig.subrange(0, k).push(c));
            lemma_filter_push(orig.subrange(0, k), c, |c: Client| c.id != id);
        }
        if c.id == id {
            removed = true;
        } else {
            cs.push(c);
        }
        proof {
            k = k + 1;
            assert(src@ =~= orig.subrange(k, orig.len() as int));
            if orig[k - 1].id == id {
                assert(orig.subrange(0, k)[k - 1] == orig[k - 1]);
            }
            if has_member(orig.subrange(0, k - 1), id) {
                let j = choose|j: int| 0 <= j < k - 1 && (#[trigger] orig.subrange(0, k - 1)[j]).id == id;
                assert(orig.subrange(0, k)[j].id == id);
            }
            if has_member(orig.subrange(0, k), id) && !removed {
                let j = choose|j: int| 0 <= j < k && (#[trigger] orig.subrange(0, k)[j]).id == id;
                assert(j != k - 1);
                assert(orig.subrange(0, k - 1)[j].id == id);
            }
        }
    }
    proof {
        assert(orig.subrange(0, orig.len() as int) =~= orig);
    }
    removed
}

/// Whether `v` holds `x`.
fn holds(v: &Vec<u64>, x: u64) -> (r: bool)
    ensures
        r == v@.contains(x),
{
    let mut i: usize = 0;
    while i < v.len()
        invariant
            i <= v.len(),
            forall|j: int| 0 <= j < i ==> v@[j] != x,
        decreases v.len() - i,
    {
        if v[i] == x {
            return true;
        }
        i = i + 1;
    }
    false
}

/// Drops the members whose target is closed and gives the ids of the rest,
/// in order: the clients a message is handed to.
fn prune(cs: &mut Vec<Client>, closed: &Vec<u64>) -> (recipients: Vec<u64>)
    ensures
        final(cs)@ == live(old(cs)@, closed@),
        recipients@ == ids(final(cs)@),
{
    let ghost orig = cs@;
    let mut src: Vec<Client> = Vec::new();
    std::mem::swap(cs, &mut src);
    let mut recipients: Vec<u64> = Vec::new();
    let ghost mut k: int = 0;
    assert(orig.subrange(0, 0).filter(|c: Client| !closed@.contains(c.id)) =~= Seq::<Client>::empty())
        by {
        reveal(Seq::filter);
    }
    while src.len() > 0
        invariant
            0 <= k <= orig.len(),
            src@ == orig.subrange(k, orig.len() as int),
            cs@ == live(orig.subrange(0, k), closed@),
            recipients@ == ids(cs@),
        decreases src.len(),
    {
        let c = src.remove(0);
        proof {
            assert(orig.subrange(0, k + 1) =~= orig.subrange(0, k).push(c));
            lemma_filter_push(orig.subrange(0, k), c, |c: Client| !closed@.contains(c.id));
        }
        if !holds(closed, c.id) {
            recipients.push(c.id);
            cs.push(c);
            assert(recipients@ =~= ids(cs@));
        }
        proof {
            k = k + 1;
            assert(src@ =~= orig.subrange(k, orig.len() as int));
        }
    }
    proof {
        assert(orig.subrange(0, orig.len() as int) =~= orig);
    }
    recipients
}

fn opt_eq(a: &Option<String>, b: &Option<String>) -> (r: bool)
    ensures
        r == (opt_view(*a) == opt_view(*b)),
{
    match (a, b) {
        (Some(x), Some(y)) => same_text(x.as_str(), y.as_str()),
        (None, None) => true,
        _ => false,
    }
}

fn same_text(a: &str, b: &str) -> (r: bool)
    ensures
        r == (a@ == b@),
{
    let n = a.unicode_len();
    if n != b.unicode_len() {
        return false;
    }
    let mut i: usize = 0;
    while i < n
        invariant
            n == a@.len() == b@.len(),
            i <= n,
            forall|j: int| 0 <= j < i ==> a@[j] == b@[j],
        decreases n - i,
    {
        if a.get_char(i) != b.get_char(i) {
            return false;
        }
        i = i + 1;
    }
    assert(a@ =~= b@);
    true
}

fn find_room(rooms: &Vec<Room>, name: &str) -> (r: Option<usize>)
    ensures
        r.is_none() == !named(rooms@, name@),
        r.is_some() ==> r.unwrap() < rooms@.len() && rooms@[r.unwrap() as int].name@ == name@,
{
    let mut i: usize = 0;
    while i < rooms.len()
        invariant
            i <= rooms.len(),
            forall|j: int| 0 <= j < i ==> rooms@[j].name@ != name@,
        decreases rooms.len() - i,
    {
        if same_text(rooms[i].name.as_str(), name) {
            return Some(i);
        }
        i = i + 1;
    }
    None
}

/// An informational notice from the server.
fn server_notice(content: String, room: &str, count: usize, recipients: Vec<u64>) -> (n: Notice)
    ensures
        n.message.msg_type@ == "info"@,
        n.message.sender@ == "server"@,
        n.message.color@ == "0000ff"@,
        n.message.content == content,
        n.message.room@ == room@,
        n.message.client_count == count,
        n.recipients == recipients,
{
    Notice {
        message: ChatMessage {
            msg_type: String::from_str("info"),
            sender: String::from_str("server"),
            color: String::from_str("0000ff"),
            content,
            room: String::from_str(room),
            client_count: count,
        },
        recipients,
    }
}

/// `nickname` followed by `tail`.
fn tell(nickname: &String, tail: &str) -> (r: String)
    ensures
        r@ == nickname@ + tail@,
{
    let mut r = nickname.clone();
    r.append(tail);
    r
}

/// The first position of client `id` in a member list.
fn find_member(cs: &Vec<Client>, id: u64) -> (r: Option<usize>)
    ensures
        r.is_none() == !has_member(cs@, id),
        r.is_some() ==> first_at(cs@, id, r.unwrap() as int),
{
    let mut i: usize = 0;
    while i < cs.len()
        invariant
            i <= cs.len(),
            forall|j: int| 0 <= j < i ==> cs@[j].id != id,
        decreases cs.len() - i,
    {
        if cs[i].id == id {
            return Some(i);
        }
        i = i + 1;
    }
    None
}

impl ChatState {
    pub open spec fn wf(&self) -> bool {
        names_distinct(self.rooms@) && single_room(self.rooms@) && lists_unique(self.rooms@)
    }

    /// An empty registry.
    pub fn new() -> (r: ChatState)
        ensures
            r.wf(),
            r.rooms@.len() == 0,
    {
        ChatState { rooms: Vec::new() }
    }

    /// Moves `client` into the room `room`, out of every room it was in.
    /// An existing room lets it in only where `password` equals the room's
    /// own; a missing room is made with `password`. Notices for the members
    /// told are appended to `out`.
    pub fn join_room(
        &mut self,
        room: &str,
        client: Client,
        password: Option<String>,
        closed: &Vec<u64>,
        out: &mut Vec<Notice>,
    ) -> (r: Result<(), String>)
        requires
            old(self).wf(),
        ensures
            final(self).wf(),
            r.is_err() ==> r.unwrap_err()@ == "Incorrect password"@,
            joins(old(self).rooms@, final(self).rooms@, room@, client, opt_view(password), closed@, r.is_ok()),
            join_notices(old(out)@, final(out)@, old(self).rooms@, room@, client, closed@, r.is_ok()),
    {
        let ghost orig = self.rooms@;
        let ghost out0 = out@;
        let id = client.id;
        self.leave_all(id, &client.nickname, closed, out);
        let ghost out1 = out@;
        let ghost left = self.rooms@;
        proof {
            assert forall|i: int, x: u64|
                0 <= i < left.len() && #[trigger] has_member(left[i].clients@, x) implies has_member(
                    orig[i].clients@,
                    x,
                ) && x != id by {
                lemma_after_leave_member(orig[i].clients@, id, closed@, x);
            }
            assert forall|i: int| 0 <= i < left.len() implies ids_unique(#[trigger] left[i].clients@) by {
                lemma_after_leave_unique(orig[i].clients@, id, closed@);
            }
        }
        proof {
            assert forall|i: int| 0 <= i < orig.len() implies #[trigger] left[i].name@ == orig[i].name@ by {
                assert(left[i].name == orig[i].name);
            }
        }
        match find_room(&self.rooms, room) {
            Some(k) => {
                proof {
                    assert(orig[k as int].name@ == room@);
                    assert forall|i: int| 0 <= i < orig.len() && orig[i].name@ == room@ implies i == k by {
                        assert(left[i].name@ == orig[i].name@);
                    }
                }
                if !opt_eq(&self.rooms[k].password, &password) {
                    return Err(String::from_str("Incorrect password"));
                }
                let mut r = self.rooms.remove(k);
                let count = r.clients.len().saturating_add(1);
                let recipients = prune(&mut r.clients, closed);
                out.push(server_notice(tell(&client.nickname, " has joined the room..."), room, count, recipients));
                let ghost pruned = r.clients@;
                proof {
                    let pred = |c: Client| !closed@.contains(c.id);
                    lemma_filter_unique(left[k as int].clients@, pred);
                    lemma_filter_member(left[k as int].clients@, pred, id);
                    lemma_push_unique(pruned, client);
                    assert(out@.subrange(0, out0.len() as int) =~= out0) by {
                        assert(out1.subrange(0, out0.len() as int) == out0);
                        assert forall|t: int| 0 <= t < out0.len() implies out@[t] == out1[t] by {}
                    }
                    assert forall|t: int| out0.len() <= t < out1.len() implies out@[t] == out1[t] by {}
                    assert forall|j: int| 0 <= j < orig.len() && orig[j].name@ == room@ implies j == k by {}
                }
                r.clients.push(client);
                self.rooms.insert(k, r);
                proof {
                    let fs = self.rooms@;
                    assert forall|i: int| 0 <= i < left.len() && i != k implies fs[i] == left[i] by {
                        assert(fs[i] == left[i]);
                    }
                    assert forall|x: u64| #[trigger] has_member(fs[k as int].clients@, x) implies x == id || (
                    has_member(orig[k as int].clients@, x) && x != id) by {
                        lemma_push_member(pruned, client, x);
                        lemma_filter_member(left[k as int].clients@, |c: Client| !closed@.contains(c.id), x);
                    }
                    assert forall|i: int, j: int, x: u64|
                        0 <= i < fs.len() && 0 <= j < fs.len() && #[trigger] has_member(fs[i].clients@, x)
                            && #[trigger] has_member(fs[j].clients@, x) implies i == j by {
                        if i != k {
                            assert(has_member(left[i].clients@, x));
                        }
                        if j != k {
                            assert(has_member(left[j].clients@, x));
                        }
                    }
                }
                Ok(())
            },
            None => {
                proof {
                    assert forall|i: int| 0 <= i < orig.len() implies orig[i].name@ != room@ by {
                        assert(left[i].name@ == orig[i].name@);
                    }
                }
                let ghost c = client;
                self.rooms.push(Room { name: String::from_str(room), clients: vec![client], password });
                proof {
                    let fs = self.rooms@;
                    let n = left.len() as int;
                    assert(fs[n].clients@ =~= seq![c]);
                    assert forall|i: int| 0 <= i < fs.len() implies ids_unique(#[trigger] fs[i].clients@) by {
                        if i != n {
                            assert(fs[i] == left[i]);
                        }
                    }
                    assert forall|x: u64| #[trigger] has_member(fs[n].clients@, x) implies x == id by {
                        let i = choose|i: int| 0 <= i < fs[n].clients@.len() && fs[n].clients@[i].id == x;
                        assert(i == 0);
                    }
                    assert forall|i: int, j: int, x: u64|
                        0 <= i < fs.len() && 0 <= j < fs.len() && #[trigger] has_member(fs[i].clients@, x)
                            && #[trigger] has_member(fs[j].clients@, x) implies i == j by {
                        if i != n {
                            assert(fs[i] == left[i]);
                        }
                        if j != n {
                            assert(fs[j] == left[j]);
                        }
                    }
                    assert forall|i: int, j: int|
                        0 <= i < fs.len() && 0 <= j < fs.len() && i != j implies fs[i].name@ != fs[j].name@ by {
                        if i != n {
                            assert(fs[i] == left[i]);
                        }
                        if j != n {
                            assert(fs[j] == left[j]);
                        }
                    }
                }
                Ok(())
            },
        }
    }

    /// Sends `content` from client `sender` to every member of `room`,
    /// pruning those that cannot be reached. Nothing happens where the room
    /// is missing or `sender` is not in it.
    pub fn broadcast(&mut self, room: &str, content: &str, sender: u64, closed: &Vec<u64>) -> (n: Option<Notice>)
        requires
            old(self).wf(),
        ensures
            final(self).wf(),
            sends(old(self).rooms@, final(self).rooms@, room@, content@, sender, closed@, n),
    {
        let ghost orig = self.rooms@;
        let k = match find_room(&self.rooms, room) {
            Some(k) => k,
            None => {
                return None;
            },
        };
        proof {
            assert forall|j: int| 0 <= j < orig.len() && orig[j].name@ == room@ implies j == k by {}
        }
        let i = match find_member(&self.rooms[k].clients, sender) {
            Some(i) => i,
            None => {
                return None;
            },
        };
        let mut r = self.rooms.remove(k);
        let count = r.clients.len();
        let message = ChatMessage {
            msg_type: String::from_str("chat"),
            sender: r.clients[i].nickname.clone(),
            color: r.clients[i].color.clone(),
            content: String::from_str(content),
            room: String::from_str(room),
            client_count: count,
        };
        let ghost before = r.clients@;
        let recipients = prune(&mut r.clients, closed);
        self.rooms.insert(k, r);
        proof {
            let fs = self.rooms@;
            assert forall|j: int| 0 <= j < orig.len() && j != k implies fs[j] == orig[j] by {
                assert(fs[j] == orig[j]);
            }
            assert forall|x: u64| #[trigger] has_member(fs[k as int].clients@, x) implies has_member(orig[k as int].clients@, x) by {
                lemma_filter_member(before, |c: Client| !closed@.contains(c.id), x);
            }
            lemma_filter_unique(before, |c: Client| !closed@.contains(c.id));
            assert forall|j: int| 0 <= j < fs.len() implies ids_unique(#[trigger] fs[j].clients@) by {
                if j != k {
                    assert(fs[j] == orig[j]);
                }
            }
            assert forall|a: int, b: int, x: u64|
                0 <= a < fs.len() && 0 <= b < fs.len() && #[trigger] has_member(fs[a].clients@, x)
                    && #[trigger] has_member(fs[b].clients@, x) implies a == b by {
                assert(has_member(orig[a].clients@, x));
                assert(has_member(orig[b].clients@, x));
            }
            assert(first_at(orig[k as int].clients@, sender, i as int));
        }
        Some(Notice { message, recipients })
    }

    /// Sets the color of client `id` where it is a member; tells whether it
    /// was found.
    pub fn set_color(&mut self, id: u64, color: &str) -> (found: bool)
        requires
            old(self).wf(),
        ensures
            final(self).wf(),
            recolors(old(self).rooms@, final(self).rooms@, id, color@, found),
    {
        let ghost orig = self.rooms@;
        let mut k: usize = 0;
        while k < self.rooms.len()
            invariant
                self.rooms@ == orig,
                orig == old(self).rooms@,
                names_distinct(orig),
                single_room(orig),
                lists_unique(orig),
                k <= orig.len(),
                forall|m: int| 0 <= m < k ==> !has_member(#[trigger] orig[m].clients@, id),
            decreases orig.len() - k,
        {
            match find_member(&self.rooms[k].clients, id) {
                Some(i) => {
                    let mut r = self.rooms.remove(k);
                    let mut c = r.clients.remove(i);
                    c.color = String::from_str(color);
                    r.clients.insert(i, c);
                    self.rooms.insert(k, r);
                    proof {
                        let fs = self.rooms@;
                        let cs = orig[k as int].clients@;
                        let ns = fs[k as int].clients@;
                        assert forall|m: int| 0 <= m < orig.len() && m != k implies fs[m] == orig[m] by {
                            assert(fs[m] == orig[m]);
                        }
                        assert forall|j: int| 0 <= j < cs.len() && j != i implies ns[j] == cs[j] by {
                            assert(ns[j] == cs[j]);
                        }
                        assert forall|x: u64| #[trigger] has_member(ns, x) implies has_member(cs, x) by {
                            let j = choose|j: int| 0 <= j < ns.len() && ns[j].id == x;
                            assert(cs[j].id == x);
                        }
                        assert forall|a: int, b: int, x: u64|
                            0 <= a < fs.len() && 0 <= b < fs.len() && #[trigger] has_member(fs[a].clients@, x)
                                && #[trigger] has_member(fs[b].clients@, x) implies a == b by {
                            if a == k {
                                assert(has_member(ns, x));
                            }
                            if b == k {
                                assert(has_member(ns, x));
                            }
                            assert(has_member(orig[a].clients@, x));
                            assert(has_member(orig[b].clients@, x));
                        }
                        assert(fs[k as int].name == orig[k as int].name);
                        assert forall|a: int, b: int|
                            0 <= a < fs.len() && 0 <= b < fs.len() && a != b implies fs[a].name@ != fs[b].name@ by {
                            assert(fs[a].name == orig[a].name);
                            assert(fs[b].name == orig[b].name);
                        }
                        assert(first_at(cs, id, i as int));
                        assert(ids_unique(cs));
                        assert(ids_unique(ns)) by {
                            assert forall|a: int, b: int| 0 <= a < b < ns.len() implies (#[trigger] ns[a]).id != (
                            #[trigger] ns[b]).id by {
                                assert(ns[a].id == cs[a].id);
                                assert(ns[b].id == cs[b].id);
                                assert(cs[a].id != cs[b].id);
                            }
                        }
                        assert forall|m: int| 0 <= m < fs.len() implies ids_unique(#[trigger] fs[m].clients@) by {
                            if m != k {
                                assert(fs[m] == orig[m]);
                            }
                        }
                        assert(has_member(orig[k as int].clients@, id));
                    }
                    return true;
                },
                None => {},
            }
            k = k + 1;
        }
        false
    }

    /// Takes client `id` out of every room, telling the rest of each room it
    /// left and pruning those that cannot be reached.
    fn leave_all(&mut self, id: u64, nickname: &String, closed: &Vec<u64>, out: &mut Vec<Notice>)
        requires
            single_room(old(self).rooms@),
        ensures
            told_left(old(out)@, final(out)@, old(self).rooms@, id, nickname@, closed@),
            final(self).rooms@.len() == old(self).rooms@.len(),
            forall|k: int|
                0 <= k < old(self).rooms@.len() ==> {
                    &&& (#[trigger] final(self).rooms@[k]).name == old(self).rooms@[k].name
                    &&& final(self).rooms@[k].password == old(self).rooms@[k].password
                    &&& final(self).rooms@[k].clients@ == after_leave(old(self).rooms@[k].clients@, id, closed@)
                },
    {
        let ghost orig = self.rooms@;
        let ghost out0 = out@;
        assert(out@.subrange(0, out0.len() as int) =~= out0);
        assert(!in_some_room(orig.subrange(0, 0), id));
        let mut src: Vec<Room> = Vec::new();
        std::mem::swap(&mut self.rooms, &mut src);
        let ghost mut k: int = 0;
        while src.len() > 0
            invariant
                0 <= k <= orig.len(),
                src@ == orig.subrange(k, orig.len() as int),
                self.rooms@.len() == k,
                forall|j: int|
                    0 <= j < k ==> {
                        &&& (#[trigger] self.rooms@[j]).name == orig[j].name
                        &&& self.rooms@[j].password == orig[j].password
                        &&& self.rooms@[j].clients@ == after_leave(orig[j].clients@, id, closed@)
                    },
                out0 == old(out)@,
                single_room(orig),
                told_left(out0, out@, orig.subrange(0, k), id, nickname@, closed@),
            decreases src.len(),
        {
            let mut r = src.remove(0);
            let ghost before = r.clients@;
            assert(before == orig[k].clients@);
            let removed = take_out(&mut r.clients, id);
            proof {
                if !removed {
                    lemma_without_absent(before, id);
                }
            }
            let ghost out_pre = out@;
            if removed {
                let count = r.clients.len();
                let recipients = prune(&mut r.clients, closed);
                out.push(server_notice(tell(nickname, " has left the room..."), r.name.as_str(), count, recipients));
            }
            self.rooms.push(r);
            proof {
                let pre = orig.subrange(0, k);
                let post = orig.subrange(0, k + 1);
                if in_some_room(pre, id) {
                    let j = choose|j: int| 0 <= j < pre.len() && #[trigger] has_member(pre[j].clients@, id);
                    assert(post[j] == pre[j]);
                    if removed {
                        assert(has_member(orig[j].clients@, id));
                        assert(has_member(orig[k].clients@, id));
                    }
                }
                if removed {
                    assert(has_member(post[k].clients@, id));
                }
                assert(out@.subrange(0, out0.len() as int) =~= out0);
                if in_some_room(post, id) && !removed {
                    let j = choose|j: int| 0 <= j < post.len() && #[trigger] has_member(post[j].clients@, id);
                    assert(j != k);
                    assert(post[j] == pre[j]);
                    assert(has_member(pre[j].clients@, id));
                }
                assert forall|j: int|
                    0 <= j < post.len() && #[trigger] has_member(post[j].clients@, id) implies left_notice(
                    out@[out0.len() as int],
                    nickname@,
                    post[j].clients@,
                    id,
                    post[j].name@,
                    closed@,
                ) by {
                    if j < k {
                        assert(post[j] == pre[j]);
                        assert(has_member(pre[j].clients@, id));
                        if removed {
                            assert(has_member(orig[j].clients@, id));
                            assert(has_member(orig[k].clients@, id));
                        }
                        assert(out@[out0.len() as int] == out_pre[out0.len() as int]);
                    } else {
                        assert(post[j] == orig[k]);
                        assert(removed);
                    }
                }
                k = k + 1;
                assert(src@ =~= orig.subrange(k, orig.len() as int));
            }
        }
    }
}

} // verus!
