use vstd::prelude::*;

verus! {

/// Unicode White_Space, the characters that separate the words of a command.
pub open spec fn is_space(c: char) -> bool {
    let n = c as u32;
    n == 0x20 || (0x09 <= n <= 0x0d) || n == 0x85 || n == 0xa0 || n == 0x1680 || (0x2000 <= n
        <= 0x200a) || n == 0x2028 || n == 0x2029 || n == 0x202f || n == 0x205f || n == 0x3000
}

/// The first position at or after `i` that holds no space.
pub open spec fn skip_space(s: Seq<char>, i: int) -> int
    decreases s.len() - i,
{
    if 0 <= i < s.len() && is_space(s[i]) {
        skip_space(s, i + 1)
    } else {
        i
    }
}

/// The first position at or after `i` that holds a space, or the end.
pub open spec fn skip_word(s: Seq<char>, i: int) -> int
    decreases s.len() - i,
{
    if 0 <= i < s.len() && !is_space(s[i]) {
        skip_word(s, i + 1)
    } else {
        i
    }
}

/// Where the word after position `i` starts.
pub open spec fn word_start(s: Seq<char>, i: int) -> int {
    skip_space(s, i)
}

/// Where the word after position `i` ends.
pub open spec fn word_end(s: Seq<char>, i: int) -> int {
    skip_word(s, skip_space(s, i))
}

/// The word after position `i`, if any is left.
pub open spec fn word_after(s: Seq<char>, i: int) -> Option<Seq<char>> {
    if word_start(s, i) < s.len() {
        Some(s.subrange(word_start(s, i), word_end(s, i)))
    } else {
        None
    }
}

/// The word after the command word.
pub open spec fn first_arg(s: Seq<char>) -> Option<Seq<char>> {
    word_after(s, word_end(s, 0))
}

/// The word after that.
pub open spec fn second_arg(s: Seq<char>) -> Option<Seq<char>> {
    word_after(s, word_end(s, word_end(s, 0)))
}

pub open spec fn opt_text(o: Option<String>) -> Option<Seq<char>> {
    match o {
        Some(s) => Some(s@),
        None => None,
    }
}

fn space(c: char) -> (r: bool)
    ensures
        r == is_space(c),
{
    let n = c as u32;
    n == 0x20 || (0x09 <= n && n <= 0x0d) || n == 0x85 || n == 0xa0 || n == 0x1680 || (0x2000 <= n
        && n <= 0x200a) || n == 0x2028 || n == 0x2029 || n == 0x202f || n == 0x205f || n == 0x3000
}

/// The bounds of the word after position `i`.
fn next_word(s: &str, n: usize, i: usize) -> (r: (usize, usize))
    requires
        n == s@.len(),
        i <= n,
    ensures
        r.0 == word_start(s@, i as int),
        r.1 == word_end(s@, i as int),
        i <= r.0 <= r.1 <= n,
{
    let mut a = i;
    while a < n && space(s.get_char(a))
        invariant
            i <= a <= n,
            n == s@.len(),
            skip_space(s@, a as int) == skip_space(s@, i as int),
        decreases n - a,
    {
        a = a + 1;
    }
    let mut b = a;
    while b < n && !space(s.get_char(b))
        invariant
            a <= b <= n,
            n == s@.len(),
            skip_word(s@, b as int) == skip_word(s@, a as int),
        decreases n - b,
    {
        b = b + 1;
    }
    (a, b)
}

/// The word after position `i`, and where it ends.
fn word(s: &str, n: usize, i: usize) -> (r: (Option<String>, usize))
    requires
        n == s@.len(),
        i <= n,
    ensures
        opt_text(r.0) == word_after(s@, i as int),
        r.1 == word_end(s@, i as int),
        i <= r.1 <= n,
{
    let (a, b) = next_word(s, n, i);
    if a < n {
        (Some(String::from_str(s.substring_char(a, b))), b)
    } else {
        (None, b)
    }
}

/// Whether `s` starts with `p`.
fn has_prefix(s: &str, p: &str) -> (r: bool)
    ensures
        r == (p@.len() <= s@.len() && s@.subrange(0, p@.len() as int) == p@),
{
    let n = s.unicode_len();
    let m = p.unicode_len();
    if m > n {
        return false;
    }
    let mut i: usize = 0;
    while i < m
        invariant
            m <= n,
            n == s@.len(),
            m == p@.len(),
            i <= m,
            forall|j: int| 0 <= j < i ==> s@[j] == p@[j],
        decreases m - i,
    {
        if s.get_char(i) != p.get_char(i) {
            assert(s@.subrange(0, m as int)[i as int] != p@[i as int]);
            return false;
        }
        i = i + 1;
    }
    assert(s@.subrange(0, m as int) =~= p@);
    true
}

/// What an inbound frame of an active client asks for.
pub enum Command {
    /// `/join <room> [password]`
    Join { room: String, password: Option<String> },
    /// `/color [color]`; without the word the client is told to give one.
    Color(Option<String>),
    /// Any other text: chat content for the current room.
    Chat,
    /// A `/join ` without a room name, or an empty frame.
    Ignore,
}

pub open spec fn starts(s: Seq<char>, p: Seq<char>) -> bool {
    p.len() <= s.len() && s.subrange(0, p.len() as int) == p
}

/// Reads an inbound frame.
pub fn parse_command(text: &str) -> (r: Command)
    ensures
        starts(text@, "/join "@) ==> match r {
            Command::Join { room, password } => first_arg(text@) == Some(room@) && opt_text(password)
                == second_arg(text@),
            Command::Ignore => first_arg(text@).is_none(),
            _ => false,
        },
        !starts(text@, "/join "@) && starts(text@, "/color "@) ==> match r {
            Command::Color(c) => opt_text(c) == first_arg(text@),
            _ => false,
        },
        !starts(text@, "/join "@) && !starts(text@, "/color "@) ==> if text@.len() == 0 {
            r is Ignore
        } else {
            r is Chat
        },
{
    let n = text.unicode_len();
    if has_prefix(text, "/join ") {
        let (_, e0) = next_word(text, n, 0);
        let (room, e1) = word(text, n, e0);
        match room {
            Some(room) => {
                let (password, _) = word(text, n, e1);
                Command::Join { room, password }
            },
            None => Command::Ignore,
        }
    } else if has_prefix(text, "/color ") {
        let (_, e0) = next_word(text, n, 0);
        let (c, _) = word(text, n, e0);
        Command::Color(c)
    } else if n == 0 {
        Command::Ignore
    } else {
        Command::Chat
    }
}

} // verus!
