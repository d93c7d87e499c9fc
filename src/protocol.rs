//! The wire protocol: request text to commands, replies to text.
//!
//! A request is a keyword, then after the first space a field. The topic is
//! the text between the first `[` of the field and the next `]` (or the end
//! of the field when no `]` follows). For `PUT`, the payload is the text after
//! that `]`, with surrounding white space trimmed. A request whose keyword
//! needs a topic but whose field has no `[`, or gives an empty topic, is
//! malformed and answered like an unknown keyword.
use vstd::prelude::*;

verus! {

/// What a request asks for, over views.
pub enum Command {
    Sub(Seq<char>),
    Unsub(Seq<char>),
    Get(Seq<char>),
    Put(Seq<char>, Seq<char>),
    Online,
    Invalid,
}

/// A parsed request.
#[derive(Debug, PartialEq, Eq)]
pub enum Request {
    Sub(String),
    Unsub(String),
    Get(String),
    Put(String, String),
    Online,
    Invalid,
}

impl View for Request {
    type V = Command;

    open spec fn view(&self) -> Command {
        match self {
            Request::Sub(t) => Command::Sub(t@),
            Request::Unsub(t) => Command::Unsub(t@),
            Request::Get(t) => Command::Get(t@),
            Request::Put(t, p) => Command::Put(t@, p@),
            Request::Online => Command::Online,
            Request::Invalid => Command::Invalid,
        }
    }
}

/// The first index at or after `i` where `s` holds `c`, or the length of `s`.
pub open spec fn scan(s: Seq<char>, c: char, i: nat) -> nat
    decreases s.len() - i,
{
    if i >= s.len() {
        s.len()
    } else if s[i as int] == c {
        i
    } else {
        scan(s, c, i + 1)
    }
}

/// What `str::trim` leaves of a text.
pub uninterp spec fn trimmed(s: Seq<char>) -> Seq<char>;

/// The keyword: the text before the first space.
pub open spec fn keyword(s: Seq<char>) -> Seq<char> {
    s.subrange(0, scan(s, ' ', 0) as int)
}

/// The field: the text after the first space; empty when there is none.
pub open spec fn field(s: Seq<char>) -> Seq<char> {
    let sp = scan(s, ' ', 0);
    if sp < s.len() {
        s.subrange(sp + 1 as int, s.len() as int)
    } else {
        Seq::empty()
    }
}

pub open spec fn open_at(f: Seq<char>) -> nat {
    scan(f, '[', 0)
}

pub open spec fn close_at(f: Seq<char>) -> nat {
    scan(f, ']', open_at(f) + 1)
}

/// The topic of a field, when the field has a `[`.
pub open spec fn topic_of(f: Seq<char>) -> Seq<char> {
    f.subrange(open_at(f) + 1 as int, close_at(f) as int)
}

/// Whether the field names a topic: it has a `[` and the topic is not empty.
pub open spec fn has_topic(f: Seq<char>) -> bool {
    open_at(f) < f.len() && topic_of(f).len() > 0
}

/// The payload of a field: what follows the closing `]`, trimmed.
pub open spec fn payload_of(f: Seq<char>) -> Seq<char> {
    if close_at(f) < f.len() {
        trimmed(f.subrange(close_at(f) + 1 as int, f.len() as int))
    } else {
        Seq::empty()
    }
}

/// The command that a request text stands for.
pub open spec fn command_of(s: Seq<char>) -> Command {
    let k = keyword(s);
    let f = field(s);
    if k == "ONLINE"@ {
        Command::Online
    } else if !has_topic(f) {
        Command::Invalid
    } else if k == "SUB"@ {
        Command::Sub(topic_of(f))
    } else if k == "UNSUB"@ {
        Command::Unsub(topic_of(f))
    } else if k == "GET"@ {
        Command::Get(topic_of(f))
    } else if k == "PUT"@ {
        Command::Put(topic_of(f), payload_of(f))
    } else {
        Command::Invalid
    }
}

/// Relies on `str::trim`: the text without leading and trailing white space.
#[verifier::external_body]
fn trim_text<'a>(s: &'a str) -> (r: &'a str)
    ensures
        r@ == trimmed(s@),
{
    s.trim()
}

/// Whether two texts are equal.
pub fn same_text(a: &str, b: &str) -> (r: bool)
    ensures
        r == (a@ == b@),
{
    let n = a.unicode_len();
    if n != b.unicode_len() {
        return false;
    }
    let mut i: usize = 0;
    while i < n
        invariant
            n == a@.len(),
            n == b@.len(),
            i <= n,
            forall|k: int| 0 <= k < i ==> a@[k] == b@[k],
        decreases n - i,
    {
        if a.get_char(i) != b.get_char(i) {
            return false;
        }
        i = i + 1;
    }
    assert(a@ =~= b@);
    true
}

/// The first index at or after `from` where `s` holds `c`, or the length.
fn find_char(s: &str, c: char, from: usize) -> (r: usize)
    requires
        from <= s@.len(),
    ensures
        r == scan(s@, c, from as nat),
{
    let n = s.unicode_len();
    let mut i = from;
    while i < n
        invariant
            n == s@.len(),
            from <= i <= n,
            scan(s@, c, from as nat) == scan(s@, c, i as nat),
        decreases n - i,
    {
        if s.get_char(i) == c {
            return i;
        }
        i = i + 1;
    }
    i
}

proof fn lemma_scan_bound(s: Seq<char>, c: char, i: nat)
    requires
        i <= s.len(),
    ensures
        i <= scan(s, c, i) <= s.len(),
    decreases s.len() - i,
{
    if i < s.len() && s[i as int] != c {
        lemma_scan_bound(s, c, i + 1);
    }
}

/// Parses a request text.
pub fn parse_request(text: &str) -> (r: Request)
    ensures
        r@ == command_of(text@),
{
    let n = text.unicode_len();
    let sp = find_char(text, ' ', 0);
    proof {
        lemma_scan_bound(text@, ' ', 0);
    }
    let word = text.substring_char(0, sp);
    let f = if sp < n {
        text.substring_char(sp + 1, n)
    } else {
        ""
    };
    proof {
        reveal_strlit("");
        assert(f@ =~= field(text@));
    }
    if same_text(word, "ONLINE") {
        return Request::Online;
    }
    let fl = f.unicode_len();
    let open = find_char(f, '[', 0);
    proof {
        lemma_scan_bound(f@, '[', 0);
    }
    if open >= fl {
        return Request::Invalid;
    }
    let close = find_char(f, ']', open + 1);
    proof {
        lemma_scan_bound(f@, ']', (open + 1) as nat);
    }
    if close == open + 1 {
        return Request::Invalid;
    }
    let topic = f.substring_char(open + 1, close).to_owned();
    assert(topic@ == topic_of(f@));
    assert(has_topic(f@));
    assert(word@ == keyword(text@));
    if same_text(word, "SUB") {
        Request::Sub(topic)
    } else if same_text(word, "UNSUB") {
        Request::Unsub(topic)
    } else if same_text(word, "GET") {
        Request::Get(topic)
    } else if same_text(word, "PUT") {
        let payload = if close < fl {
            trim_text(f.substring_char(close + 1, fl)).to_owned()
        } else {
            proof {
                reveal_strlit("");
            }
            "".to_owned()
        };
        assert(payload@ =~= payload_of(f@));
        Request::Put(topic, payload)
    } else {
        Request::Invalid
    }
}

/// A reply to a client.
#[derive(Debug, Clone, PartialEq, Eq)]
pub enum Reply {
    /// The request was carried out.
    Ack,
    /// A payload, delivered.
    Value(String),
    /// The topic is unknown.
    NotFound,
    /// The sender is not subscribed to the topic.
    NotSubscribed,
    /// The request was not understood.
    Rejected,
}

/// The text of a reply.
pub open spec fn reply_text(r: Reply) -> Seq<char> {
    match r {
        Reply::Ack => "OK"@,
        Reply::Value(p) => "OK "@ + p@,
        Reply::NotFound => "NF"@,
        Reply::NotSubscribed => "NS"@,
        Reply::Rejected => "NOK"@,
    }
}

impl Reply {
    /// The text sent on the wire.
    pub fn text(&self) -> (r: String)
        ensures
            r@ == reply_text(*self),
    {
        match self {
            Reply::Ack => "OK".to_owned(),
            Reply::Value(p) => "OK ".to_owned().concat(p.as_str()),
            Reply::NotFound => "NF".to_owned(),
            Reply::NotSubscribed => "NS".to_owned(),
            Reply::Rejected => "NOK".to_owned(),
        }
    }
}

} // verus!
