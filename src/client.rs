//! The client side of the protocol: request texts, reply texts, and the
//! request sequences of the sample subscribers.
use vstd::prelude::*;
use crate::protocol::{Reply, reply_text, same_text};

verus! {

/// `prefix`, the topic, then `]`.
fn bracketed(prefix: &str, topic: &str) -> (r: String)
    ensures
        r@ == prefix@ + topic@ + "]"@,
{
    prefix.to_owned().concat(topic).concat("]")
}

/// The request `SUB [<topic>]`.
pub fn subscribe_request(topic: &str) -> (r: String)
    ensures
        r@ == "SUB ["@ + topic@ + "]"@,
{
    bracketed("SUB [", topic)
}

/// The request `UNSUB [<topic>]`.
pub fn unsubscribe_request(topic: &str) -> (r: String)
    ensures
        r@ == "UNSUB ["@ + topic@ + "]"@,
{
    bracketed("UNSUB [", topic)
}

/// The request `GET [<topic>]`.
pub fn get_request(topic: &str) -> (r: String)
    ensures
        r@ == "GET ["@ + topic@ + "]"@,
{
    bracketed("GET [", topic)
}

/// The request `PUT [<topic>] <value>`.
pub fn put_request(topic: &str, value: &str) -> (r: String)
    ensures
        r@ == "PUT ["@ + topic@ + "] "@ + value@,
{
    "PUT [".to_owned().concat(topic).concat("] ").concat(value)
}

/// The reply that a text is, if any.
pub fn parse_reply(text: &str) -> (r: Option<Reply>)
    ensures
        r matches Some(x) ==> reply_text(x) == text@,
        r is None ==> forall|x: Reply| reply_text(x) != text@,
{
    proof {
        reveal_strlit("OK ");
        reveal_strlit("OK");
        reveal_strlit("NF");
        reveal_strlit("NS");
        reveal_strlit("NOK");
    }
    if same_text(text, "OK") {
        return Some(Reply::Ack);
    }
    if same_text(text, "NF") {
        return Some(Reply::NotFound);
    }
    if same_text(text, "NS") {
        return Some(Reply::NotSubscribed);
    }
    if same_text(text, "NOK") {
        return Some(Reply::Rejected);
    }
    let n = text.unicode_len();
    if n >= 3 && same_text(text.substring_char(0, 3), "OK ") {
        let value = text.substring_char(3, n).to_owned();
        assert(text@ =~= "OK "@ + value@);
        return Some(Reply::Value(value));
    }
    proof {
        assert forall|x: Reply| reply_text(x) != text@ by {
            if let Reply::Value(p) = x {
                if reply_text(x) == text@ {
                    assert(text@.subrange(0, 3) =~= "OK "@);
                }
            }
        }
    }
    None
}

/// The requests of the first sample subscriber: it subscribes to
/// `classes`, asks for ten payloads, then unsubscribes.
pub fn sub1() -> (r: Vec<String>)
    ensures
        r@.len() == 12,
        r@[0]@ == "SUB ["@ + "classes"@ + "]"@,
        forall|i: int| 1 <= i <= 10 ==> (#[trigger] r@[i])@ == "GET ["@ + "classes"@ + "]"@,
        r@[11]@ == "UNSUB ["@ + "classes"@ + "]"@,
{
    let mut r: Vec<String> = Vec::new();
    r.push(subscribe_request("classes"));
    let mut i: usize = 0;
    while i < 10
        invariant
            i <= 10,
            r@.len() == i + 1,
            r@[0]@ == "SUB ["@ + "classes"@ + "]"@,
            forall|k: int| 1 <= k <= i ==> (#[trigger] r@[k])@ == "GET ["@ + "classes"@ + "]"@,
        decreases 10 - i,
    {
        r.push(get_request("classes"));
        i = i + 1;
    }
    r.push(unsubscribe_request("classes"));
    r
}

/// The requests of the second sample subscriber: it subscribes to `classes`
/// and `classes too`, asks twenty times for a payload of each in turn,
/// starting with `classes`, then unsubscribes from both.
pub fn sub2() -> (r: Vec<String>)
    ensures
        r@.len() == 24,
        r@[0]@ == "SUB ["@ + "classes"@ + "]"@,
        r@[1]@ == "SUB ["@ + "classes too"@ + "]"@,
        forall|i: int| 2 <= i < 22 && i % 2 == 0 ==> (#[trigger] r@[i])@ == "GET ["@ + "classes"@ + "]"@,
        forall|i: int| 2 <= i < 22 && i % 2 == 1 ==> (#[trigger] r@[i])@ == "GET ["@ + "classes too"@ + "]"@,
        r@[22]@ == "UNSUB ["@ + "classes"@ + "]"@,
        r@[23]@ == "UNSUB ["@ + "classes too"@ + "]"@,
{
    let mut r: Vec<String> = Vec::new();
    r.push(subscribe_request("classes"));
    r.push(subscribe_request("classes too"));
    let mut i: usize = 0;
    while i < 20
        invariant
            i <= 20,
            r@.len() == i + 2,
            r@[0]@ == "SUB ["@ + "classes"@ + "]"@,
            r@[1]@ == "SUB ["@ + "classes too"@ + "]"@,
            forall|k: int| 2 <= k < i + 2 && k % 2 == 0 ==> (#[trigger] r@[k])@ == "GET ["@ + "classes"@ + "]"@,
            forall|k: int| 2 <= k < i + 2 && k % 2 == 1 ==> (#[trigger] r@[k])@ == "GET ["@ + "classes too"@ + "]"@,
        decreases 20 - i,
    {
        if i % 2 == 0 {
            r.push(get_request("classes"));
        } else {
            r.push(get_request("classes too"));
        }
        i = i + 1;
    }
    r.push(unsubscribe_request("classes"));
    r.push(unsubscribe_request("classes too"));
    r
}

} // verus!
