use pubsub_broker::client::{
    get_request, parse_reply, put_request, sub1, sub2, subscribe_request, unsubscribe_request,
};
use pubsub_broker::protocol::{parse_request, same_text, Reply, Request};

#[test]
fn parses_each_keyword() {
    assert_eq!(parse_request("SUB [news]"), Request::Sub("news".to_string()));
    assert_eq!(parse_request("UNSUB [news]"), Request::Unsub("news".to_string()));
    assert_eq!(parse_request("GET [news]"), Request::Get("news".to_string()));
    assert_eq!(
        parse_request("PUT [news] big news today"),
        Request::Put("news".to_string(), "big news today".to_string())
    );
    assert_eq!(parse_request("ONLINE"), Request::Online);
}

#[test]
fn topic_may_hold_spaces() {
    assert_eq!(
        parse_request("GET [classes too]"),
        Request::Get("classes too".to_string())
    );
}

#[test]
fn topic_without_closing_bracket_runs_to_end() {
    assert_eq!(parse_request("SUB [open"), Request::Sub("open".to_string()));
    assert_eq!(
        parse_request("PUT [open"),
        Request::Put("open".to_string(), "".to_string())
    );
}

#[test]
fn text_before_bracket_is_skipped() {
    assert_eq!(parse_request("GET xy[t]"), Request::Get("t".to_string()));
}

#[test]
fn malformed_requests_are_invalid() {
    assert_eq!(parse_request("SUB news"), Request::Invalid);
    assert_eq!(parse_request("SUB []"), Request::Invalid);
    assert_eq!(parse_request("SUB"), Request::Invalid);
    assert_eq!(parse_request("JUMP [x]"), Request::Invalid);
    assert_eq!(parse_request("get [x]"), Request::Invalid);
    assert_eq!(parse_request(""), Request::Invalid);
}

#[test]
fn put_payload_trimmed_and_empty() {
    assert_eq!(
        parse_request("PUT [t] \t hi there \n"),
        Request::Put("t".to_string(), "hi there".to_string())
    );
    assert_eq!(
        parse_request("PUT [t]"),
        Request::Put("t".to_string(), "".to_string())
    );
    assert_eq!(
        parse_request("PUT [t]x"),
        Request::Put("t".to_string(), "x".to_string())
    );
}

#[test]
fn non_ascii_text_is_handled() {
    assert_eq!(
        parse_request("PUT [caf\u{e9}] \u{fc}ber"),
        Request::Put("caf\u{e9}".to_string(), "\u{fc}ber".to_string())
    );
}

#[test]
fn reply_texts() {
    assert_eq!(Reply::Ack.text(), "OK");
    assert_eq!(Reply::Value("a b".to_string()).text(), "OK a b");
    assert_eq!(Reply::NotFound.text(), "NF");
    assert_eq!(Reply::NotSubscribed.text(), "NS");
    assert_eq!(Reply::Rejected.text(), "NOK");
}

#[test]
fn replies_parse_back() {
    for r in [
        Reply::Ack,
        Reply::Value("hello world".to_string()),
        Reply::Value("".to_string()),
        Reply::NotFound,
        Reply::NotSubscribed,
        Reply::Rejected,
    ] {
        assert_eq!(parse_reply(&r.text()), Some(r.clone()));
    }
    assert_eq!(parse_reply("OKAY"), None);
    assert_eq!(parse_reply(""), None);
    assert_eq!(parse_reply("ok"), None);
}

#[test]
fn request_texts() {
    assert_eq!(subscribe_request("news"), "SUB [news]");
    assert_eq!(unsubscribe_request("news"), "UNSUB [news]");
    assert_eq!(get_request("a b"), "GET [a b]");
    assert_eq!(put_request("news", "hi"), "PUT [news] hi");
    assert_eq!(
        parse_request(&put_request("news", "hi there")),
        Request::Put("news".to_string(), "hi there".to_string())
    );
}

#[test]
fn formatted_requests_parse_back() {
    assert_eq!(
        parse_request(&subscribe_request("a [b")),
        Request::Sub("a [b".to_string())
    );
    assert_eq!(
        parse_request(&unsubscribe_request("x y")),
        Request::Unsub("x y".to_string())
    );
    assert_eq!(parse_request(&get_request("g")), Request::Get("g".to_string()));
    assert_eq!(
        parse_request(&put_request("p", "  v  ")),
        Request::Put("p".to_string(), "v".to_string())
    );
}

#[test]
fn same_text_compares_whole_texts() {
    assert!(same_text("abc", "abc"));
    assert!(!same_text("abc", "abd"));
    assert!(!same_text("abc", "ab"));
    assert!(same_text("", ""));
}

#[test]
fn first_subscriber_plan() {
    let r = sub1();
    assert_eq!(r.len(), 12);
    assert_eq!(r[0], "SUB [classes]");
    for i in 1..=10 {
        assert_eq!(r[i], "GET [classes]");
    }
    assert_eq!(r[11], "UNSUB [classes]");
}

#[test]
fn second_subscriber_plan() {
    let r = sub2();
    assert_eq!(r.len(), 24);
    assert_eq!(r[0], "SUB [classes]");
    assert_eq!(r[1], "SUB [classes too]");
    for i in 2..22 {
        if i % 2 == 0 {
            assert_eq!(r[i], "GET [classes]");
        } else {
            assert_eq!(r[i], "GET [classes too]");
        }
    }
    assert_eq!(r[22], "UNSUB [classes]");
    assert_eq!(r[23], "UNSUB [classes too]");
}
