use carlinkit_otalib::web::{find_crlf, find_header_terminator, parse_http_request};

#[test]
fn parse_chrome_like_get() {
    let req = b"GET /props HTTP/1.1\r\nHost: 192.168.50.2\r\nConnection: keep-alive\r\n\r\n";
    let parsed = parse_http_request(req).unwrap();
    assert_eq!(parsed.method, "GET");
    assert_eq!(parsed.path, "/props");
}

#[test]
fn body_follows_the_blank_line() {
    let req = b"POST /props/wifi.band HTTP/1.0\r\nContent-Length: 2\r\n\r\n5g";
    let parsed = parse_http_request(req).unwrap();
    assert_eq!(parsed.method, "POST");
    assert_eq!(parsed.path, "/props/wifi.band");
    assert_eq!(parsed.body, b"5g");
}

#[test]
fn refused_requests() {
    assert!(parse_http_request(b"GET /props HTTP/1.1\r\nHost: x\r\n").is_none());
    assert!(parse_http_request(b"GET props HTTP/1.1\r\n\r\n").is_none());
    assert!(parse_http_request(b"GET /props FTP/1.1\r\n\r\n").is_none());
    assert!(parse_http_request(b"GET\r\n\r\n").is_none());
    assert!(parse_http_request(b"").is_none());
}

#[test]
fn terminators() {
    assert_eq!(find_header_terminator(b"ab\r\n\r\ncd"), Some(2));
    assert_eq!(find_header_terminator(b"ab\r\ncd"), None);
    assert_eq!(find_crlf(b"ab\r\ncd"), Some(2));
    assert_eq!(find_crlf(b"\r"), None);
}

use carlinkit_otalib::props::PropStore;
use carlinkit_otalib::web::{
    finish_put, handle_request, parse_content_length, request_progress, response_head,
    RequestProgress, WebStep, GUI_HTML,
};

#[test]
fn content_length_header() {
    assert_eq!(parse_content_length(b"PUT /x HTTP/1.1\r\nContent-Length: 12"), Some(12));
    assert_eq!(parse_content_length(b"PUT /x HTTP/1.1\r\ncontent-LENGTH:   7  \r\nX: y"), Some(7));
    assert_eq!(parse_content_length(b"GET / HTTP/1.1\r\nHost: a"), None);
    assert_eq!(parse_content_length(b"PUT / HTTP/1.1\r\nContent-Length: ten"), None);
    assert_eq!(parse_content_length(b"\xff\xfe"), None);
}

#[test]
fn request_progress_counts_the_body() {
    let head = b"PUT /prop/a HTTP/1.1\r\nContent-Length: 4\r\n\r\n";
    assert_eq!(request_progress(&head[..10]), RequestProgress::Incomplete);
    assert_eq!(request_progress(head), RequestProgress::Incomplete);
    let mut full = head.to_vec();
    full.extend_from_slice(b"trueEXTRA");
    assert_eq!(request_progress(&full), RequestProgress::Complete(head.len() + 4));
    assert_eq!(
        request_progress(b"GET / HTTP/1.1\r\n\r\n"),
        RequestProgress::Complete(18)
    );
    assert_eq!(
        request_progress("GET / HTTP/1.1\r\ncontent-length\u{e9}: 1\r\n\r\n".as_bytes()),
        RequestProgress::Fault
    );
}

#[test]
fn reply_head() {
    assert_eq!(
        response_head("200 OK", "text/plain; charset=utf-8", 5),
        "HTTP/1.1 200 OK\r\nContent-Type: text/plain; charset=utf-8\r\nContent-Length: 5\r\nConnection: close\r\n\r\n"
    );
}

fn req(b: &[u8]) -> Option<&[u8]> {
    Some(b)
}

fn store() -> PropStore {
    PropStore::load(
        Some("wifi.enabled\tbool\t-\ttrue\nwifi.channel\tint\t1:165\t36\n"),
        None,
        "/tmp/carlinkit-test-props.tsv",
    )
}

fn reply(step: WebStep) -> (&'static str, &'static str, String) {
    match step {
        WebStep::Reply(r) => (r.status, r.content_type, r.body),
        WebStep::Persist { .. } => panic!("expected a reply"),
    }
}

#[test]
fn routes() {
    let mut s = store();
    assert_eq!(reply(handle_request(&mut s, None)).0, "400 Bad Request");
    assert_eq!(reply(handle_request(&mut s, req(b"nonsense"))).2, "bad request");
    let (st, ct, body) = reply(handle_request(&mut s, req(b"GET / HTTP/1.1\r\n\r\n")));
    assert_eq!((st, ct), ("200 OK", "text/html; charset=utf-8"));
    assert_eq!(body, GUI_HTML);
    let (st, ct, body) = reply(handle_request(&mut s, req(b"GET /props HTTP/1.1\r\n\r\n")));
    assert_eq!((st, ct), ("200 OK", "application/json; charset=utf-8"));
    assert!(body.starts_with("[{\"name\":\"wifi.enabled\""));
    assert_eq!(
        reply(handle_request(&mut s, req(b"GET /prop/wifi.channel HTTP/1.1\r\n\r\n"))),
        ("200 OK", "text/plain; charset=utf-8", "36".to_string())
    );
    assert_eq!(
        reply(handle_request(&mut s, req(b"GET /prop/none HTTP/1.1\r\n\r\n"))),
        ("404 Not Found", "text/plain; charset=utf-8", "unknown prop".to_string())
    );
    assert_eq!(
        reply(handle_request(&mut s, req(b"DELETE /prop/wifi.channel HTTP/1.1\r\n\r\n"))).2,
        "not found"
    );
    assert_eq!(reply(handle_request(&mut s, req(b"GET /other HTTP/1.1\r\n\r\n"))).2, "not found");
}

#[test]
fn put_then_get() {
    let mut s = store();
    let step = handle_request(&mut s, req(b"PUT /prop/wifi.channel HTTP/1.1\r\n\r\n0044\r\n"));
    match step {
        WebStep::Persist { name, prev, contents } => {
            assert_eq!(name, "wifi.channel");
            assert_eq!(prev, "36");
            assert!(contents.contains("wifi.channel\tint\t1:165\t44\n"));
            let r = finish_put(&mut s, &name, prev, Ok(()));
            assert_eq!((r.status, r.body.as_str()), ("200 OK", "44"));
        }
        WebStep::Reply(_) => panic!("expected a change"),
    }
    assert_eq!(
        reply(handle_request(&mut s, req(b"GET /prop/wifi.channel HTTP/1.1\r\n\r\n"))).2,
        "44"
    );
}

#[test]
fn put_errors_and_failed_save() {
    let mut s = store();
    assert_eq!(
        reply(handle_request(&mut s, req(b"PUT /prop/wifi.channel HTTP/1.1\r\n\r\n999"))),
        ("400 Bad Request", "text/plain; charset=utf-8", "int out of range".to_string())
    );
    assert_eq!(
        reply(handle_request(&mut s, req(b"PUT /prop/nope HTTP/1.1\r\n\r\n1"))).2,
        "unknown prop"
    );
    assert_eq!(
        reply(handle_request(&mut s, req(b"PUT /prop/wifi.channel HTTP/1.1\r\n\r\n\xff"))).2,
        "value is not utf8"
    );
    match handle_request(&mut s, req(b"PUT /prop/wifi.enabled HTTP/1.1\r\n\r\n0")) {
        WebStep::Persist { name, prev, .. } => {
            assert_eq!(s.get("wifi.enabled"), Some("false"));
            let r = finish_put(&mut s, &name, prev, Err("disk full"));
            assert_eq!((r.status, r.body.as_str()), ("400 Bad Request", "persist failed: disk full"));
            assert_eq!(s.get("wifi.enabled"), Some("true"));
        }
        WebStep::Reply(_) => panic!("expected a change"),
    }
}

#[test]
fn more_bytes_do_not_change_a_whole_request() {
    let mut buf = b"GET / HTTP/1.1\r\nContent-Length: 2\r\n\r\nok".to_vec();
    let first = request_progress(&buf);
    assert_eq!(first, RequestProgress::Complete(buf.len()));
    buf.extend_from_slice(b"\r\n\r\nContent-Length: 99\r\n\r\n");
    assert_eq!(request_progress(&buf), first);
}
