//! The property web server's request handling: reading an HTTP request line and
//! finding the body.
use vstd::prelude::*;
use vstd::utf8::*;
use crate::props::{
    find_prop, persist_failed, props_json_items, props_text, props_to_json, serialize_props_file,
    value_check, with_value, PropStore, PropView,
};
use crate::text::{
    chars_of, decode_chars, find_char, find_char_exec, lemma_find_char, dec_chars, lemma_parse_unsigned_range, lines, lines_exec, push_decimal, push_str_chars,
    parse_unsigned, parse_unsigned_exec, seqs_of, string_of, sub_chars, trim, trim_chars,
};

verus! {

/// An operating system error number.
#[derive(Copy, Clone, Debug)]
pub struct Errno(pub i32);

/// The parts of an HTTP request that the server reads.
pub struct HttpRequest<'a> {
    pub method: String,
    pub path: String,
    pub body: &'a [u8],
}

/// `\r\n\r\n` starts at `i`.
pub open spec fn blank_line_at(s: Seq<u8>, i: int) -> bool {
    0 <= i && i + 4 <= s.len() && s[i] == 13 && s[i + 1] == 10 && s[i + 2] == 13 && s[i + 3] == 10
}

/// `\r\n` starts at `i`.
pub open spec fn crlf_at(s: Seq<u8>, i: int) -> bool {
    0 <= i && i + 2 <= s.len() && s[i] == 13 && s[i + 1] == 10
}

/// The first `\r\n\r\n` at or after `i`.
pub open spec fn blank_line_from(s: Seq<u8>, i: int) -> Option<int>
    decreases s.len() - i,
{
    if i < 0 || i + 4 > s.len() {
        None
    } else if blank_line_at(s, i) {
        Some(i)
    } else {
        blank_line_from(s, i + 1)
    }
}

/// The first `\r\n` at or after `i`.
pub open spec fn crlf_from(s: Seq<u8>, i: int) -> Option<int>
    decreases s.len() - i,
{
    if i < 0 || i + 2 > s.len() {
        None
    } else if crlf_at(s, i) {
        Some(i)
    } else {
        crlf_from(s, i + 1)
    }
}

/// Where the header ends: the first `\r\n\r\n`.
pub open spec fn header_end(s: Seq<u8>) -> Option<int> {
    blank_line_from(s, 0)
}

/// Where the request line ends: the first `\r\n`.
pub open spec fn line_end(s: Seq<u8>) -> Option<int> {
    crlf_from(s, 0)
}

/// `splitn(3, ' ')` of a request line: method, path and version, when there are three.
pub open spec fn request_line_parts(line: Seq<char>) -> Option<(Seq<char>, Seq<char>, Seq<char>)> {
    match find_char(line, ' ') {
        None => None,
        Some(i) => {
            let r = line.skip(i + 1);
            match find_char(r, ' ') {
                None => None,
                Some(j) => Some((line.take(i), r.take(j), r.skip(j + 1))),
            }
        },
    }
}

/// What `parse_http_request` reads from a buffer: method, path and where the body
/// starts; `None` for a request it refuses.
pub open spec fn http_request(s: Seq<u8>) -> Option<(Seq<char>, Seq<char>, int)> {
    match header_end(s) {
        None => None,
        Some(h) => match line_end(s) {
            None => None,
            Some(l) => if !valid_utf8(s.take(l)) {
                None
            } else {
                match request_line_parts(decode_utf8(s.take(l))) {
                    None => None,
                    Some((m, p, v)) => if v.len() >= 7 && v.take(7) == "HTTP/1."@ && p.len() >= 1
                        && p[0] == '/' {
                        Some((m, p, h + 4))
                    } else {
                        None
                    },
                }
            },
        },
    }
}

/// Position of the first `\r\n\r\n`, the end of the header.
pub fn find_header_terminator(buf: &[u8]) -> (r: Option<usize>)
    ensures
        r matches Some(i) ==> header_end(buf@) == Some(i as int) && blank_line_at(buf@, i as int),
        r is None ==> header_end(buf@) is None,
{
    if buf.len() < 4 {
        return None;
    }
    let mut i: usize = 0;
    while buf.len() - i >= 4
        invariant
            buf@.len() >= 4,
            i + 3 <= buf@.len(),
            blank_line_from(buf@, 0) == blank_line_from(buf@, i as int),
        decreases buf@.len() - i,
    {
        if buf[i] == 13 && buf[i + 1] == 10 && buf[i + 2] == 13 && buf[i + 3] == 10 {
            return Some(i);
        }
        i = i + 1;
    }
    None
}

/// Position of the first `\r\n`.
pub fn find_crlf(buf: &[u8]) -> (r: Option<usize>)
    ensures
        r matches Some(i) ==> line_end(buf@) == Some(i as int) && crlf_at(buf@, i as int),
        r is None ==> line_end(buf@) is None,
{
    let mut i: usize = 0;
    while i < buf.len() && buf.len() - i >= 2
        invariant
            i <= buf@.len(),
            crlf_from(buf@, 0) == crlf_from(buf@, i as int),
        decreases buf@.len() - i,
    {
        if buf[i] == 13 && buf[i + 1] == 10 {
            return Some(i);
        }
        i = i + 1;
    }
    None
}

fn split_space(s: &[char]) -> (r: Option<(Vec<char>, Vec<char>)>)
    ensures
        r matches Some(p) ==> find_char(s@, ' ') matches Some(i) && p.0@ == s@.take(i) && p.1@
            == s@.skip(i + 1),
        r is None ==> find_char(s@, ' ') is None,
{
    proof {
        lemma_find_char(s@, ' ');
    }
    match find_char_exec(s, ' ') {
        Some(i) => {
            let n = s.len();
            assert(i < n);
            let a = sub_chars(s, 0, i);
            let b = sub_chars(s, i + 1, n);
            assert(a@ =~= s@.take(i as int));
            assert(b@ =~= s@.skip(i + 1));
            Some((a, b))
        },
        None => None,
    }
}

/// Reads the request line of an HTTP request (`METHOD /path HTTP/1.x`) and finds its
/// body; `None` for anything else.
pub fn parse_http_request(buf: &[u8]) -> (r: Option<HttpRequest<'_>>)
    ensures
        match http_request(buf@) {
            None => r is None,
            Some((m, p, b)) => r matches Some(req) && req.method@ == m && req.path@ == p
                && req.body@ == buf@.skip(b),
        },
{
    let hdr_end = match find_header_terminator(buf) {
        Some(h) => h,
        None => {
            return None;
        },
    };
    let ln_end = match find_crlf(buf) {
        Some(l) => l,
        None => {
            return None;
        },
    };

    assert(hdr_end + 4 <= buf@.len());
    assert(ln_end + 2 <= buf@.len());
    let head = vstd::slice::slice_subrange(buf, 0, ln_end);
    assert(head@ =~= buf@.take(ln_end as int));
    let line = match decode_chars(head) {
        Some(l) => l,
        None => {
            return None;
        },
    };
    let (method, rest) = match split_space(line.as_slice()) {
        Some(p) => p,
        None => {
            return None;
        },
    };
    let (path, version) = match split_space(rest.as_slice()) {
        Some(p) => p,
        None => {
            return None;
        },
    };
    let prefix = chars_of("HTTP/1.");
    if version.len() < prefix.len() {
        proof {
            reveal_strlit("HTTP/1.");
        }
        return None;
    }
    let vhead = sub_chars(version.as_slice(), 0, prefix.len());
    proof {
        reveal_strlit("HTTP/1.");
        assert(vhead@ =~= version@.take(7));
    }
    if !crate::text::chars_eq(vhead.as_slice(), prefix.as_slice()) {
        return None;
    }
    if path.len() < 1 || path[0] != '/' {
        return None;
    }
    let n = buf.len();
    assert(hdr_end + 4 <= n);
    let body = vstd::slice::slice_subrange(buf, hdr_end + 4, n);
    assert(body@ =~= buf@.skip(hdr_end + 4));
    Some(HttpRequest { method: string_of(method.as_slice()), path: string_of(path.as_slice()), body })
}

/// `content-length:`, the header name in lower case, as bytes.
pub open spec fn content_length_key() -> Seq<u8> {
    seq![0x63u8, 0x6f, 0x6e, 0x74, 0x65, 0x6e, 0x74, 0x2d, 0x6c, 0x65, 0x6e, 0x67, 0x74, 0x68, 0x3a]
}

/// `u8::to_ascii_lowercase`.
pub open spec fn ascii_lower(b: u8) -> u8 {
    if 0x41 <= b <= 0x5a {
        (b + 32) as u8
    } else {
        b
    }
}

/// The first 15 bytes of `b` spell `content-length:` in any ASCII case.
pub open spec fn key_matches(b: Seq<u8>) -> bool {
    b.len() >= 15 && forall|i: int| 0 <= i < 15 ==> ascii_lower(#[trigger] b[i]) == content_length_key()[i]
}

/// Reading the first 15 bytes of the (trimmed) header line `t` as text cuts a character
/// in two.
pub open spec fn header_line_faults(t: Seq<char>) -> bool {
    let b = encode_utf8(t);
    b.len() >= 15 && !is_char_boundary(b, 15)
}

/// The value of the (trimmed) header line `t` when it is the `Content-Length` header:
/// the number after the colon, `None` inside when it is not one.
pub open spec fn header_line_length(t: Seq<char>) -> Option<Option<int>> {
    let b = encode_utf8(t);
    if key_matches(b) {
        Some(parse_unsigned(trim(decode_utf8(b.subrange(15, b.len() as int))), usize::MAX as int))
    } else {
        None
    }
}

/// What looking for the `Content-Length` header finds.
pub enum LengthField {
    /// A line cuts a character where the header name would end.
    Faults,
    /// The header, with its value if that is a number.
    Value(Option<int>),
    /// No such header.
    Absent,
}

/// Looking for the `Content-Length` header in the lines `ls`, first line first.
pub open spec fn length_scan(ls: Seq<Seq<char>>) -> LengthField
    decreases ls.len(),
{
    if ls.len() == 0 {
        LengthField::Absent
    } else {
        let t = trim(ls[0]);
        if header_line_faults(t) {
            LengthField::Faults
        } else {
            match header_line_length(t) {
                Some(v) => LengthField::Value(v),
                None => length_scan(ls.drop_first()),
            }
        }
    }
}

/// Looking for the `Content-Length` header in the header bytes `h`; a header that is not
/// UTF-8 has none.
pub open spec fn content_length_field(h: Seq<u8>) -> LengthField {
    if valid_utf8(h) {
        length_scan(lines(decode_utf8(h)))
    } else {
        LengthField::Absent
    }
}

/// The length a request header states for its body, as `parse_content_length` reads it.
pub open spec fn content_length_value(h: Seq<u8>) -> Option<int> {
    match content_length_field(h) {
        LengthField::Value(v) => v,
        _ => None,
    }
}

/// Looks at one trimmed header line: `Err` where reading it cuts a character, else the
/// header's value when it is `Content-Length`.
fn length_line(t: &[char]) -> (r: Result<Option<Option<usize>>, ()>)
    ensures
        r is Err <==> header_line_faults(t@),
        r matches Ok(v) ==> match header_line_length(t@) {
            None => v is None,
            Some(None) => v == Some(None::<usize>),
            Some(Some(n)) => v == Some(Some(n as usize)) && 0 <= n <= usize::MAX,
        },
{
    let s = string_of(t);
    let b = s.as_str().as_bytes();
    let n = b.len();
    proof {
        vstd::utf8::encode_utf8_valid_utf8(t@);
    }
    if n < 15 {
        return Ok(None);
    }
    assert(b@ == encode_utf8(t@));
    if n == 15 {
        proof {
            vstd::utf8::is_char_boundary_start_end_of_seq(b@);
        }
        assert(is_char_boundary(b@, 15));
    } else {
        proof {
            vstd::utf8::is_char_boundary_iff_not_is_continuation_byte(b@, 15);
        }
        if 0x80 <= b[15] && b[15] <= 0xbf {
            assert(is_continuation_byte(b@[15]));
            return Err(());
        }
        assert(!is_continuation_byte(b@[15]));
        assert(is_char_boundary(b@, 15));
    }
    let key: [u8; 15] = [0x63, 0x6f, 0x6e, 0x74, 0x65, 0x6e, 0x74, 0x2d, 0x6c, 0x65, 0x6e, 0x67, 0x74, 0x68, 0x3a];
    assert(key@ =~= content_length_key());
    let mut i: usize = 0;
    while i < 15
        invariant
            i <= 15,
            n == b@.len(),
            n >= 15,
            b@ == encode_utf8(t@),
            is_char_boundary(b@, 15),
            key@ == content_length_key(),
            forall|k: int| 0 <= k < i ==> ascii_lower(#[trigger] b@[k]) == content_length_key()[k],
        decreases 15 - i,
    {
        let c = b[i];
        let lower = if 0x41 <= c && c <= 0x5a {
            c + 32
        } else {
            c
        };
        if lower != key[i] {
            assert(!key_matches(b@)) by {
                assert(ascii_lower(b@[i as int]) != content_length_key()[i as int]);
            }
            return Ok(None);
        }
        i = i + 1;
    }
    assert(key_matches(b@));
    proof {
        vstd::utf8::valid_utf8_split(b@, 15);
    }
    let rest = vstd::slice::slice_subrange(b, 15, n);
    assert(rest@ =~= b@.subrange(15, n as int));
    let cs = match decode_chars(rest) {
        Some(c) => c,
        None => {
            return Ok(None);
        },
    };
    let v = trim_chars(cs.as_slice());
    match parse_unsigned_exec(v.as_slice(), usize::MAX as u64) {
        Some(x) => {
            proof {
                lemma_parse_unsigned_range(v@, usize::MAX as int);
            }
            Ok(Some(Some(x as usize)))
        },
        None => Ok(Some(None)),
    }
}

/// Looks for the `Content-Length` header in the header bytes: `Err` where that would cut
/// a character, else what `content_length_field` finds.
fn scan_content_length(header: &[u8]) -> (r: Result<Option<usize>, ()>)
    ensures
        r is Err <==> content_length_field(header@) == LengthField::Faults,
        r matches Ok(v) ==> match content_length_value(header@) {
            Some(n) => v == Some(n as usize) && 0 <= n <= usize::MAX,
            None => v is None,
        },
{
    let cs = match decode_chars(header) {
        Some(c) => c,
        None => {
            return Ok(None);
        },
    };
    let ls = lines_exec(cs.as_slice());
    let ghost l = seqs_of(ls@);
    assert(l.skip(0) =~= l);
    let mut k: usize = 0;
    while k < ls.len()
        invariant
            k <= ls@.len(),
            l == seqs_of(ls@),
            l == lines(cs@),
            cs@ == decode_utf8(header@),
            valid_utf8(header@),
            length_scan(l) == length_scan(l.skip(k as int)),
        decreases ls@.len() - k,
    {
        let ghost rest = l.skip(k as int);
        assert(rest[0] == ls@[k as int]@);
        assert(rest.drop_first() =~= l.skip(k + 1));
        let t = trim_chars(ls[k].as_slice());
        match length_line(t.as_slice()) {
            Err(()) => {
                return Err(());
            },
            Ok(Some(v)) => {
                return Ok(v);
            },
            Ok(None) => {},
        }
        k = k + 1;
    }
    assert(l.skip(k as int).len() == 0);
    Ok(None)
}

/// The body length stated by the `Content-Length` header of `header`, read the way an
/// HTTP/1 server does: the first line whose trimmed text starts with the header name in
/// any case; `None` when there is no such line or its value is not a number.
pub fn parse_content_length(header: &[u8]) -> (r: Option<usize>)
    requires
        content_length_field(header@) != LengthField::Faults,
    ensures
        match content_length_value(header@) {
            Some(n) => r == Some(n as usize) && n <= usize::MAX,
            None => r is None,
        },
{
    match scan_content_length(header) {
        Ok(v) => v,
        Err(()) => None,
    }
}

/// How far reading a request has come, given the bytes read so far.
#[derive(Debug, PartialEq, Eq, Clone, Copy, Structural)]
pub enum RequestProgress {
    /// More bytes are needed.
    Incomplete,
    /// The whole request, header and body, is the first this many bytes.
    Complete(usize),
    /// Looking for the body length cuts a character in two; reading fails there.
    Fault,
}

/// What the bytes read so far say: the request is complete once the header has ended and
/// the body that `Content-Length` states (none without it) has arrived.
pub open spec fn progress_of(buf: Seq<u8>) -> RequestProgress {
    match header_end(buf) {
        None => RequestProgress::Incomplete,
        Some(h) => if content_length_field(buf.take(h)) == LengthField::Faults {
            RequestProgress::Fault
        } else {
            let body = match content_length_value(buf.take(h)) {
                Some(n) => n,
                None => 0,
            };
            if h + 4 + body <= buf.len() {
                RequestProgress::Complete((h + 4 + body) as usize)
            } else {
                RequestProgress::Incomplete
            }
        },
    }
}

/// Whether the bytes read so far hold a whole request, and how long it is. Reading a
/// request repeats this after every read; the header that decides it does not change
/// once it has ended, since later bytes only add to the end.
pub fn request_progress(buf: &[u8]) -> (r: RequestProgress)
    ensures
        r == progress_of(buf@),
{
    let h = match find_header_terminator(buf) {
        Some(h) => h,
        None => {
            return RequestProgress::Incomplete;
        },
    };
    let head = vstd::slice::slice_subrange(buf, 0, h);
    assert(head@ =~= buf@.take(h as int));
    let body = match scan_content_length(head) {
        Err(()) => {
            return RequestProgress::Fault;
        },
        Ok(Some(n)) => n,
        Ok(None) => 0,
    };
    let n = buf.len();
    if body > n - h - 4 {
        return RequestProgress::Incomplete;
    }
    RequestProgress::Complete(h + 4 + body)
}

proof fn lemma_blank_line_extend(s: Seq<u8>, t: Seq<u8>, i: int)
    requires
        0 <= i,
        blank_line_from(s, i) is Some,
    ensures
        blank_line_from(s + t, i) == blank_line_from(s, i),
        blank_line_at(s, blank_line_from(s, i)->0),
    decreases s.len() - i,
{
    let u = s + t;
    if i + 4 <= s.len() {
        assert(u[i] == s[i] && u[i + 1] == s[i + 1] && u[i + 2] == s[i + 2] && u[i + 3] == s[i + 3]);
        if !blank_line_at(s, i) {
            lemma_blank_line_extend(s, t, i + 1);
        }
    }
}

/// **Law: reading more does not change a decided request.** Once the bytes read so far
/// hold a whole request (or reading has failed), more bytes after them give the same
/// answer: the header that decides it ends before them.
pub proof fn lemma_progress_stable(buf: Seq<u8>, more: Seq<u8>)
    ensures
        progress_of(buf) is Complete ==> progress_of(buf + more) == progress_of(buf),
        progress_of(buf) == RequestProgress::Fault ==> progress_of(buf + more) == RequestProgress::Fault,
{
    if header_end(buf) is Some {
        lemma_blank_line_extend(buf, more, 0);
        let h = header_end(buf)->0;
        assert((buf + more).take(h) =~= buf.take(h));
    }
}

/// Media type of plain text replies.
pub const TEXT_PLAIN: &'static str = "text/plain; charset=utf-8";
/// Media type of the page.
pub const TEXT_HTML: &'static str = "text/html; charset=utf-8";
/// Media type of the property list.
pub const APPLICATION_JSON: &'static str = "application/json; charset=utf-8";

/// A reply to send.
pub struct HttpResponse {
    pub status: &'static str,
    pub content_type: &'static str,
    pub body: String,
}

/// What to do with a request.
pub enum WebStep {
    /// Send this reply.
    Reply(HttpResponse),
    /// The property `name` was changed (its value was `prev`): write `contents` to the
    /// store's file, then `finish_put` gives the reply.
    Persist { name: String, prev: String, contents: String },
}

/// `step` sends a reply with this status, media type and text.
pub open spec fn replies(step: WebStep, status: &'static str, content_type: &'static str, body: Seq<char>) -> bool {
    step matches WebStep::Reply(r) && r.status == status && r.content_type == content_type
        && r.body@ == body
}

/// The property named by a path under `/prop/`.
pub open spec fn prop_name_of(path: Seq<char>) -> Option<Seq<char>> {
    if path.len() >= 6 && path.take(6) == "/prop/"@ {
        Some(path.skip(6))
    } else {
        None
    }
}

/// `str::trim_end_matches(['\r', '\n'])`.
pub open spec fn trim_end_crlf(s: Seq<char>) -> Seq<char>
    decreases s.len(),
{
    if s.len() > 0 && (s.last() == '\r' || s.last() == '\n') {
        trim_end_crlf(s.drop_last())
    } else {
        s
    }
}

/// What a `PUT` of the body `body` to the property `name` does to the properties
/// `before`, giving `after` and `step`.
pub open spec fn put_handled(
    before: Seq<PropView>,
    after: Seq<PropView>,
    name: Seq<char>,
    body: Seq<u8>,
    step: WebStep,
) -> bool {
    if !valid_utf8(body) {
        replies(step, "400 Bad Request", TEXT_PLAIN, "value is not utf8"@) && after == before
    } else {
        let v = trim_end_crlf(decode_utf8(body));
        match find_prop(before, name) {
            None => replies(step, "400 Bad Request", TEXT_PLAIN, "unknown prop"@) && after == before,
            Some(i) => match value_check(before[i].ty, v) {
                Err(e) => replies(step, "400 Bad Request", TEXT_PLAIN, e@) && after == before,
                Ok(nv) => {
                    &&& after == before.update(i, with_value(before[i], nv))
                    &&& step matches WebStep::Persist { name: n, prev, contents }
                    &&& n@ == name
                    &&& prev@ == before[i].value
                    &&& contents@ == props_text(after)
                },
            },
        }
    }
}

/// What the server does with the request `req` (`None` when it could not be read) over
/// the properties `before`, giving `after` and `step`: the page at `GET /`, the list at
/// `GET /props`, one value at `GET /prop/<name>`, a change at `PUT /prop/<name>`, and
/// `404`/`400` replies for the rest.
pub open spec fn handled(before: Seq<PropView>, after: Seq<PropView>, req: Option<Seq<u8>>, step: WebStep) -> bool {
    match req {
        None => replies(step, "400 Bad Request", TEXT_PLAIN, "bad request"@) && after == before,
        Some(b) => match http_request(b) {
            None => replies(step, "400 Bad Request", TEXT_PLAIN, "bad request"@) && after == before,
            Some((m, p, start)) => if m == "GET"@ && p == "/"@ {
                replies(step, "200 OK", TEXT_HTML, GUI_HTML@) && after == before
            } else if m == "GET"@ && p == "/props"@ {
                replies(step, "200 OK", APPLICATION_JSON, seq!['['] + props_json_items(before) + seq![']'])
                    && after == before
            } else {
                match prop_name_of(p) {
                    Some(name) => if m == "GET"@ {
                        after == before && match find_prop(before, name) {
                            Some(i) => replies(step, "200 OK", TEXT_PLAIN, before[i].value),
                            None => replies(step, "404 Not Found", TEXT_PLAIN, "unknown prop"@),
                        }
                    } else if m == "PUT"@ {
                        put_handled(before, after, name, b.skip(start), step)
                    } else {
                        replies(step, "404 Not Found", TEXT_PLAIN, "not found"@) && after == before
                    },
                    None => replies(step, "404 Not Found", TEXT_PLAIN, "not found"@) && after == before,
                }
            },
        },
    }
}

fn reply(status: &'static str, content_type: &'static str, body: String) -> (r: WebStep)
    ensures
        replies(r, status, content_type, body@),
{
    WebStep::Reply(HttpResponse { status, content_type, body })
}

fn text_reply(status: &'static str, body: &str) -> (r: WebStep)
    ensures
        replies(r, status, TEXT_PLAIN, body@),
{
    reply(status, TEXT_PLAIN, body.to_owned())
}

/// The characters of `s` without its trailing `\r` and `\n`.
fn trim_end_crlf_exec(s: &[char]) -> (r: Vec<char>)
    ensures
        r@ == trim_end_crlf(s@),
{
    let mut n = s.len();
    assert(s@.take(n as int) =~= s@);
    while n > 0 && (s[n - 1] == '\r' || s[n - 1] == '\n')
        invariant
            n <= s@.len(),
            trim_end_crlf(s@) == trim_end_crlf(s@.take(n as int)),
        decreases n,
    {
        assert(s@.take(n as int).drop_last() =~= s@.take(n - 1));
        n = n - 1;
    }
    sub_chars(s, 0, n)
}

fn handle_put(store: &mut PropStore, name: &[char], body: &[u8]) -> (step: WebStep)
    ensures
        final(store).spec_persist_path() == old(store).spec_persist_path(),
        put_handled(old(store)@, final(store)@, name@, body@, step),
{
    let cs = match decode_chars(body) {
        Some(c) => c,
        None => {
            return text_reply("400 Bad Request", "value is not utf8");
        },
    };
    let v = trim_end_crlf_exec(cs.as_slice());
    let name_s = string_of(name);
    let value_s = string_of(v.as_slice());
    let prev = match store.get(name_s.as_str()) {
        Some(p) => string_of(chars_of(p).as_slice()),
        None => String::new(),
    };
    match store.set(name_s.as_str(), value_s.as_str()) {
        Err(e) => reply("400 Bad Request", TEXT_PLAIN, e),
        Ok(_) => {
            let contents = serialize_props_file(store.all());
            WebStep::Persist { name: name_s, prev, contents }
        },
    }
}

/// Handles one request (`None` when it could not be read) against the properties.
pub fn handle_request(store: &mut PropStore, req: Option<&[u8]>) -> (step: WebStep)
    ensures
        final(store).spec_persist_path() == old(store).spec_persist_path(),
        handled(
            old(store)@,
            final(store)@,
            match req {
                Some(b) => Some(b@),
                None => None,
            },
            step,
        ),
{
    let buf = match req {
        Some(b) => b,
        None => {
            return text_reply("400 Bad Request", "bad request");
        },
    };
    let parsed = match parse_http_request(buf) {
        Some(p) => p,
        None => {
            return text_reply("400 Bad Request", "bad request");
        },
    };
    let m = chars_of(parsed.method.as_str());
    let p = chars_of(parsed.path.as_str());
    let is_get = crate::text::chars_eq_str(m.as_slice(), "GET");
    if is_get && crate::text::chars_eq_str(p.as_slice(), "/") {
        return reply("200 OK", TEXT_HTML, GUI_HTML.to_owned());
    }
    if is_get && crate::text::chars_eq_str(p.as_slice(), "/props") {
        return reply("200 OK", APPLICATION_JSON, props_to_json(store.all()));
    }
    let prefix = chars_of("/prop/");
    proof {
        reveal_strlit("/prop/");
    }
    if p.len() < 6 {
        return text_reply("404 Not Found", "not found");
    }
    let head = sub_chars(p.as_slice(), 0, 6);
    proof {
        lemma_take_subrange(p@);
    }
    if !crate::text::chars_eq(head.as_slice(), prefix.as_slice()) {
        return text_reply("404 Not Found", "not found");
    }
    let name = sub_chars(p.as_slice(), 6, p.len());
    assert(p@.take(6) =~= p@.subrange(0, 6));
    assert(name@ =~= p@.skip(6));
    if is_get {
        let name_s = string_of(name.as_slice());
        return match store.get(name_s.as_str()) {
            Some(v) => text_reply("200 OK", v),
            None => text_reply("404 Not Found", "unknown prop"),
        };
    }
    if crate::text::chars_eq_str(m.as_slice(), "PUT") {
        return handle_put(store, name.as_slice(), parsed.body);
    }
    text_reply("404 Not Found", "not found")
}

/// `take` of a sequence is its first subrange.
proof fn lemma_take_subrange(s: Seq<char>)
    requires
        s.len() >= 6,
    ensures
        s.take(6) == s.subrange(0, 6),
{
    assert(s.take(6) =~= s.subrange(0, 6));
}

/// The reply to a change once writing the store's file was tried: the new value when
/// it was saved; otherwise the old value is put back and the failure is reported.
pub fn finish_put(store: &mut PropStore, name: &str, prev: String, persisted: Result<(), &str>) -> (r: HttpResponse)
    ensures
        final(store).spec_persist_path() == old(store).spec_persist_path(),
        match persisted {
            Ok(()) => final(store)@ == old(store)@ && match find_prop(old(store)@, name@) {
                Some(i) => r.status == "200 OK" && r.content_type == TEXT_PLAIN && r.body@ == old(
                    store,
                )@[i].value,
                None => r.status == "404 Not Found" && r.content_type == TEXT_PLAIN && r.body@
                    == "unknown prop"@,
            },
            Err(e) => r.status == "400 Bad Request" && r.content_type == TEXT_PLAIN && r.body@
                == "persist failed: "@ + e@ && match find_prop(old(store)@, name@) {
                None => final(store)@ == old(store)@,
                Some(i) => final(store)@ == old(store)@.update(i, with_value(old(store)@[i], prev@)),
            },
        },
{
    match persisted {
        Ok(()) => match store.get(name) {
            Some(v) => HttpResponse { status: "200 OK", content_type: TEXT_PLAIN, body: v.to_owned() },
            None => HttpResponse {
                status: "404 Not Found",
                content_type: TEXT_PLAIN,
                body: "unknown prop".to_owned(),
            },
        },
        Err(e) => {
            store.revert(name, prev);
            HttpResponse { status: "400 Bad Request", content_type: TEXT_PLAIN, body: persist_failed(e) }
        },
    }
}

/// The head of a reply: status line, media type, body length, `Connection: close`.
pub open spec fn response_head_text(status: Seq<char>, content_type: Seq<char>, len: nat) -> Seq<char> {
    "HTTP/1.1 "@ + status + "\r\nContent-Type: "@ + content_type + "\r\nContent-Length: "@
        + dec_chars(len) + "\r\nConnection: close\r\n\r\n"@
}

/// The head of a reply whose body is `body_len` bytes long.
pub fn response_head(status: &str, content_type: &str, body_len: usize) -> (r: String)
    ensures
        r@ == response_head_text(status@, content_type@, body_len as nat),
{
    let mut out: Vec<char> = Vec::new();
    push_str_chars(&mut out, "HTTP/1.1 ");
    push_str_chars(&mut out, status);
    push_str_chars(&mut out, "\r\nContent-Type: ");
    push_str_chars(&mut out, content_type);
    push_str_chars(&mut out, "\r\nContent-Length: ");
    push_decimal(&mut out, body_len as u64);
    push_str_chars(&mut out, "\r\nConnection: close\r\n\r\n");
    string_of(out.as_slice())
}

/// The page served at `/`: a form for viewing and changing the properties.
pub const GUI_HTML: &'static str = r#"<!doctype html>
<html lang="en">
<head>
  <meta charset="utf-8">
  <meta name="viewport" content="width=device-width, initial-scale=1">
  <title>Props</title>
  <style>
    body { font-family: sans-serif; margin: 20px; max-width: 700px; }
    h1 { margin-bottom: 12px; }
    .row { display: grid; grid-template-columns: 220px 1fr; gap: 12px; align-items: center; margin: 8px 0; }
    .name { font-family: monospace; }
    .hint { color: #666; font-size: 12px; margin-top: 2px; }
    input[type=text], input[type=number], select { width: 100%; padding: 6px; box-sizing: border-box; }
  </style>
</head>
<body>
  <h1>Device Properties</h1>
  <div id="props"></div>
  <script>
    async function loadProps() {
      const res = await fetch('/props');
      const props = await res.json();
      render(props);
    }

    async function setProp(name, value) {
      const res = await fetch('/prop/' + encodeURIComponent(name), { method: 'PUT', body: value });
      if (!res.ok) {
        const msg = await res.text();
        alert(name + ': ' + msg);
        await loadProps();
      }
    }

    function render(props) {
      const root = document.getElementById('props');
      root.innerHTML = '';
      for (const p of props) {
        const row = document.createElement('div');
        row.className = 'row';

        const left = document.createElement('div');
        left.innerHTML = '<div class="name">' + p.name + '</div><div class="hint">' + p.type + '</div>';
        row.appendChild(left);

        let input;
        if (p.type === 'bool') {
          input = document.createElement('input');
          input.type = 'checkbox';
          input.checked = (p.value === 'true');
          input.onchange = () => setProp(p.name, input.checked ? 'true' : 'false');
        } else if (p.type === 'enum') {
          input = document.createElement('select');
          for (const v of p.values) {
            const o = document.createElement('option');
            o.value = v;
            o.textContent = v;
            o.selected = (v === p.value);
            input.appendChild(o);
          }
          input.onchange = () => setProp(p.name, input.value);
        } else if (p.type === 'int') {
          input = document.createElement('input');
          input.type = 'number';
          input.min = String(p.min);
          input.max = String(p.max);
          input.value = p.value;
          input.onchange = () => setProp(p.name, input.value);
        } else {
          input = document.createElement('input');
          input.type = 'text';
          input.minLength = p.min_len;
          input.maxLength = p.max_len;
          input.value = p.value;
          input.onchange = () => setProp(p.name, input.value);
        }

        row.appendChild(input);
        root.appendChild(row);
      }
    }

    loadProps();
  </script>
</body>
</html>
"#;

} // verus!
