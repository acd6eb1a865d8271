//! A small HTTP client: what goes out, and what comes back.

use vstd::prelude::*;
use crate::text;
use crate::text::behind_last;
use crate::text::dec;
use crate::text::head_of;
use crate::text::lines;
use crate::text::lowered;
use crate::text::past;
use crate::text::same;
use crate::text::second_word;
use crate::text::tail_of;
use crate::text::trimmed;
use crate::text::uint_value;
use crate::text::views;

verus! {

/// Longest head of an answer that the observer puts up with.
pub const OBSERVER_HEAD_LIMIT: usize = 256 * 1024;

/// Longest head of an answer that an upload puts up with.
pub const PUSH_HEAD_LIMIT: usize = 64 * 1024;

/// What `String::from_utf8_lossy` makes of bytes.
pub uninterp spec fn lossy(b: Seq<u8>) -> Seq<char>;

/// `String::from_utf8_lossy`: valid UTF-8 gives the text it encodes.
#[verifier::external_body]
pub(crate) fn text_from_bytes(b: &[u8]) -> (r: String)
    ensures
        r@ == lossy(b@),
        vstd::utf8::valid_utf8(b@) ==> vstd::utf8::encode_utf8(r@) == b@,
{
    String::from_utf8_lossy(b).into_owned()
}

/// What stands in front of the last `:` and behind it; the whole text where there is none.
pub open spec fn host_port(s: Seq<char>) -> (Seq<char>, Option<Seq<char>>) {
    if tail_of(s, ':') is Some {
        let p = behind_last(s, ':');
        (s.take(s.len() - p.len() - 1), Some(p))
    } else {
        (s, None)
    }
}

/// Host, port and path of an address, or what is wrong with it.
pub open spec fn url_parts(url: Seq<char>) -> Result<(Seq<char>, int, Seq<char>), Seq<char>> {
    match past(url, "http://"@) {
        None => Err("只支持 http://（本机/局域网）"@),
        Some(s) => {
            let authority = head_of(s, '/');
            let path = match tail_of(s, '/') {
                Some(t) => seq!['/'] + t,
                None => seq!['/'],
            };
            let (host, port) = host_port(authority);
            let p = match port {
                Some(p) => uint_value(p, 65535),
                None => Some(80),
            };
            match p {
                None => Err("端口非法"@),
                Some(p) => if host.len() == 0 {
                    Err("URL 缺主机"@)
                } else {
                    Ok((host, p, path))
                },
            }
        },
    }
}

proof fn lemma_behind(s: Seq<char>, c: char)
    ensures
        behind_last(s, c).len() <= s.len(),
        tail_of(s, c) is Some ==> behind_last(s, c).len() < s.len(),
    decreases s.len(),
{
    text::lemma_cut_at(s, c);
    match tail_of(s, c) {
        Some(t) => {
            lemma_behind(t, c);
        },
        None => {},
    }
}

/// Host, port and path of an address. The refusal says what is wrong with it.
pub fn split_url(url: &str) -> (r: Result<(String, u16, String), String>)
    ensures
        match r {
            Ok(t) => url_parts(url@) == Ok::<(Seq<char>, int, Seq<char>), Seq<char>>((t.0@, t.1 as int, t.2@)),
            Err(e) => url_parts(url@) == Err::<(Seq<char>, int, Seq<char>), Seq<char>>(e@),
        },
{
    let s = match text::strip_prefix(url, "http://") {
        Some(s) => s,
        None => {
            return Err("只支持 http://（本机/局域网）".to_owned());
        },
    };
    let (authority, tail) = text::split_once(s.as_str(), '/');
    let mut path = String::new();
    path.push('/');
    match tail {
        Some(t) => path.append(t.as_str()),
        None => {},
    }
    assert(path@ =~= (match tail_of(s@, '/') {
        Some(t) => seq!['/'] + t,
        None => seq!['/'],
    }));
    let (first, more) = text::split_once(authority.as_str(), ':');
    let (host, port) = match more {
        Some(_) => {
            let p = text::after_last(authority.as_str(), ':');
            proof {
                lemma_behind(authority@, ':');
            }
            let v = text::chars_of(authority.as_str());
            let k: usize = p.as_str().unicode_len();
            let h = text::text_of(v.as_slice(), 0, v.len() - k - 1);
            assert(h@ =~= authority@.take(authority@.len() - p@.len() - 1));
            let n: u16 = match text::parse_uint(p.as_str(), 65535) {
                Some(n) => n as u16,
                None => {
                    return Err("端口非法".to_owned());
                },
            };
            (h, n)
        },
        None => (authority, 80),
    };
    if host.as_str().is_empty() {
        return Err("URL 缺主机".to_owned());
    }
    Ok((host, port, path))
}

/// The line that carries a token, if there is one.
pub open spec fn token_line(token: Option<Seq<char>>) -> Seq<char> {
    match token {
        Some(t) => "X-ClassAgent-Token: "@ + t + "\r\n"@,
        None => Seq::empty(),
    }
}

/// The head of a request of the observer.
pub open spec fn observer_head(method: Seq<char>, host: Seq<char>, path: Seq<char>, token: Option<Seq<char>>, len: int) -> Seq<char> {
    method + " "@ + path + " HTTP/1.1\r\nHost: "@ + host
        + "\r\nUser-Agent: agent-observer\r\nAccept: application/json, text/plain\r\n"@ + token_line(token)
        + "Content-Length: "@ + dec(len) + "\r\nConnection: close\r\n\r\n"@
}

/// The head of an upload.
pub open spec fn upload_head(addr: Seq<char>, path: Seq<char>, token: Option<Seq<char>>, len: int) -> Seq<char> {
    "POST "@ + path + " HTTP/1.1\r\nHost: "@ + addr
        + "\r\nUser-Agent: classagent-core\r\nContent-Type: application/json\r\n"@ + token_line(token)
        + "Content-Length: "@ + dec(len) + "\r\nConnection: close\r\nAccept: application/json\r\n\r\n"@
}

fn token_line_of(token: Option<&str>) -> (r: String)
    ensures
        r@ == token_line(crate::json::ref_str(token)),
{
    match token {
        Some(t) => {
            let mut s = "X-ClassAgent-Token: ".to_owned();
            s.append(t);
            s.append("\r\n");
            s
        },
        None => String::new(),
    }
}

/// The head of a request of the observer.
pub fn request_head(method: &str, host: &str, path: &str, token: Option<&str>, len: usize) -> (r: String)
    ensures
        r@ == observer_head(method@, host@, path@, crate::json::ref_str(token), len as int),
{
    let mut s = method.to_owned();
    s.append(" ");
    s.append(path);
    s.append(" HTTP/1.1\r\nHost: ");
    s.append(host);
    s.append("\r\nUser-Agent: agent-observer\r\nAccept: application/json, text/plain\r\n");
    s.append(token_line_of(token).as_str());
    s.append("Content-Length: ");
    text::push_dec(&mut s, len as u64);
    s.append("\r\nConnection: close\r\n\r\n");
    s
}

/// The head of an upload.
pub fn post_head(addr: &str, path: &str, token: Option<&str>, len: usize) -> (r: String)
    ensures
        r@ == upload_head(addr@, path@, crate::json::ref_str(token), len as int),
{
    let mut s = "POST ".to_owned();
    s.append(path);
    s.append(" HTTP/1.1\r\nHost: ");
    s.append(addr);
    s.append("\r\nUser-Agent: classagent-core\r\nContent-Type: application/json\r\n");
    s.append(token_line_of(token).as_str());
    s.append("Content-Length: ");
    text::push_dec(&mut s, len as u64);
    s.append("\r\nConnection: close\r\nAccept: application/json\r\n\r\n");
    s
}

/// How far the head of an answer has come in.
#[derive(Debug, Clone, Copy, PartialEq, Eq, Structural)]
pub enum HeadState {
    More,
    Complete,
    TooLarge,
}

/// Whether bytes end with an empty line.
pub open spec fn ends_head(b: Seq<u8>) -> bool {
    b.len() >= 4 && b[b.len() - 4] == 13 && b[b.len() - 3] == 10 && b[b.len() - 2] == 13 && b[b.len() - 1] == 10
}

/// How far the head of an answer has come in: up to the empty line, or too far.
pub fn head_state(b: &[u8], limit: usize) -> (r: HeadState)
    ensures
        r == (if ends_head(b@) {
            HeadState::Complete
        } else if b@.len() > limit {
            HeadState::TooLarge
        } else {
            HeadState::More
        }),
{
    let n: usize = b.len();
    if n >= 4 && b[n - 4] == 13 && b[n - 3] == 10 && b[n - 2] == 13 && b[n - 1] == 10 {
        HeadState::Complete
    } else if n > limit {
        HeadState::TooLarge
    } else {
        HeadState::More
    }
}

/// The code in the first line of an answer: 0 where there is none.
pub open spec fn status_code(head: Seq<char>) -> int {
    if lines(head).len() == 0 {
        0
    } else {
        match second_word(lines(head)[0]) {
            Some(w) => match uint_value(w, 65535) {
                Some(c) => c,
                None => 0,
            },
            None => 0,
        }
    }
}

/// The length that a line states, if it is the one that does.
pub open spec fn length_in(line: Seq<char>) -> Option<int> {
    match tail_of(line, ':') {
        Some(v) => if lowered(trimmed(head_of(line, ':'))) == lowered("content-length"@) {
            uint_value(trimmed(v), usize::MAX as int)
        } else {
            None
        },
        None => None,
    }
}

/// The length stated first in some lines: 0 where none states it.
pub open spec fn stated_length(ls: Seq<Seq<char>>) -> int
    decreases ls.len(),
{
    if ls.len() == 0 {
        0
    } else {
        match length_in(ls[0]) {
            Some(n) => n,
            None => stated_length(ls.drop_first()),
        }
    }
}

fn length_of(line: &str) -> (r: Option<usize>)
    ensures
        (match r {
            Some(n) => Some(n as int),
            None => None,
        }) == length_in(line@),
{
    let (k, v) = text::split_once(line, ':');
    match v {
        Some(v) => {
            let name = text::to_lower(text::trim(k.as_str()).as_str());
            if same(name.as_str(), text::to_lower("content-length").as_str()) {
                match text::parse_uint(text::trim(v.as_str()).as_str(), usize::MAX as u64) {
                    Some(n) => Some(n as usize),
                    None => None,
                }
            } else {
                None
            }
        },
        None => None,
    }
}

/// The code of an answer, and how long its body is, from the text of its head.
pub fn read_head(head: &str) -> (r: (u16, usize))
    ensures
        r.0 == status_code(head@),
        r.1 == stated_length(lines(head@)),
{
    let ls = text::lines_of(head);
    let ghost x = views(ls@);
    let mut code: u16 = 0;
    if ls.len() > 0 {
        assert(x[0] == ls@[0]@);
        match text::second_word_of(ls[0].as_str()) {
            Some(w) => match text::parse_uint(w.as_str(), 65535) {
                Some(c) => {
                    code = c as u16;
                },
                None => {},
            },
            None => {},
        }
    }
    let mut i: usize = 0;
    assert(x.skip(0) =~= x);
    while i < ls.len()
        invariant
            i <= ls@.len(),
            x == views(ls@),
            x == lines(head@),
            code == status_code(head@),
            stated_length(x) == stated_length(x.skip(i as int)),
        decreases ls@.len() - i,
    {
        proof {
            assert(x.skip(i as int)[0] == ls@[i as int]@);
            assert(x.skip(i as int).drop_first() =~= x.skip(i + 1));
        }
        match length_of(ls[i].as_str()) {
            Some(n) => {
                return (code, n);
            },
            None => {},
        }
        i += 1;
    }
    (code, 0)
}

/// The code of an answer, and how long its body is, from the bytes of its head.
pub fn read_head_bytes(head: &[u8]) -> (r: (u16, usize))
    ensures
        r.0 == status_code(lossy(head@)),
        r.1 == stated_length(lines(lossy(head@))),
        vstd::utf8::valid_utf8(head@) ==> r.0 == status_code(vstd::utf8::decode_utf8(head@)) && r.1 == stated_length(
            lines(vstd::utf8::decode_utf8(head@)),
        ),
{
    let text = text_from_bytes(head);
    proof {
        vstd::utf8::encode_utf8_decode_utf8(text@);
    }
    read_head(text.as_str())
}

/// The text of a body.
pub fn body_text(b: &[u8]) -> (r: String)
    ensures
        r@ == lossy(b@),
        vstd::utf8::valid_utf8(b@) ==> vstd::utf8::encode_utf8(r@) == b@,
{
    text_from_bytes(b)
}

/// Whether the code of an answer says success.
pub fn succeeded(code: u16) -> (r: bool)
    ensures
        r == (200 <= code <= 299),
{
    200 <= code && code <= 299
}

/// What an answer comes to: its body where the code says success, else a complaint.
pub fn judge(code: u16, body: String) -> (r: Result<String, String>)
    ensures
        match r {
            Ok(b) => 200 <= code <= 299 && b == body,
            Err(e) => !(200 <= code <= 299) && e@ == "HTTP "@ + dec(code as int) + ": "@ + body@,
        },
{
    if succeeded(code) {
        Ok(body)
    } else {
        let mut s = "HTTP ".to_owned();
        text::push_dec(&mut s, code as u64);
        s.append(": ");
        s.append(body.as_str());
        Err(s)
    }
}

proof fn lemma_digits_only(n: int, c: char)
    requires
        0 <= n,
        c == ':' || c == '/',
    ensures
        !dec(n).contains(c),
        dec(n).len() > 0,
    decreases n,
{
    if n >= 10 {
        lemma_digits_only(n / 10, c);
        let r = dec(n / 10);
        if dec(n).contains(c) {
            let i = choose|i: int| 0 <= i < dec(n).len() && dec(n)[i] == c;
            if i < r.len() {
                assert(r[i] == c);
                assert(r.contains(c));
            }
        }
    }
}

proof fn lemma_no_mark(a: Seq<char>, b: Seq<char>, c: char)
    requires
        !a.contains(c),
        !b.contains(c),
    ensures
        !(a + b).contains(c),
{
    if (a + b).contains(c) {
        let i = choose|i: int| 0 <= i < (a + b).len() && (a + b)[i] == c;
        if i < a.len() {
            assert(a[i] == c);
            assert(a.contains(c));
        } else {
            assert(b[i - a.len()] == c);
            assert(b.contains(c));
        }
    }
}

/// An address is taken apart into what it was put together from: host, port and path; without a port
/// it is the eightieth, and without a path the root.
pub proof fn addresses_come_apart(host: Seq<char>, port: int, path: Seq<char>)
    requires
        host.len() > 0,
        !host.contains(':'),
        !host.contains('/'),
        0 <= port <= 65535,
        path.len() > 0 ==> path[0] == '/',
    ensures
        ({
            let there = if path.len() > 0 {
                path
            } else {
                seq!['/']
            };
            &&& url_parts("http://"@ + (host + seq![':'] + dec(port) + path)) == Ok::<(Seq<char>, int, Seq<char>), Seq<char>>(
                (host, port, there),
            )
            &&& url_parts("http://"@ + (host + path)) == Ok::<(Seq<char>, int, Seq<char>), Seq<char>>((host, 80, there))
        }),
{
    let p = "http://"@;
    let d = dec(port);
    lemma_digits_only(port, ':');
    lemma_digits_only(port, '/');
    text::numbers_read_back(port);
    let auth = host + seq![':'] + d;
    // With a port.
    let s = auth + path;
    let url = p + s;
    assert(url.subrange(0, p.len() as int) =~= p);
    assert(url.skip(p.len() as int) =~= s);
    assert(!seq![':'].contains('/'));
    lemma_no_mark(host, seq![':'], '/');
    lemma_no_mark(host + seq![':'], d, '/');
    text::lemma_cut_behind(auth, path, '/');
    text::lemma_behind_mark(host, ':', d);
    text::lemma_cut_behind(host, seq![':'] + d, ':');
    assert(auth =~= host + (seq![':'] + d));
    assert(auth.take(auth.len() - d.len() - 1) =~= host);
    assert(host_port(auth) == (host, Some(d)));
    assert(uint_value(d, 65535) == Some(port));
    if path.len() > 0 {
        assert(seq!['/'] + path.drop_first() =~= path);
    }
    // Without one.
    let t = host + path;
    let bare = p + t;
    assert(bare.subrange(0, p.len() as int) =~= p);
    assert(bare.skip(p.len() as int) =~= t);
    text::lemma_cut_behind(host, path, '/');
    text::lemma_cut_behind(host, Seq::empty(), ':');
    assert(host + Seq::<char>::empty() =~= host);
    assert(host_port(host) == (host, None::<Seq<char>>));
}

/// The first line that states a length decides, and without one the length is 0.
pub proof fn the_first_length_counts(ls: Seq<Seq<char>>, i: int)
    requires
        0 <= i <= ls.len(),
        forall|j: int| 0 <= j < i ==> length_in(#[trigger] ls[j]) is None,
        i < ls.len() ==> length_in(ls[i]) is Some,
    ensures
        stated_length(ls) == (if i < ls.len() {
            length_in(ls[i])->0
        } else {
            0
        }),
    decreases ls.len(),
{
    if ls.len() > 0 && i > 0 {
        let t = ls.drop_first();
        assert(length_in(ls[0]) is None);
        assert forall|j: int| 0 <= j < i - 1 implies length_in(#[trigger] t[j]) is None by {
            assert(t[j] == ls[j + 1]);
        }
        if i < ls.len() {
            assert(t[i - 1] == ls[i]);
        }
        the_first_length_counts(t, i - 1);
    }
}

proof fn lemma_word(w: Seq<char>, rest: Seq<char>)
    requires
        forall|i: int| 0 <= i < w.len() ==> !text::white(#[trigger] w[i]),
        rest.len() > 0 ==> text::white(rest[0]),
    ensures
        text::word_end(w + rest) == w.len(),
    decreases w.len(),
{
    if w.len() > 0 {
        let v = w.drop_first();
        assert(!text::white(w[0]));
        assert forall|i: int| 0 <= i < v.len() implies !text::white(#[trigger] v[i]) by {
            assert(v[i] == w[i + 1]);
        }
        lemma_word(v, rest);
        assert((w + rest).drop_first() =~= v + rest);
    } else {
        assert(w + rest =~= rest);
    }
}

proof fn lemma_digits_are_words(n: int)
    requires
        0 <= n,
    ensures
        dec(n).len() > 0,
        forall|i: int| 0 <= i < dec(n).len() ==> !text::white(#[trigger] dec(n)[i]) && dec(n)[i] != '\n',
    decreases n,
{
    if n >= 10 {
        lemma_digits_are_words(n / 10);
        assert forall|i: int| 0 <= i < dec(n).len() implies !text::white(#[trigger] dec(n)[i]) && dec(n)[i] != '\n' by {
            if i < dec(n / 10).len() {
                assert(dec(n)[i] == dec(n / 10)[i]);
            }
        }
    }
}

/// The code of an answer is the number behind the first word of its first line, whatever follows.
pub proof fn codes_are_read(version: Seq<char>, code: int, words: Seq<char>, rest: Seq<char>)
    requires
        version.len() > 0,
        forall|i: int| 0 <= i < version.len() ==> !text::white(#[trigger] version[i]),
        0 <= code <= 65535,
        !words.contains('\n'),
        words.len() > 0,
        words.last() != '\r',
    ensures
        status_code(version + seq![' '] + dec(code) + (seq![' '] + words) + seq!['\n'] + rest) == code,
{
    let d = dec(code);
    let tail = seq![' '] + words;
    let line = version + seq![' '] + d + tail;
    lemma_digits_are_words(code);
    text::numbers_read_back(code);
    if line.contains('\n') {
        let i = choose|i: int| 0 <= i < line.len() && line[i] == '\n';
        if i < version.len() {
            assert(version[i] == '\n');
            assert(!text::white(version[i]));
        } else if i > version.len() && i < version.len() + 1 + d.len() {
            assert(d[i - version.len() - 1] == '\n');
        } else if i > version.len() + 1 + d.len() {
            assert(words[i - version.len() - 2 - d.len()] == '\n');
        }
    }
    text::lines_end_with_their_feed(line, rest);
    assert(line.last() == words.last());
    assert(text::strip_cr(line) == line);
    assert(lines(line + seq!['\n'] + rest)[0] == line);
    let behind = seq![' '] + d + tail;
    assert(line =~= version + behind);
    assert(!text::white(line[0])) by {
        assert(line[0] == version[0]);
    }
    assert(text::trim_front(line) == line);
    lemma_word(version, behind);
    assert(line.skip(version.len() as int) =~= behind);
    assert(behind.drop_first() =~= d + tail);
    assert(!text::white((d + tail)[0])) by {
        assert((d + tail)[0] == d[0]);
    }
    reveal_with_fuel(text::trim_front, 3);
    assert(text::trim_front(behind) == d + tail);
    lemma_word(d, tail);
    assert((d + tail).take(d.len() as int) =~= d);
    assert(second_word(line) == Some(d));
}

} // verus!
