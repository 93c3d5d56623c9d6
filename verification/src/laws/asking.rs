//! What requests mean and who is answered, told by the texts that came in.
//!
//! A law of this file takes what a function was given and what it gave, bound by the
//! contract of that function, and says how the one follows from the other.

use crate::http;
use crate::http::{Content, Head, Query, Route};
use crate::laws::texts;
use crate::refusal::Refusal;
use crate::split;
use crate::text;
use vstd::prelude::*;
use vstd::utf8::{decode_utf8, encode_utf8, valid_utf8};

verus! {

// ---------------------------- percent encoding ----------------------------

/// The byte is the hexadecimal digit of `v`, small or capital.
pub open spec fn is_hex_of(c: u8, v: u8) -> bool {
    v < 16 && if v < 10 {
        c == 48 + v
    } else {
        c == 97 + (v - 10) || c == 65 + (v - 10)
    }
}

proof fn lemma_hex(c: u8)
    ensures
        forall|v: u8| #[trigger] is_hex_of(c, v) <==> http::hex_value(c) == Some(v),
        http::hex_value(c) is None <==> forall|v: u8| !(#[trigger] is_hex_of(c, v)),
{
    if http::hex_value(c) is Some {
        assert(is_hex_of(c, http::hex_value(c)->0));
    }
}

/// Law: a byte is read as a hexadecimal digit where it is one, and as its value.
pub proof fn law_hex_digits(c: u8, r: Option<u8>)
    requires
        call_ensures(http::hex, (c,), r),
    ensures
        forall|v: u8| r == Some(v) <==> #[trigger] is_hex_of(c, v),
{
    lemma_hex(c);
}

proof fn lemma_decoded_skip(b: Seq<u8>, k: int, i: int)
    requires
        0 <= k <= b.len(),
        0 <= i,
    ensures
        http::decoded_from(b.skip(k), i) == http::decoded_from(b, k + i),
    decreases b.len() - k - i,
{
    if k + i < b.len() {
        let t = b.skip(k);
        assert(t[i] == b[k + i]);
        if i + 2 < t.len() {
            assert(t[i + 1] == b[k + i + 1] && t[i + 2] == b[k + i + 2]);
            lemma_decoded_skip(b, k, i + 3);
        }
        assert(http::is_escape(t, i) == http::is_escape(b, k + i));
        lemma_decoded_skip(b, k, i + 1);
    }
}

/// Law: bytes are decoded from the front: an escape gives the byte that its two digits
/// write, a plus sign a space, any other byte itself, and the rest is decoded after it. `r`
/// is what `b` gives, `one` what it gives without its first byte, `three` without its first
/// three.
pub proof fn law_decoded_from_the_front(
    b: &[u8],
    r: Vec<u8>,
    b1: &[u8],
    one: Vec<u8>,
    b3: &[u8],
    three: Vec<u8>,
)
    requires
        call_ensures(http::pct_bytes, (b,), r),
        call_ensures(http::pct_bytes, (b1,), one),
        call_ensures(http::pct_bytes, (b3,), three),
        b@.len() >= 1 ==> b1@ == b@.skip(1),
        b@.len() >= 3 ==> b3@ == b@.skip(3),
    ensures
        b@.len() == 0 ==> r@.len() == 0,
        b@.len() > 0 ==> {
            let escape = b@.len() >= 3 && b@[0] == '%' as u8 && exists|h: u8, l: u8|
                #![trigger is_hex_of(b@[1], h), is_hex_of(b@[2], l)]
                is_hex_of(b@[1], h) && is_hex_of(b@[2], l);
            &&& escape ==> r@.len() > 0 && (forall|h: u8, l: u8|
                #![trigger is_hex_of(b@[1], h), is_hex_of(b@[2], l)]
                is_hex_of(b@[1], h) && is_hex_of(b@[2], l) ==> r@[0] == 16 * h + l) && r@.skip(1)
                == three@
            &&& !escape ==> r@ == seq![
                if b@[0] == '+' as u8 {
                    ' ' as u8
                } else {
                    b@[0]
                },
            ] + one@
        },
{
    if b@.len() > 0 {
        lemma_decoded_skip(b@, 1, 0);
        if b@.len() >= 3 {
            lemma_decoded_skip(b@, 3, 0);
            lemma_hex(b@[1]);
            lemma_hex(b@[2]);
            if http::is_escape(b@, 0) {
                let h = http::hex_value(b@[1])->0;
                let l = http::hex_value(b@[2])->0;
                assert(is_hex_of(b@[1], h) && is_hex_of(b@[2], l));
                assert(r@.skip(1) =~= three@);
            }
        }
    }
}

/// Law: a text is decoded to the text that its decoded bytes are, where they are one.
pub proof fn law_decoded_text(s: &str, r: String, b: &[u8], d: Vec<u8>)
    requires
        call_ensures(http::pct_decode, (s,), r),
        b@ == encode_utf8(s@),
        call_ensures(http::pct_bytes, (b,), d),
    ensures
        valid_utf8(d@) ==> r@ == decode_utf8(d@),
{
}

// ---------------------------- parameters ----------------------------

/// The piece gives a key its value: what stands in front of its first equals sign, and what
/// stands behind it.
pub open spec fn is_pair(piece: Seq<char>, a: Seq<char>, b: Seq<char>) -> bool {
    piece == a.push('=') + b && !a.contains('=')
}

proof fn lemma_pair(piece: Seq<char>, a: Seq<char>, b: Seq<char>)
    ensures
        is_pair(piece, a, b) ==> split::cut(piece, '=') == Some((a, b)),
        !piece.contains('=') ==> split::cut(piece, '=') is None,
{
    if is_pair(piece, a, b) {
        split::lemma_first_place(a, '=', b);
        assert(piece.take(a.len() as int) =~= a);
        assert(piece.skip(a.len() as int + 1) =~= b);
        assert(piece[a.len() as int] == '=');
    } else if !piece.contains('=') {
        split::lemma_no_place(piece, '=', 0);
    }
}

/// What one piece does to parameters: it gives its key its value, in place of the one it
/// had; a piece without an equals sign does nothing.
pub open spec fn piece_adds(
    piece: Seq<char>,
    a: Seq<char>,
    b: Seq<char>,
    key: Seq<char>,
    value: Seq<char>,
    before: Option<Seq<char>>,
    k: Seq<char>,
    after: Option<Seq<char>>,
) -> bool {
    &&& is_pair(piece, a, b) ==> after == if k == key {
        Some(value)
    } else {
        before
    }
    &&& !piece.contains('=') ==> after == before
}

/// Law: parameters are read piece by piece, between one `&` and the next: each piece gives
/// its decoded key its decoded value, and of two pieces with one key the later one counts.
/// `t` is `s` with one piece more, `a` and `b` what stands on both sides of its first equals
/// sign.
pub proof fn law_one_piece_more(
    s: &str,
    qs: Query,
    t: &str,
    qt: Query,
    piece: Seq<char>,
    a: &str,
    key: String,
    b: &str,
    value: String,
    k: Seq<char>,
)
    requires
        call_ensures(http::parse_query, (s,), qs),
        call_ensures(http::parse_query, (t,), qt),
        t@ == s@.push('&') + piece,
        !piece.contains('&'),
        call_ensures(http::pct_decode, (a,), key),
        call_ensures(http::pct_decode, (b,), value),
    ensures
        piece_adds(piece, a@, b@, key@, value@, qs.value(k), k, qt.value(k)),
{
    let ps = split::pieces(s@, '&');
    let pt = split::pieces(t@, '&');
    split::lemma_pieces_joined(s@, '&', piece, 0);
    split::lemma_one_piece(piece, '&');
    assert(pt =~= ps.push(piece));
    lemma_same_values(ps, pt, ps.len() as int, k);
    lemma_pair(piece, a@, b@);
    assert(pt[pt.len() - 1] == piece);
}

proof fn lemma_same_values(ps: Seq<Seq<char>>, pt: Seq<Seq<char>>, n: int, k: Seq<char>)
    requires
        n <= ps.len() <= pt.len(),
        forall|i: int| 0 <= i < n ==> ps[i] == pt[i],
    ensures
        http::value_in(ps, n, k) == http::value_in(pt, n, k),
    decreases n,
{
    if n > 0 {
        lemma_same_values(ps, pt, n - 1, k);
    }
}

/// Law: a single piece gives its decoded key its decoded value, and there is nothing else;
/// an empty text gives nothing at all.
pub proof fn law_single_piece(
    t: &str,
    q: Query,
    a: &str,
    key: String,
    b: &str,
    value: String,
    k: Seq<char>,
)
    requires
        call_ensures(http::parse_query, (t,), q),
        !t@.contains('&'),
        call_ensures(http::pct_decode, (a,), key),
        call_ensures(http::pct_decode, (b,), value),
    ensures
        piece_adds(t@, a@, b@, key@, value@, None, k, q.value(k)),
        t@.len() == 0 ==> q.value(k) is None,
{
    split::lemma_one_piece(t@, '&');
    lemma_pair(t@, a@, b@);
    assert(split::pieces(t@, '&')[0] == t@);
    assert(http::value_in(split::pieces(t@, '&'), 0, k) is None);
}

/// Law: the target of a request is a path, and behind its first question mark parameters;
/// without one it is a path alone.
pub proof fn law_target(
    t: &str,
    r: (String, Query),
    path: Seq<char>,
    rest: &str,
    q: Query,
    k: Seq<char>,
)
    requires
        call_ensures(http::parse_target, (t,), r),
        call_ensures(http::parse_query, (rest,), q),
        !path.contains('?'),
    ensures
        t@ == path.push('?') + rest@ ==> r.0@ == path && r.1.value(k) == q.value(k),
        t@ == path ==> r.0@ == path && r.1.value(k) is None,
{
    let got = r.1.value(k);
    let same = q.value(k);
    if t@ == path.push('?') + rest@ {
        split::lemma_first_place(path, '?', rest@);
        assert(t@.take(path.len() as int) =~= path);
        assert(t@.skip(path.len() as int + 1) =~= rest@);
    } else if t@ == path {
        split::lemma_no_place(path, '?', 0);
    }
}

// ---------------------------- the head of a request ----------------------------

/// Law: the first line of a request gives its method and its target, its first two words,
/// whatever white space stands around them.
pub proof fn law_first_line(
    line: &str,
    r: (String, String),
    pre: Seq<char>,
    method: Seq<char>,
    mid: Seq<char>,
    target: Seq<char>,
    post: Seq<char>,
)
    requires
        call_ensures(http::request_line, (line,), r),
        line@ == pre + method + mid + target + post,
        texts::all_white(pre),
        texts::none_white(method),
        method.len() > 0,
        texts::all_white(mid),
        mid.len() > 0,
        texts::none_white(target),
        target.len() > 0,
        post.len() == 0 || text::is_white(post[0]),
    ensures
        r.0@ == method,
        r.1@ == target,
{
    let s = line@;
    let a = pre.len() as int;
    let b = a + method.len();
    let c = b + mid.len();
    let d = c + target.len();
    assert forall|i: int| 0 <= i < a implies text::is_white(#[trigger] s[i]) by {
        assert(s[i] == pre[i]);
    }
    assert forall|i: int| a <= i < b implies !text::is_white(#[trigger] s[i]) by {
        assert(s[i] == method[i - a]);
    }
    assert forall|i: int| b <= i < c implies text::is_white(#[trigger] s[i]) by {
        assert(s[i] == mid[i - b]);
    }
    assert forall|i: int| c <= i < d implies !text::is_white(#[trigger] s[i]) by {
        assert(s[i] == target[i - c]);
    }
    assert(d < s.len() ==> s[d] == post[0]);
    texts::lemma_next_white(s, 0, a, false);
    texts::lemma_next_white(s, a, b, true);
    texts::lemma_next_white(s, b, c, false);
    texts::lemma_next_white(s, c, d, true);
    assert(s.subrange(a, b) =~= method);
    assert(s.subrange(c, d) =~= target);
}

/// Law: a first line of one word asks for the root.
pub proof fn law_first_line_without_target(
    line: &str,
    r: (String, String),
    pre: Seq<char>,
    method: Seq<char>,
    post: Seq<char>,
)
    requires
        call_ensures(http::request_line, (line,), r),
        line@ == pre + method + post,
        texts::all_white(pre),
        texts::none_white(method),
        method.len() > 0,
        texts::all_white(post),
    ensures
        r.0@ == method,
        r.1@ == "/"@,
{
    let s = line@;
    let a = pre.len() as int;
    let b = a + method.len();
    let c = s.len() as int;
    assert forall|i: int| 0 <= i < a implies text::is_white(#[trigger] s[i]) by {
        assert(s[i] == pre[i]);
    }
    assert forall|i: int| a <= i < b implies !text::is_white(#[trigger] s[i]) by {
        assert(s[i] == method[i - a]);
    }
    assert forall|i: int| b <= i < c implies text::is_white(#[trigger] s[i]) by {
        assert(s[i] == post[i - b]);
    }
    assert(b < c ==> text::is_white(s[b]));
    texts::lemma_next_white(s, 0, a, false);
    texts::lemma_next_white(s, a, b, true);
    texts::lemma_next_white(s, b, c, false);
    texts::lemma_next_white(s, c, c, true);
    assert(s.subrange(a, b) =~= method);
}

/// The line gives header `name` the value `v`: the name in any case, then the value, with
/// white space around it or none. The value is taken with small ASCII letters.
pub open spec fn gives(line: Seq<char>, name: Seq<char>, v: Seq<char>) -> bool {
    exists|pre: Seq<char>, post: Seq<char>|
        #![trigger name + pre + v + post]
        texts::small(line) == name + pre + v + post && texts::all_white(pre) && texts::all_white(
            post,
        ) && texts::no_white_ends(v)
}

/// The line is about header `name`.
pub open spec fn is_about(line: Seq<char>, name: Seq<char>) -> bool {
    line.len() >= name.len() && texts::small(line).take(name.len() as int) == name
}

proof fn lemma_gives(line: Seq<char>, name: Seq<char>, v: Seq<char>)
    ensures
        gives(line, name, v) ==> http::header_value(line, name) == Some(v),
        !is_about(line, name) ==> http::header_value(line, name) is None,
{
    let low = line.map_values(|c: char| text::lower_char(c));
    assert(low =~= texts::small(line));
    if gives(line, name, v) {
        let (pre, post) = choose|pre: Seq<char>, post: Seq<char>|
            #![trigger name + pre + v + post]
            texts::small(line) == name + pre + v + post && texts::all_white(pre)
                && texts::all_white(post) && texts::no_white_ends(v);
        assert(low.take(name.len() as int) =~= name);
        assert(low.skip(name.len() as int) =~= pre + v + post);
        texts::lemma_trimmed(pre, v, post);
    }
}

/// Law: a line of the head says what its header says, whatever the case of its name: the
/// host, the length of the body, the mark. A line about anything else changes nothing, and a
/// blank line ends the head.
pub proof fn law_head_line(h: &mut Head, line: &str, r: bool, v: Seq<char>, n: nat)
    requires
        call_ensures(Head::line, (h, line), r),
        n <= usize::MAX,
    ensures
        texts::all_white(line@) ==> !r && *final(h) == *old(h),
        !texts::all_white(line@) ==> r,
        r && gives(line@, "host:"@, v) ==> (final(h).host matches Some(t) && t@ == v),
        r && !is_about(line@, "host:"@) ==> text::text_in(final(h).host) == text::text_in(
            old(h).host,
        ),
        r && gives(line@, "content-length:"@, text::decimal(n)) ==> final(h).content_len == n,
        r && !is_about(line@, "content-length:"@) ==> final(h).content_len == old(h).content_len,
        r && gives(line@, "x-diskmap:"@, v) ==> final(h).marked == (v == "1"@),
        r && !is_about(line@, "x-diskmap:"@) ==> final(h).marked == old(h).marked,
{
    texts::lemma_blank(line@);
    lemma_gives(line@, "host:"@, v);
    lemma_gives(line@, "content-length:"@, text::decimal(n));
    lemma_gives(line@, "x-diskmap:"@, v);
    text::law_decimal_back(n);
    assert(text::is_digit(text::decimal(n)[0]));
}

/// Law: a head starts with nothing said: no body, no host, no mark.
pub proof fn law_head_starts_empty(h: Head)
    requires
        call_ensures(Head::new, (), h),
    ensures
        h.content_len == 0,
        h.host is None,
        !h.marked,
{
}

// ---------------------------- who is answered ----------------------------

/// The host is one of the names of this machine, with a port or without one.
pub open spec fn is_this_machine(h: Seq<char>) -> bool {
    ||| h == "::1"@
    ||| is_named(h, "127.0.0.1"@)
    ||| is_named(h, "localhost"@)
    ||| is_named(h, "[::1]"@)
}

pub open spec fn is_named(h: Seq<char>, name: Seq<char>) -> bool {
    h == name || exists|port: Seq<char>|
        #![trigger name.push(':') + port]
        h == name.push(':') + port && forall|i: int|
            0 <= i < port.len() ==> '0' <= #[trigger] port[i] <= '9'
}

proof fn lemma_named(h: Seq<char>, name: Seq<char>)
    ensures
        http::is_host(h, name) == is_named(h, name),
{
    let n = name.len() as int;
    if http::is_host(h, name) {
        if h.len() == n {
            assert(h =~= h.take(n));
        } else {
            let port = h.skip(n + 1);
            assert(h =~= h.take(n).push(':') + port);
            assert forall|i: int| 0 <= i < port.len() implies '0' <= #[trigger] port[i] <= '9' by {
                assert(text::is_digit(port[i]));
            }
        }
    }
    if is_named(h, name) {
        if h == name {
            assert(h.take(n) =~= name);
        } else {
            let port = choose|port: Seq<char>|
                #![trigger name.push(':') + port]
                h == name.push(':') + port && forall|i: int|
                    0 <= i < port.len() ==> '0' <= #[trigger] port[i] <= '9';
            assert(h.take(n) =~= name);
            assert(h[n] == ':');
            assert(h.skip(n + 1) =~= port);
        }
    }
}

/// Law: a request is served only where its host names this machine, its route is known and,
/// if it is a `POST`, it carries the mark; there it always is. Else it is told the first of
/// these that fails.
pub proof fn law_who_is_served(
    method: &str,
    path: &str,
    head: &Head,
    r: Result<Route, Refusal>,
    asked: Route,
)
    requires
        call_ensures(http::accept, (method, path, head), r),
        call_ensures(http::route, (method, path), asked),
    ensures
        ({
            let here = head.host is Some && is_this_machine(head.host->0@);
            let known = !(asked is Unknown);
            let allowed = method@ != "POST"@ || head.marked;
            &&& r is Ok <==> here && known && allowed
            &&& r matches Ok(route) ==> route == asked
            &&& r matches Err(e) ==> {
                &&& !here ==> e is ForeignHost
                &&& here && !known ==> e is UnknownRoute
                &&& here && known ==> e is Unmarked
            }
        }),
{
    if let Some(h) = head.host {
        lemma_named(h@, "127.0.0.1"@);
        lemma_named(h@, "localhost"@);
        lemma_named(h@, "[::1]"@);
    }
}

/// Law: what only reads is asked for by `GET` and what changes anything by `POST`, each at
/// its own path; a walk at any path below `/api/scan/`. Nothing else is known.
pub proof fn law_routes(method: &str, path: &str, r: Route)
    requires
        call_ensures(http::route, (method, path), r),
    ensures
        ({
            let get = method@ == "GET"@;
            let post = method@ == "POST"@;
            let p = path@;
            &&& r is Index <==> get && (p == "/"@ || p == "/index.html"@)
            &&& r is State <==> get && p == "/api/state"@
            &&& r is Tree <==> get && p == "/api/tree"@
            &&& r is Search <==> get && p == "/api/search"@
            &&& r is Unreadable <==> get && p == "/api/unreadable"@
            &&& r is Scan <==> post && p.len() >= 10 && p.take(10) == "/api/scan/"@
            &&& r is Reveal <==> post && p == "/api/reveal"@
            &&& r is Quit <==> post && p == "/api/quit"@
            &&& r is Delete <==> post && p == "/api/delete"@
            &&& r is Open <==> post && p == "/api/open"@
        }),
{
    reveal_strlit("GET");
    reveal_strlit("POST");
    reveal_strlit("/");
    reveal_strlit("/index.html");
    reveal_strlit("/api/state");
    reveal_strlit("/api/tree");
    reveal_strlit("/api/search");
    reveal_strlit("/api/unreadable");
    reveal_strlit("/api/scan/");
    reveal_strlit("/api/reveal");
    reveal_strlit("/api/quit");
    reveal_strlit("/api/delete");
    reveal_strlit("/api/open");
    assert("GET"@.len() == 3 && "POST"@.len() == 4);
    assert("/api/scan/"@.len() == 10 && "/api/scan/"@[5] == 's');
    assert("/"@.len() == 1 && "/index.html"@.len() == 11 && "/api/tree"@.len() == 9);
    assert("/api/state"@.len() == 10 && "/api/search"@.len() == 11 && "/api/unreadable"@.len()
        == 15);
    assert("/index.html"@[1] == 'i' && "/api/search"@[1] == 'a');
    assert("/api/reveal"@.len() == 11 && "/api/quit"@.len() == 9 && "/api/delete"@.len() == 11
        && "/api/open"@.len() == 9);
    assert("/api/reveal"@[5] == 'r' && "/api/quit"@[5] == 'q' && "/api/delete"@[5] == 'd'
        && "/api/open"@[5] == 'o');
    let p = path@;
    if p.len() >= 10 {
        assert(p.take(10)[5] == p[5]);
    }
}

// ---------------------------- answers ----------------------------

/// Law: the head of an answer tells its status, what the body is and how many bytes it has,
/// that the connection ends with it and that it is not to be kept; a blank line ends it.
pub proof fn law_answer_head(status: &str, content: Content, len: usize, r: String)
    requires
        call_ensures(http::answer_head, (status, content, len), r),
    ensures
        ({
            let kind = match content {
                Content::Html => "text/html; charset=utf-8"@,
                Content::Json => "application/json; charset=utf-8"@,
                Content::Plain => "text/plain; charset=utf-8"@,
            };
            r@ == "HTTP/1.1 "@ + status@ + "\r\nContent-Type: "@ + kind + "\r\nContent-Length: "@
                + text::decimal(len as nat)
                + "\r\nConnection: close\r\nCache-Control: no-store"@ + "\r\n\r\n"@
        }),
{
}

/// The state of the volumes, as it is written: the volumes, the letter of the one that is
/// walked where there is one, the rights.
pub open spec fn state_text(volumes: Seq<u8>, walked: Option<u8>, eleve: bool) -> Seq<u8> {
    let end = if eleve {
        encode_utf8("\"eleve\":true}"@)
    } else {
        encode_utf8("\"eleve\":false}"@)
    };
    let scanning = match walked {
        Some(l) => encode_utf8("\""@) + seq![l] + encode_utf8("\","@),
        None => encode_utf8("null,"@),
    };
    encode_utf8("{\"drives\":["@) + volumes + encode_utf8("],\"scanning\":"@) + scanning + end
}

proof fn lemma_ends(b: Seq<u8>, front: Seq<u8>, tail: Seq<u8>)
    requires
        b == front + tail,
    ensures
        http::ends_so(b, tail),
        b.take(front.len() as int) == front,
{
    assert(b.skip(b.len() - tail.len()) =~= tail);
    assert(b.take(front.len() as int) =~= front);
}

proof fn lemma_state_text(volumes: Seq<u8>, walked: Option<u8>, eleve: bool)
    requires
        walked matches Some(l) ==> 65 <= l <= 90,
    ensures
        http::is_state_body(state_text(volumes, walked, eleve)),
{
    let b = state_text(volumes, walked, eleve);
    let open = encode_utf8("{\"drives\":["@);
    assert(b.take(open.len() as int) =~= open);
    reveal_strlit("],\"scanning\":");
    reveal_strlit("],\"scanning\":\"");
    reveal_strlit("\"");
    reveal_strlit("\",");
    reveal_strlit("null,");
    reveal_strlit("\"eleve\":true}");
    reveal_strlit("\"eleve\":false}");
    reveal_strlit("],\"scanning\":null,\"eleve\":true}");
    reveal_strlit("],\"scanning\":null,\"eleve\":false}");
    reveal_strlit("\",\"eleve\":true}");
    reveal_strlit("\",\"eleve\":false}");
    let end = if eleve {
        "\"eleve\":true}"@
    } else {
        "\"eleve\":false}"@
    };
    match walked {
        None => {
            let tail = if eleve {
                "],\"scanning\":null,\"eleve\":true}"@
            } else {
                "],\"scanning\":null,\"eleve\":false}"@
            };
            assert(tail =~= "],\"scanning\":"@ + "null,"@ + end);
            texts::lemma_joined_bytes("],\"scanning\":"@ + "null,"@, end);
            texts::lemma_joined_bytes("],\"scanning\":"@, "null,"@);
            assert(b =~= (open + volumes) + encode_utf8(tail));
            lemma_ends(b, open + volumes, encode_utf8(tail));
        },
        Some(l) => {
            let tail = if eleve {
                "\",\"eleve\":true}"@
            } else {
                "\",\"eleve\":false}"@
            };
            assert(tail =~= "\","@ + end);
            texts::lemma_joined_bytes("\","@, end);
            assert("],\"scanning\":\""@ =~= "],\"scanning\":"@ + "\""@);
            texts::lemma_joined_bytes("],\"scanning\":"@, "\""@);
            let mid = encode_utf8("],\"scanning\":\""@);
            let front = open + volumes + mid;
            assert(b =~= front.push(l) + encode_utf8(tail));
            lemma_ends(b, front.push(l), encode_utf8(tail));
            let n = b.len() - encode_utf8(tail).len() - 1;
            assert(n == front.len());
            assert(b[n] == l);
            assert(b.take(n) =~= front);
            lemma_ends(front, open + volumes, mid);
        },
    }
}

/// Law: an instance of this program that answers with the state of its volumes is known,
/// whatever its volumes are and whatever it walks.
pub proof fn law_instance_is_known(
    status: &str,
    len: usize,
    head: String,
    volumes: Seq<u8>,
    walked: Option<u8>,
    eleve: bool,
    answer: &[u8],
    r: bool,
)
    requires
        status@ == "200 OK"@,
        call_ensures(http::answer_head, (status, Content::Json, len), head),
        walked matches Some(l) ==> 65 <= l <= 90,
        answer@ == encode_utf8(head@) + state_text(volumes, walked, eleve),
        call_ensures(http::already_running, (answer,), r),
    ensures
        r,
{
    lemma_state_text(volumes, walked, eleve);
    http::law_own_answer_is_known(state_text(volumes, walked, eleve), len as nat);
}

/// A blank line ends the head in front of place `n`, where the list of volumes starts.
pub open spec fn opens_at(b: Seq<u8>, n: int) -> bool {
    let open = encode_utf8("{\"drives\":["@);
    &&& 4 <= n
    &&& n + open.len() <= b.len()
    &&& b.subrange(n - 4, n) == seq![13u8, 10u8, 13u8, 10u8]
    &&& b.subrange(n, n + open.len()) == open
}

/// The end of the state of the volumes: which one is walked, and the rights.
pub open spec fn state_tail(walked: Option<u8>, eleve: bool) -> Seq<u8> {
    let end = if eleve {
        encode_utf8("\"eleve\":true}"@)
    } else {
        encode_utf8("\"eleve\":false}"@)
    };
    match walked {
        Some(l) => encode_utf8("],\"scanning\":\""@) + seq![l] + encode_utf8("\","@) + end,
        None => encode_utf8("],\"scanning\":null,"@) + end,
    }
}

/// The bytes end as the state of the volumes does.
pub open spec fn ends_as_state(b: Seq<u8>, walked: Option<u8>, eleve: bool) -> bool {
    let tail = state_tail(walked, eleve);
    &&& walked matches Some(l) ==> 65 <= l <= 90
    &&& tail.len() <= b.len()
    &&& b.skip(b.len() - tail.len()) == tail
}

proof fn lemma_body(b: Seq<u8>, i: int)
    requires
        0 <= i,
        http::body_from(b, i) is Some,
    ensures
        exists|n: int|
            #![trigger b.skip(n)]
            i + 4 <= n <= b.len() && http::body_from(b, i) == Some(b.skip(n)) && http::blank_at(
                b,
                n - 4,
            ),
    decreases b.len() - i,
{
    if http::blank_at(b, i) {
        assert(http::body_from(b, i) == Some(b.skip(i + 4)));
    } else {
        lemma_body(b, i + 1);
    }
}

proof fn lemma_tail(b: Seq<u8>)
    requires
        http::is_state_body(b),
    ensures
        exists|walked: Option<u8>, eleve: bool| #[trigger] ends_as_state(b, walked, eleve),
{
    reveal_strlit("],\"scanning\":null,");
    reveal_strlit("\",");
    reveal_strlit("\"eleve\":true}");
    reveal_strlit("\"eleve\":false}");
    reveal_strlit("],\"scanning\":null,\"eleve\":true}");
    reveal_strlit("],\"scanning\":null,\"eleve\":false}");
    reveal_strlit("\",\"eleve\":true}");
    reveal_strlit("\",\"eleve\":false}");
    let t = "\"eleve\":true}"@;
    let f = "\"eleve\":false}"@;
    let idle = "],\"scanning\":null,"@;
    let close = "\","@;
    texts::lemma_joined_bytes(idle, t);
    texts::lemma_joined_bytes(idle, f);
    texts::lemma_joined_bytes(close, t);
    texts::lemma_joined_bytes(close, f);
    assert("],\"scanning\":null,\"eleve\":true}"@ =~= idle + t);
    assert("],\"scanning\":null,\"eleve\":false}"@ =~= idle + f);
    assert("\",\"eleve\":true}"@ =~= close + t);
    assert("\",\"eleve\":false}"@ =~= close + f);
    if http::ends_so(b, encode_utf8("],\"scanning\":null,\"eleve\":true}"@)) {
        assert(ends_as_state(b, None, true));
    } else if http::ends_so(b, encode_utf8("],\"scanning\":null,\"eleve\":false}"@)) {
        assert(ends_as_state(b, None, false));
    } else if http::ends_busy(b, encode_utf8("\",\"eleve\":true}"@)) {
        lemma_busy(b, encode_utf8("\",\"eleve\":true}"@), true);
    } else {
        lemma_busy(b, encode_utf8("\",\"eleve\":false}"@), false);
    }
}

proof fn lemma_busy(b: Seq<u8>, tail: Seq<u8>, eleve: bool)
    requires
        http::ends_busy(b, tail),
        tail == encode_utf8("\","@) + encode_utf8(
            if eleve {
                "\"eleve\":true}"@
            } else {
                "\"eleve\":false}"@
            },
        ),
    ensures
        exists|walked: Option<u8>| #[trigger] ends_as_state(b, walked, eleve),
{
    let n = b.len() - tail.len() - 1;
    let mid = encode_utf8("],\"scanning\":\""@);
    let l = b[n];
    let want = state_tail(Some(l), eleve);
    assert(want =~= mid + seq![l] + tail);
    let at = n - mid.len();
    assert(b.take(n).skip(at) =~= mid);
    assert(b.skip(b.len() - tail.len()) =~= tail);
    assert forall|i: int| 0 <= i < want.len() implies b.skip(at)[i] == want[i] by {
        if i < mid.len() {
            assert(b.take(n).skip(at)[i] == mid[i]);
        } else if i > mid.len() {
            assert(b.skip(b.len() - tail.len())[i - mid.len() - 1] == tail[i - mid.len() - 1]);
        }
    }
    assert(b.skip(at) =~= want);
    assert(ends_as_state(b, Some(l), eleve));
}

/// Law: no other answer is taken for one of this program: its status serves the request, a
/// blank line ends its head, and its body starts and ends as the state of the volumes does.
pub proof fn law_others_are_not_taken_for_it(answer: &[u8], r: bool)
    requires
        call_ensures(http::already_running, (answer,), r),
        r,
    ensures
        answer@.len() >= 12,
        answer@.take(12) == encode_utf8("HTTP/1.1 200"@),
        exists|n: int| #[trigger] opens_at(answer@, n),
        exists|walked: Option<u8>, eleve: bool| #[trigger] ends_as_state(answer@, walked, eleve),
{
    let a = answer@;
    reveal_strlit("HTTP/1.1 200");
    assert(vstd::utf8::is_ascii_chars("HTTP/1.1 200"@));
    vstd::utf8::is_ascii_chars_encode_utf8("HTTP/1.1 200"@);
    assert(encode_utf8("HTTP/1.1 200"@).len() == 12);
    lemma_body(a, 0);
    let body = http::body_from(a, 0)->0;
    let n = choose|n: int|
        #![trigger a.skip(n)]
        0 + 4 <= n <= a.len() && http::body_from(a, 0) == Some(a.skip(n)) && http::blank_at(
            a,
            n - 4,
        );
    let open = encode_utf8("{\"drives\":["@);
    assert(a.subrange(n - 4, n) =~= seq![13u8, 10u8, 13u8, 10u8]);
    assert(a.subrange(n, n + open.len()) =~= body.take(open.len() as int));
    assert(opens_at(a, n));
    lemma_tail(body);
    let (walked, eleve) = choose|walked: Option<u8>, eleve: bool| #[trigger]
        ends_as_state(body, walked, eleve);
    let tail = state_tail(walked, eleve);
    assert(a.skip(a.len() - tail.len()) =~= body.skip(body.len() - tail.len()));
    assert(ends_as_state(a, walked, eleve));
}

/// Law: a length that is no number is none; a first line without a word has no method and
/// asks for the root.
pub proof fn law_odd_heads(
    h: &mut Head,
    line: &str,
    r: bool,
    v: Seq<char>,
    blank: &str,
    w: (String, String),
)
    requires
        call_ensures(Head::line, (h, line), r),
        r,
        gives(line@, "content-length:"@, v),
        crate::laws::showing::no_number(v),
        call_ensures(http::request_line, (blank,), w),
        texts::all_white(blank@),
    ensures
        final(h).content_len == 0,
        w.0@.len() == 0,
        w.1@ == "/"@,
{
    lemma_gives(line@, "content-length:"@, v);
    crate::laws::showing::lemma_asks(Some(v), usize::MAX as nat, 0, 0);
    crate::laws::showing::lemma_asks(Some(v), usize::MAX as nat, 1, 1);
    let n = blank@.len() as int;
    texts::lemma_next_white(blank@, 0, n, false);
    texts::lemma_next_white(blank@, n, n, true);
    texts::lemma_next_white(blank@, n, n, false);
}

/// Law: a parameter has the value that it was given last, and the others keep theirs.
pub proof fn law_parameters(
    q: &mut Query,
    key: String,
    value: String,
    k: &str,
    got: Option<&str>,
    other: Seq<char>,
    none: Query,
)
    requires
        old(q).wf(),
        call_ensures(Query::set, (q, key, value), ()),
        k@ == key@,
        call_ensures(Query::get, (&*final(q), k), got),
        other != key@,
        call_ensures(Query::new, (), none),
    ensures
        got matches Some(v) && v@ == value@,
        final(q).value(other) == old(q).value(other),
        none.value(other) is None,
{
    let a = final(q).value(other);
    let b = none.value(other);
}

} // verus!
