//! Requests and answers of the local server, as text.

use crate::refusal::Refusal;
use crate::split;
use crate::table::Table;
use crate::text;
use vstd::prelude::*;

verus! {

// ---------------------------- percent encoding ----------------------------

/// The value of a hexadecimal digit.
pub open spec fn hex_value(c: u8) -> Option<u8> {
    if 48 <= c <= 57 {
        Some((c - 48) as u8)
    } else if 97 <= c <= 102 {
        Some((c - 87) as u8)
    } else if 65 <= c <= 70 {
        Some((c - 55) as u8)
    } else {
        None
    }
}

pub fn hex(c: u8) -> (r: Option<u8>)
    ensures
        r == hex_value(c),
{
    if c >= 48 && c <= 57 {
        Some(c - 48)
    } else if c >= 97 && c <= 102 {
        Some(c - 87)
    } else if c >= 65 && c <= 70 {
        Some(c - 55)
    } else {
        None
    }
}

/// A percent sign and two hexadecimal digits stand at place `i`.
pub open spec fn is_escape(b: Seq<u8>, i: int) -> bool {
    i + 2 < b.len() && b[i] == 37 && hex_value(b[i + 1]) is Some && hex_value(b[i + 2]) is Some
}

/// The bytes from place `i` on, decoded: an escape stands for one byte, a plus sign for a
/// space, any other byte for itself.
pub open spec fn decoded_from(b: Seq<u8>, i: int) -> Seq<u8>
    decreases b.len() - i,
{
    if i >= b.len() {
        Seq::empty()
    } else if is_escape(b, i) {
        seq![(hex_value(b[i + 1])->0 * 16 + hex_value(b[i + 2])->0) as u8] + decoded_from(b, i + 3)
    } else if b[i] == 43 {
        seq![32u8] + decoded_from(b, i + 1)
    } else {
        seq![b[i]] + decoded_from(b, i + 1)
    }
}

/// Decodes the bytes of a text of a query.
pub fn pct_bytes(b: &[u8]) -> (r: Vec<u8>)
    ensures
        r@ == decoded_from(b@, 0),
{
    let mut out: Vec<u8> = Vec::new();
    let mut i: usize = 0;
    assert(out@ + decoded_from(b@, 0) =~= decoded_from(b@, 0));
    while i < b.len()
        invariant
            i <= b@.len(),
            out@ + decoded_from(b@, i as int) == decoded_from(b@, 0),
        decreases b@.len() - i,
    {
        let ghost before = out@;
        let ghost rest = decoded_from(b@, i as int);
        let mut byte: u8 = b[i];
        let mut step: usize = 1;
        if byte == 37 && b.len() - i > 2 {
            match (hex(b[i + 1]), hex(b[i + 2])) {
                (Some(h), Some(l)) => {
                    byte = h * 16 + l;
                    step = 3;
                },
                _ => {},
            }
        } else if byte == 43 {
            byte = 32;
        }
        out.push(byte);
        proof {
            assert(rest =~= seq![byte] + decoded_from(b@, i + step));
            assert(before + rest =~= out@ + decoded_from(b@, i + step));
        }
        i = i + step;
    }
    assert(out@ =~= decoded_from(b@, 0));
    out
}

/// A text of a query, decoded.
pub open spec fn decoded(s: Seq<char>) -> Seq<char> {
    text::lossy_text(decoded_from(vstd::utf8::encode_utf8(s), 0))
}

pub fn pct_decode(s: &str) -> (r: String)
    ensures
        r@ == decoded(s@),
{
    let bytes = pct_bytes(s.as_bytes());
    text::from_utf8_lossy(bytes.as_slice())
}

proof fn lemma_plain(b: Seq<u8>, i: int)
    requires
        0 <= i <= b.len(),
        forall|k: int| 0 <= k < b.len() ==> #[trigger] b[k] != 37 && b[k] != 43,
    ensures
        decoded_from(b, i) == b.skip(i),
    decreases b.len() - i,
{
    if i < b.len() {
        lemma_plain(b, i + 1);
        assert(b.skip(i) =~= seq![b[i]] + b.skip(i + 1));
    } else {
        assert(b.skip(i) =~= Seq::empty());
    }
}

/// Law: bytes without a percent sign and without a plus sign are decoded to themselves.
pub proof fn law_plain_bytes(b: Seq<u8>)
    requires
        forall|k: int| 0 <= k < b.len() ==> #[trigger] b[k] != 37 && b[k] != 43,
    ensures
        decoded_from(b, 0) == b,
{
    lemma_plain(b, 0);
    assert(b.skip(0) =~= b);
}

/// Law: a text without a percent sign and without a plus sign is decoded to itself.
pub proof fn law_plain_text(s: Seq<char>)
    requires
        forall|i: int| 0 <= i < s.len() ==> #[trigger] s[i] != '%' && s[i] != '+',
    ensures
        decoded(s) == s,
{
    text::lemma_without(s, '%');
    text::lemma_without(s, '+');
    law_plain_bytes(vstd::utf8::encode_utf8(s));
    vstd::utf8::encode_utf8_valid_utf8(s);
    vstd::utf8::encode_utf8_decode_utf8(s);
}

/// `e` has an escape for each byte of `b`, in digits of any case.
pub open spec fn is_escaped(b: Seq<u8>, e: Seq<u8>) -> bool {
    &&& e.len() == 3 * b.len()
    &&& forall|k: int| 0 <= k < b.len() ==> escapes(e, k, #[trigger] b[k])
}

/// The escape number `k` stands for `v`.
pub open spec fn escapes(e: Seq<u8>, k: int, v: u8) -> bool {
    &&& e[3 * k] == 37
    &&& hex_value(e[3 * k + 1]) == Some((v / 16) as u8)
    &&& hex_value(e[3 * k + 2]) == Some((v % 16) as u8)
}

proof fn lemma_unescaped(b: Seq<u8>, e: Seq<u8>, k: int)
    requires
        0 <= k <= b.len(),
        is_escaped(b, e),
    ensures
        decoded_from(e, 3 * k) == b.skip(k),
    decreases b.len() - k,
{
    if k < b.len() {
        lemma_unescaped(b, e, k + 1);
        let v = b[k];
        assert(escapes(e, k, v));
        assert(is_escape(e, 3 * k));
        assert((v / 16) * 16 + v % 16 == v);
        assert(b.skip(k) =~= seq![v] + b.skip(k + 1));
    } else {
        assert(b.skip(k) =~= Seq::empty());
    }
}

/// Law: decoding undoes the escaping of every byte, whatever the case of the digits.
pub proof fn law_unescaped(b: Seq<u8>, e: Seq<u8>)
    requires
        is_escaped(b, e),
    ensures
        decoded_from(e, 0) == b,
{
    lemma_unescaped(b, e, 0);
    assert(b.skip(0) =~= b);
}

// ---------------------------- queries ----------------------------

/// The parameters of a request.
pub struct Query {
    pub table: Table<String>,
}

impl Query {
    /// Each key once.
    pub open spec fn wf(self) -> bool {
        self.table.wf()
    }

    /// The value of a key, where there is one.
    pub open spec fn value(self, k: Seq<char>) -> Option<Seq<char>> {
        text::text_in(self.table.value(k))
    }

    pub fn new() -> (q: Query)
        ensures
            q.wf(),
            forall|k: Seq<char>| #[trigger] q.value(k) is None,
    {
        Query { table: Table::new() }
    }

    /// The value of a key.
    pub fn get(&self, key: &str) -> (r: Option<&str>)
        requires
            self.wf(),
        ensures
            match r {
                Some(v) => self.value(key@) == Some(v@),
                None => self.value(key@) is None,
            },
    {
        match self.table.get(key) {
            Some(v) => Some(v.as_str()),
            None => None,
        }
    }

    /// Gives a key its value, in place of the one it had.
    pub fn set(&mut self, key: String, value: String)
        requires
            old(self).wf(),
        ensures
            final(self).wf(),
            final(self).value(key@) == Some(value@),
            forall|k: Seq<char>|
                k != key@ ==> #[trigger] final(self).value(k) == old(self).value(k),
    {
        self.table.set(key, value);
    }
}

/// The value that a query gives to a key: that of the last piece with this key, among
/// the first `n`.
pub open spec fn value_in(pieces: Seq<Seq<char>>, n: int, k: Seq<char>) -> Option<Seq<char>>
    decreases n,
{
    if n <= 0 {
        None
    } else {
        match split::cut(pieces[n - 1], '=') {
            Some(p) => if decoded(p.0) == k {
                Some(decoded(p.1))
            } else {
                value_in(pieces, n - 1, k)
            },
            None => value_in(pieces, n - 1, k),
        }
    }
}

/// Reads the parameters of a request. A piece without an equals sign is left out.
pub fn parse_query(s: &str) -> (q: Query)
    ensures
        q.wf(),
        forall|k: Seq<char>| #[trigger]
            q.value(k) == value_in(
                split::pieces(s@, '&'),
                split::pieces(s@, '&').len() as int,
                k,
            ),
{
    let parts = split::split(s, '&');
    let ghost ps = split::pieces(s@, '&');
    let mut q = Query::new();
    let mut n: usize = 0;
    while n < parts.len()
        invariant
            n <= parts@.len(),
            split::texts(parts@) == ps,
            ps == split::pieces(s@, '&'),
            q.wf(),
            forall|k: Seq<char>| #[trigger] q.value(k) == value_in(ps, n as int, k),
        decreases parts@.len() - n,
    {
        assert(ps[n as int] == parts@[n as int]@);
        match split::split_once(parts[n].as_str(), '=') {
            Some(p) => {
                let k = pct_decode(p.0.as_str());
                let v = pct_decode(p.1.as_str());
                q.set(k, v);
            },
            None => {},
        }
        n = n + 1;
    }
    q
}

/// Cuts the target of a request in a path and the text of a query.
pub open spec fn path_in(target: Seq<char>) -> Seq<char> {
    match split::cut(target, '?') {
        Some(p) => p.0,
        None => target,
    }
}

/// The parameter of a target.
pub open spec fn param_in(target: Seq<char>, k: Seq<char>) -> Option<Seq<char>> {
    match split::cut(target, '?') {
        Some(p) => value_in(split::pieces(p.1, '&'), split::pieces(p.1, '&').len() as int, k),
        None => None,
    }
}

/// The path and the parameters of the target of a request.
pub fn parse_target(target: &str) -> (r: (String, Query))
    ensures
        r.0@ == path_in(target@),
        r.1.wf(),
        forall|k: Seq<char>| #[trigger] r.1.value(k) == param_in(target@, k),
{
    match split::split_once(target, '?') {
        Some(p) => (p.0, parse_query(p.1.as_str())),
        None => {
            let cs = text::chars_of(target);
            let path = text::string_of(&cs, 0, cs.len());
            assert(path@ =~= target@);
            (path, Query::new())
        },
    }
}

// ---------------------------- the head of a request ----------------------------

/// The bounds of the first word at or after place `i`.
pub open spec fn word(s: Seq<char>, i: int) -> (int, int) {
    let a = text::next_white(s, i, false);
    (a, text::next_white(s, a, true))
}

/// The method of a request: the first word of its first line.
pub open spec fn method_in(line: Seq<char>) -> Seq<char> {
    let w = word(line, 0);
    line.subrange(w.0, w.1)
}

/// The target of a request: the second word of its first line; the root where there is
/// none.
pub open spec fn target_in(line: Seq<char>) -> Seq<char> {
    let w = word(line, word(line, 0).1);
    if w.0 < w.1 {
        line.subrange(w.0, w.1)
    } else {
        "/"@
    }
}

/// Reads the first line of a request: its method and its target.
pub fn request_line(line: &str) -> (r: (String, String))
    ensures
        r.0@ == method_in(line@),
        r.1@ == target_in(line@),
{
    let cs = text::chars_of(line);
    let a = text::find_white(&cs, 0, false);
    let b = text::find_white(&cs, a, true);
    let c = text::find_white(&cs, b, false);
    let d = text::find_white(&cs, c, true);
    let method = text::string_of(&cs, a, b);
    let target = if c < d {
        text::string_of(&cs, c, d)
    } else {
        "/".to_string()
    };
    (method, target)
}

/// What the headers of a request say.
pub struct Head {
    pub content_len: usize,
    /// What `Host` names, in lower case.
    pub host: Option<String>,
    /// The request carries `X-Diskmap: 1`.
    pub marked: bool,
}

/// The value of the header `name` on a line, in lower case and without white space at its
/// ends. The name comes in lower case, with its colon.
pub open spec fn header_value(line: Seq<char>, name: Seq<char>) -> Option<Seq<char>> {
    let low = line.map_values(|c: char| text::lower_char(c));
    if text::starts_with(low, name) {
        Some(text::trimmed(low.skip(name.len() as int)))
    } else {
        None
    }
}

/// The length that a header announces; zero where it is no number.
pub open spec fn length_in(v: Seq<char>) -> usize {
    match text::number(v, usize::MAX as nat) {
        Some(n) => n as usize,
        None => 0,
    }
}

fn value_of(line: &str, name: &str) -> (r: Option<String>)
    ensures
        text::text_in(r) == header_value(line@, name@),
{
    let cs = text::chars_of(line);
    let mut low: Vec<char> = Vec::new();
    let mut i: usize = 0;
    while i < cs.len()
        invariant
            i <= cs@.len(),
            low@.len() == i,
            forall|k: int| 0 <= k < i ==> #[trigger] low@[k] == text::lower_char(cs@[k]),
        decreases cs@.len() - i,
    {
        low.push(text::to_lower_char(cs[i]));
        i = i + 1;
    }
    assert(low@ =~= line@.map_values(|c: char| text::lower_char(c)));
    let n = text::chars_of(name).len();
    if n > low.len() {
        return None;
    }
    assert(low@.take(n as int) =~= low@.subrange(0, n as int));
    if !text::spells(&low, 0, n, name) {
        return None;
    }
    let (a, b) = text::trim_bounds(&low, n, low.len());
    assert(low@.skip(n as int) =~= low@.subrange(n as int, low@.len() as int));
    Some(text::string_of(&low, a, b))
}

impl Head {
    pub fn new() -> (h: Head)
        ensures
            h.content_len == 0,
            h.host is None,
            !h.marked,
    {
        Head { content_len: 0, host: None, marked: false }
    }

    /// Takes in one line of the head, and says whether another one follows: a blank line
    /// ends the head. Where a header comes twice, the last one counts.
    pub fn line(&mut self, line: &str) -> (r: bool)
        ensures
            r == (text::trimmed(line@).len() > 0),
            !r ==> *final(self) == *old(self),
            r ==> final(self).content_len == match header_value(line@, "content-length:"@) {
                Some(v) => length_in(v),
                None => old(self).content_len,
            },
            r ==> text::text_in(final(self).host) == match header_value(line@, "host:"@) {
                Some(v) => Some(v),
                None => text::text_in(old(self).host),
            },
            r ==> final(self).marked == match header_value(line@, "x-diskmap:"@) {
                Some(v) => v == "1"@,
                None => old(self).marked,
            },
    {
        let cs = text::chars_of(line);
        let (a, b) = text::trim_bounds(&cs, 0, cs.len());
        assert(cs@.subrange(0, cs@.len() as int) =~= line@);
        if a == b {
            return false;
        }
        match value_of(line, "content-length:") {
            Some(v) => {
                self.content_len = match text::parse_number(v.as_str(), usize::MAX as u64) {
                    Some(n) => n as usize,
                    None => 0,
                };
            },
            None => {},
        }
        match value_of(line, "host:") {
            Some(v) => {
                self.host = Some(v);
            },
            None => {},
        }
        match value_of(line, "x-diskmap:") {
            Some(v) => {
                self.marked = text::str_eq(v.as_str(), "1");
            },
            None => {},
        }
        true
    }
}

// ---------------------------- who may ask ----------------------------

/// The host is `name`, with any port or without one.
pub open spec fn is_host(h: Seq<char>, name: Seq<char>) -> bool {
    let n = name.len() as int;
    text::starts_with(h, name) && (h.len() == n || (h[n] == ':' && text::all_digits(h.skip(n + 1))))
}

/// The host names this machine. A page under any other name, even one that leads here,
/// is not served.
pub open spec fn names_here(h: Seq<char>) -> bool {
    is_host(h, "127.0.0.1"@) || is_host(h, "localhost"@) || is_host(h, "[::1]"@) || h == "::1"@
}

fn host_is(h: &str, name: &str) -> (r: bool)
    ensures
        r == is_host(h@, name@),
{
    if !text::begins(h, name) {
        return false;
    }
    let cs = text::chars_of(h);
    let n = text::chars_of(name).len();
    if cs.len() == n {
        return true;
    }
    if cs[n] != ':' {
        return false;
    }
    let mut i: usize = n + 1;
    while i < cs.len()
        invariant
            n + 1 <= i <= cs@.len(),
            cs@ == h@,
            n == name@.len(),
            forall|k: int| n + 1 <= k < i ==> text::is_digit(#[trigger] cs@[k]),
        decreases cs@.len() - i,
    {
        if !(cs[i] >= '0' && cs[i] <= '9') {
            assert(!text::is_digit(h@.skip(n + 1)[i - n - 1]));
            return false;
        }
        i = i + 1;
    }
    true
}

// ---------------------------- routes ----------------------------

/// What a request asks for.
#[derive(Clone, Copy, Debug, PartialEq, Eq, Structural)]
pub enum Route {
    Index,
    State,
    Scan,
    Tree,
    Search,
    Unreadable,
    Reveal,
    Quit,
    Delete,
    Open,
    Unknown,
}

pub open spec fn route_of(method: Seq<char>, path: Seq<char>) -> Route {
    if method == "GET"@ {
        if path == "/"@ || path == "/index.html"@ {
            Route::Index
        } else if path == "/api/state"@ {
            Route::State
        } else if path == "/api/tree"@ {
            Route::Tree
        } else if path == "/api/search"@ {
            Route::Search
        } else if path == "/api/unreadable"@ {
            Route::Unreadable
        } else {
            Route::Unknown
        }
    } else if method == "POST"@ {
        if text::starts_with(path, "/api/scan/"@) {
            Route::Scan
        } else if path == "/api/reveal"@ {
            Route::Reveal
        } else if path == "/api/quit"@ {
            Route::Quit
        } else if path == "/api/delete"@ {
            Route::Delete
        } else if path == "/api/open"@ {
            Route::Open
        } else {
            Route::Unknown
        }
    } else {
        Route::Unknown
    }
}

/// Law: what changes anything is asked for by `POST` only.
pub proof fn law_changes_by_post(method: Seq<char>, path: Seq<char>)
    requires
        method != "POST"@,
    ensures
        route_of(method, path) is Index || route_of(method, path) is State || route_of(
            method,
            path,
        ) is Tree || route_of(method, path) is Search || route_of(method, path) is Unreadable
            || route_of(method, path) is Unknown,
{
}

pub fn route(method: &str, path: &str) -> (r: Route)
    ensures
        r == route_of(method@, path@),
{
    if text::str_eq(method, "GET") {
        if text::str_eq(path, "/") || text::str_eq(path, "/index.html") {
            Route::Index
        } else if text::str_eq(path, "/api/state") {
            Route::State
        } else if text::str_eq(path, "/api/tree") {
            Route::Tree
        } else if text::str_eq(path, "/api/search") {
            Route::Search
        } else if text::str_eq(path, "/api/unreadable") {
            Route::Unreadable
        } else {
            Route::Unknown
        }
    } else if text::str_eq(method, "POST") {
        if text::begins(path, "/api/scan/") {
            Route::Scan
        } else if text::str_eq(path, "/api/reveal") {
            Route::Reveal
        } else if text::str_eq(path, "/api/quit") {
            Route::Quit
        } else if text::str_eq(path, "/api/delete") {
            Route::Delete
        } else if text::str_eq(path, "/api/open") {
            Route::Open
        } else {
            Route::Unknown
        }
    } else {
        Route::Unknown
    }
}

/// Decides what a request is served, if anything: its host must name this machine, its
/// route must be known, and what changes anything must carry the mark, which a foreign
/// page cannot send.
pub fn accept(method: &str, path: &str, head: &Head) -> (r: Result<Route, Refusal>)
    ensures
        ({
            let here = match head.host {
                Some(h) => names_here(h@),
                None => false,
            };
            let asked = route_of(method@, path@);
            match r {
                Ok(route) => {
                    &&& here
                    &&& asked != Route::Unknown
                    &&& method@ == "POST"@ ==> head.marked
                    &&& route == asked
                },
                Err(e) => if !here {
                    e is ForeignHost
                } else if asked == Route::Unknown {
                    e is UnknownRoute
                } else {
                    e is Unmarked && method@ == "POST"@ && !head.marked
                },
            }
        }),
{
    let here = match &head.host {
        Some(h) => {
            let h = h.as_str();
            host_is(h, "127.0.0.1") || host_is(h, "localhost") || host_is(h, "[::1]")
                || text::str_eq(h, "::1")
        },
        None => false,
    };
    if !here {
        return Err(Refusal::ForeignHost);
    }
    let asked = route(method, path);
    if asked == Route::Unknown {
        return Err(Refusal::UnknownRoute);
    }
    if text::str_eq(method, "POST") && !head.marked {
        return Err(Refusal::Unmarked);
    }
    Ok(asked)
}

// ---------------------------- answers ----------------------------

/// What the body of an answer is.
#[derive(Clone, Copy, Debug, PartialEq, Eq, Structural)]
pub enum Content {
    Html,
    Json,
    Plain,
}

pub open spec fn content_type(c: Content) -> Seq<char> {
    match c {
        Content::Html => "text/html; charset=utf-8"@,
        Content::Json => "application/json; charset=utf-8"@,
        Content::Plain => "text/plain; charset=utf-8"@,
    }
}

/// The head of an answer whose body has `len` bytes, without the blank line that ends it.
pub open spec fn head_lines(status: Seq<char>, content: Content, len: nat) -> Seq<char> {
    "HTTP/1.1 "@ + status + "\r\nContent-Type: "@ + content_type(content)
        + "\r\nContent-Length: "@ + text::decimal(len)
        + "\r\nConnection: close\r\nCache-Control: no-store"@
}

/// The head of an answer whose body has `len` bytes.
pub fn answer_head(status: &str, content: Content, len: usize) -> (r: String)
    ensures
        r@ == head_lines(status@, content, len as nat) + "\r\n\r\n"@,
{
    let mut h = "HTTP/1.1 ".to_string();
    h.append(status);
    h.append("\r\nContent-Type: ");
    h.append(
        match content {
            Content::Html => "text/html; charset=utf-8",
            Content::Json => "application/json; charset=utf-8",
            Content::Plain => "text/plain; charset=utf-8",
        },
    );
    h.append("\r\nContent-Length: ");
    text::push_decimal(&mut h, len as u64);
    h.append("\r\nConnection: close\r\nCache-Control: no-store");
    h.append("\r\n\r\n");
    h
}

/// The bytes start with `word`.
pub open spec fn starts_so(b: Seq<u8>, word: Seq<u8>) -> bool {
    word.len() <= b.len() && b.take(word.len() as int) == word
}

/// The bytes end with `word`.
pub open spec fn ends_so(b: Seq<u8>, word: Seq<u8>) -> bool {
    word.len() <= b.len() && b.skip(b.len() - word.len()) == word
}

/// A blank line ends the head of an answer at place `i`.
pub open spec fn blank_at(b: Seq<u8>, i: int) -> bool {
    0 <= i && i + 4 <= b.len() && b[i] == 13 && b[i + 1] == 10 && b[i + 2] == 13 && b[i + 3] == 10
}

/// What stands behind the first blank line from place `i` on; nothing where there is none.
pub open spec fn body_from(b: Seq<u8>, i: int) -> Option<Seq<u8>>
    decreases b.len() - i,
{
    if i + 4 > b.len() {
        None
    } else if blank_at(b, i) {
        Some(b.skip(i + 4))
    } else {
        body_from(b, i + 1)
    }
}

/// The bytes of a text.
pub open spec fn utf8_of(s: Seq<char>) -> Seq<u8> {
    vstd::utf8::encode_utf8(s)
}

/// The end of the state of the volumes, while none is walked.
pub open spec fn ends_idle(b: Seq<u8>) -> bool {
    ends_so(b, utf8_of("],\"scanning\":null,\"eleve\":true}"@)) || ends_so(
        b,
        utf8_of("],\"scanning\":null,\"eleve\":false}"@),
    )
}

/// The end of the state of the volumes, while the one of a letter is walked.
pub open spec fn ends_busy(b: Seq<u8>, tail: Seq<u8>) -> bool {
    let n = b.len() - tail.len() - 1;
    &&& ends_so(b, tail)
    &&& n >= 0
    &&& 65 <= b[n] <= 90
    &&& ends_so(b.take(n), utf8_of("],\"scanning\":\""@))
}

/// The body is the state of the volumes, as this program alone writes it: the list of
/// volumes, the letter of the one that is walked or none, and the rights.
pub open spec fn is_state_body(b: Seq<u8>) -> bool {
    starts_so(b, utf8_of("{\"drives\":["@)) && (ends_idle(b) || ends_busy(
        b,
        utf8_of("\",\"eleve\":true}"@),
    ) || ends_busy(b, utf8_of("\",\"eleve\":false}"@)))
}

/// The answer serves the request, with the state of the volumes for a body.
pub open spec fn is_ours(answer: Seq<u8>) -> bool {
    starts_so(answer, utf8_of("HTTP/1.1 200"@)) && match body_from(answer, 0) {
        Some(body) => is_state_body(body),
        None => false,
    }
}

fn begins_with(b: &[u8], word: &[u8]) -> (r: bool)
    ensures
        r == starts_so(b@, word@),
{
    if word.len() > b.len() {
        return false;
    }
    let mut i: usize = 0;
    while i < word.len()
        invariant
            i <= word@.len() <= b@.len(),
            forall|k: int| 0 <= k < i ==> b@[k] == #[trigger] word@[k],
        decreases word@.len() - i,
    {
        if b[i] != word[i] {
            assert(b@.take(word@.len() as int)[i as int] != word@[i as int]);
            return false;
        }
        i = i + 1;
    }
    assert(b@.take(word@.len() as int) =~= word@);
    true
}

fn ends_with(b: &[u8], word: &[u8]) -> (r: bool)
    ensures
        r == ends_so(b@, word@),
{
    if word.len() > b.len() {
        return false;
    }
    let tail = vstd::slice::slice_subrange(b, b.len() - word.len(), b.len());
    assert(tail@ =~= b@.skip(b@.len() - word@.len()));
    assert(tail@.take(word@.len() as int) =~= tail@);
    begins_with(tail, word)
}

fn is_busy_end(b: &[u8], tail: &[u8]) -> (r: bool)
    ensures
        r == ends_busy(b@, tail@),
{
    if !ends_with(b, tail) || b.len() == tail.len() {
        return false;
    }
    let n = b.len() - tail.len() - 1;
    if !(b[n] >= 65 && b[n] <= 90) {
        return false;
    }
    let front = vstd::slice::slice_subrange(b, 0, n);
    assert(front@ =~= b@.take(n as int));
    ends_with(front, "],\"scanning\":\"".as_bytes())
}

/// The body of an answer is the state of the volumes.
pub fn state_body(b: &[u8]) -> (r: bool)
    ensures
        r == is_state_body(b@),
{
    begins_with(b, "{\"drives\":[".as_bytes()) && (ends_with(
        b,
        "],\"scanning\":null,\"eleve\":true}".as_bytes(),
    ) || ends_with(b, "],\"scanning\":null,\"eleve\":false}".as_bytes()) || is_busy_end(
        b,
        "\",\"eleve\":true}".as_bytes(),
    ) || is_busy_end(b, "\",\"eleve\":false}".as_bytes()))
}

/// Whether it is an instance of this program that answered on a port, when it was asked
/// for the state of the volumes. Any other program may hold the port and serve whatever
/// it is asked for: the status alone proves nothing.
pub fn already_running(answer: &[u8]) -> (r: bool)
    ensures
        r == is_ours(answer@),
{
    if !begins_with(answer, "HTTP/1.1 200".as_bytes()) {
        return false;
    }
    let mut i: usize = 0;
    while i < answer.len() && answer.len() - i >= 4
        invariant
            i <= answer@.len(),
            body_from(answer@, 0) == body_from(answer@, i as int),
            starts_so(answer@, utf8_of("HTTP/1.1 200"@)),
        decreases answer@.len() - i,
    {
        if answer[i] == 13 && answer[i + 1] == 10 && answer[i + 2] == 13 && answer[i + 3] == 10 {
            let body = vstd::slice::slice_subrange(answer, i + 4, answer.len());
            assert(body@ =~= answer@.skip(i + 4));
            return state_body(body);
        }
        i = i + 1;
    }
    false
}

// ---------------------------- an answer is known again ----------------------------

/// ASCII characters, and no line that is ended twice in a row.
spec fn is_quiet(s: Seq<char>) -> bool {
    forall|i: int| 0 <= i < s.len() ==> #[trigger] quiet_at(s, i)
}

spec fn quiet_at(s: Seq<char>, i: int) -> bool {
    '\0' <= s[i] <= '\u{7f}' && (s[i] == '\r' ==> i + 2 < s.len() && s[i + 2] != '\r')
}

proof fn lemma_quiet_both(s: Seq<char>, t: Seq<char>)
    requires
        is_quiet(s),
        is_quiet(t),
    ensures
        is_quiet(s + t),
{
    assert forall|i: int| 0 <= i < (s + t).len() implies #[trigger] quiet_at(s + t, i) by {
        if i < s.len() {
            assert(quiet_at(s, i));
        } else {
            assert(quiet_at(t, i - s.len()));
        }
    }
}

proof fn lemma_quiet_head(len: nat)
    ensures
        is_quiet(head_lines("200 OK"@, Content::Json, len)),
{
    reveal_strlit("HTTP/1.1 ");
    reveal_strlit("200 OK");
    reveal_strlit("\r\nContent-Type: ");
    reveal_strlit("application/json; charset=utf-8");
    reveal_strlit("\r\nContent-Length: ");
    reveal_strlit("\r\nConnection: close\r\nCache-Control: no-store");
    text::law_decimal_back(len);
    let d = text::decimal(len);
    assert forall|i: int| 0 <= i < d.len() implies #[trigger] quiet_at(d, i) by {
        assert(text::is_digit(d[i]));
    }
    let a = "HTTP/1.1 "@ + "200 OK"@;
    lemma_quiet_both("HTTP/1.1 "@, "200 OK"@);
    let b = a + "\r\nContent-Type: "@;
    lemma_quiet_both(a, "\r\nContent-Type: "@);
    let c = b + "application/json; charset=utf-8"@;
    lemma_quiet_both(b, "application/json; charset=utf-8"@);
    let e = c + "\r\nContent-Length: "@;
    lemma_quiet_both(c, "\r\nContent-Length: "@);
    lemma_quiet_both(e, d);
    lemma_quiet_both(e + d, "\r\nConnection: close\r\nCache-Control: no-store"@);
}

proof fn lemma_ascii_byte(c: char)
    requires
        '\0' <= c <= '\u{7f}',
    ensures
        c as u8 == 13 <==> c == '\r',
{
}

proof fn lemma_body_behind(h: Seq<char>, b: Seq<u8>, i: int)
    requires
        is_quiet(h),
        0 <= i <= h.len(),
        h.len() + 4 <= b.len(),
        forall|k: int| 0 <= k < h.len() ==> #[trigger] b[k] == h[k] as u8,
        blank_at(b, h.len() as int),
    ensures
        body_from(b, i) == Some(b.skip(h.len() as int + 4)),
    decreases h.len() - i,
{
    if i < h.len() {
        assert(quiet_at(h, i));
        assert(b[i] == h[i] as u8);
        lemma_ascii_byte(h[i]);
        if b[i] == 13 {
            assert(b[i + 2] == h[i + 2] as u8);
            assert(quiet_at(h, i + 2));
            lemma_ascii_byte(h[i + 2]);
        }
        lemma_body_behind(h, b, i + 1);
    }
}

/// Law: an instance of this program is known by its answer: the head that serves a
/// request, with the state of the volumes behind it.
pub proof fn law_own_answer_is_known(body: Seq<u8>, len: nat)
    requires
        is_state_body(body),
    ensures
        is_ours(utf8_of(head_lines("200 OK"@, Content::Json, len) + "\r\n\r\n"@) + body),
{
    let h = head_lines("200 OK"@, Content::Json, len);
    let t = h + "\r\n\r\n"@;
    let start = "HTTP/1.1 200"@;
    reveal_strlit("\r\n\r\n");
    reveal_strlit("HTTP/1.1 200");
    reveal_strlit("HTTP/1.1 ");
    reveal_strlit("200 OK");
    lemma_quiet_head(len);
    assert(vstd::utf8::is_ascii_chars(t)) by {
        assert forall|i: int| 0 <= i < t.len() implies '\0' <= #[trigger] t[i] <= '\u{7f}' by {
            if i < h.len() {
                assert(quiet_at(h, i));
            }
        }
    }
    vstd::utf8::is_ascii_chars_encode_utf8(t);
    assert(vstd::utf8::is_ascii_chars(start));
    vstd::utf8::is_ascii_chars_encode_utf8(start);
    let e = utf8_of(t);
    let b = e + body;
    let two = "HTTP/1.1 "@ + "200 OK"@;
    assert forall|i: int| 0 <= i < two.len() implies #[trigger] t[i] == two[i] by {}
    assert(two.take(12) =~= start);
    assert forall|i: int| 0 <= i < 12 implies b.take(12)[i] == utf8_of(start)[i] by {
        assert(two.take(12)[i] == start[i]);
        assert(e[i] == t[i] as u8);
    }
    assert(b.take(12) =~= utf8_of(start));
    assert forall|k: int| 0 <= k < h.len() implies #[trigger] b[k] == h[k] as u8 by {
        assert(e[k] == t[k] as u8);
    }
    let n = h.len() as int;
    assert(e[n] == t[n] as u8 && e[n + 1] == t[n + 1] as u8);
    assert(e[n + 2] == t[n + 2] as u8 && e[n + 3] == t[n + 3] as u8);
    assert(blank_at(b, n));
    lemma_body_behind(h, b, 0);
    assert(b.skip(n + 4) =~= body);
}

} // verus!
