//! Texts: white space, case, numbers, pieces.
//!
//! A law of this file takes what a function was given and what it gave, bound by the
//! contract of that function, and says how the one follows from the other.

use crate::le;
use crate::split;
use crate::table::Table;
use crate::text;
use vstd::prelude::*;
use vstd::utf8::encode_utf8;

verus! {

// ---------------------------- bytes ----------------------------

/// The bytes of two texts side by side are those of the one, then those of the other.
pub proof fn lemma_joined_bytes(a: Seq<char>, b: Seq<char>)
    ensures
        encode_utf8(a + b) == encode_utf8(a) + encode_utf8(b),
    decreases a.len(),
{
    if a.len() == 0 {
        assert(a + b =~= b);
        assert(encode_utf8(a) =~= Seq::empty());
        assert(encode_utf8(a) + encode_utf8(b) =~= encode_utf8(b));
    } else {
        lemma_joined_bytes(a.drop_first(), b);
        assert((a + b).drop_first() =~= a.drop_first() + b);
        assert((a + b)[0] == a[0]);
        assert(encode_utf8(a + b) =~= encode_utf8(a) + encode_utf8(b));
    }
}

// ---------------------------- white space ----------------------------

pub open spec fn all_white(s: Seq<char>) -> bool {
    forall|i: int| 0 <= i < s.len() ==> text::is_white(#[trigger] s[i])
}

pub open spec fn none_white(s: Seq<char>) -> bool {
    forall|i: int| 0 <= i < s.len() ==> !text::is_white(#[trigger] s[i])
}

/// No white space stands at the ends of a text.
pub open spec fn no_white_ends(s: Seq<char>) -> bool {
    s.len() > 0 ==> !text::is_white(s[0]) && !text::is_white(s.last())
}

/// Law: white space is what Unicode says: tabs, line ends, spaces of every width; no letter,
/// digit or sign of ASCII is.
pub proof fn law_white(c: char, r: bool)
    requires
        call_ensures(text::white, (c,), r),
    ensures
        c <= '\u{7f}' ==> r == (c == ' ' || '\t' <= c <= '\r'),
        r && c > '\u{7f}' ==> c == '\u{85}' || c == '\u{a0}' || c == '\u{1680}' || '\u{2000}' <= c
            <= '\u{200a}' || c == '\u{2028}' || c == '\u{2029}' || c == '\u{202f}' || c
            == '\u{205f}' || c == '\u{3000}',
{
}

pub proof fn lemma_next_white(s: Seq<char>, i: int, j: int, what: bool)
    requires
        0 <= i <= j <= s.len(),
        forall|k: int| i <= k < j ==> text::is_white(#[trigger] s[k]) != what,
        j < s.len() ==> text::is_white(s[j]) == what,
    ensures
        text::next_white(s, i, what) == j,
    decreases j - i,
{
    if i < j {
        assert(text::is_white(s[i]) != what);
        lemma_next_white(s, i + 1, j, what);
    }
}

proof fn lemma_trim_start(pre: Seq<char>, v: Seq<char>)
    requires
        all_white(pre),
        v.len() == 0 || !text::is_white(v[0]),
    ensures
        text::trim_start(pre + v) == v,
    decreases pre.len(),
{
    let s = pre + v;
    if pre.len() > 0 {
        assert(s[0] == pre[0]);
        assert(s.drop_first() =~= pre.drop_first() + v);
        assert forall|i: int| 0 <= i < pre.drop_first().len() implies text::is_white(
            #[trigger] pre.drop_first()[i],
        ) by {
            assert(pre.drop_first()[i] == pre[i + 1]);
        }
        lemma_trim_start(pre.drop_first(), v);
    } else {
        assert(s =~= v);
    }
}

proof fn lemma_trim_end(v: Seq<char>, post: Seq<char>)
    requires
        all_white(post),
        v.len() == 0 || !text::is_white(v.last()),
    ensures
        text::trim_end(v + post) == v,
    decreases post.len(),
{
    let s = v + post;
    if post.len() > 0 {
        assert(s.last() == post.last());
        assert(text::is_white(post[post.len() - 1]));
        assert(s.drop_last() =~= v + post.drop_last());
        lemma_trim_end(v, post.drop_last());
    } else {
        assert(s =~= v);
    }
}

/// White space around a text is taken off, and nothing of the text.
pub proof fn lemma_trimmed(pre: Seq<char>, v: Seq<char>, post: Seq<char>)
    requires
        all_white(pre),
        all_white(post),
        no_white_ends(v),
    ensures
        text::trimmed(pre + v + post) == v,
{
    if v.len() > 0 {
        let w = v + post;
        assert(w[0] == v[0]);
        assert(pre + v + post =~= pre + w);
        lemma_trim_start(pre, w);
        lemma_trim_end(v, post);
    } else {
        let w = pre + v + post;
        assert(w =~= w + v);
        assert(all_white(w)) by {
            assert forall|i: int| 0 <= i < w.len() implies text::is_white(#[trigger] w[i]) by {
                if i < pre.len() {
                    assert(w[i] == pre[i]);
                } else {
                    assert(w[i] == post[i - pre.len()]);
                }
            }
        }
        lemma_trim_start(w, v);
        assert(v =~= Seq::empty());
    }
}

/// A text is trimmed to nothing where it is all white, and only there.
pub proof fn lemma_blank(s: Seq<char>)
    ensures
        text::trimmed(s).len() == 0 <==> all_white(s),
    decreases s.len(),
{
    if all_white(s) {
        lemma_trim_start(s, Seq::empty());
        assert(s + Seq::empty() =~= s);
    } else {
        lemma_some_left(s);
    }
}

proof fn lemma_some_left(s: Seq<char>)
    requires
        !all_white(s),
    ensures
        text::trimmed(s).len() > 0,
    decreases s.len(),
{
    if text::is_white(s[0]) {
        let t = s.drop_first();
        assert(!all_white(t)) by {
            let i = choose|i: int| 0 <= i < s.len() && !text::is_white(#[trigger] s[i]);
            assert(t[i - 1] == s[i]);
        }
        lemma_some_left(t);
    } else {
        lemma_end_left(s);
    }
}

proof fn lemma_end_left(s: Seq<char>)
    requires
        s.len() > 0,
        !text::is_white(s[0]),
    ensures
        text::trim_end(s).len() > 0,
    decreases s.len(),
{
    if text::is_white(s.last()) {
        lemma_end_left(s.drop_last());
    }
}

// ---------------------------- case ----------------------------

/// A text, with `a` to `z` for `A` to `Z`.
pub open spec fn small(s: Seq<char>) -> Seq<char> {
    Seq::new(
        s.len(),
        |i: int|
            if 'A' <= s[i] <= 'Z' {
                (s[i] as u32 + 32) as char
            } else {
                s[i]
            },
    )
}

/// Law: two texts are the same but for case where they have the same characters once `A` to
/// `Z` are taken for `a` to `z`.
pub proof fn law_same_but_case(a: &str, b: &str, r: bool)
    requires
        call_ensures(text::eq_ignore_case, (a, b), r),
    ensures
        r == (small(a@) == small(b@)),
{
    assert(small(a@) =~= a@.map_values(|c: char| text::lower_char(c)));
    assert(small(b@) =~= b@.map_values(|c: char| text::lower_char(c)));
}

/// Law: two texts are equal, and a text begins with another one, character by character.
pub proof fn law_equal_and_begins(a: &str, b: &str, e: bool, g: bool)
    requires
        call_ensures(text::str_eq, (a, b), e),
        call_ensures(text::begins, (a, b), g),
    ensures
        e <==> a@ == b@,
        g <==> exists|rest: Seq<char>| a@ == #[trigger] (b@ + rest),
{
    if g {
        let rest = a@.skip(b@.len() as int);
        assert(a@ =~= a@.take(b@.len() as int) + rest);
    }
    if exists|rest: Seq<char>| a@ == #[trigger] (b@ + rest) {
        let rest = choose|rest: Seq<char>| a@ == #[trigger] (b@ + rest);
        assert(a@.take(b@.len() as int) =~= b@);
    }
}

/// Law: a text is put in upper case piece by piece, and an ASCII text letter by letter.
pub proof fn law_upper_case(a: &str, ra: String, b: &str, rb: String, c: &str, rc: String)
    requires
        call_ensures(text::capitals_of, (a,), ra),
        call_ensures(text::capitals_of, (b,), rb),
        call_ensures(text::capitals_of, (c,), rc),
        c@ == a@ + b@,
    ensures
        rc@ == ra@ + rb@,
        vstd::utf8::is_ascii_chars(a@) ==> ra@.len() == a@.len() && forall|i: int|
            0 <= i < a@.len() ==> #[trigger] ra@[i] == if 'a' <= a@[i] <= 'z' {
                (a@[i] as u32 - 32) as char
            } else {
                a@[i]
            },
{
    text::law_capitals_joined(a@, b@);
    if vstd::utf8::is_ascii_chars(a@) {
        text::law_ascii_capitals(a@);
    }
}

// ---------------------------- numbers ----------------------------

/// Law: a number is written in decimal: one digit where it is below ten, else the number
/// without its last digit, then that digit. A minus sign stands in front of a negative one.
pub proof fn law_written_in_decimal(
    out: &mut String,
    n: u64,
    tens: &mut String,
    m: u64,
    sig: &mut String,
    v: i64,
)
    requires
        call_ensures(text::push_decimal, (out, n), ()),
        m == n / 10,
        call_ensures(text::push_decimal, (tens, m), ()),
        *old(tens) == *old(out),
        call_ensures(text::push_decimal_int, (sig, v), ()),
        *old(sig) == *old(out),
        v == n || v == -n,
    ensures
        n < 10 ==> final(out)@ == old(out)@.push((48 + n) as char),
        n >= 10 ==> final(out)@ == final(tens)@.push((48 + n % 10) as char),
        v >= 0 ==> final(sig)@ == final(out)@,
        v < 0 ==> final(sig)@ == old(out)@.push('-') + final(out)@.skip(old(out)@.len() as int),
{
    let o = old(out)@;
    if n < 10 {
        assert(final(out)@ =~= o.push((48 + n) as char));
    } else {
        assert(final(out)@ =~= final(tens)@.push((48 + n % 10) as char));
    }
    assert(final(out)@.skip(o.len() as int) =~= text::decimal(n as nat));
    if v < 0 {
        assert(final(sig)@ =~= o.push('-') + text::decimal(n as nat));
    }
}

/// Law: a number is read digit by digit, each worth ten times the next one, up to a limit;
/// a plus sign may stand in front. `s` is read as `a`, `t` is `s` with one character more.
pub proof fn law_read_in_decimal(s: &str, a: Option<u64>, t: &str, b: Option<u64>, c: char, max: u64)
    requires
        call_ensures(text::parse_number, (s, max), a),
        call_ensures(text::parse_number, (t, max), b),
        t@ == s@.push(c),
    ensures
        s@.len() == 0 ==> a is None,
        a matches Some(v) ==> v <= max,
        s@ == seq!['+'] ==> a is None,
        !('0' <= c <= '9') ==> b is None,
        '0' <= c <= '9' && (s@.len() == 0 || s@ == seq!['+']) ==> b == if c as u32 - 48 <= max {
            Some((c as u32 - 48) as u64)
        } else {
            None
        },
        '0' <= c <= '9' && a is Some ==> b == if a->0 * 10 + (c as u32 - 48) <= max {
            Some((a->0 * 10 + (c as u32 - 48)) as u64)
        } else {
            None
        },
        '0' <= c <= '9' && a is None && s@.len() > 0 && s@ != seq!['+'] ==> b is None,
{
    let d = text::unsigned(s@);
    let e = text::unsigned(t@);
    if s@.len() == 0 {
        assert(d.len() == 0);
        if c == '+' {
            assert(e.len() == 0);
        } else {
            assert(e =~= seq![c]);
            assert(e.drop_last() =~= Seq::empty());
            assert(text::digits_value(e.drop_last()) == 0);
            assert(e[0] == c);
            if '0' <= c <= '9' {
                assert(text::all_digits(e));
            } else {
                assert(!text::is_digit(e[0]));
            }
        }
    } else {
        assert(e =~= d.push(c));
        assert(e.drop_last() =~= d);
        assert(e.last() == c);
        if s@ == seq!['+'] {
            assert(d =~= Seq::empty());
            assert(text::digits_value(d) == 0);
        } else {
            assert(d.len() > 0) by {
                if s@[0] == '+' && s@.len() == 1 {
                    assert(s@ =~= seq!['+']);
                }
            }
        }
        assert(text::is_digit(e[d.len() as int]) == ('0' <= c <= '9'));
        if '0' <= c <= '9' {
            assert(text::all_digits(e) == text::all_digits(d)) by {
                if text::all_digits(e) {
                    assert forall|i: int| 0 <= i < d.len() implies text::is_digit(
                        #[trigger] d[i],
                    ) by {
                        assert(e[i] == d[i]);
                    }
                }
                if text::all_digits(d) {
                    assert forall|i: int| 0 <= i < e.len() implies text::is_digit(
                        #[trigger] e[i],
                    ) by {
                        if i < d.len() {
                            assert(e[i] == d[i]);
                        }
                    }
                }
            }
            assert(text::digits_value(e) == text::digits_value(d) * 10 + (c as u32 - 48));
        }
    }
}

/// Law: a number is written in bytes, the lowest one first, each worth 256 times the one
/// before it, and read back from them.
pub proof fn law_bytes_of_numbers(
    buf: &mut Vec<u8>,
    v: u64,
    k: usize,
    rest: &mut Vec<u8>,
    m: u64,
    j: usize,
    s: &[u8],
    r: u64,
    t: &[u8],
    q: u64,
)
    requires
        call_ensures(le::put, (buf, v, k), ()),
        k > 0,
        m == v / 256,
        j == k - 1,
        call_ensures(le::put, (rest, m, j), ()),
        old(rest)@ == old(buf)@.push((v % 256) as u8),
        0 < s@.len() <= 8,
        t@ == s@.skip(1),
        call_ensures(le::get, (s,), r),
        call_ensures(le::get, (t,), q),
    ensures
        final(buf)@ == final(rest)@,
        r == s@[0] + 256 * q,
{
    assert(final(buf)@ =~= final(rest)@);
    assert(s@.skip(1) =~= s@.drop_first());
}

/// Law: a signed number and its bits are one the other: the same number where it is not
/// negative, 2 to the power 64 more where it is.
pub proof fn law_signed_numbers(v: u64, i: i64, w: i64, u: u64)
    requires
        call_ensures(le::to_signed, (v,), i),
        call_ensures(le::to_unsigned, (w,), u),
    ensures
        i >= 0 ==> v == i,
        i < 0 ==> v == i + 0x1_0000_0000_0000_0000,
        w >= 0 ==> u == w,
        w < 0 ==> u == w + 0x1_0000_0000_0000_0000,
{
}

// ---------------------------- wide texts ----------------------------

/// Law: a text is put in UTF-16 character by character: one unit where that is enough, else
/// the two halves of what lies above 0xFFFF. `t` is `s` with one character more.
pub proof fn law_wide_units(s: &str, a: Vec<u16>, t: &str, b: Vec<u16>, c: char)
    requires
        call_ensures(text::encode_utf16, (s,), a),
        call_ensures(text::encode_utf16, (t,), b),
        t@ == s@.push(c),
    ensures
        s@.len() == 0 ==> a@.len() == 0,
        c as u32 <= 0xFFFF ==> b@ == a@.push(c as u16),
        c as u32 > 0xFFFF ==> b@ == a@ + seq![
            (0xD800 + (c as u32 - 0x10000) / 0x400) as u16,
            (0xDC00 + (c as u32 - 0x10000) % 0x400) as u16,
        ],
{
    assert(t@.drop_last() =~= s@);
    assert(t@.last() == c);
    if c as u32 <= 0xFFFF {
        assert(b@ =~= a@.push(c as u16));
    }
}

// ---------------------------- pieces ----------------------------

/// Law: a text is cut at each mark: it is its pieces with a mark between one and the next,
/// and no piece holds a mark. `t` is `s`, a mark, and one piece more.
pub proof fn law_cut_in_pieces(
    s: &str,
    a: Vec<String>,
    t: &str,
    b: Vec<String>,
    c: char,
    piece: Seq<char>,
    one: &str,
    r: Vec<String>,
)
    requires
        call_ensures(split::split, (s, c), a),
        call_ensures(split::split, (t, c), b),
        !piece.contains(c),
        t@ == s@.push(c) + piece,
        one@ == piece,
        call_ensures(split::split, (one, c), r),
    ensures
        b@.len() == a@.len() + 1,
        forall|i: int| 0 <= i < a@.len() ==> (#[trigger] b@[i])@ == a@[i]@,
        b@.last()@ == piece,
        r@.len() == 1,
        r@[0]@ == piece,
{
    split::lemma_pieces_joined(s@, c, piece, 0);
    split::lemma_one_piece(piece, c);
    let x = split::texts(a@);
    let y = split::texts(b@);
    let z = split::texts(r@);
    assert(x.len() == a@.len() && y.len() == b@.len() && z.len() == r@.len());
    assert(y =~= x.push(piece));
    assert forall|i: int| 0 <= i < a@.len() implies (#[trigger] b@[i])@ == a@[i]@ by {
        assert(y[i] == b@[i]@ && x[i] == a@[i]@);
    }
    assert(y[a@.len() as int] == b@[a@.len() as int]@);
    assert(z[0] == r@[0]@);
}

/// Law: a text is cut in two at the first mark, where it has one.
pub proof fn law_cut_in_two(s: &str, c: char, r: Option<(String, String)>)
    requires
        call_ensures(split::split_once, (s, c), r),
    ensures
        r is Some <==> s@.contains(c),
        r matches Some(p) ==> s@ == p.0@.push(c) + p.1@ && !p.0@.contains(c),
{
    split::lemma_place(s@, c, 0);
    let k = split::place_of(s@, c, 0);
    if s@.contains(c) {
        let i = choose|i: int| 0 <= i < s@.len() && s@[i] == c;
        assert(k <= i);
    }
    if r is Some {
        assert(s@ =~= s@.take(k).push(c) + s@.skip(k + 1));
        assert(s@[k] == c);
        assert(!s@.take(k).contains(c)) by {
            if s@.take(k).contains(c) {
                let i = choose|i: int| 0 <= i < k && s@.take(k)[i] == c;
                assert(s@[i] == c);
            }
        }
    }
}

// ---------------------------- tables ----------------------------

/// Law: a table gives back the value that a name was given last, and nothing for a name that
/// was taken out; other names are left alone.
pub proof fn law_table<V>(
    t: &mut Table<V>,
    key: String,
    v: V,
    k: &str,
    got: Option<&V>,
    rm: &mut Table<V>,
    taken: Option<V>,
    other: Seq<char>,
)
    requires
        old(t).wf(),
        call_ensures(Table::<V>::set, (t, key, v), ()),
        k@ == key@,
        call_ensures(Table::<V>::get, (&*final(t), k), got),
        *old(rm) == *final(t),
        call_ensures(Table::<V>::remove, (rm, k), taken),
        other != key@,
    ensures
        got == Some(&v),
        taken == Some(v),
        final(rm).value(key@) is None,
        final(rm).value(other) == old(t).value(other),
{
    let a = final(t).value(other);
    let b = final(rm).value(other);
}

/// Law: the names in a text are its pieces but for the empty ones, in order; the letter that
/// a text names is its first character, as a capital.
pub proof fn law_names_and_letter(
    s: &str,
    c: char,
    all: Vec<String>,
    names: Vec<String>,
    l: Option<char>,
)
    requires
        call_ensures(split::split, (s, c), all),
        call_ensures(split::split_names, (s, c), names),
        call_ensures(split::letter, (s,), l),
    ensures
        names@.len() == split::texts(all@).filter(|t: Seq<char>| t.len() > 0).len(),
        forall|i: int|
            #![trigger names@[i]]
            0 <= i < names@.len() ==> names@[i]@ == split::texts(all@).filter(
                |t: Seq<char>| t.len() > 0,
            )[i],
        l is Some <==> s@.len() > 0,
        l matches Some(x) ==> if 'a' <= s@[0] <= 'z' {
            x as u32 == s@[0] as u32 - 32
        } else {
            x == s@[0]
        },
{
    let ps = split::texts(all@);
    let p = |t: Seq<char>| t.len() > 0;
    let n = ps.len() as int;
    lemma_filled(ps, n);
    assert(ps.take(n) =~= ps);
    let ns = split::texts(names@);
    assert(ns.len() == names@.len());
    assert forall|i: int| #![trigger names@[i]] 0 <= i < names@.len() implies names@[i]@
        == ps.filter(p)[i] by {
        assert(ns[i] == names@[i]@);
    }
    if s@.len() > 0 {
        lemma_capital_of(s@[0]);
    }
}

proof fn lemma_capital_of(c: char)
    ensures
        'a' <= c <= 'z' ==> text::upper_char(c) as u32 == c as u32 - 32,
        !('a' <= c <= 'z') ==> text::upper_char(c) == c,
{
}

proof fn lemma_filled(ps: Seq<Seq<char>>, k: int)
    requires
        0 <= k <= ps.len(),
    ensures
        split::filled(ps, k) == ps.take(k).filter(|t: Seq<char>| t.len() > 0),
    decreases k,
{
    let p = |t: Seq<char>| t.len() > 0;
    if k > 0 {
        lemma_filled(ps, k - 1);
        crate::laws::walking::lemma_filter_step(ps, p, k - 1);
    } else {
        crate::laws::walking::lemma_filter_none(ps, p);
    }
}

} // verus!
