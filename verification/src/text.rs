//! Small text tools: conversion between strings and characters, ASCII case,
//! decimal numbers, white space.

use vstd::prelude::*;
use vstd::utf8::*;

verus! {

// ---------------------------- std, not covered by vstd ----------------------------

/// `String::push` appends one character at the end of the string.
pub assume_specification[ String::push ](s: &mut String, c: char)
    ensures
        final(s)@ == old(s)@.push(c),
;

/// What `str::to_lowercase` makes of a text.
pub uninterp spec fn lowercase(s: Seq<char>) -> Seq<char>;

/// What `str::to_uppercase` makes of a text.
pub uninterp spec fn uppercase(s: Seq<char>) -> Seq<char>;

/// What `String::from_utf8_lossy` reads in a sequence of bytes.
pub uninterp spec fn utf8_lossy(b: Seq<u8>) -> Seq<char>;

/// A text in lower case: letter by letter where it is made of ASCII characters.
pub open spec fn lower_text(s: Seq<char>) -> Seq<char> {
    if is_ascii_chars(s) {
        s.map_values(|c: char| lower_char(c))
    } else {
        lowercase(s)
    }
}

/// A text in upper case: letter by letter where it is made of ASCII characters.
pub open spec fn upper_text(s: Seq<char>) -> Seq<char> {
    if is_ascii_chars(s) {
        s.map_values(|c: char| upper_char(c))
    } else {
        uppercase(s)
    }
}

/// The text that bytes hold: valid UTF-8 as it stands.
pub open spec fn lossy_text(b: Seq<u8>) -> Seq<char> {
    if valid_utf8(b) {
        decode_utf8(b)
    } else {
        utf8_lossy(b)
    }
}

/// Calls `str::to_lowercase`. Claimed of it: the result depends on the text alone,
/// and on a text made of ASCII characters it maps each of `A` to `Z` to its lower
/// case letter and keeps the others.
#[verifier::external_body]
pub(crate) fn to_lowercase(s: &str) -> (r: String)
    ensures
        r@ == lowercase(s@),
        r@ == lower_text(s@),
{
    s.to_lowercase()
}

/// Calls `str::to_uppercase`. Claimed of it: the result depends on the text alone,
/// and on a text made of ASCII characters it maps each of `a` to `z` to its upper
/// case letter and keeps the others.
#[verifier::external_body]
pub(crate) fn to_uppercase(s: &str) -> (r: String)
    ensures
        r@ == uppercase(s@),
        r@ == upper_text(s@),
{
    s.to_uppercase()
}

/// Calls `String::from_utf8_lossy`. Claimed of it: the result depends on the bytes
/// alone, and valid UTF-8 is decoded as it stands.
#[verifier::external_body]
pub(crate) fn from_utf8_lossy(b: &[u8]) -> (r: String)
    ensures
        r@ == utf8_lossy(b@),
        r@ == lossy_text(b@),
{
    String::from_utf8_lossy(b).into_owned()
}

/// Calls `String::from_utf16_lossy`. Claimed of it: units are decoded one after the other,
/// a surrogate pair to its character, and a surrogate without its other half to the
/// replacement character.
#[verifier::external_body]
pub(crate) fn from_utf16_lossy(u: &[u16]) -> (r: String)
    ensures
        r@ == lossy_text16(u@),
{
    String::from_utf16_lossy(u)
}

/// Calls `String::from_utf16`. Claimed of it: units that are the UTF-16 encoding of a
/// text are decoded to that text, and any others are an error.
#[verifier::external_body]
pub(crate) fn from_utf16(u: &[u16]) -> (r: Option<String>)
    ensures
        text_in(r) == text16(u@),
{
    String::from_utf16(u).ok()
}

/// The text that an optional string holds.
pub open spec fn text_in(s: Option<String>) -> Option<Seq<char>> {
    match s {
        Some(t) => Some(t@),
        None => None,
    }
}

// ---------------------------- UTF-16 ----------------------------

/// The UTF-16 units of one character: the character itself, or a surrogate pair.
pub open spec fn utf16_char(c: char) -> Seq<u16> {
    let u = c as u32;
    if u < 0x10000 {
        seq![u as u16]
    } else {
        seq![
            (0xD800 + (u - 0x10000) / 0x400) as u16,
            (0xDC00 + (u - 0x10000) % 0x400) as u16,
        ]
    }
}

/// The UTF-16 encoding of a text.
pub open spec fn utf16(s: Seq<char>) -> Seq<u16>
    decreases s.len(),
{
    if s.len() == 0 {
        Seq::empty()
    } else {
        utf16(s.drop_last()) + utf16_char(s.last())
    }
}

/// The text that UTF-16 units encode; nothing where they encode none.
pub open spec fn text16(u: Seq<u16>) -> Option<Seq<char>> {
    if exists|s: Seq<char>| #[trigger] utf16(s) == u {
        Some(choose|s: Seq<char>| #[trigger] utf16(s) == u)
    } else {
        None
    }
}

pub open spec fn is_high(u: u16) -> bool {
    0xD800 <= u <= 0xDBFF
}

pub open spec fn is_low(u: u16) -> bool {
    0xDC00 <= u <= 0xDFFF
}

/// The text that UTF-16 units hold, with the replacement character for each surrogate that
/// lacks its other half.
pub open spec fn lossy_text16(u: Seq<u16>) -> Seq<char>
    decreases u.len(),
{
    if u.len() == 0 {
        Seq::empty()
    } else if !is_high(u[0]) && !is_low(u[0]) {
        seq![u[0] as char] + lossy_text16(u.skip(1))
    } else if is_high(u[0]) && u.len() >= 2 && is_low(u[1]) {
        seq![(0x10000 + (u[0] - 0xD800) * 0x400 + (u[1] - 0xDC00)) as char] + lossy_text16(
            u.skip(2),
        )
    } else {
        seq!['\u{FFFD}'] + lossy_text16(u.skip(1))
    }
}

proof fn lemma_utf16_first(s: Seq<char>)
    requires
        s.len() > 0,
    ensures
        utf16(s) == utf16_char(s[0]) + utf16(s.drop_first()),
    decreases s.len(),
{
    if s.len() == 1 {
        assert(s.drop_last() =~= Seq::empty());
        assert(s.drop_first() =~= Seq::empty());
        assert(utf16(s) =~= utf16_char(s[0]) + utf16(s.drop_first()));
    } else {
        let t = s.drop_last();
        lemma_utf16_first(t);
        assert(t.drop_first() =~= s.drop_first().drop_last());
        assert(utf16(s) =~= utf16_char(s[0]) + utf16(s.drop_first()));
    }
}

proof fn lemma_lossy_first(c: char, rest: Seq<u16>)
    ensures
        lossy_text16(utf16_char(c) + rest) == seq![c] + lossy_text16(rest),
{
    let u = utf16_char(c) + rest;
    let v = c as u32;
    if v < 0x10000 {
        assert(u[0] == v);
        assert(u.skip(1) =~= rest);
        assert(u[0] as char == c);
    } else {
        assert(u[0] == 0xD800 + (v - 0x10000) / 0x400);
        assert(u[1] == 0xDC00 + (v - 0x10000) % 0x400);
        assert(u.skip(2) =~= rest);
        assert(0x10000 + (u[0] - 0xD800) * 0x400 + (u[1] - 0xDC00) == v);
    }
}

proof fn lemma_lossy_back(s: Seq<char>)
    ensures
        lossy_text16(utf16(s)) == s,
    decreases s.len(),
{
    if s.len() > 0 {
        lemma_utf16_first(s);
        lemma_lossy_first(s[0], utf16(s.drop_first()));
        lemma_lossy_back(s.drop_first());
        assert(seq![s[0]] + s.drop_first() =~= s);
    } else {
        assert(lossy_text16(utf16(s)) =~= s);
    }
}

/// Law: decoding the UTF-16 encoding of a text gives that text.
pub proof fn law_utf16_back(s: Seq<char>)
    ensures
        text16(utf16(s)) == Some(s),
        lossy_text16(utf16(s)) == s,
{
    let u = utf16(s);
    let t = choose|t: Seq<char>| #[trigger] utf16(t) == u;
    lemma_lossy_back(s);
    lemma_lossy_back(t);
}

/// Encodes a text in UTF-16.
pub fn encode_utf16(s: &str) -> (r: Vec<u16>)
    ensures
        r@ == utf16(s@),
{
    let cs = chars_of(s);
    let mut out: Vec<u16> = Vec::new();
    let mut i: usize = 0;
    while i < cs.len()
        invariant
            i <= cs@.len(),
            out@ == utf16(cs@.take(i as int)),
        decreases cs@.len() - i,
    {
        let ghost before = out@;
        let u: u32 = cs[i] as u32;
        if u < 0x10000 {
            out.push(u as u16);
        } else {
            let v: u32 = u - 0x10000;
            out.push((0xD800 + v / 0x400) as u16);
            out.push((0xDC00 + v % 0x400) as u16);
        }
        proof {
            assert(cs@.take(i + 1).drop_last() =~= cs@.take(i as int));
            assert(cs@.take(i + 1).last() == cs@[i as int]);
            assert(out@ =~= before + utf16_char(cs@[i as int]));
        }
        i = i + 1;
    }
    assert(cs@.take(i as int) =~= cs@);
    out
}

// ---------------------------- ASCII case ----------------------------

/// The lower case of an ASCII letter; any other character as it is.
pub open spec fn lower_char(c: char) -> char {
    if 'A' <= c <= 'Z' {
        (c as u32 + 32) as char
    } else {
        c
    }
}

/// The upper case of an ASCII letter; any other character as it is.
pub open spec fn upper_char(c: char) -> char {
    if 'a' <= c <= 'z' {
        (c as u32 - 32) as char
    } else {
        c
    }
}

pub fn to_lower_char(c: char) -> (r: char)
    ensures
        r == lower_char(c),
{
    if c >= 'A' && c <= 'Z' {
        (c as u8 + 32) as char
    } else {
        c
    }
}

pub fn to_upper_char(c: char) -> (r: char)
    ensures
        r == upper_char(c),
{
    if c >= 'a' && c <= 'z' {
        (c as u8 - 32) as char
    } else {
        c
    }
}

/// Two texts are the same but for the case of their ASCII letters.
pub open spec fn same_but_case(a: Seq<char>, b: Seq<char>) -> bool {
    a.map_values(|c: char| lower_char(c)) == b.map_values(|c: char| lower_char(c))
}

pub fn eq_ignore_case(a: &str, b: &str) -> (r: bool)
    ensures
        r == same_but_case(a@, b@),
{
    let x = chars_of(a);
    let y = chars_of(b);
    let ghost la = a@.map_values(|c: char| lower_char(c));
    let ghost lb = b@.map_values(|c: char| lower_char(c));
    if x.len() != y.len() {
        assert(la.len() != lb.len());
        return false;
    }
    let mut i: usize = 0;
    while i < x.len()
        invariant
            i <= x@.len() == y@.len(),
            x@ == a@,
            y@ == b@,
            la == a@.map_values(|c: char| lower_char(c)),
            lb == b@.map_values(|c: char| lower_char(c)),
            forall|k: int| 0 <= k < i ==> la[k] == lb[k],
        decreases x@.len() - i,
    {
        if to_lower_char(x[i]) != to_lower_char(y[i]) {
            assert(la[i as int] != lb[i as int]);
            return false;
        }
        i = i + 1;
    }
    assert(la =~= lb);
    true
}

/// A text in upper case, one character after the other: that of a character does not
/// depend on its neighbours.
pub open spec fn capitals(s: Seq<char>) -> Seq<char>
    decreases s.len(),
{
    if s.len() == 0 {
        Seq::empty()
    } else {
        capitals(s.drop_last()) + upper_text(seq![s.last()])
    }
}

/// Puts a text in upper case.
pub fn capitals_of(s: &str) -> (r: String)
    ensures
        r@ == capitals(s@),
{
    let cs = chars_of(s);
    let mut out = String::new();
    let mut i: usize = 0;
    assert(out@ =~= capitals(cs@.take(0)));
    while i < cs.len()
        invariant
            i <= cs@.len(),
            out@ == capitals(cs@.take(i as int)),
        decreases cs@.len() - i,
    {
        let ghost before = out@;
        let one = string_of(&cs, i, i + 1);
        let up = to_uppercase(one.as_str());
        out.append(up.as_str());
        proof {
            assert(one@ =~= seq![cs@[i as int]]);
            assert(cs@.take(i + 1).drop_last() =~= cs@.take(i as int));
            assert(cs@.take(i + 1).last() == cs@[i as int]);
        }
        i = i + 1;
    }
    assert(cs@.take(i as int) =~= cs@);
    out
}

proof fn lemma_capital(c: char)
    requires
        c <= '\u{7f}',
    ensures
        upper_text(seq![c]) == seq![upper_char(c)],
{
    assert(is_ascii_chars(seq![c]));
    assert(seq![c].map_values(|c: char| upper_char(c)) =~= seq![upper_char(c)]);
}

/// Law: an ASCII text is put in upper case letter by letter.
pub proof fn law_ascii_capitals(s: Seq<char>)
    requires
        is_ascii_chars(s),
    ensures
        capitals(s) == s.map_values(|c: char| upper_char(c)),
    decreases s.len(),
{
    let f = |c: char| upper_char(c);
    if s.len() > 0 {
        let t = s.drop_last();
        assert forall|i: int| 0 <= i < t.len() implies '\0' <= #[trigger] t[i] <= '\u{7f}' by {
            assert(t[i] == s[i]);
        }
        law_ascii_capitals(t);
        lemma_capital(s.last());
        assert(s.map_values(f) =~= t.map_values(f) + seq![upper_char(s.last())]);
    } else {
        assert(s.map_values(f) =~= Seq::empty());
    }
}

/// Law: the upper case of two texts side by side is that of the one, then that of the
/// other.
pub proof fn law_capitals_joined(a: Seq<char>, b: Seq<char>)
    ensures
        capitals(a + b) == capitals(a) + capitals(b),
    decreases b.len(),
{
    if b.len() == 0 {
        assert(a + b =~= a);
        assert(capitals(a) + capitals(b) =~= capitals(a));
    } else {
        law_capitals_joined(a, b.drop_last());
        assert((a + b).drop_last() =~= a + b.drop_last());
        assert((a + b).last() == b.last());
        assert(capitals(a + b) =~= capitals(a) + capitals(b));
    }
}

proof fn lemma_same_capital(a: char, b: char)
    requires
        lower_char(a) == lower_char(b),
    ensures
        upper_text(seq![a]) == upper_text(seq![b]),
{
    if a <= '\u{7f}' {
        lemma_capital(a);
        lemma_capital(b);
    }
}

/// Law: texts that differ in the case of their ASCII letters alone are the same in upper
/// case, whatever else they hold.
pub proof fn law_capitals_any_case(a: Seq<char>, b: Seq<char>)
    requires
        same_but_case(a, b),
    ensures
        capitals(a) == capitals(b),
    decreases a.len(),
{
    let f = |c: char| lower_char(c);
    let la = a.map_values(f);
    let lb = b.map_values(f);
    assert(la.len() == a.len() && lb.len() == b.len());
    if a.len() > 0 {
        let x = a.drop_last();
        let y = b.drop_last();
        assert(x.map_values(f) =~= la.drop_last());
        assert(y.map_values(f) =~= lb.drop_last());
        law_capitals_any_case(x, y);
        assert(la.last() == lower_char(a.last()));
        assert(lb.last() == lower_char(b.last()));
        lemma_same_capital(a.last(), b.last());
    }
}

/// The text starts with `word`.
pub open spec fn starts_with(s: Seq<char>, word: Seq<char>) -> bool {
    word.len() <= s.len() && s.take(word.len() as int) == word
}

pub fn begins(s: &str, word: &str) -> (r: bool)
    ensures
        r == starts_with(s@, word@),
{
    let cs = chars_of(s);
    let n = chars_of(word).len();
    if n > cs.len() {
        return false;
    }
    assert(s@.take(word@.len() as int) =~= cs@.subrange(0, n as int));
    spells(&cs, 0, n, word)
}

/// The encoding of an ASCII character is that character; any other one is encoded in
/// bytes from 128 on.
pub proof fn lemma_scalar_bytes(c: char)
    ensures
        c as u32 <= 127 ==> encode_scalar(c as u32) == seq![c as u8],
        c as u32 > 127 ==> forall|k: int|
            0 <= k < encode_scalar(c as u32).len() ==> #[trigger] encode_scalar(c as u32)[k] >= 128,
{
    let v = c as u32;
    if v <= 127 {
        assert((v & 0x7F) as u8 == v as u8) by (bit_vector)
            requires
                v <= 127,
        ;
        assert(encode_scalar(v) =~= seq![c as u8]);
    } else {
        assert((0xC0u8 | ((v >> 6) & 0x1F) as u8) >= 128) by (bit_vector);
        assert((0xE0u8 | ((v >> 12) & 0x0F) as u8) >= 128) by (bit_vector);
        assert((0xF0u8 | ((v >> 18) & 0x7) as u8) >= 128) by (bit_vector);
        assert((0x80u8 | (v & 0x3F) as u8) >= 128) by (bit_vector);
        assert((0x80u8 | ((v >> 6) & 0x3F) as u8) >= 128) by (bit_vector);
        assert((0x80u8 | ((v >> 12) & 0x3F) as u8) >= 128) by (bit_vector);
    }
}

/// The bytes of a text without a given ASCII character do not hold it either.
pub proof fn lemma_without(s: Seq<char>, c: char)
    requires
        c as u32 <= 127,
        forall|i: int| 0 <= i < s.len() ==> #[trigger] s[i] != c,
    ensures
        forall|k: int| 0 <= k < encode_utf8(s).len() ==> #[trigger] encode_utf8(s)[k] != c as u8,
    decreases s.len(),
{
    if s.len() > 0 {
        let t = s.drop_first();
        assert forall|i: int| 0 <= i < t.len() implies #[trigger] t[i] != c by {
            assert(t[i] == s[i + 1]);
        }
        lemma_without(t, c);
        assert(s[0] != c);
        lemma_other_char(s[0], c);
        let x = encode_scalar(s[0] as u32);
        let y = encode_utf8(t);
        assert forall|k: int| 0 <= k < encode_utf8(s).len() implies #[trigger] encode_utf8(s)[k]
            != c as u8 by {
            assert(encode_utf8(s) == x + y);
            if k < x.len() {
                assert(encode_utf8(s)[k] == x[k]);
            } else {
                assert(encode_utf8(s)[k] == y[k - x.len()]);
            }
        }
    }
}

proof fn lemma_other_char(a: char, c: char)
    requires
        c as u32 <= 127,
        a != c,
    ensures
        forall|k: int|
            0 <= k < encode_scalar(a as u32).len() ==> #[trigger] encode_scalar(a as u32)[k]
                != c as u8,
{
    lemma_scalar_bytes(a);
}

// ---------------------------- strings and characters ----------------------------

/// The characters of a string, one by one.
pub fn chars_of(s: &str) -> (r: Vec<char>)
    ensures
        r@ == s@,
{
    let mut out: Vec<char> = Vec::new();
    for c in it: s.chars()
        invariant
            out@ == it.seq().take(it.index()),
            it.seq() == s@,
    {
        proof {
            assert(it.seq().take(it.index() + 1) =~= it.seq().take(it.index()).push(c));
        }
        out.push(c);
    }
    assert(out@ =~= s@);
    out
}

/// The string made of the characters from `from` to `to`, excluded.
pub fn string_of(cs: &[char], from: usize, to: usize) -> (r: String)
    requires
        from <= to <= cs@.len(),
    ensures
        r@ == cs@.subrange(from as int, to as int),
{
    let mut out = String::new();
    let mut i: usize = from;
    while i < to
        invariant
            from <= i <= to <= cs@.len(),
            out@ == cs@.subrange(from as int, i as int),
        decreases to - i,
    {
        proof {
            assert(cs@.subrange(from as int, i + 1) =~= cs@.subrange(from as int, i as int).push(
                cs@[i as int],
            ));
        }
        out.push(cs[i]);
        i = i + 1;
    }
    out
}

/// Two texts are the same.
pub fn str_eq(a: &str, b: &str) -> (r: bool)
    ensures
        r == (a@ == b@),
{
    let x = a.as_bytes();
    let y = b.as_bytes();
    proof {
        encode_utf8_decode_utf8(a@);
        encode_utf8_decode_utf8(b@);
    }
    if x.len() != y.len() {
        return false;
    }
    let mut i: usize = 0;
    while i < x.len()
        invariant
            i <= x@.len(),
            x@.len() == y@.len(),
            x@ == encode_utf8(a@),
            y@ == encode_utf8(b@),
            forall|k: int| 0 <= k < i ==> x@[k] == y@[k],
        decreases x@.len() - i,
    {
        if x[i] != y[i] {
            return false;
        }
        i = i + 1;
    }
    assert(x@ =~= y@);
    true
}

/// The characters from `from` to `to`, excluded, spell `word`.
pub fn spells(cs: &[char], from: usize, to: usize, word: &str) -> (r: bool)
    requires
        from <= to <= cs@.len(),
    ensures
        r == (cs@.subrange(from as int, to as int) == word@),
{
    let piece = string_of(cs, from, to);
    str_eq(piece.as_str(), word)
}

// ---------------------------- decimal numbers ----------------------------

/// The character of a digit.
pub open spec fn digit_char(d: nat) -> char {
    (d + 48) as char
}

/// A number in decimal, without leading zeros.
pub open spec fn decimal(n: nat) -> Seq<char>
    decreases n,
{
    if n < 10 {
        seq![digit_char(n)]
    } else {
        decimal(n / 10).push(digit_char(n % 10))
    }
}

/// An integer in decimal, with a minus sign where it is negative.
pub open spec fn decimal_int(n: int) -> Seq<char> {
    if n < 0 {
        seq!['-'] + decimal((-n) as nat)
    } else {
        decimal(n as nat)
    }
}

/// Law: a number is read back from its decimal form.
pub proof fn law_decimal_back(n: nat)
    ensures
        decimal(n).len() > 0,
        all_digits(decimal(n)),
        digits_value(decimal(n)) == n,
    decreases n,
{
    reveal_with_fuel(digits_value, 2);
    if n >= 10 {
        law_decimal_back(n / 10);
        assert(decimal(n).drop_last() =~= decimal(n / 10));
        assert(decimal(n).last() == digit_char(n % 10));
        assert(digit_char(n % 10) as u32 == n % 10 + 48);
    } else {
        assert(decimal(n).drop_last() =~= Seq::empty());
        assert(decimal(n).last() == digit_char(n));
        assert(digit_char(n) as u32 == n + 48);
    }
}

/// Appends a number in decimal.
pub fn push_decimal(out: &mut String, n: u64)
    ensures
        final(out)@ == old(out)@ + decimal(n as nat),
    decreases n,
{
    let ghost before = out@;
    if n < 10 {
        out.push((n as u8 + 48) as char);
        assert(out@ =~= before + decimal(n as nat));
    } else {
        push_decimal(out, n / 10);
        out.push(((n % 10) as u8 + 48) as char);
        assert(out@ =~= before + decimal(n as nat));
    }
}

/// Appends an integer in decimal.
pub fn push_decimal_int(out: &mut String, n: i64)
    ensures
        final(out)@ == old(out)@ + decimal_int(n as int),
{
    let ghost before = out@;
    if n < 0 {
        out.push('-');
        let m: u64 = (-(n as i128)) as u64;
        push_decimal(out, m);
        assert(out@ =~= before + decimal_int(n as int));
    } else {
        push_decimal(out, n as u64);
    }
}

pub open spec fn is_digit(c: char) -> bool {
    '0' <= c <= '9'
}

pub open spec fn all_digits(s: Seq<char>) -> bool {
    forall|i: int| 0 <= i < s.len() ==> is_digit(#[trigger] s[i])
}

/// The value of a sequence of digits.
pub open spec fn digits_value(s: Seq<char>) -> nat
    decreases s.len(),
{
    if s.len() == 0 {
        0
    } else {
        digits_value(s.drop_last()) * 10 + (s.last() as u32 - 48) as nat
    }
}

/// The digits of a number as it is written: an optional `+` is left out.
pub open spec fn unsigned(s: Seq<char>) -> Seq<char> {
    if s.len() > 0 && s[0] == '+' {
        s.subrange(1, s.len() as int)
    } else {
        s
    }
}

/// The natural number that a text writes in decimal: an optional `+`, then at least
/// one digit and nothing but digits. Nothing where the text is no such number, or
/// where the number is over `max`.
pub open spec fn number(s: Seq<char>, max: nat) -> Option<nat> {
    let d = unsigned(s);
    if d.len() > 0 && all_digits(d) && digits_value(d) <= max {
        Some(digits_value(d))
    } else {
        None
    }
}

proof fn lemma_digits_grow(s: Seq<char>, k: int)
    requires
        0 <= k <= s.len(),
        all_digits(s),
    ensures
        digits_value(s.take(k)) <= digits_value(s),
    decreases s.len() - k,
{
    if k == s.len() {
        assert(s.take(k) =~= s);
    } else {
        lemma_digits_grow(s, k + 1);
        assert(s.take(k + 1).drop_last() =~= s.take(k));
        assert(s.take(k + 1).last() == s[k]);
    }
}

/// Reads a number, as `str::parse` does for an unsigned integer of maximum `max`.
pub fn parse_number(s: &str, max: u64) -> (r: Option<u64>)
    ensures
        match number(s@, max as nat) {
            Some(v) => r == Some(v as u64),
            None => r is None,
        },
{
    let cs = chars_of(s);
    let start: usize = if cs.len() > 0 && cs[0] == '+' { 1 } else { 0 };
    let ghost d = unsigned(s@);
    assert(d =~= cs@.subrange(start as int, cs@.len() as int));
    if start == cs.len() {
        return None;
    }
    let mut acc: u64 = 0;
    let mut i: usize = start;
    while i < cs.len()
        invariant
            start <= i <= cs@.len(),
            d == cs@.subrange(start as int, cs@.len() as int),
            d == unsigned(s@),
            acc == digits_value(d.take(i - start)),
            acc <= max,
            forall|k: int| 0 <= k < i - start ==> is_digit(#[trigger] d[k]),
        decreases cs@.len() - i,
    {
        let c = cs[i];
        proof {
            assert(d[i - start] == c);
            assert(d.take(i + 1 - start).drop_last() =~= d.take(i - start));
            assert(d.take(i + 1 - start).last() == c);
        }
        if !(c >= '0' && c <= '9') {
            assert(!is_digit(d[i - start]));
            return None;
        }
        let v: u128 = acc as u128 * 10 + (c as u8 - 48) as u128;
        if v > max as u128 {
            proof {
                if all_digits(d) {
                    lemma_digits_grow(d, i + 1 - start);
                }
            }
            return None;
        }
        acc = v as u64;
        i = i + 1;
    }
    assert(d.take(d.len() as int) =~= d);
    Some(acc)
}

// ---------------------------- white space ----------------------------

/// The characters of Unicode's `White_Space` property.
pub open spec fn is_white(c: char) -> bool {
    let u = c as u32;
    ||| 0x9 <= u <= 0xD
    ||| u == 0x20
    ||| u == 0x85
    ||| u == 0xA0
    ||| u == 0x1680
    ||| 0x2000 <= u <= 0x200A
    ||| u == 0x2028
    ||| u == 0x2029
    ||| u == 0x202F
    ||| u == 0x205F
    ||| u == 0x3000
}

pub fn white(c: char) -> (r: bool)
    ensures
        r == is_white(c),
{
    let u: u32 = c as u32;
    (u >= 0x9 && u <= 0xD) || u == 0x20 || u == 0x85 || u == 0xA0 || u == 0x1680 || (u >= 0x2000
        && u <= 0x200A) || u == 0x2028 || u == 0x2029 || u == 0x202F || u == 0x205F || u == 0x3000
}

/// The first index at or after `i` whose character is white (`what`) or is not
/// (`!what`); the length where there is none.
pub open spec fn next_white(s: Seq<char>, i: int, what: bool) -> int
    decreases s.len() - i,
{
    if i >= s.len() || is_white(s[i]) == what {
        i
    } else {
        next_white(s, i + 1, what)
    }
}

pub fn find_white(cs: &[char], i: usize, what: bool) -> (r: usize)
    requires
        i <= cs@.len(),
    ensures
        r == next_white(cs@, i as int, what),
        i <= r <= cs@.len(),
{
    let mut k: usize = i;
    while k < cs.len() && white(cs[k]) != what
        invariant
            i <= k <= cs@.len(),
            next_white(cs@, i as int, what) == next_white(cs@, k as int, what),
        decreases cs@.len() - k,
    {
        k = k + 1;
    }
    k
}

/// A text without the white space at its start.
pub open spec fn trim_start(s: Seq<char>) -> Seq<char>
    decreases s.len(),
{
    if s.len() > 0 && is_white(s[0]) {
        trim_start(s.drop_first())
    } else {
        s
    }
}

/// A text without the white space at its end.
pub open spec fn trim_end(s: Seq<char>) -> Seq<char>
    decreases s.len(),
{
    if s.len() > 0 && is_white(s.last()) {
        trim_end(s.drop_last())
    } else {
        s
    }
}

/// A text without the white space at both ends.
pub open spec fn trimmed(s: Seq<char>) -> Seq<char> {
    trim_end(trim_start(s))
}

/// The bounds of the characters from `from` to `to` once the white space at both
/// ends is left out.
pub fn trim_bounds(cs: &[char], from: usize, to: usize) -> (r: (usize, usize))
    requires
        from <= to <= cs@.len(),
    ensures
        from <= r.0 <= r.1 <= to,
        cs@.subrange(r.0 as int, r.1 as int) == trimmed(cs@.subrange(from as int, to as int)),
{
    let mut a: usize = from;
    while a < to && white(cs[a])
        invariant
            from <= a <= to <= cs@.len(),
            trim_start(cs@.subrange(from as int, to as int)) == trim_start(
                cs@.subrange(a as int, to as int),
            ),
        decreases to - a,
    {
        proof {
            let s = cs@.subrange(a as int, to as int);
            assert(s.drop_first() =~= cs@.subrange(a + 1, to as int));
            assert(s[0] == cs@[a as int]);
        }
        a = a + 1;
    }
    let ghost t = cs@.subrange(a as int, to as int);
    proof {
        if a < to {
            assert(t[0] == cs@[a as int]);
        }
        assert(trim_start(t) == t);
    }
    let mut b: usize = to;
    while b > a && white(cs[b - 1])
        invariant
            from <= a <= b <= to <= cs@.len(),
            trim_end(t) == trim_end(cs@.subrange(a as int, b as int)),
        decreases b,
    {
        proof {
            let s = cs@.subrange(a as int, b as int);
            assert(s.drop_last() =~= cs@.subrange(a as int, b - 1));
            assert(s.last() == cs@[b - 1]);
        }
        b = b - 1;
    }
    proof {
        let s = cs@.subrange(a as int, b as int);
        if a < b {
            assert(s.last() == cs@[b - 1]);
        }
        assert(trim_end(s) == s);
    }
    (a, b)
}

} // verus!
