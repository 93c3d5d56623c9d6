//! Texts cut in pieces.

use crate::text;
use vstd::prelude::*;

verus! {

/// The texts of strings.
pub open spec fn texts(s: Seq<String>) -> Seq<Seq<char>> {
    Seq::new(s.len(), |i: int| s[i]@)
}

/// The first place at or after `i` where `c` stands; the length where there is none.
pub open spec fn place_of(s: Seq<char>, c: char, i: int) -> int
    decreases s.len() - i,
{
    if i >= s.len() {
        s.len() as int
    } else if s[i] == c {
        i
    } else {
        place_of(s, c, i + 1)
    }
}

pub proof fn lemma_place(s: Seq<char>, c: char, i: int)
    requires
        0 <= i <= s.len(),
    ensures
        i <= place_of(s, c, i) <= s.len(),
        place_of(s, c, i) < s.len() ==> s[place_of(s, c, i)] == c,
        forall|k: int| i <= k < place_of(s, c, i) ==> s[k] != c,
    decreases s.len() - i,
{
    if i < s.len() && s[i] != c {
        lemma_place(s, c, i + 1);
    }
}

/// The pieces of the text from place `i` on, between one `c` and the next.
pub open spec fn pieces_from(s: Seq<char>, c: char, i: int) -> Seq<Seq<char>>
    decreases s.len() - i,
    when 0 <= i <= s.len()
    via pieces_from_decreases
{
    let k = place_of(s, c, i);
    if k >= s.len() {
        seq![s.subrange(i, s.len() as int)]
    } else {
        seq![s.subrange(i, k)] + pieces_from(s, c, k + 1)
    }
}

#[via_fn]
proof fn pieces_from_decreases(s: Seq<char>, c: char, i: int) {
    lemma_place(s, c, i);
}

/// The pieces of a text, between one `c` and the next.
pub open spec fn pieces(s: Seq<char>, c: char) -> Seq<Seq<char>> {
    pieces_from(s, c, 0)
}

proof fn lemma_place_shift(s: Seq<char>, t: Seq<char>, c: char, i: int)
    requires
        0 <= i <= t.len(),
    ensures
        place_of(s + t, c, s.len() + i) == s.len() + place_of(t, c, i),
    decreases t.len() - i,
{
    if i < t.len() && t[i] != c {
        lemma_place_shift(s, t, c, i + 1);
    }
}

proof fn lemma_pieces_shift(s: Seq<char>, t: Seq<char>, c: char, i: int)
    requires
        0 <= i <= t.len(),
    ensures
        pieces_from(s + t, c, s.len() + i) == pieces_from(t, c, i),
    decreases t.len() - i,
{
    let u = s + t;
    let n = s.len() as int;
    lemma_place(t, c, i);
    lemma_place_shift(s, t, c, i);
    let k = place_of(t, c, i);
    if k >= t.len() {
        assert(u.subrange(n + i, u.len() as int) =~= t.subrange(i, t.len() as int));
    } else {
        lemma_pieces_shift(s, t, c, k + 1);
        assert(u.subrange(n + i, n + k) =~= t.subrange(i, k));
    }
}

proof fn lemma_place_joined(s: Seq<char>, c: char, t: Seq<char>, i: int)
    requires
        0 <= i <= s.len(),
    ensures
        place_of(s.push(c) + t, c, i) == place_of(s, c, i),
    decreases s.len() - i,
{
    let u = s.push(c) + t;
    if i < s.len() {
        assert(u[i] == s[i]);
        if s[i] != c {
            lemma_place_joined(s, c, t, i + 1);
        }
    } else {
        assert(u[i] == c);
    }
}

/// The pieces of two texts with a `c` between them are those of the first one, then those
/// of the second one.
pub proof fn lemma_pieces_joined(s: Seq<char>, c: char, t: Seq<char>, i: int)
    requires
        0 <= i <= s.len(),
    ensures
        pieces_from(s.push(c) + t, c, i) == pieces_from(s, c, i) + pieces(t, c),
    decreases s.len() - i,
{
    let u = s.push(c) + t;
    lemma_place(s, c, i);
    lemma_place_joined(s, c, t, i);
    let k = place_of(s, c, i);
    if k >= s.len() {
        lemma_pieces_shift(s.push(c), t, c, 0);
        assert(u.subrange(i, k) =~= s.subrange(i, s.len() as int));
        assert(u.len() > k);
    } else {
        lemma_pieces_joined(s, c, t, k + 1);
        assert(u.subrange(i, k) =~= s.subrange(i, k));
    }
    assert(pieces_from(u, c, i) =~= pieces_from(s, c, i) + pieces(t, c));
}

/// What stands in front of the first `c` and what stands behind it; nothing where there
/// is no `c`.
pub open spec fn cut(s: Seq<char>, c: char) -> Option<(Seq<char>, Seq<char>)> {
    let k = place_of(s, c, 0);
    if k < s.len() {
        Some((s.take(k), s.skip(k + 1)))
    } else {
        None
    }
}

/// What stands behind the last `c`; the whole text where there is none.
pub open spec fn behind_last(s: Seq<char>, c: char) -> Seq<char> {
    pieces(s, c).last()
}

pub fn find_char(cs: &[char], c: char, i: usize) -> (r: usize)
    requires
        i <= cs@.len(),
    ensures
        r == place_of(cs@, c, i as int),
        i <= r <= cs@.len(),
{
    let mut k: usize = i;
    while k < cs.len() && cs[k] != c
        invariant
            i <= k <= cs@.len(),
            place_of(cs@, c, i as int) == place_of(cs@, c, k as int),
        decreases cs@.len() - k,
    {
        k = k + 1;
    }
    k
}

/// Cuts a text at each `c`.
pub fn split(s: &str, c: char) -> (r: Vec<String>)
    ensures
        texts(r@) == pieces(s@, c),
        r@.len() >= 1,
{
    let cs = text::chars_of(s);
    let mut out: Vec<String> = Vec::new();
    let mut i: usize = 0;
    let mut k: usize = find_char(&cs, c, 0);
    assert(texts(out@) + pieces_from(s@, c, 0) =~= pieces(s@, c));
    while k < cs.len()
        invariant
            i <= k <= cs@.len(),
            cs@ == s@,
            k == place_of(s@, c, i as int),
            texts(out@) + pieces_from(s@, c, i as int) == pieces(s@, c),
        decreases cs@.len() - k,
    {
        let ghost before = texts(out@);
        let piece = text::string_of(&cs, i, k);
        out.push(piece);
        proof {
            assert(texts(out@) =~= before.push(piece@));
            assert(texts(out@) + pieces_from(s@, c, k + 1) =~= before + pieces_from(
                s@,
                c,
                i as int,
            ));
        }
        i = k + 1;
        k = find_char(&cs, c, i);
    }
    let ghost before = texts(out@);
    let piece = text::string_of(&cs, i, cs.len());
    out.push(piece);
    assert(texts(out@) =~= before.push(piece@));
    assert(texts(out@) =~= pieces(s@, c));
    out
}

/// The pieces that are not empty, among the first `k`.
pub open spec fn filled(ps: Seq<Seq<char>>, k: int) -> Seq<Seq<char>>
    decreases k,
{
    if k <= 0 {
        Seq::empty()
    } else if ps[k - 1].len() > 0 {
        filled(ps, k - 1).push(ps[k - 1])
    } else {
        filled(ps, k - 1)
    }
}

/// The pieces of a text that are not empty.
pub open spec fn names_between(s: Seq<char>, c: char) -> Seq<Seq<char>> {
    filled(pieces(s, c), pieces(s, c).len() as int)
}

proof fn lemma_filled_joined(ps: Seq<Seq<char>>, qs: Seq<Seq<char>>, n: int)
    requires
        0 <= n <= ps.len() + qs.len(),
    ensures
        n <= ps.len() ==> filled(ps + qs, n) == filled(ps, n),
        n >= ps.len() ==> filled(ps + qs, n) == filled(ps, ps.len() as int) + filled(
            qs,
            n - ps.len(),
        ),
    decreases n,
{
    if n > 0 {
        lemma_filled_joined(ps, qs, n - 1);
        if n <= ps.len() {
            assert((ps + qs)[n - 1] == ps[n - 1]);
        } else {
            assert((ps + qs)[n - 1] == qs[n - 1 - ps.len()]);
        }
    }
    if n >= ps.len() {
        assert(filled(ps + qs, n) =~= filled(ps, ps.len() as int) + filled(qs, n - ps.len()));
    }
}

/// The names in two texts with a `c` between them are those of the first one, then those of
/// the second one.
pub proof fn lemma_names_joined(s: Seq<char>, c: char, t: Seq<char>)
    ensures
        names_between(s.push(c) + t, c) == names_between(s, c) + names_between(t, c),
{
    lemma_pieces_joined(s, c, t, 0);
    let ps = pieces(s, c);
    let qs = pieces(t, c);
    lemma_filled_joined(ps, qs, (ps + qs).len() as int);
}

pub proof fn lemma_no_place(s: Seq<char>, c: char, i: int)
    requires
        0 <= i <= s.len(),
        !s.contains(c),
    ensures
        place_of(s, c, i) == s.len(),
    decreases s.len() - i,
{
    if i < s.len() {
        assert(s.contains(s[i]));
        lemma_no_place(s, c, i + 1);
    }
}

/// The first `c` stands behind a text without one.
pub proof fn lemma_first_place(s: Seq<char>, c: char, t: Seq<char>)
    requires
        !s.contains(c),
    ensures
        place_of(s.push(c) + t, c, 0) == s.len(),
{
    lemma_place_joined(s, c, t, 0);
    lemma_no_place(s, c, 0);
}

/// A text without `c` is its own single piece.
pub proof fn lemma_one_piece(s: Seq<char>, c: char)
    requires
        !s.contains(c),
    ensures
        pieces(s, c) == seq![s],
{
    lemma_no_place(s, c, 0);
    assert(s.subrange(0, s.len() as int) =~= s);
}

/// A text without `c` is its own single name, where it is not empty.
pub proof fn lemma_one_name(s: Seq<char>, c: char)
    requires
        !s.contains(c),
    ensures
        s.len() > 0 ==> names_between(s, c) == seq![s],
        s.len() == 0 ==> names_between(s, c) == Seq::<Seq<char>>::empty(),
{
    lemma_no_place(s, c, 0);
    let ps = pieces(s, c);
    assert(ps == seq![s.subrange(0, s.len() as int)]);
    assert(s.subrange(0, s.len() as int) =~= s);
    assert(filled(ps, 0) == Seq::<Seq<char>>::empty());
    assert(filled(ps, 1) =~= if s.len() > 0 {
        seq![s]
    } else {
        Seq::empty()
    });
}

/// Cuts a text at each `c`, and leaves the empty pieces out.
pub fn split_names(s: &str, c: char) -> (r: Vec<String>)
    ensures
        texts(r@) == names_between(s@, c),
        r@.len() == names_between(s@, c).len(),
{
    let ps = split(s, c);
    let ghost all = pieces(s@, c);
    let mut names: Vec<String> = Vec::new();
    let mut i: usize = 0;
    assert(texts(names@) =~= filled(all, 0));
    while i < ps.len()
        invariant
            i <= ps@.len(),
            texts(ps@) == all,
            texts(names@) == filled(all, i as int),
        decreases ps@.len() - i,
    {
        let ghost before = names@;
        assert(all[i as int] == ps@[i as int]@);
        let cs = text::chars_of(ps[i].as_str());
        if cs.len() > 0 {
            let name = ps[i].clone();
            names.push(name);
            assert(texts(names@) =~= texts(before).push(name@));
        }
        i = i + 1;
    }
    assert(texts(names@).len() == names@.len());
    names
}

/// The strings of a text cut in two.
pub open spec fn pair_of(r: Option<(String, String)>) -> Option<(Seq<char>, Seq<char>)> {
    match r {
        Some(p) => Some((p.0@, p.1@)),
        None => None,
    }
}

/// Cuts a text at the first `c`.
pub fn split_once(s: &str, c: char) -> (r: Option<(String, String)>)
    ensures
        pair_of(r) == cut(s@, c),
{
    let cs = text::chars_of(s);
    let k = find_char(&cs, c, 0);
    if k == cs.len() {
        return None;
    }
    let a = text::string_of(&cs, 0, k);
    let b = text::string_of(&cs, k + 1, cs.len());
    assert(a@ =~= s@.take(k as int));
    assert(b@ =~= s@.skip(k + 1));
    Some((a, b))
}

/// The first character of a text.
pub open spec fn first_char(s: Seq<char>) -> Option<char> {
    if s.len() > 0 {
        Some(s[0])
    } else {
        None
    }
}

/// The first character of a text, in upper case where it is an ASCII letter.
pub open spec fn letter_in(s: Seq<char>) -> Option<char> {
    match first_char(s) {
        Some(c) => Some(text::upper_char(c)),
        None => None,
    }
}

pub fn letter(s: &str) -> (r: Option<char>)
    ensures
        r == letter_in(s@),
{
    let cs = text::chars_of(s);
    if cs.len() == 0 {
        None
    } else {
        Some(text::to_upper_char(cs[0]))
    }
}

} // verus!
