//! Paths that are never deleted: a mistake on one of them could not be mended, not even
//! from the recycle bin.

use crate::split;
use crate::text;
use vstd::prelude::*;

verus! {

/// Why a path is protected.
#[derive(Clone, Copy, Debug, PartialEq, Eq, Structural)]
pub enum Block {
    TooShort,
    Root,
    System,
    Profile,
}

pub open spec fn block_text(b: Block) -> Seq<char> {
    match b {
        Block::TooShort => "chemin trop court"@,
        Block::Root => "racine du volume"@,
        Block::System => "répertoire système protégé"@,
        Block::Profile => "profil utilisateur protégé"@,
    }
}

impl Block {
    pub fn text(&self) -> (r: &'static str)
        ensures
            r@ == block_text(*self),
    {
        match self {
            Block::TooShort => "chemin trop court",
            Block::Root => "racine du volume",
            Block::System => "répertoire système protégé",
            Block::Profile => "profil utilisateur protégé",
        }
    }
}

// ---------------------------- bytes of a text ----------------------------

/// How many bytes a character takes in UTF-8.
pub open spec fn width(c: char) -> nat {
    if (c as u32) < 0x80 {
        1
    } else if (c as u32) < 0x800 {
        2
    } else if (c as u32) < 0x10000 {
        3
    } else {
        4
    }
}

/// How many bytes a text takes in UTF-8.
pub open spec fn byte_len(s: Seq<char>) -> nat
    decreases s.len(),
{
    if s.len() == 0 {
        0
    } else {
        width(s[0]) + byte_len(s.drop_first())
    }
}

/// The text behind its first `n` bytes; nothing where no character starts there.
pub open spec fn behind(s: Seq<char>, n: int) -> Option<Seq<char>>
    decreases s.len(),
{
    if n == 0 {
        Some(s)
    } else if n < 0 || s.len() == 0 {
        None
    } else {
        behind(s.drop_first(), n - width(s[0]))
    }
}

/// The text can be cut behind its third byte, or is too short for that.
pub open spec fn sliceable(up: Seq<char>) -> bool {
    byte_len(up) < 3 || behind(up, 3) is Some
}

// ---------------------------- the rule ----------------------------

/// The names on a path, without its drive.
pub open spec fn names_on(rest: Seq<char>) -> Seq<Seq<char>> {
    split::names_between(rest, '\\')
}

/// A folder of the system, at the top of a volume.
pub open spec fn is_system(name: Seq<char>) -> bool {
    ||| name == "WINDOWS"@
    ||| name == "PROGRAM FILES"@
    ||| name == "PROGRAM FILES (X86)"@
    ||| name == "PROGRAMDATA"@
    ||| name == "SYSTEM VOLUME INFORMATION"@
    ||| name == "$RECYCLE.BIN"@
    ||| name == "RECOVERY"@
}

/// Why the names on a path are protected.
pub open spec fn block_of_names(names: Seq<Seq<char>>) -> Option<Block> {
    if names.len() == 0 {
        Some(Block::Root)
    } else if is_system(names[0]) {
        Some(Block::System)
    } else if names[0] == "USERS"@ && names.len() <= 2 {
        Some(Block::Profile)
    } else {
        None
    }
}

/// Why a path, given in upper case, is protected: the root of a volume, the folders of
/// the system and everything in them, the folder of the profiles and whole profiles.
pub open spec fn block_of(up: Seq<char>) -> Option<Block> {
    if byte_len(up) < 3 {
        Some(Block::TooShort)
    } else {
        block_of_names(names_on(behind(up, 3)->0))
    }
}

fn width_of(c: char) -> (r: usize)
    ensures
        r == width(c),
        1 <= r <= 4,
{
    let u: u32 = c as u32;
    if u < 0x80 {
        1
    } else if u < 0x800 {
        2
    } else if u < 0x10000 {
        3
    } else {
        4
    }
}

/// How many characters the first bytes take: three bytes, or more where no character
/// starts behind the third one, or less where the text ends before.
fn third_byte(cs: &Vec<char>) -> (r: (usize, usize))
    ensures
        r.0 <= cs@.len(),
        r.1 < 3 <==> byte_len(cs@) < 3,
        r.1 == 3 ==> behind(cs@, 3) == Some(cs@.skip(r.0 as int)),
        r.1 > 3 ==> behind(cs@, 3) is None,
{
    let mut i: usize = 0;
    let mut n: usize = 0;
    assert(cs@.skip(0) =~= cs@);
    while i < cs.len() && n < 3
        invariant
            i <= cs@.len(),
            n <= 6,
            byte_len(cs@) == n + byte_len(cs@.skip(i as int)),
            behind(cs@, 3) == behind(cs@.skip(i as int), 3 - n),
        decreases cs@.len() - i,
    {
        proof {
            let t = cs@.skip(i as int);
            assert(t[0] == cs@[i as int]);
            assert(t.drop_first() =~= cs@.skip(i + 1));
        }
        n = n + width_of(cs[i]);
        i = i + 1;
    }
    (i, n)
}

fn is_system_name(name: &str) -> (r: bool)
    ensures
        r == is_system(name@),
{
    text::str_eq(name, "WINDOWS") || text::str_eq(name, "PROGRAM FILES") || text::str_eq(
        name,
        "PROGRAM FILES (X86)",
    ) || text::str_eq(name, "PROGRAMDATA") || text::str_eq(name, "SYSTEM VOLUME INFORMATION")
        || text::str_eq(name, "$RECYCLE.BIN") || text::str_eq(name, "RECOVERY")
}

/// Why a path that comes in upper case is protected, where it is.
pub fn blocked_upper(up: &str) -> (r: Option<Block>)
    requires
        sliceable(up@),
    ensures
        r == block_of(up@),
{
    let cs = text::chars_of(up);
    let (k, n) = third_byte(&cs);
    if n < 3 {
        return Some(Block::TooShort);
    }
    let rest = text::string_of(&cs, k, cs.len());
    assert(rest@ =~= up@.skip(k as int));
    let names = split::split_names(rest.as_str(), '\\');
    let ghost found = split::texts(names@);
    assert(found.len() == names@.len());
    if names.len() == 0 {
        return Some(Block::Root);
    }
    assert(found[0] == names@[0]@);
    if is_system_name(names[0].as_str()) {
        return Some(Block::System);
    }
    if text::str_eq(names[0].as_str(), "USERS") && names.len() <= 2 {
        return Some(Block::Profile);
    }
    None
}

/// A text in upper case can be cut behind its third byte, or is too short for that.
pub fn can_slice(up: &str) -> (r: bool)
    ensures
        r == sliceable(up@),
{
    let cs = text::chars_of(up);
    let (_, n) = third_byte(&cs);
    n <= 3
}

/// Why a path is protected, where it is. No character may straddle the third byte of the
/// path in upper case.
pub fn blocked_reason(path: &str) -> (r: Option<Block>)
    requires
        sliceable(text::capitals(path@)),
    ensures
        r == block_of(text::capitals(path@)),
{
    let up = text::capitals_of(path);
    blocked_upper(up.as_str())
}

/// Why a path is protected, as `blocked_reason` says; nothing where a character straddles
/// the third byte of the path in upper case.
pub fn try_blocked_reason(path: &str) -> (r: Option<Option<Block>>)
    ensures
        r == if sliceable(text::capitals(path@)) {
            Some(block_of(text::capitals(path@)))
        } else {
            None
        },
{
    let up = text::capitals_of(path);
    if can_slice(up.as_str()) {
        Some(blocked_reason(path))
    } else {
        None
    }
}

// ---------------------------- laws ----------------------------

proof fn lemma_ascii_widths(s: Seq<char>, n: int)
    requires
        vstd::utf8::is_ascii_chars(s),
        0 <= n <= s.len(),
    ensures
        byte_len(s) == s.len(),
        behind(s, n) == Some(s.skip(n)),
    decreases s.len(),
{
    if s.len() > 0 {
        let t = s.drop_first();
        assert(vstd::utf8::is_ascii_chars(t)) by {
            assert forall|i: int| 0 <= i < t.len() implies '\0' <= #[trigger] t[i] <= '\u{7f}' by {
                assert(t[i] == s[i + 1]);
            }
        }
        if n > 0 {
            lemma_ascii_widths(t, n - 1);
            assert(t.skip(n - 1) =~= s.skip(n));
        } else {
            lemma_ascii_widths(t, 0);
            assert(s.skip(0) =~= s);
        }
    } else {
        assert(s.skip(0) =~= s);
    }
}

proof fn lemma_behind_more(s: Seq<char>, more: Seq<char>, n: int)
    requires
        behind(s, n) is Some,
    ensures
        behind(s + more, n) == Some(behind(s, n)->0 + more),
    decreases s.len(),
{
    if n != 0 {
        lemma_behind_more(s.drop_first(), more, n - width(s[0]));
        assert((s + more).drop_first() =~= s.drop_first() + more);
        assert((s + more)[0] == s[0]);
    }
}

proof fn lemma_more_bytes(s: Seq<char>, more: Seq<char>)
    ensures
        byte_len(s + more) >= byte_len(s),
    decreases s.len(),
{
    if s.len() > 0 {
        lemma_more_bytes(s.drop_first(), more);
        assert((s + more).drop_first() =~= s.drop_first() + more);
        assert((s + more)[0] == s[0]);
    }
}

/// An ASCII letter.
pub open spec fn is_letter(c: char) -> bool {
    ('A' <= c <= 'Z') || ('a' <= c <= 'z')
}

/// Law: the case of ASCII letters does not matter, whatever else a path holds: two paths
/// that differ in it alone are protected together, for the same reason, or not at all.
pub proof fn law_protected_any_case(a: Seq<char>, b: Seq<char>)
    requires
        text::same_but_case(a, b),
    ensures
        sliceable(text::capitals(a)) == sliceable(text::capitals(b)),
        block_of(text::capitals(a)) == block_of(text::capitals(b)),
{
    text::law_capitals_any_case(a, b);
}

/// Law: a path on a drive is always judged, and by the names behind the drive.
pub proof fn law_on_a_drive(letter: char, rest: Seq<char>)
    requires
        is_letter(letter),
    ensures
        sliceable(text::capitals(seq![letter, ':', '\\'] + rest)),
        block_of(text::capitals(seq![letter, ':', '\\'] + rest)) == block_of_names(
            names_on(text::capitals(rest)),
        ),
{
    let drive = seq![letter, ':', '\\'];
    let up = text::capitals(drive);
    let more = text::capitals(rest);
    text::law_capitals_joined(drive, rest);
    assert(vstd::utf8::is_ascii_chars(drive));
    text::law_ascii_capitals(drive);
    assert(up =~= seq![text::upper_char(letter), ':', '\\']);
    assert(vstd::utf8::is_ascii_chars(up));
    lemma_ascii_widths(up, 3);
    assert(up.skip(3) =~= Seq::empty());
    lemma_behind_more(up, more, 3);
    lemma_more_bytes(up, more);
    assert(up.skip(3) + more =~= more);
}

/// Law: the root of a volume is protected.
pub proof fn law_root_protected(letter: char)
    requires
        is_letter(letter),
    ensures
        block_of(text::capitals(seq![letter, ':', '\\'])) == Some(Block::Root),
{
    let none = Seq::<char>::empty();
    law_on_a_drive(letter, none);
    split::lemma_one_name(text::capitals(none), '\\');
    assert(seq![letter, ':', '\\'] + none =~= seq![letter, ':', '\\']);
}

/// Law: everything below a folder of the system is protected too, whatever it is called.
pub proof fn law_system_below(p: Seq<char>, q: Seq<char>)
    requires
        sliceable(text::capitals(p)),
        block_of(text::capitals(p)) == Some(Block::System),
    ensures
        sliceable(text::capitals(p.push('\\') + q)),
        block_of(text::capitals(p.push('\\') + q)) == Some(Block::System),
{
    let up = text::capitals(p);
    let more = text::capitals(q);
    let rest = behind(up, 3)->0;
    let tail = seq!['\\'] + more;
    lemma_capitals_below(p, q);
    lemma_behind_more(up, tail, 3);
    lemma_more_bytes(up, tail);
    assert(up.push('\\') + more =~= up + tail);
    assert(rest.push('\\') + more =~= rest + tail);
    split::lemma_names_joined(rest, '\\', more);
}

proof fn lemma_capitals_below(p: Seq<char>, q: Seq<char>)
    ensures
        text::capitals(p.push('\\') + q) == text::capitals(p).push('\\') + text::capitals(q),
{
    let sep = seq!['\\'];
    text::law_capitals_joined(p + sep, q);
    text::law_capitals_joined(p, sep);
    assert(vstd::utf8::is_ascii_chars(sep));
    text::law_ascii_capitals(sep);
    assert(text::capitals(sep) =~= sep);
    assert(p + sep =~= p.push('\\'));
    assert(text::capitals(p) + sep =~= text::capitals(p).push('\\'));
}

proof fn lemma_system_name(name: Seq<char>)
    requires
        is_system(name),
    ensures
        name.len() > 0,
        !name.contains('\\'),
{
    reveal_strlit("WINDOWS");
    reveal_strlit("PROGRAM FILES");
    reveal_strlit("PROGRAM FILES (X86)");
    reveal_strlit("PROGRAMDATA");
    reveal_strlit("SYSTEM VOLUME INFORMATION");
    reveal_strlit("$RECYCLE.BIN");
    reveal_strlit("RECOVERY");
}

/// Law: a folder of the system is protected on every drive, in any case, and so is all
/// that lies in it.
pub proof fn law_system_protected(letter: char, name: Seq<char>, q: Seq<char>)
    requires
        is_letter(letter),
        is_system(text::capitals(name)),
    ensures
        block_of(text::capitals(seq![letter, ':', '\\'] + name)) == Some(Block::System),
        block_of(text::capitals((seq![letter, ':', '\\'] + name).push('\\') + q)) == Some(
            Block::System,
        ),
{
    law_on_a_drive(letter, name);
    lemma_system_name(text::capitals(name));
    split::lemma_one_name(text::capitals(name), '\\');
    law_system_below(seq![letter, ':', '\\'] + name, q);
}

/// Law: the folder of the profiles is protected on every drive, in any case, and so is a
/// whole profile: what lies directly in that folder.
pub proof fn law_profiles_protected(letter: char, name: Seq<char>, user: Seq<char>)
    requires
        is_letter(letter),
        text::capitals(name) == "USERS"@,
        names_on(text::capitals(user)).len() <= 1,
    ensures
        block_of(text::capitals(seq![letter, ':', '\\'] + name)) == Some(Block::Profile),
        block_of(text::capitals((seq![letter, ':', '\\'] + name).push('\\') + user)) == Some(
            Block::Profile,
        ),
{
    let drive = seq![letter, ':', '\\'];
    let up = text::capitals(name);
    reveal_strlit("USERS");
    reveal_strlit("WINDOWS");
    reveal_strlit("PROGRAM FILES");
    reveal_strlit("PROGRAM FILES (X86)");
    reveal_strlit("PROGRAMDATA");
    reveal_strlit("SYSTEM VOLUME INFORMATION");
    reveal_strlit("$RECYCLE.BIN");
    reveal_strlit("RECOVERY");
    assert(up.len() == 5);
    split::lemma_one_name(up, '\\');
    law_on_a_drive(letter, name);
    law_on_a_drive(letter, name.push('\\') + user);
    lemma_capitals_below(name, user);
    split::lemma_names_joined(up, '\\', text::capitals(user));
    assert((drive + name).push('\\') + user =~= drive + (name.push('\\') + user));
}

} // verus!
