//! Which paths are protected, and how paths are put together, told by their names.
//!
//! A law of this file takes what a function was given and what it gave, bound by the
//! contract of that function, and says how the one follows from the other.

use crate::path;
use crate::protect;
use crate::protect::Block;
use crate::records::DirRec;
use crate::snapshot::Snapshot;
use crate::split;
use crate::text;
use vstd::prelude::*;

verus! {

// ---------------------------- protection ----------------------------

/// A folder of the system, by its name in upper case.
pub open spec fn is_system_folder(name: Seq<char>) -> bool {
    ||| name == "WINDOWS"@
    ||| name == "PROGRAM FILES"@
    ||| name == "PROGRAM FILES (X86)"@
    ||| name == "PROGRAMDATA"@
    ||| name == "SYSTEM VOLUME INFORMATION"@
    ||| name == "$RECYCLE.BIN"@
    ||| name == "RECOVERY"@
}

/// A drive: a letter, a colon and a backslash.
pub open spec fn is_drive(d: Seq<char>) -> bool {
    d.len() == 3 && ('A' <= d[0] <= 'Z' || 'a' <= d[0] <= 'z') && d[1] == ':' && d[2] == '\\'
}

pub open spec fn all_backslashes(s: Seq<char>) -> bool {
    forall|i: int| 0 <= i < s.len() ==> #[trigger] s[i] == '\\'
}

proof fn lemma_no_names(s: Seq<char>)
    requires
        all_backslashes(s),
    ensures
        split::names_between(s, '\\') == Seq::<Seq<char>>::empty(),
    decreases s.len(),
{
    let none = Seq::<char>::empty();
    split::lemma_one_name(none, '\\');
    if s.len() == 0 {
        assert(s =~= none);
    } else {
        let t = s.drop_first();
        assert forall|i: int| 0 <= i < t.len() implies #[trigger] t[i] == '\\' by {
            assert(t[i] == s[i + 1]);
        }
        lemma_no_names(t);
        split::lemma_names_joined(none, '\\', t);
        assert(none.push('\\') + t =~= s);
        assert(split::names_between(s, '\\') =~= Seq::<Seq<char>>::empty());
    }
}

proof fn lemma_first_name(slashes: Seq<char>, first: Seq<char>, more: Seq<char>)
    requires
        all_backslashes(slashes),
        first.len() > 0,
        !first.contains('\\'),
    ensures
        split::names_between(slashes + first, '\\') == seq![first],
        split::names_between(slashes + first + seq!['\\'] + more, '\\') == seq![first]
            + split::names_between(more, '\\'),
    decreases slashes.len(),
{
    split::lemma_one_name(first, '\\');
    if slashes.len() == 0 {
        assert(slashes + first =~= first);
        assert(slashes + first + seq!['\\'] + more =~= first.push('\\') + more);
        split::lemma_names_joined(first, '\\', more);
    } else {
        let t = slashes.drop_first();
        let none = Seq::<char>::empty();
        assert forall|i: int| 0 <= i < t.len() implies #[trigger] t[i] == '\\' by {
            assert(t[i] == slashes[i + 1]);
        }
        lemma_first_name(t, first, more);
        split::lemma_one_name(none, '\\');
        split::lemma_names_joined(none, '\\', t + first);
        split::lemma_names_joined(none, '\\', t + first + seq!['\\'] + more);
        assert(none.push('\\') + (t + first) =~= slashes + first);
        assert(none.push('\\') + (t + first + seq!['\\'] + more) =~= slashes + first + seq!['\\']
            + more);
        assert(none.len() == 0);
        assert(split::names_between(none, '\\') + seq![first] =~= seq![first]);
        assert(split::names_between(none, '\\') + (seq![first] + split::names_between(more, '\\'))
            =~= seq![first] + split::names_between(more, '\\'));
    }
}

proof fn lemma_slashes(s: Seq<char>)
    requires
        all_backslashes(s),
    ensures
        text::capitals(s) == s,
{
    assert(vstd::utf8::is_ascii_chars(s)) by {
        assert forall|i: int| 0 <= i < s.len() implies '\0' <= #[trigger] s[i] <= '\u{7f}' by {
            assert(s[i] == '\\');
        }
    }
    text::law_ascii_capitals(s);
    assert(text::capitals(s) =~= s) by {
        assert forall|i: int| 0 <= i < s.len() implies text::capitals(s)[i] == s[i] by {
            assert(s[i] == '\\');
        }
    }
}

/// Law: on a drive, a path without names is protected as the root of its volume. A path
/// whose first name is that of a system folder, in any case, is protected, whatever follows.
/// `up` is that first name in upper case.
pub proof fn law_root_and_system(
    p: &str,
    r: Option<Block>,
    drive: Seq<char>,
    slashes: Seq<char>,
    first: &str,
    up: String,
    more: Seq<char>,
)
    requires
        call_ensures(protect::blocked_reason, (p,), r),
        is_drive(drive),
        all_backslashes(slashes),
        call_ensures(text::capitals_of, (first,), up),
        !up@.contains('\\'),
    ensures
        p@ == drive + slashes ==> r == Some(Block::Root),
        up@.len() > 0 && (p@ == drive + slashes + first@ || p@ == drive + slashes + first@
            + seq!['\\'] + more) ==> {
            &&& r == Some(Block::System) <==> is_system_folder(up@)
            &&& r != Some(Block::Root)
            &&& r != Some(Block::TooShort)
            &&& r == Some(Block::Profile) ==> up@ == "USERS"@
        },
{
    let one = seq!['\\'];
    let lead = drive[0];
    assert(drive =~= seq![lead, ':', '\\']);
    lemma_slashes(slashes);
    lemma_slashes(one);
    lemma_no_names(slashes);
    let f = first@;
    let m = text::capitals(more);
    protect::law_on_a_drive(lead, slashes);
    protect::law_on_a_drive(lead, slashes + f);
    protect::law_on_a_drive(lead, slashes + f + one + more);
    text::law_capitals_joined(slashes, f);
    text::law_capitals_joined(slashes + f, one);
    text::law_capitals_joined(slashes + f + one, more);
    assert(drive + slashes + f =~= drive + (slashes + f));
    assert(drive + slashes + f + one + more =~= drive + (slashes + f + one + more));
    if up@.len() > 0 {
        lemma_first_name(slashes, up@, m);
        let a = split::names_between(slashes + up@, '\\');
        let b = split::names_between(slashes + up@ + one + m, '\\');
        assert(a[0] == up@ && b[0] == up@);
        lemma_users();
    }
}

proof fn lemma_users()
    ensures
        !is_system_folder("USERS"@),
{
    reveal_strlit("USERS");
    reveal_strlit("WINDOWS");
    reveal_strlit("PROGRAM FILES");
    reveal_strlit("PROGRAM FILES (X86)");
    reveal_strlit("PROGRAMDATA");
    reveal_strlit("SYSTEM VOLUME INFORMATION");
    reveal_strlit("$RECYCLE.BIN");
    reveal_strlit("RECOVERY");
    assert("USERS"@.len() == 5);
}

/// Law: on a drive, the folder of the profiles is protected in any case, and so is a whole
/// profile directly in it; what lies in a profile is not, and neither is a folder of any
/// other name.
pub proof fn law_profiles(
    p: &str,
    r: Option<Block>,
    drive: Seq<char>,
    first: &str,
    up: String,
    user: &str,
    up_user: String,
    what: &str,
    up_what: String,
)
    requires
        call_ensures(protect::blocked_reason, (p,), r),
        is_drive(drive),
        call_ensures(text::capitals_of, (first,), up),
        call_ensures(text::capitals_of, (user,), up_user),
        call_ensures(text::capitals_of, (what,), up_what),
        up@.len() > 0 && !up@.contains('\\'),
        up_user@.len() > 0 && !up_user@.contains('\\'),
        up_what@.len() > 0 && !up_what@.contains('\\'),
    ensures
        up@ == "USERS"@ && p@ == drive + first@ ==> r == Some(Block::Profile),
        up@ == "USERS"@ && p@ == drive + first@ + seq!['\\'] + user@ ==> r == Some(Block::Profile),
        up@ == "USERS"@ && p@ == drive + first@ + seq!['\\'] + user@ + seq!['\\'] + what@
            ==> r is None,
        up@ != "USERS"@ && !is_system_folder(up@) && p@ == drive + first@ ==> r is None,
{
    let one = seq!['\\'];
    let none = Seq::<char>::empty();
    let lead = drive[0];
    assert(drive =~= seq![lead, ':', '\\']);
    lemma_slashes(one);
    let f = first@;
    let u = user@;
    let w = what@;
    protect::law_on_a_drive(lead, f);
    protect::law_on_a_drive(lead, f + one + u);
    protect::law_on_a_drive(lead, f + one + u + one + w);
    text::law_capitals_joined(f, one);
    text::law_capitals_joined(f + one, u);
    text::law_capitals_joined(f + one + u, one);
    text::law_capitals_joined(f + one + u + one, w);
    assert(drive + f + one + u =~= drive + (f + one + u));
    assert(drive + f + one + u + one + w =~= drive + (f + one + u + one + w));
    let rest = up_user@ + one + up_what@;
    lemma_first_name(none, up@, up_user@);
    lemma_first_name(none, up@, rest);
    lemma_first_name(none, up_user@, up_what@);
    split::lemma_one_name(up_user@, '\\');
    split::lemma_one_name(up_what@, '\\');
    assert(none + up@ =~= up@);
    assert(none + up_user@ =~= up_user@);
    assert(up@ + one + up_user@ + one + up_what@ =~= up@ + one + rest);
    lemma_users();
    let names3 = split::names_between(up@ + one + rest, '\\');
    assert(names3.len() == 3);
    assert(names3[0] == up@);
    let names2 = split::names_between(up@ + one + up_user@, '\\');
    assert(names2.len() == 2 && names2[0] == up@);
    let names1 = split::names_between(up@, '\\');
    assert(names1.len() == 1 && names1[0] == up@);
}

/// Law: what lies below a protected folder of the system is protected as it is, and two
/// paths that differ in the case of ASCII letters alone are judged alike.
pub proof fn law_below_and_any_case(
    p: &str,
    r: Option<Block>,
    q: &str,
    rq: Option<Block>,
    tail: Seq<char>,
    c: &str,
    rc: Option<Block>,
)
    requires
        protect::sliceable(text::capitals(p@)),
        call_ensures(protect::blocked_reason, (p,), r),
        q@ == p@ + seq!['\\'] + tail,
        call_ensures(protect::blocked_reason, (q,), rq),
        text::same_but_case(p@, c@),
        call_ensures(protect::blocked_reason, (c,), rc),
    ensures
        r == Some(Block::System) ==> rq == Some(Block::System),
        rc == r,
{
    protect::law_protected_any_case(p@, c@);
    assert(p@ + seq!['\\'] + tail =~= p@.push('\\') + tail);
    if r == Some(Block::System) {
        protect::law_system_below(p@, tail);
    }
}

/// Law: a path that cannot be cut behind its third byte is not judged; any other one is, as
/// ever.
pub proof fn law_judged_where_it_can_be(
    p: &str,
    r: Option<Option<Block>>,
    up: String,
    ups: &str,
    cut: bool,
    whole: Option<Block>,
)
    requires
        call_ensures(protect::try_blocked_reason, (p,), r),
        call_ensures(text::capitals_of, (p,), up),
        ups@ == up@,
        call_ensures(protect::can_slice, (ups,), cut),
        call_ensures(protect::blocked_reason, (p,), whole),
    ensures
        r is Some <==> cut,
        r matches Some(b) ==> b == whole,
{
}

proof fn lemma_bytes(s: Seq<char>)
    ensures
        vstd::utf8::encode_utf8(s).len() == protect::byte_len(s),
    decreases s.len(),
{
    if s.len() > 0 {
        let c: char = s[0];
        lemma_bytes(s.drop_first());
        vstd::utf8::char_is_scalar(c);
        assert(vstd::utf8::encode_scalar(c as u32).len() == protect::width(c));
    }
}

proof fn lemma_behind_front(front: Seq<char>, rest: Seq<char>)
    ensures
        protect::behind(front + rest, protect::byte_len(front) as int) == Some(rest),
        protect::byte_len(front + rest) >= protect::byte_len(front),
    decreases front.len(),
{
    if front.len() > 0 {
        lemma_behind_front(front.drop_first(), rest);
        assert((front + rest).drop_first() =~= front.drop_first() + rest);
        assert((front + rest)[0] == front[0]);
    } else {
        assert(front + rest =~= rest);
    }
}

proof fn lemma_where_behind(s: Seq<char>, n: int) -> (k: int)
    requires
        protect::behind(s, n) is Some,
    ensures
        0 <= k <= s.len(),
        protect::byte_len(s.take(k)) == n,
    decreases s.len(),
{
    if n == 0 {
        assert(s.take(0) =~= Seq::empty());
        0
    } else {
        let k = lemma_where_behind(s.drop_first(), n - protect::width(s[0]));
        assert(s.take(k + 1).drop_first() =~= s.drop_first().take(k));
        assert(s.take(k + 1)[0] == s[0]);
        k + 1
    }
}

/// Law: a text of less than three bytes is too short, and no other one is. A text is cut
/// behind its third byte, where a character ends there; what stands before does not matter.
pub proof fn law_third_byte(
    up: &str,
    cut: bool,
    r: Option<Block>,
    front: Seq<char>,
    rest: Seq<char>,
    other: &str,
    ro: Option<Block>,
)
    requires
        call_ensures(protect::can_slice, (up,), cut),
        call_ensures(protect::blocked_upper, (up,), r),
        call_ensures(protect::blocked_upper, (other,), ro),
    ensures
        r == Some(Block::TooShort) <==> vstd::utf8::encode_utf8(up@).len() < 3,
        cut <==> vstd::utf8::encode_utf8(up@).len() < 3 || exists|k: int|
            0 <= k <= up@.len() && #[trigger] vstd::utf8::encode_utf8(up@.take(k)).len() == 3,
        up@ == front + rest && vstd::utf8::encode_utf8(front).len() == 3 && other@ == seq!['C', ':', '\\']
            + rest ==> r == ro,
{
    let c = seq!['C', ':', '\\'];
    lemma_bytes(up@);
    lemma_bytes(front);
    lemma_bytes(c);
    lemma_behind_front(front, rest);
    lemma_behind_front(c, rest);
    reveal_with_fuel(protect::byte_len, 4);
    assert(c.drop_first() =~= seq![':', '\\']);
    assert(c.drop_first().drop_first() =~= seq!['\\']);
    assert(protect::byte_len(c) == 3);
    if protect::behind(up@, 3) is Some {
        let k = lemma_where_behind(up@, 3);
        lemma_bytes(up@.take(k));
        assert(vstd::utf8::encode_utf8(up@.take(k)).len() == 3);
    }
    if exists|k: int|
        0 <= k <= up@.len() && #[trigger] vstd::utf8::encode_utf8(up@.take(k)).len() == 3 {
        let k = choose|k: int|
            0 <= k <= up@.len() && #[trigger] vstd::utf8::encode_utf8(up@.take(k)).len() == 3;
        lemma_bytes(up@.take(k));
        lemma_behind_front(up@.take(k), up@.skip(k));
        assert(up@.take(k) + up@.skip(k) =~= up@);
    }
}

/// Law: each reason has its own words.
pub proof fn law_reasons(b: &Block, r: &'static str)
    requires
        call_ensures(Block::text, (b,), r),
    ensures
        *b is TooShort ==> r@ == "chemin trop court"@,
        *b is Root ==> r@ == "racine du volume"@,
        *b is System ==> r@ == "répertoire système protégé"@,
        *b is Profile ==> r@ == "profil utilisateur protégé"@,
{
}

// ---------------------------- paths ----------------------------

pub open spec fn is_slash(c: char) -> bool {
    c == '\\' || c == '/'
}

/// The text starts with a letter and a colon.
pub open spec fn starts_with_drive(s: Seq<char>) -> bool {
    s.len() >= 2 && ('A' <= s[0] <= 'Z' || 'a' <= s[0] <= 'z') && s[1] == ':'
}

/// The text starts with `\\?\`.
pub open spec fn starts_verbatim(s: Seq<char>) -> bool {
    s.len() >= 4 && s.take(4) == seq!['\\', '\\', '?', '\\']
}

proof fn lemma_verbatim(s: Seq<char>)
    ensures
        path::is_verbatim(s) == starts_verbatim(s),
{
    if s.len() >= 4 {
        let h = s.take(4);
        if path::is_verbatim(s) {
            assert(h =~= seq!['\\', '\\', '?', '\\']);
        }
        if starts_verbatim(s) {
            assert(h[0] == '\\' && h[1] == '\\' && h[2] == '?' && h[3] == '\\');
        }
    }
}

/// Law: a name goes behind the folder it is taken from, with one backslash between them:
/// none is added where the folder ends with a separator, is empty or is a bare drive. A part
/// with a drive of its own stands alone; a part that starts at the root keeps the drive.
pub proof fn law_joined(base: &str, part: &str, r: String)
    requires
        call_ensures(path::join, (base, part), r),
        !starts_verbatim(base@),
    ensures
        (part@.len() == 0 || !is_slash(part@[0])) && !starts_with_drive(part@) ==> r@ == if base@.len()
            == 0 || is_slash(base@.last()) || (base@.len() == 2 && starts_with_drive(base@)) {
            base@ + part@
        } else {
            base@ + seq!['\\'] + part@
        },
        starts_with_drive(part@) ==> r@ == part@,
        starts_with_drive(base@) && part@.len() > 0 && is_slash(part@[0]) && (part@.len() == 1
            || !is_slash(part@[1])) ==> r@ == base@.take(2) + part@,
{
    lemma_verbatim(base@);
    lemma_verbatim(part@);
    assert(base@.push('\\') + part@ =~= base@ + seq!['\\'] + part@);
}

/// Law: what starts with two backslashes, a question mark and a backslash is verbatim, and
/// nothing else.
pub proof fn law_verbatim(cs: &[char], r: bool)
    requires
        call_ensures(path::verbatim, (cs,), r),
    ensures
        r <==> starts_verbatim(cs@),
{
    lemma_verbatim(cs@);
}

proof fn lemma_next_sep(s: Seq<char>, i: int, k: int, any: bool)
    requires
        0 <= i <= k <= s.len(),
        forall|j: int| i <= j < k ==> !is_slash(#[trigger] s[j]),
        k < s.len() ==> s[k] == '\\',
    ensures
        path::next_sep(s, i, any) == k,
    decreases k - i,
{
    if i < k {
        assert(!is_slash(s[i]));
        lemma_next_sep(s, i + 1, k, any);
    }
}

proof fn lemma_sep_is_ahead(s: Seq<char>, i: int, any: bool)
    requires
        0 <= i,
    ensures
        i <= s.len() ==> i <= path::next_sep(s, i, any),
    decreases s.len() - i,
{
    if i < s.len() {
        lemma_sep_is_ahead(s, i + 1, any);
    }
}

/// A name of a server, of a share, of a folder: without a slash, and not empty.
pub open spec fn is_plain(name: Seq<char>) -> bool {
    name.len() > 0 && forall|i: int| 0 <= i < name.len() ==> !is_slash(#[trigger] name[i])
}

/// A share of a server: two backslashes, the server, a backslash and the share.
pub open spec fn share(server: Seq<char>, name: Seq<char>) -> Seq<char> {
    seq!['\\', '\\'] + server + seq!['\\'] + name
}

/// Nothing, or what starts with a backslash.
pub open spec fn is_tail(s: Seq<char>) -> bool {
    s.len() > 0 ==> s[0] == '\\'
}

proof fn lemma_share(server: Seq<char>, name: Seq<char>, tail: Seq<char>)
    requires
        is_plain(server) && server != seq!['.'] && server != seq!['?'],
        is_plain(name),
        is_tail(tail),
    ensures
        path::prefix_len(share(server, name) + tail) == share(server, name).len(),
        !path::is_verbatim(share(server, name) + tail),
{
    let s = share(server, name) + tail;
    let a = 2 + server.len() as int;
    let b = a + 1 + name.len() as int;
    assert(s[0] == '\\' && s[1] == '\\');
    assert(s[a] == '\\');
    assert forall|j: int| 2 <= j < a implies !is_slash(#[trigger] s[j]) by {
        assert(s[j] == server[j - 2]);
    }
    assert forall|j: int| a + 1 <= j < b implies !is_slash(#[trigger] s[j]) by {
        assert(s[j] == name[j - a - 1]);
    }
    assert(s.len() > b ==> s[b] == tail[0]);
    lemma_next_sep(s, 2, a, true);
    lemma_next_sep(s, a + 1, b, true);
    assert(s[2] == server[0]);
    if server.len() == 1 {
        if server[0] == '.' {
            assert(server =~= seq!['.']);
        }
        if server[0] == '?' {
            assert(server =~= seq!['?']);
        }
    } else {
        assert(!is_slash(s[3]));
    }
}

/// Law: a path that names a share, or that is verbatim, stands for itself, whatever it is
/// taken from. A path from the root on a share stays on that share.
pub proof fn law_joined_elsewhere(
    base: &str,
    part: &str,
    r: String,
    server: Seq<char>,
    name: Seq<char>,
    tail: Seq<char>,
)
    requires
        call_ensures(path::join, (base, part), r),
        is_plain(server) && server != seq!['.'] && server != seq!['?'],
        is_plain(name),
        is_tail(tail),
    ensures
        starts_verbatim(part@) ==> r@ == part@,
        part@ == share(server, name) + tail ==> r@ == part@,
        base@ == share(server, name) + tail && part@.len() > 0 && is_slash(part@[0]) && (part@.len()
            == 1 || !is_slash(part@[1])) ==> r@ == share(server, name) + part@,
{
    lemma_verbatim(part@);
    lemma_sep_is_ahead(part@, 4, false);
    lemma_sep_is_ahead(part@, 8, false);
    lemma_sep_is_ahead(part@, path::next_sep(part@, 8, false) + 1, false);
    lemma_share(server, name, tail);
    let h = share(server, name);
    assert((h + tail).take(h.len() as int) =~= h);
}

/// Names, with a backslash before each.
pub open spec fn way_down(names: Seq<Seq<char>>) -> Seq<char> {
    names.map_values(|n: Seq<char>| seq!['\\'] + n).flatten_alt()
}

proof fn lemma_way_down(names: Seq<Seq<char>>, name: Seq<char>)
    ensures
        way_down(names.push(name)) == way_down(names).push('\\') + name,
        way_down(Seq::empty()) == Seq::<char>::empty(),
{
    let f = |n: Seq<char>| seq!['\\'] + n;
    let all = names.push(name).map_values(f);
    assert(all.drop_last() =~= names.map_values(f));
    assert(all.last() == seq!['\\'] + name);
    assert(way_down(names.push(name)) =~= way_down(names).push('\\') + name);
    assert(Seq::<Seq<char>>::empty().map_values(f) =~= Seq::<Seq<char>>::empty());
}

proof fn lemma_names_down(names: Seq<Seq<char>>)
    requires
        forall|i: int| 0 <= i < names.len() ==> is_plain(#[trigger] names[i]),
    ensures
        split::names_between(way_down(names), '\\') == names,
    decreases names.len(),
{
    if names.len() == 0 {
        lemma_way_down(names, Seq::empty());
        split::lemma_one_name(Seq::empty(), '\\');
        assert(names =~= Seq::empty());
    } else {
        let up = names.drop_last();
        let n = names.last();
        assert forall|i: int| 0 <= i < up.len() implies is_plain(#[trigger] up[i]) by {
            assert(up[i] == names[i]);
        }
        lemma_names_down(up);
        lemma_way_down(up, n);
        assert(up.push(n) =~= names);
        split::lemma_names_joined(way_down(up), '\\', n);
        lemma_plain(n);
        split::lemma_one_name(n, '\\');
        assert(up + seq![n] =~= names);
    }
}

proof fn lemma_plain(n: Seq<char>)
    requires
        is_plain(n),
    ensures
        !n.contains('\\'),
        path::backslashed(n) == n,
{
    if n.contains('\\') {
        let i = choose|i: int| 0 <= i < n.len() && n[i] == '\\';
        assert(!is_slash(n[i]));
    }
    assert forall|i: int| 0 <= i < n.len() implies path::backslashed(n)[i] == n[i] by {
        assert(!is_slash(n[i]));
    }
    assert(path::backslashed(n) =~= n);
}

proof fn lemma_strung(names: Seq<Seq<char>>, k: int)
    requires
        0 < k <= names.len(),
    ensures
        seq!['\\'] + path::strung(names, k) == way_down(names.take(k)),
    decreases k,
{
    assert(names.take(k) =~= names.take(k - 1).push(names[k - 1]));
    lemma_way_down(names.take(k - 1), names[k - 1]);
    if k == 1 {
        assert(names.take(0) =~= Seq::empty());
        assert(seq!['\\'] + names[0] =~= Seq::<char>::empty().push('\\') + names[0]);
    } else {
        lemma_strung(names, k - 1);
        assert(seq!['\\'] + path::strung(names, k) =~= (seq!['\\'] + path::strung(names, k - 1)).push(
            '\\',
        ) + names[k - 1]);
    }
}

/// A folder on a verbatim drive: the drive and the way down, or the drive and a backslash at
/// its root.
pub open spec fn verbatim_place(letter: char, names: Seq<Seq<char>>) -> Seq<char> {
    seq!['\\', '\\', '?', '\\', letter, ':'] + if names.len() == 0 {
        seq!['\\']
    } else {
        way_down(names)
    }
}

proof fn lemma_verbatim_place(letter: char, names: Seq<Seq<char>>)
    requires
        'A' <= letter <= 'Z' || 'a' <= letter <= 'z',
        forall|i: int| 0 <= i < names.len() ==> is_plain(#[trigger] names[i]),
    ensures
        ({
            let s = verbatim_place(letter, names);
            &&& path::is_verbatim(s)
            &&& path::prefix_len(s) == 6
            &&& s.len() > 6
            &&& s.take(6) == seq!['\\', '\\', '?', '\\', letter, ':']
            &&& path::names_of(s) == names
        }),
{
    let h = seq!['\\', '\\', '?', '\\', letter, ':'];
    let s = verbatim_place(letter, names);
    lemma_names_down(names);
    if names.len() == 0 {
        assert(s =~= h + seq!['\\']);
        assert(all_backslashes(seq!['\\']));
        lemma_no_names(seq!['\\']);
        assert(s.skip(6) =~= seq!['\\']);
        assert(names =~= Seq::empty());
    } else {
        assert(names.take(names.len() as int) =~= names);
        lemma_strung(names, names.len() as int);
        assert(way_down(names)[0] == '\\');
        assert(s.skip(6) =~= way_down(names));
    }
    assert(s[6] == '\\');
    assert(s.take(6) =~= h);
    assert(s[4] == letter && s[5] == ':');
    assert(s.skip(4)[0] == letter && s.skip(4)[1] == ':');
}

/// Law: on a verbatim drive a name leads one folder further down, a dot nowhere, two dots
/// one folder up, though not above the root; a name behind a slash starts at the root.
pub proof fn law_joined_verbatim(
    base: &str,
    part: &str,
    r: String,
    letter: char,
    names: Seq<Seq<char>>,
    name: Seq<char>,
)
    requires
        call_ensures(path::join, (base, part), r),
        'A' <= letter <= 'Z' || 'a' <= letter <= 'z',
        forall|i: int| 0 <= i < names.len() ==> is_plain(#[trigger] names[i]),
        names.len() > 0 ==> names.last() != seq!['.'] && names.last() != seq!['.', '.'],
        base@ == verbatim_place(letter, names),
        is_plain(name) && !starts_with_drive(name),
    ensures
        part@ == name && name != seq!['.'] && name != seq!['.', '.'] ==> r@ == verbatim_place(
            letter,
            names.push(name),
        ),
        part@ == name && name == seq!['.'] ==> r@ == base@,
        part@ == name && name == seq!['.', '.'] ==> r@ == verbatim_place(
            letter,
            if names.len() == 0 {
                names
            } else {
                names.drop_last()
            },
        ),
        part@ == seq!['\\'] + name && name != seq!['.'] && name != seq!['.', '.'] ==> r@
            == verbatim_place(letter, seq![name]),
{
    reveal_strlit(".");
    reveal_strlit("..");
    assert("."@ =~= seq!['.']);
    assert(".."@ =~= seq!['.', '.']);
    let h = seq!['\\', '\\', '?', '\\', letter, ':'];
    lemma_verbatim_place(letter, names);
    lemma_plain(name);
    split::lemma_one_name(name, '\\');
    assert(name[0] == part@[0] || part@ != name);
    assert(!is_slash(name[0]));
    if part@ == name {
        assert(path::prefix_len(name) == 0);
        let steps = seq![name];
        reveal_with_fuel(path::walked, 2);
        let there = path::walked(names, steps, 1);
        assert(there == path::stepped(names, name));
        lemma_placed(h, letter, there);
        assert(r@ == h.push('\\') + path::strung(there, there.len() as int));
    }
    if part@ == seq!['\\'] + name {
        let p = part@;
        assert(p[0] == '\\' && p[1] == name[0]);
        assert(path::prefix_len(p) == 0);
        let none = Seq::<char>::empty();
        assert(path::backslashed(p) =~= none.push('\\') + name) by {
            assert forall|i: int| 0 <= i < p.len() implies path::backslashed(p)[i] == p[i] by {
                if i > 0 {
                    assert(p[i] == name[i - 1]);
                    assert(!is_slash(name[i - 1]));
                }
            }
        }
        split::lemma_names_joined(none, '\\', name);
        split::lemma_one_name(none, '\\');
        let steps = seq![name];
        assert(split::names_between(path::backslashed(p), '\\') =~= steps);
        let from = Seq::<Seq<char>>::empty();
        reveal_with_fuel(path::walked, 2);
        let there = path::walked(from, steps, 1);
        assert(there == path::stepped(from, name));
        if name != seq!['.'] && name != seq!['.', '.'] {
            assert(there =~= seq![name]);
            lemma_placed(h, letter, there);
        }
    }
}

proof fn lemma_placed(h: Seq<char>, letter: char, names: Seq<Seq<char>>)
    requires
        h == seq!['\\', '\\', '?', '\\', letter, ':'],
    ensures
        h.push('\\') + path::strung(names, names.len() as int) == verbatim_place(letter, names),
{
    if names.len() == 0 {
        assert(h.push('\\') + Seq::<char>::empty() =~= h + seq!['\\']);
    } else {
        lemma_strung(names, names.len() as int);
        assert(names.take(names.len() as int) =~= names);
        assert(h.push('\\') + path::strung(names, names.len() as int) =~= h + (seq!['\\']
            + path::strung(names, names.len() as int)));
    }
}

/// Law: the path of the top of a tree is its name. Any other folder, and any file, has the
/// path of its folder with its name taken from it.
pub proof fn law_paths_of_an_index(
    s: &Snapshot,
    d: u32,
    rd: String,
    up: u32,
    ru: String,
    us: &str,
    name: &str,
    joined: String,
    f: u32,
    rf: String,
)
    requires
        s.wf(),
        d < s.dirs@.len(),
        call_ensures(Snapshot::dir_path, (s, d), rd),
        up == s.dirs@[d as int].parent,
        up < d ==> call_ensures(Snapshot::dir_path, (s, up), ru),
        us@ == ru@,
        call_ensures(path::join, (us, name), joined),
        f < s.files@.len(),
        s.files@[f as int].parent < s.dirs@.len(),
        call_ensures(Snapshot::file_path, (s, f), rf),
    ensures
        up >= d ==> rd@ == s.dirs@[d as int].name@,
        up < d && name@ == s.dirs@[d as int].name@ ==> rd@ == joined@,
        up < d && s.files@[f as int].parent == up && name@ == s.files@[f as int].name@ ==> rf@
            == joined@,
{
}

/// Law: the way to a folder goes from the top, each folder the parent of the next one, to
/// the folder itself.
pub proof fn law_lineage(dirs: &Vec<DirRec>, id: u32, r: Vec<u32>)
    requires
        id < dirs@.len(),
        call_ensures(path::lineage, (dirs, id), r),
    ensures
        r@.len() > 0,
        r@.last() == id,
        forall|k: int|
            #![trigger r@[k]]
            0 < k < r@.len() ==> dirs@[r@[k] as int].parent == r@[k - 1] && r@[k - 1] < r@[k],
        dirs@[r@[0] as int].parent >= r@[0],
{
    path::lemma_chain(dirs@, id);
}

} // verus!
