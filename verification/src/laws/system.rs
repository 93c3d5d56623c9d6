//! What the answers of the system and the command line mean, told by those answers.
//!
//! A law of this file takes what a function was given and what it gave, bound by the
//! contract of that function, and says how the one follows from the other.

use crate::cache::LoadError;
use crate::clock;
use crate::laws::deleting;
use crate::laws::walking;
use crate::launch;
use crate::launch::Launch;
use crate::laws;
use crate::le;
use crate::refusal::Refusal;
use crate::split;
use crate::text;
use crate::win32;
use crate::win32::{Corbeille, Drive, Removal};
use vstd::prelude::*;

verus! {

// ---------------------------- volumes ----------------------------

/// Bit `i` of the mask is set, and stands for letter `c`.
pub open spec fn announces(mask: u32, i: u32, c: char) -> bool {
    i < 26 && mask & (1u32 << i) != 0 && c as u32 == 'A' as u32 + i
}

proof fn lemma_same_char(c: char, d: char)
    requires
        c as u32 == d as u32,
    ensures
        c == d,
{
}

proof fn lemma_smaller_char(c: char, d: char, mask: u32, i: u32, b: u32)
    requires
        announces(mask, i, c),
        i < b,
        d as u32 == 'A' as u32 + b,
    ensures
        c < d,
{
}

proof fn lemma_letters(mask: u32, k: int)
    requires
        0 <= k <= 26,
    ensures
        forall|c: char| #[trigger]
            win32::letters_in(mask, k).contains(c) <==> exists|i: u32|
                i < k && #[trigger] announces(mask, i, c),
        forall|x: int, y: int|
            0 <= x < y < win32::letters_in(mask, k).len() ==> (#[trigger] win32::letters_in(
                mask,
                k,
            )[x]) < (#[trigger] win32::letters_in(mask, k)[y]),
    decreases k,
{
    if k > 0 {
        lemma_letters(mask, k - 1);
        let was = win32::letters_in(mask, k - 1);
        let now = win32::letters_in(mask, k);
        let b = (k - 1) as u32;
        let new = win32::letter_of(k - 1);
        assert(new as u32 == 65 + b);
        assert forall|c: char| #[trigger] now.contains(c) <==> exists|i: u32|
            i < k && #[trigger] announces(mask, i, c) by {
            if now.contains(c) {
                let x = choose|x: int| 0 <= x < now.len() && now[x] == c;
                if x < was.len() {
                    assert(was[x] == c);
                    assert(was.contains(c));
                    let i = choose|i: u32| i < k - 1 && #[trigger] announces(mask, i, c);
                    assert(announces(mask, i, c));
                } else {
                    assert(announces(mask, b, c));
                }
            }
            if exists|i: u32| i < k && #[trigger] announces(mask, i, c) {
                let i = choose|i: u32| i < k && #[trigger] announces(mask, i, c);
                if i < k - 1 {
                    assert(was.contains(c));
                    let x = choose|x: int| 0 <= x < was.len() && was[x] == c;
                    assert(now[x] == c);
                } else {
                    assert(i == b);
                    lemma_same_char(c, new);
                    assert(now[was.len() as int] == c);
                }
            }
        }
        assert forall|x: int, y: int| 0 <= x < y < now.len() implies (#[trigger] now[x]) < (
        #[trigger] now[y]) by {
            if y == was.len() {
                assert(was.contains(was[x]));
                let i = choose|i: u32| i < k - 1 && #[trigger] announces(mask, i, was[x]);
                lemma_smaller_char(was[x], new, mask, i, b);
            } else {
                assert(was[x] < was[y]);
            }
        }
    }
}

/// Law: the letters are those of the bits that are set, from `A` for the lowest one to `Z`,
/// in order.
pub proof fn law_letters(mask: u32, r: Vec<char>)
    requires
        call_ensures(win32::letters, (mask,), r),
    ensures
        forall|c: char|
            #![trigger r@.contains(c)]
            r@.contains(c) <==> exists|i: u32| #[trigger] announces(mask, i, c),
        forall|x: int, y: int| 0 <= x < y < r@.len() ==> (#[trigger] r@[x]) < (#[trigger] r@[y]),
{
    lemma_letters(mask, 26);
    assert forall|c: char|
        #![trigger r@.contains(c)]
        r@.contains(c) <==> exists|i: u32| #[trigger] announces(mask, i, c) by {
        if exists|i: u32| #[trigger] announces(mask, i, c) {
            let i = choose|i: u32| #[trigger] announces(mask, i, c);
            assert(i < 26 && announces(mask, i, c));
        }
    }
}

/// A volume of this kind is shown: a removable disk, a fixed one, a network drive or a
/// memory disk.
pub open spec fn is_shown(kind: u32) -> bool {
    kind == 2 || kind == 3 || kind == 4 || kind == 6
}

proof fn lemma_usable(letters: Seq<char>, kinds: Seq<u32>, k: int)
    requires
        letters.len() == kinds.len(),
        0 <= k <= kinds.len(),
    ensures
        ({
            let at = deleting::places(kinds.len()).take(k).filter(|i: int| is_shown(kinds[i]));
            let u = win32::usable_in(letters, kinds, k);
            &&& u.len() == at.len()
            &&& forall|x: int|
                #![trigger at[x]]
                0 <= x < at.len() ==> 0 <= at[x] < k && u[x] == (letters[at[x]], kinds[at[x]])
        }),
    decreases k,
{
    let p = |i: int| is_shown(kinds[i]);
    let all = deleting::places(kinds.len());
    if k > 0 {
        lemma_usable(letters, kinds, k - 1);
        walking::lemma_filter_step(all, p, k - 1);
        assert(all[k - 1] == k - 1);
    } else {
        walking::lemma_filter_none(all, p);
    }
}

/// Law: the volumes that are shown are those of the letters whose kind can be analysed, in
/// order, each with its letter and kind and nothing else known yet.
pub proof fn law_volumes_shown(mask: u32, ls: Vec<char>, kinds: &[u32], r: Vec<Drive>)
    requires
        call_ensures(win32::letters, (mask,), ls),
        kinds@.len() == ls@.len(),
        call_ensures(win32::drives, (mask, kinds), r),
    ensures
        ({
            let at = deleting::places(kinds@.len()).filter(|i: int| is_shown(kinds@[i]));
            &&& r@.len() == at.len()
            &&& forall|x: int|
                #![trigger r@[x]]
                0 <= x < r@.len() ==> {
                    &&& r@[x].letter == ls@[at[x]]
                    &&& r@[x].kind == kinds@[at[x]]
                    &&& r@[x].label@.len() == 0
                    &&& r@[x].fs@.len() == 0
                    &&& r@[x].total == 0
                    &&& r@[x].free == 0
                }
        }),
{
    let n = kinds@.len() as int;
    lemma_usable(ls@, kinds@, n);
    let all = deleting::places(kinds@.len());
    assert(all.take(n) =~= all);
    let at = all.filter(|i: int| is_shown(kinds@[i]));
    let u = win32::usable_in(ls@, kinds@, n);
    assert forall|x: int| #![trigger r@[x]] 0 <= x < r@.len() implies win32::bare(
        r@[x],
        ls@[at[x]],
        kinds@[at[x]],
    ) by {
        assert(win32::bare(r@[x], u[x].0, u[x].1));
        let i = at[x];
    }
}

/// Law: a volume is filled in with what the system says of it, its names up to the first
/// zero; what it does not say is nothing.
pub proof fn law_filled_in(
    d: &mut Drive,
    space: Option<(u64, u64)>,
    names: Option<(&[u16], &[u16])>,
    label: String,
    fs: String,
)
    requires
        call_ensures(Drive::fill, (d, space, names), ()),
        names matches Some(p) ==> call_ensures(win32::from_wide, (p.0,), label) && call_ensures(
            win32::from_wide,
            (p.1,),
            fs,
        ),
    ensures
        final(d).letter == old(d).letter,
        final(d).kind == old(d).kind,
        space matches Some(p) ==> final(d).total == p.0 && final(d).free == p.1,
        space is None ==> final(d).total == 0 && final(d).free == 0,
        names is Some ==> final(d).label@ == label@ && final(d).fs@ == fs@,
        names is None ==> final(d).label@.len() == 0 && final(d).fs@.len() == 0,
{
}

// ---------------------------- wide strings ----------------------------

/// Law: a text goes to the system as its UTF-16 units and a zero, and comes back from them
/// as it was, whatever stands behind the zero.
pub proof fn law_wide_there_and_back(
    s: &str,
    w: Vec<u16>,
    u: Vec<u16>,
    junk: Seq<u16>,
    buf: &[u16],
    r: String,
)
    requires
        call_ensures(win32::to_wide, (s,), w),
        call_ensures(text::encode_utf16, (s,), u),
        forall|i: int| 0 <= i < s@.len() ==> (#[trigger] s@[i]) as u32 != 0,
        buf@ == w@ + junk,
        call_ensures(win32::from_wide, (buf,), r),
    ensures
        w@ == u@ + seq![0u16],
        r@ == s@,
{
    assert(w@ =~= u@ + seq![0u16]);
    win32::lemma_utf16_no_zero(s@);
    lemma_until_zero(u@, junk);
    assert(buf@ =~= u@ + (seq![0u16] + junk));
    text::law_utf16_back(s@);
}

proof fn lemma_until_zero(u: Seq<u16>, junk: Seq<u16>)
    requires
        forall|i: int| 0 <= i < u.len() ==> #[trigger] u[i] != 0,
    ensures
        win32::until_zero(u + (seq![0u16] + junk)) == u,
    decreases u.len(),
{
    let t = u + (seq![0u16] + junk);
    if u.len() == 0 {
        assert(t[0] == 0);
        assert(u =~= Seq::empty());
    } else {
        assert(t[0] == u[0]);
        assert(t.drop_first() =~= u.drop_first() + (seq![0u16] + junk));
        lemma_until_zero(u.drop_first(), junk);
        assert(seq![u[0]] + u.drop_first() =~= u);
    }
}

/// Law: a number drawn is the system's where it gave one; else every one of the three things
/// it is mixed of makes a difference, bit by bit.
pub proof fn law_drawn(
    code: i32,
    bytes: &[u8],
    nanos: u64,
    address: u64,
    pid: u32,
    r: u64,
    g: u64,
    nanos2: u64,
    r2: u64,
)
    requires
        bytes@.len() == 8,
        call_ensures(win32::alea_u64, (code, bytes, nanos, address, pid), r),
        call_ensures(win32::alea_u64, (code, bytes, nanos2, address, pid), r2),
        call_ensures(le::get, (bytes,), g),
    ensures
        code == 0 ==> r == g,
        code != 0 ==> r ^ r2 == nanos ^ nanos2,
        code != 0 ==> r ^ nanos == ((address << 17u64) | (address >> 47u64)) ^ ((pid as u64)
            << 32u64),
{
    le::lemma_value_bound(bytes@);
    le::lemma_powers();
    let a = (address << 17u64) | (address >> 47u64);
    let b = (pid as u64) << 32u64;
    assert((nanos ^ a ^ b) ^ (nanos2 ^ a ^ b) == nanos ^ nanos2) by (bit_vector);
    assert((nanos ^ a ^ b) ^ nanos == a ^ b) by (bit_vector);
}

// ---------------------------- deletion ----------------------------

/// Law: a path is handed over for deletion as its UTF-16 units and two zeros, silently, and
/// with the flag that allows to undo it exactly where it goes to the bin. A verbatim path is
/// refused.
pub proof fn law_handed_over(
    p: &str,
    to_trash: bool,
    r: Result<Removal, String>,
    u: Vec<u16>,
)
    requires
        call_ensures(win32::delete_path, (p, to_trash), r),
        call_ensures(text::encode_utf16, (p,), u),
    ensures
        r is Err <==> p@.len() >= 4 && p@[0] == '\\' && p@[1] == '\\' && p@[2] == '?' && p@[3]
            == '\\',
        r matches Ok(op) ==> op.from@ == u@ + seq![0u16, 0u16],
        r matches Ok(op) ==> (op.flags & 0x40 != 0 <==> to_trash),
        r matches Ok(op) ==> op.flags | 0x40 == 0x454,
{
    if let Ok(op) = r {
        assert(op.from@ =~= u@ + seq![0u16, 0u16]);
        assert(0x454u16 & 0x40 != 0) by (bit_vector);
        assert(0x414u16 & 0x40 == 0) by (bit_vector);
        assert(0x454u16 | 0x40 == 0x454u16) by (bit_vector);
        assert(0x414u16 | 0x40 == 0x454u16) by (bit_vector);
    }
}

/// Law: a deletion took place where the path is gone and the system did not give up; its
/// code only tells what to say of a failure.
pub proof fn law_took_place(aborted: bool, exists: bool, code: i32, r: Result<(), String>)
    requires
        call_ensures(win32::removed, (aborted, exists, code), r),
    ensures
        r is Ok <==> !exists && !aborted,
        r matches Err(e) ==> {
            &&& aborted ==> e@ == "opération abandonnée par le système"@
            &&& !aborted && code != 0 ==> e@ == "SHFileOperationW a renvoyé "@ + text::decimal_int(
                code as int,
            )
            &&& !aborted && code == 0 ==> e@ == "le chemin existe toujours après l'opération"@
        },
{
}

// ---------------------------- the recycle bin ----------------------------

/// Law: the recycle bin of a volume lies at its root, and is told by the name of its cards:
/// they start with `$I`. A card is opened where it was written since two seconds before the
/// operation, or where nobody knows when it was.
pub proof fn law_bin_and_cards(
    letter: char,
    root: String,
    name: &str,
    written: Option<u64>,
    since_ms: u64,
    r: bool,
)
    requires
        call_ensures(win32::recycle_root, (letter,), root),
        call_ensures(win32::fiche_utile, (name, written, since_ms), r),
    ensures
        root@ == seq![letter, ':', '\\'] + "$RECYCLE.BIN"@,
        r <==> name@.len() >= 2 && name@[0] == '$' && name@[1] == 'I' && (written is None
            || written->0 + 2000 >= since_ms),
{
    reveal_strlit(":\\$RECYCLE.BIN");
    reveal_strlit("$RECYCLE.BIN");
    reveal_strlit("$I");
    assert(seq![letter] + ":\\$RECYCLE.BIN"@ =~= seq![letter, ':', '\\'] + "$RECYCLE.BIN"@);
    if name@.len() >= 2 {
        let h = name@.take(2);
        if name@[0] == '$' && name@[1] == 'I' {
            assert(h =~= "$I"@);
        }
        if h == "$I"@ {
            assert(h[0] == '$' && h[1] == 'I');
        }
    }
}

/// Law: a card that was written at a date is recent from that date back.
pub proof fn law_recent(written: Option<u64>, floor: u64, r: bool)
    requires
        call_ensures(win32::fiche_recente, (written, floor), r),
    ensures
        written is None ==> r,
        written matches Some(w) ==> (r <==> floor <= w),
{
}

/// Law: a card that the system wrote for a path is read as that path and its date; bytes
/// that are too short, of another version or without a path are no card.
pub proof fn law_card_read(
    b: &[u8],
    r: Option<(String, u64)>,
    size: u64,
    date: u64,
    p: Seq<char>,
)
    requires
        call_ensures(win32::fiche_i, (b,), r),
        p.len() > 0,
        forall|i: int| 0 <= i < p.len() ==> (#[trigger] p[i]) as u32 != 0,
        text::utf16(p).len() < u32::MAX,
    ensures
        b@ == laws::written_card(size, date, p) ==> (r matches Some(c) && c.0@ == p && c.1 == date),
        b@.len() < 32 ==> r is None,
        b@.len() >= 32 && le::value(b@.subrange(0, 4)) != 2 ==> r is None,
        b@.len() >= 32 && le::value(b@.subrange(24, 28)) == 0 ==> r is None,
{
    if b@ == laws::written_card(size, date, p) {
        laws::law_card_is_read_back(size, date, p);
    }
    if b@.len() >= 32 {
        le::lemma_value_bound(b@.subrange(0, 4));
        le::lemma_value_bound(b@.subrange(24, 28));
        le::lemma_powers();
    }
}

/// Law: the recycle bin is read card by card, in order; what is no card is left out. `d` is
/// `c` with one content more.
pub proof fn law_bin_read(
    c: &Vec<Vec<u8>>,
    rc: Corbeille,
    d: &Vec<Vec<u8>>,
    rd: Corbeille,
    one: &[u8],
    card: Option<(String, u64)>,
)
    requires
        call_ensures(Corbeille::lire, (c,), rc),
        call_ensures(Corbeille::lire, (d,), rd),
        d@.len() == c@.len() + 1,
        d@.take(c@.len() as int) == c@,
        one@ == d@.last()@,
        call_ensures(win32::fiche_i, (one,), card),
    ensures
        c@.len() == 0 ==> rc.fiches@.len() == 0,
        card is None ==> rd.fiches@.len() == rc.fiches@.len(),
        card matches Some(p) ==> rd.fiches@.len() == rc.fiches@.len() + 1 && rd.fiches@.last().0@
            == p.0@ && rd.fiches@.last().1 == p.1,
        forall|i: int|
            #![trigger rd.fiches@[i]]
            0 <= i < rc.fiches@.len() ==> rd.fiches@[i].0@ == rc.fiches@[i].0@ && rd.fiches@[i].1
                == rc.fiches@[i].1,
{
    let n = c@.len() as int;
    lemma_same_cards(c@, d@, n);
    let x = rc.cards();
    let y = rd.cards();
    assert(x.len() == rc.fiches@.len() && y.len() == rd.fiches@.len());
    assert forall|i: int| #![trigger rd.fiches@[i]] 0 <= i < rc.fiches@.len() implies rd.fiches@[i].0@
        == rc.fiches@[i].0@ && rd.fiches@[i].1 == rc.fiches@[i].1 by {
        assert(y[i] == (rd.fiches@[i].0@, rd.fiches@[i].1));
        assert(x[i] == (rc.fiches@[i].0@, rc.fiches@[i].1));
        assert(y[i] == x[i]);
    }
    if card is Some {
        let last = rc.fiches@.len() as int;
        assert(y[last] == (rd.fiches@[last].0@, rd.fiches@[last].1));
    }
}

proof fn lemma_same_cards(c: Seq<Vec<u8>>, d: Seq<Vec<u8>>, k: int)
    requires
        0 <= k <= c.len() <= d.len(),
        d.take(c.len() as int) == c,
    ensures
        win32::cards_in(c, k) == win32::cards_in(d, k),
    decreases k,
{
    if k > 0 {
        lemma_same_cards(c, d, k - 1);
        assert(d.take(c.len() as int)[k - 1] == c[k - 1]);
    }
}

// ---------------------------- the command line ----------------------------

/// A word stands at place `k` of the arguments, and at no place in front of it.
pub open spec fn first_at(args: Seq<String>, word: Seq<char>, k: int) -> bool {
    &&& 0 <= k < args.len()
    &&& args[k]@ == word
    &&& forall|i: int| 0 <= i < k ==> (#[trigger] args[i])@ != word
}

/// A word stands nowhere among the arguments.
pub open spec fn nowhere(args: Seq<String>, word: Seq<char>) -> bool {
    forall|i: int| 0 <= i < args.len() ==> (#[trigger] args[i])@ != word
}

proof fn lemma_place_of_word(args: Seq<String>, word: Seq<char>, i: int, k: int)
    requires
        0 <= i <= k <= args.len(),
        k < args.len() ==> args[k]@ == word,
        forall|x: int| i <= x < k ==> (#[trigger] args[x])@ != word,
    ensures
        launch::place_of_word(split::texts(args), word, i) == k,
    decreases k - i,
{
    let all = split::texts(args);
    assert(all.len() == args.len());
    if i < args.len() {
        assert(all[i] == args[i]@);
    }
    if i < k {
        assert(args[i]@ != word);
        lemma_place_of_word(args, word, i + 1, k);
    }
}

/// Law: the program serves on the port that is asked for behind `--port`, where that is a
/// number of a port, and opens the browser unless it is told not to; without a port it takes
/// its own. `bench` as the first word asks for a measure instead, of the volume named next.
pub proof fn law_command_line(args: &Vec<String>, r: Launch, k: int, port: nat, b: int)
    requires
        call_ensures(launch::launch, (args,), r),
        first_at(args@, "--port"@, k) || nowhere(args@, "--port"@),
        first_at(args@, "--no-browser"@, b) || nowhere(args@, "--no-browser"@),
    ensures
        args@.len() >= 2 && args@[1]@ == "bench"@ ==> (r matches Launch::Bench(l) && if args@.len()
            >= 3 && args@[2]@.len() > 0 {
            l is Some && if 'a' <= args@[2]@[0] <= 'z' {
                l->0 as u32 == args@[2]@[0] as u32 - 32
            } else {
                l->0 == args@[2]@[0]
            }
        } else {
            l is None
        }),
        args@.len() < 2 || args@[1]@ != "bench"@ ==> (r matches Launch::Serve {
            port: p,
            open_browser,
        } && {
            &&& open_browser <==> nowhere(args@, "--no-browser"@)
            &&& nowhere(args@, "--port"@) ==> p == 8756
            &&& first_at(args@, "--port"@, k) && k + 1 == args@.len() ==> p == 8756
            &&& first_at(args@, "--port"@, k) && k + 1 < args@.len() && args@[k + 1]@
                == text::decimal(port) ==> p == if port <= 65535 {
                port
            } else {
                8756
            }
            &&& first_at(args@, "--port"@, k) && k + 1 < args@.len()
                && laws::showing::no_number(args@[k + 1]@) ==> p == 8756
        }),
{
    let all = split::texts(args@);
    assert(all.len() == args@.len());
    assert forall|i: int| 0 <= i < args@.len() implies #[trigger] all[i] == args@[i]@ by {}
    if nowhere(args@, "--port"@) {
        lemma_place_of_word(args@, "--port"@, 0, args@.len() as int);
    } else {
        lemma_place_of_word(args@, "--port"@, 0, k);
        if k + 1 < args@.len() {
            let t = args@[k + 1]@;
            assert(all[k + 1] == t);
            if t == text::decimal(port) {
                text::law_decimal_back(port);
                assert(text::is_digit(t[0]));
            }
            if laws::showing::no_number(t) {
                laws::showing::lemma_asks(Some(t), u16::MAX as nat, 0, 0);
                laws::showing::lemma_asks(Some(t), u16::MAX as nat, 1, 1);
            }
        }
    }
    if nowhere(args@, "--no-browser"@) {
        lemma_place_of_word(args@, "--no-browser"@, 0, args@.len() as int);
    } else {
        lemma_place_of_word(args@, "--no-browser"@, 0, b);
    }
    if args@.len() >= 3 && args@[2]@.len() > 0 {
        assert(all[2] == args@[2]@);
        lemma_capital(args@[2]@[0]);
    }
}

proof fn lemma_capital(c: char)
    ensures
        'a' <= c <= 'z' ==> text::upper_char(c) as u32 == c as u32 - 32,
        !('a' <= c <= 'z') ==> text::upper_char(c) == c,
{
}

/// Law: the ports to try go up one by one from the one that is asked for: ten of them, or as
/// many as there are up to the last one.
pub proof fn law_ports(port: u16, r: Vec<u16>)
    requires
        call_ensures(launch::ports, (port,), r),
    ensures
        r@.len() == 10 || r@.len() == 65536 - port,
        r@.len() <= 10,
        port + r@.len() <= 65536,
        r@[0] == port,
        forall|i: int| 0 <= i < r@.len() ==> #[trigger] r@[i] == port + i,
{
}

/// Law: the root of a volume is its letter, a colon and a backslash; it is walked in the
/// verbatim form.
pub proof fn law_roots(letter: char, a: String, b: String)
    requires
        call_ensures(launch::display_root, (letter,), a),
        call_ensures(launch::verbatim_root, (letter,), b),
    ensures
        a@ == seq![letter, ':', '\\'],
        b@ == seq!['\\', '\\', '?', '\\', letter, ':', '\\'],
{
    reveal_strlit(":\\");
    reveal_strlit("\\\\?\\");
    assert(a@ =~= seq![letter, ':', '\\']);
    assert(b@ =~= seq!['\\', '\\', '?', '\\', letter, ':', '\\']);
}

// ---------------------------- dates ----------------------------

/// Law: a date is what the clock says, as long as it has sixty-three bits; nothing before
/// 1970 has one.
pub proof fn law_dates(millis: Option<u128>, a: i64, secs: Option<u64>, b: i64)
    requires
        call_ensures(clock::now_ms, (millis,), a),
        call_ensures(clock::ts, (secs,), b),
    ensures
        millis is None ==> a == 0,
        millis matches Some(m) ==> m <= i64::MAX ==> a == m,
        secs is None ==> b == 0,
        secs matches Some(s) ==> s <= i64::MAX ==> b == s,
        secs matches Some(s) ==> s > i64::MAX ==> b == s - 0x1_0000_0000_0000_0000,
{
}

// ---------------------------- refusals ----------------------------

/// Law: a refusal is answered as what it is: forbidden where a stranger asks, not found
/// where there is nothing of that name, a conflict where it is not the moment, and a bad
/// request else.
pub proof fn law_statuses(e: &Refusal, r: &'static str)
    requires
        call_ensures(Refusal::status, (e,), r),
    ensures
        r@ == "403 Forbidden"@ <==> *e is ForeignHost || *e is Unmarked,
        r@ == "404 Not Found"@ <==> *e is UnknownRoute || *e is UnknownDrive,
        r@ == "409 Conflict"@ <==> *e is NotScanned || *e is Stopping || *e is NoToken
            || *e is TokenUsed || *e is Busy,
        r@ == "403 Forbidden"@ || r@ == "404 Not Found"@ || r@ == "409 Conflict"@ || r@
            == "400 Bad Request"@,
{
    reveal_strlit("403 Forbidden");
    reveal_strlit("404 Not Found");
    reveal_strlit("409 Conflict");
    reveal_strlit("400 Bad Request");
    assert("403 Forbidden"@[2] == '3' && "404 Not Found"@[2] == '4' && "409 Conflict"@[2] == '9'
        && "400 Bad Request"@[2] == '0');
}

/// Law: a refusal says why in its own words; that of a walk under way says which volume it
/// is and how far the walk is, that of a body why it could not be read.
pub proof fn law_messages(e: &Refusal, r: String)
    requires
        call_ensures(Refusal::message, (e,), r),
    ensures
        *e is ForeignHost ==> r@ == "hôte refusé"@,
        *e is Unmarked ==> r@ == "en-tête X-Diskmap absent"@,
        *e is UnknownRoute ==> r@ == "route inconnue"@,
        *e is DriveMissing ==> r@ == "drive manquant"@,
        *e is LetterMissing ==> r@ == "lettre manquante"@,
        *e is UnknownDrive ==> r@ == "volume inconnu"@,
        *e is NotScanned ==> r@ == "volume pas encore analysé"@,
        *e is Stopping ==> r@ == "arrêt en cours"@,
        *e is BadId ==> r@ == "id invalide"@,
        *e is DirOutOfRange ==> r@ == "dossier hors bornes"@,
        *e is FileOutOfRange ==> r@ == "fichier hors bornes"@,
        *e is UnknownMode ==> r@ == "mode inconnu"@,
        *e is NoToken ==> r@
            == "jeton absent ou expiré : relance une simulation avant de supprimer"@,
        *e is TokenOfAnotherDrive ==> r@ == "jeton d'un autre volume"@,
        *e is ConfirmationMissing ==> r@ == "confirmation « EFFACER » absente"@,
        *e is TokenUsed ==> r@ == "jeton consommé entre-temps : relance une simulation"@,
        *e is NotUnreadable ==> r@ == "chemin hors de la liste des illisibles"@,
        *e matches Refusal::Busy { letter, dirs, files } ==> r@ == seq![letter]
            + ": analyse en cours ("@ + text::decimal(dirs as nat) + " dossiers, "@
            + text::decimal(files as nat) + " fichiers parcourus)"@,
        *e matches Refusal::BadBody(why) ==> r@ == "corps illisible : "@ + why@,
{
}

/// Law: what is wrong with a file is said in its own words.
pub proof fn law_file_errors(e: &LoadError, r: &'static str)
    requires
        call_ensures(LoadError::message, (e,), r),
    ensures
        *e is Eof ==> r@ == "fin de fichier"@,
        *e is Magic ==> r@ == "magic"@,
        *e is Version ==> r@ == "version"@,
{
}

/// The unit of two bytes from place `at` on, the lower byte first.
pub open spec fn unit_at(b: Seq<u8>, at: int) -> int {
    b[at] + 256 * b[at + 1]
}

/// The units from byte 28 on, up to byte `end` or to the first zero.
pub open spec fn units_up_to_zero(b: Seq<u8>, end: int, u: Seq<u16>) -> bool {
    let m = u.len() as int;
    &&& 28 + 2 * m <= end
    &&& forall|i: int| 0 <= i < m ==> (#[trigger] u[i]) == unit_at(b, 28 + 2 * i) && u[i] != 0
    &&& 28 + 2 * m + 1 >= end || unit_at(b, 28 + 2 * m) == 0
}

proof fn lemma_card_units(b: Seq<u8>, end: int, k: int, u: Seq<u16>)
    requires
        28 <= end <= b.len(),
        0 <= k <= u.len(),
        units_up_to_zero(b, end, u),
    ensures
        win32::card_units(b, 28 + 2 * k, end) == u.skip(k),
    decreases u.len() - k,
{
    let at = 28 + 2 * k;
    if k < u.len() {
        lemma_card_units(b, end, k + 1, u);
        assert(u[k] == unit_at(b, at));
        assert(u.skip(k) =~= seq![u[k]] + u.skip(k + 1));
    } else {
        assert(u.skip(k) =~= Seq::empty());
    }
}

/// Law: a card of the second version with a path tells its date, and the path that stands
/// from byte 28 on, up to the first zero: the length that it announces is a bound only, as
/// is its own end.
pub proof fn law_any_card(b: &[u8], r: Option<(String, u64)>, u: Seq<u16>)
    requires
        call_ensures(win32::fiche_i, (b,), r),
        b@.len() >= 32,
        units_up_to_zero(
            b@,
            if 28 + 2 * laws::keeping::num4(b@, 24) <= b@.len() {
                28 + 2 * laws::keeping::num4(b@, 24)
            } else {
                b@.len() as int
            },
            u,
        ),
    ensures
        r is Some <==> laws::keeping::num4(b@, 0) == 2 && laws::keeping::num4(b@, 24) != 0,
        r matches Some(c) ==> c.0@ == text::lossy_text16(u) && c.1 == laws::keeping::num8(b@, 16),
{
    laws::keeping::lemma_num4(b@, 0);
    laws::keeping::lemma_num4(b@, 24);
    laws::keeping::lemma_num8(b@, 16);
    let end = win32::card_end(b@);
    if laws::keeping::num4(b@, 24) != 0 {
        lemma_card_units(b@, end, 0, u);
        assert(u.skip(0) =~= u);
    }
}

/// Law: a wide buffer is read up to its first zero; where that is no text, as none.
pub proof fn law_wide_read(u: &[u16], r: String)
    requires
        call_ensures(win32::from_wide, (u,), r),
    ensures
        r@.len() == 0 || exists|k: int|
            0 <= k <= u@.len() && #[trigger] u@.take(k) == text::utf16(r@) && (k == u@.len() || u@[k]
                == 0),
{
    lemma_cut_at_zero(u@);
    let t = win32::until_zero(u@);
    let k = t.len() as int;
    if r@.len() > 0 {
        assert(u@.take(k) == t);
    }
}

proof fn lemma_cut_at_zero(u: Seq<u16>)
    ensures
        win32::until_zero(u).len() <= u.len(),
        u.take(win32::until_zero(u).len() as int) == win32::until_zero(u),
        win32::until_zero(u).len() < u.len() ==> u[win32::until_zero(u).len() as int] == 0,
    decreases u.len(),
{
    if u.len() > 0 && u[0] != 0 {
        let v = u.drop_first();
        lemma_cut_at_zero(v);
        let n = win32::until_zero(v).len() as int;
        assert(u.take(n + 1) =~= seq![u[0]] + v.take(n));
    } else {
        assert(u.take(0) =~= Seq::empty());
    }
}

/// Law: a date that is too large goes round: it is the clock's, modulo 2 to the power 64.
pub proof fn law_large_dates(m: u128, a: i64)
    requires
        call_ensures(clock::now_ms, (Some(m),), a),
    ensures
        (m - a) % 0x1_0000_0000_0000_0000 == 0,
{
    let v = m as int % 0x1_0000_0000_0000_0000;
    vstd::arithmetic::div_mod::lemma_fundamental_div_mod(m as int, 0x1_0000_0000_0000_0000);
    let q = m as int / 0x1_0000_0000_0000_0000;
    if v < 0x8000_0000_0000_0000 {
        assert(m - a == q * 0x1_0000_0000_0000_0000);
        vstd::arithmetic::div_mod::lemma_mod_multiples_basic(q, 0x1_0000_0000_0000_0000);
    } else {
        assert(m - a == (q + 1) * 0x1_0000_0000_0000_0000);
        vstd::arithmetic::div_mod::lemma_mod_multiples_basic(q + 1, 0x1_0000_0000_0000_0000);
    }
}

} // verus!
