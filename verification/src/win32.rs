//! What the answers of the Windows system mean: volumes, wide strings, deletion and
//! the recycle bin.

use crate::aggregate;
use crate::le;
use crate::path;
use crate::text;
use vstd::prelude::*;

verus! {

// ---------------------------- volumes ----------------------------

pub const DRIVE_UNKNOWN: u32 = 0;

pub const DRIVE_NO_ROOT_DIR: u32 = 1;

pub const DRIVE_REMOVABLE: u32 = 2;

pub const DRIVE_FIXED: u32 = 3;

pub const DRIVE_REMOTE: u32 = 4;

pub const DRIVE_CDROM: u32 = 5;

pub const DRIVE_RAMDISK: u32 = 6;

/// A volume.
#[derive(Clone, Debug)]
pub struct Drive {
    pub letter: char,
    pub label: String,
    pub fs: String,
    pub kind: u32,
    pub total: u64,
    pub free: u64,
}

/// The letter of drive number `i`: `A` for the first one.
pub open spec fn letter_of(i: int) -> char {
    (65 + i) as char
}

/// The letters of the first `k` drives whose bit is set.
pub open spec fn letters_in(mask: u32, k: int) -> Seq<char>
    decreases k,
{
    if k <= 0 {
        Seq::empty()
    } else if mask & (1u32 << ((k - 1) as u32)) != 0 {
        letters_in(mask, k - 1).push(letter_of(k - 1))
    } else {
        letters_in(mask, k - 1)
    }
}

/// The letters that the system's mask of logical drives announces, in order.
pub fn letters(mask: u32) -> (r: Vec<char>)
    ensures
        r@ == letters_in(mask, 26),
{
    let mut out: Vec<char> = Vec::new();
    let mut i: u32 = 0;
    while i < 26
        invariant
            i <= 26,
            out@ == letters_in(mask, i as int),
        decreases 26 - i,
    {
        if mask & (1u32 << i) != 0 {
            out.push((65 + i as u8) as char);
        }
        i = i + 1;
    }
    out
}

/// Fixed disks, removable ones, network drives and memory disks. An absent drive, an
/// empty optical one or an unknown type has nothing to analyse.
pub open spec fn is_usable(kind: u32) -> bool {
    kind == DRIVE_FIXED || kind == DRIVE_REMOVABLE || kind == DRIVE_REMOTE || kind == DRIVE_RAMDISK
}

fn usable(kind: u32) -> (r: bool)
    ensures
        r == is_usable(kind),
{
    kind == DRIVE_FIXED || kind == DRIVE_REMOVABLE || kind == DRIVE_REMOTE || kind == DRIVE_RAMDISK
}

/// What is known of a volume before the system is asked for more.
pub open spec fn bare(d: Drive, letter: char, kind: u32) -> bool {
    d.letter == letter && d.kind == kind && d.label@.len() == 0 && d.fs@.len() == 0 && d.total == 0
        && d.free == 0
}

/// The usable letters among the first `k`, each with its kind.
pub open spec fn usable_in(letters: Seq<char>, kinds: Seq<u32>, k: int) -> Seq<(char, u32)>
    decreases k,
{
    if k <= 0 {
        Seq::empty()
    } else if is_usable(kinds[k - 1]) {
        usable_in(letters, kinds, k - 1).push((letters[k - 1], kinds[k - 1]))
    } else {
        usable_in(letters, kinds, k - 1)
    }
}

/// The volumes to show, from the mask of logical drives and the kind of each letter in
/// it. Their labels and sizes are still to be filled in.
pub fn drives(mask: u32, kinds: &[u32]) -> (r: Vec<Drive>)
    requires
        kinds@.len() == letters_in(mask, 26).len(),
    ensures
        ({
            let u = usable_in(letters_in(mask, 26), kinds@, kinds@.len() as int);
            &&& r@.len() == u.len()
            &&& forall|i: int| 0 <= i < r@.len() ==> bare(#[trigger] r@[i], u[i].0, u[i].1)
        }),
{
    let ls = letters(mask);
    let mut out: Vec<Drive> = Vec::new();
    let mut k: usize = 0;
    while k < ls.len()
        invariant
            k <= ls@.len() == kinds@.len(),
            ls@ == letters_in(mask, 26),
            out@.len() == usable_in(ls@, kinds@, k as int).len(),
            forall|i: int|
                0 <= i < out@.len() ==> bare(
                    #[trigger] out@[i],
                    usable_in(ls@, kinds@, k as int)[i].0,
                    usable_in(ls@, kinds@, k as int)[i].1,
                ),
        decreases ls@.len() - k,
    {
        let kind = kinds[k];
        if usable(kind) {
            let d = Drive::named(ls[k], kind);
            out.push(d);
        }
        proof {
            let u = usable_in(ls@, kinds@, k as int);
            let v = usable_in(ls@, kinds@, k + 1);
            assert(kind == kinds@[k as int]);
            assert(v == if is_usable(kind) {
                u.push((ls@[k as int], kind))
            } else {
                u
            });
        }
        k = k + 1;
    }
    out
}

impl Drive {
    fn named(letter: char, kind: u32) -> (d: Drive)
        ensures
            bare(d, letter, kind),
    {
        Drive { letter, label: String::new(), fs: String::new(), kind, total: 0, free: 0 }
    }

    /// Fills in what the system says of a volume: its total and free bytes, and its
    /// label and file system, which come in wide buffers ended by a zero. What it does
    /// not say stays at zero, or empty.
    pub fn fill(&mut self, space: Option<(u64, u64)>, names: Option<(&[u16], &[u16])>)
        ensures
            final(self).letter == old(self).letter,
            final(self).kind == old(self).kind,
            match space {
                Some(p) => final(self).total == p.0 && final(self).free == p.1,
                None => final(self).total == 0 && final(self).free == 0,
            },
            match names {
                Some(p) => final(self).label@ == wide_text(p.0@) && final(self).fs@ == wide_text(
                    p.1@,
                ),
                None => final(self).label@.len() == 0 && final(self).fs@.len() == 0,
            },
    {
        let (total, free) = match space {
            Some(p) => p,
            None => (0, 0),
        };
        self.total = total;
        self.free = free;
        match names {
            Some(p) => {
                self.label = from_wide(p.0);
                self.fs = from_wide(p.1);
            },
            None => {
                self.label = String::new();
                self.fs = String::new();
            },
        }
    }
}

// ---------------------------- wide strings ----------------------------

/// A text in UTF-16, ended by a zero.
pub fn to_wide(s: &str) -> (r: Vec<u16>)
    ensures
        r@ == text::utf16(s@).push(0),
{
    let mut w = text::encode_utf16(s);
    w.push(0);
    w
}

/// What stands in front of the first zero.
pub open spec fn until_zero(u: Seq<u16>) -> Seq<u16>
    decreases u.len(),
{
    if u.len() == 0 || u[0] == 0 {
        Seq::empty()
    } else {
        seq![u[0]] + until_zero(u.drop_first())
    }
}

/// The text of a wide buffer; an empty one where it is not valid UTF-16.
pub open spec fn wide_text(u: Seq<u16>) -> Seq<char> {
    match text::text16(until_zero(u)) {
        Some(s) => s,
        None => Seq::empty(),
    }
}

fn zero_at(u: &[u16]) -> (r: usize)
    ensures
        r <= u@.len(),
        u@.take(r as int) == until_zero(u@),
{
    let mut i: usize = 0;
    assert(u@.skip(0) =~= u@);
    assert(u@.take(0) + until_zero(u@) =~= until_zero(u@));
    while i < u.len() && u[i] != 0
        invariant
            i <= u@.len(),
            until_zero(u@) == u@.take(i as int) + until_zero(u@.skip(i as int)),
        decreases u@.len() - i,
    {
        proof {
            let t = u@.skip(i as int);
            assert(t.drop_first() =~= u@.skip(i + 1));
            assert(u@.take(i as int) + until_zero(t) =~= u@.take(i + 1) + until_zero(
                u@.skip(i + 1),
            ));
        }
        i = i + 1;
    }
    assert(u@.take(i as int) =~= until_zero(u@));
    i
}

/// The text of a wide buffer, up to the first zero.
pub fn from_wide(u: &[u16]) -> (r: String)
    ensures
        r@ == wide_text(u@),
{
    let end = zero_at(u);
    let s = vstd::slice::slice_subrange(u, 0, end);
    assert(s@ =~= u@.take(end as int));
    match text::from_utf16(s) {
        Some(t) => t,
        None => String::new(),
    }
}

proof fn lemma_until_zero(u: Seq<u16>)
    requires
        forall|i: int| 0 <= i < u.len() ==> #[trigger] u[i] != 0,
    ensures
        until_zero(u.push(0)) == u,
    decreases u.len(),
{
    if u.len() == 0 {
        assert(until_zero(u.push(0)) =~= u);
    } else {
        assert(u.push(0).drop_first() =~= u.drop_first().push(0));
        lemma_until_zero(u.drop_first());
        assert(seq![u[0]] + u.drop_first() =~= u);
    }
}

proof fn lemma_char_no_zero(c: char)
    requires
        c as u32 != 0,
    ensures
        forall|k: int|
            0 <= k < text::utf16_char(c).len() ==> #[trigger] text::utf16_char(c)[k] != 0,
{
}

pub proof fn lemma_utf16_no_zero(s: Seq<char>)
    requires
        forall|i: int| 0 <= i < s.len() ==> (#[trigger] s[i]) as u32 != 0,
    ensures
        forall|i: int| 0 <= i < text::utf16(s).len() ==> #[trigger] text::utf16(s)[i] != 0,
    decreases s.len(),
{
    if s.len() > 0 {
        let t = s.drop_last();
        let c = s.last();
        assert forall|i: int| 0 <= i < t.len() implies (#[trigger] t[i]) as u32 != 0 by {
            assert(t[i] == s[i]);
        }
        lemma_utf16_no_zero(t);
        assert(c == s[s.len() - 1]);
        assert(c as u32 != 0);
        lemma_char_no_zero(c);
        assert(text::utf16(s) == text::utf16(t) + text::utf16_char(c));
    }
}

/// Law: a text without a zero is read back from the wide string made of it.
pub proof fn law_wide_back(s: Seq<char>)
    requires
        forall|i: int| 0 <= i < s.len() ==> (#[trigger] s[i]) as u32 != 0,
    ensures
        wide_text(text::utf16(s).push(0)) == s,
{
    lemma_utf16_no_zero(s);
    lemma_until_zero(text::utf16(s));
    text::law_utf16_back(s);
}

// ---------------------------- chance ----------------------------

/// Eight bytes of the system's generator, where it gave them (`code` is zero); else a
/// mix of three things that a caller does not see: a date in nanoseconds, an address of
/// the stack and the number of the process.
pub fn alea_u64(code: i32, bytes: &[u8], nanos: u64, address: u64, pid: u32) -> (r: u64)
    requires
        bytes@.len() == 8,
    ensures
        code == 0 ==> r == le::u64_of(bytes@),
        code != 0 ==> r == nanos ^ ((address << 17u64) | (address >> 47u64)) ^ ((pid as u64)
            << 32u64),
{
    if code == 0 {
        return le::get(bytes);
    }
    nanos ^ ((address << 17u64) | (address >> 47u64)) ^ ((pid as u64) << 32u64)
}

// ---------------------------- deletion ----------------------------

/// What to hand to the system for a deletion: a list of wide strings, and flags.
pub struct Removal {
    pub from: Vec<u16>,
    pub flags: u16,
}

/// What to hand to the system to delete a path: the path, ended by two zeros, and flags
/// for a silent deletion, with the one that allows to undo it where it goes to the bin.
pub open spec fn is_removal(op: Removal, path: Seq<char>, to_trash: bool) -> bool {
    &&& op.from@ == text::utf16(path).push(0).push(0)
    &&& op.flags == if to_trash {
        0x454u16
    } else {
        0x414u16
    }
}

/// Prepares the deletion of a path, in the recycle bin or for good. A verbatim path is
/// refused: with that prefix the system goes round the recycle bin.
pub fn delete_path(path: &str, to_trash: bool) -> (r: Result<Removal, String>)
    ensures
        match r {
            Ok(op) => !path::is_verbatim(path@) && is_removal(op, path@, to_trash),
            Err(e) => path::is_verbatim(path@) && e@
                == "chemin verbatim interdit pour une suppression"@,
        },
{
    if path::verbatim(&text::chars_of(path)) {
        return Err("chemin verbatim interdit pour une suppression".to_string());
    }
    let mut from = to_wide(path);
    from.push(0);
    Ok(
        Removal {
            from,
            flags: if to_trash {
                0x454
            } else {
                0x414
            },
        },
    )
}

/// What is said of a deletion that failed.
pub open spec fn failure_text(aborted: bool, code: i32) -> Seq<char> {
    if aborted {
        "opération abandonnée par le système"@
    } else if code != 0 {
        "SHFileOperationW a renvoyé "@ + text::decimal_int(code as int)
    } else {
        "le chemin existe toujours après l'opération"@
    }
}

/// Whether a deletion took place, from what the system did: `aborted` as it says, the
/// path still there (`exists`) or not, and its code. The disk alone is the judge; the
/// code only describes a failure.
pub fn removed(aborted: bool, exists: bool, code: i32) -> (r: Result<(), String>)
    ensures
        r is Ok <==> !aborted && !exists,
        r matches Err(e) ==> e@ == failure_text(aborted, code),
{
    if aborted {
        return Err("opération abandonnée par le système".to_string());
    }
    if !exists {
        return Ok(());
    }
    if code != 0 {
        let mut m = "SHFileOperationW a renvoyé ".to_string();
        text::push_decimal_int(&mut m, code as i64);
        return Err(m);
    }
    Err("le chemin existe toujours après l'opération".to_string())
}

// ---------------------------- recycle bin ----------------------------

/// Where the recycle bin of a volume lies.
pub fn recycle_root(letter: char) -> (r: String)
    ensures
        r@ == seq![letter] + ":\\$RECYCLE.BIN"@,
{
    let mut s = String::new();
    s.push(letter);
    s.append(":\\$RECYCLE.BIN");
    assert(s@ =~= seq![letter] + ":\\$RECYCLE.BIN"@);
    s
}

/// From the year 1601, where the system's dates start, to 1970, by 100 nanoseconds.
pub const EPOQUE_FILETIME: u64 = 116_444_736_000_000_000;

/// The two seconds of margin in front of the start of an operation.
pub open spec fn floor_ms(since_ms: u64) -> int {
    if since_ms >= 2000 {
        since_ms - 2000
    } else {
        0
    }
}

/// A card that was written at `written_ms`, or at a date that cannot be read, may be
/// about something deleted since `floor`. In doubt it is: a card too many costs one
/// reading, one too few would call a destruction reversible.
pub fn fiche_recente(written_ms: Option<u64>, floor: u64) -> (r: bool)
    ensures
        r == match written_ms {
            Some(w) => w >= floor,
            None => true,
        },
{
    match written_ms {
        Some(w) => w >= floor,
        None => true,
    }
}

/// An entry of the recycle bin is worth opening: it is a card, by its name, and recent.
pub fn fiche_utile(name: &str, written_ms: Option<u64>, since_ms: u64) -> (r: bool)
    ensures
        r == (text::starts_with(name@, "$I"@) && match written_ms {
            Some(w) => w >= floor_ms(since_ms),
            None => true,
        }),
{
    text::begins(name, "$I") && fiche_recente(written_ms, since_ms.saturating_sub(2000))
}

/// The units of a card's path: two bytes each, from byte `at` to byte `end`, up to a zero.
pub open spec fn card_units(b: Seq<u8>, at: int, end: int) -> Seq<u16>
    decreases end - at,
{
    if at + 1 >= end {
        Seq::empty()
    } else {
        let c = (b[at] + 256 * b[at + 1]) as u16;
        if c == 0 {
            Seq::empty()
        } else {
            seq![c] + card_units(b, at + 2, end)
        }
    }
}

/// The length that a card announces for its path, in characters.
pub open spec fn card_len(b: Seq<u8>) -> int {
    le::u32_of(b.subrange(0x18, 0x1C)) as int
}

/// The end of the path of a card: that which its length announces, or the end of the
/// card where it comes first.
pub open spec fn card_end(b: Seq<u8>) -> int {
    if 0x1C + card_len(b) * 2 <= b.len() {
        0x1C + card_len(b) * 2
    } else {
        b.len() as int
    }
}

/// A card of the second version, with a path.
pub open spec fn is_card(b: Seq<u8>) -> bool {
    b.len() >= 0x20 && le::u32_of(b.subrange(0, 4)) == 2 && card_len(b) != 0
}

/// The path that a card is about.
pub open spec fn card_path(b: Seq<u8>) -> Seq<char> {
    text::lossy_text16(card_units(b, 0x1C, card_end(b)))
}

/// The date of deletion that a card gives.
pub open spec fn card_date(b: Seq<u8>) -> u64 {
    le::u64_of(b.subrange(0x10, 0x18))
}

/// Reads a card of the recycle bin: the path of the file it is about, and the date of
/// its deletion. The length is a bound only: the path ends at the first zero.
pub fn fiche_i(b: &[u8]) -> (r: Option<(String, u64)>)
    ensures
        match r {
            Some(p) => is_card(b@) && p.0@ == card_path(b@) && p.1 == card_date(b@),
            None => !is_card(b@),
        },
{
    if b.len() < 0x20 {
        return None;
    }
    let version = vstd::slice::slice_subrange(b, 0, 4);
    let when = vstd::slice::slice_subrange(b, 0x10, 0x18);
    let count = vstd::slice::slice_subrange(b, 0x18, 0x1C);
    proof {
        le::lemma_powers();
        le::lemma_value_bound(version@);
        le::lemma_value_bound(count@);
    }
    if le::get(version) != 2 {
        return None;
    }
    let n: u64 = le::get(count);
    if n == 0 {
        return None;
    }
    let end: usize = if 0x1C + n * 2 <= b.len() as u64 {
        (0x1C + n * 2) as usize
    } else {
        b.len()
    };
    let mut u: Vec<u16> = Vec::new();
    let mut i: usize = 0x1C;
    let mut open = true;
    let ghost all = card_units(b@, 0x1C, end as int);
    assert(u@ + all =~= all);
    while open && i < end - 1
        invariant
            0x1C <= i <= b@.len(),
            0x1C < end <= b@.len() <= usize::MAX,
            open ==> u@ + card_units(b@, i as int, end as int) == all,
            !open ==> u@ == all,
        decreases b@.len() - i,
            (if open {
                1nat
            } else {
                0
            }),
    {
        let c: u16 = b[i] as u16 + 256 * (b[i + 1] as u16);
        if c == 0 {
            open = false;
            assert(u@ =~= all);
        } else {
            let ghost u0 = u@;
            u.push(c);
            assert(u0 + card_units(b@, i as int, end as int) =~= u@ + card_units(
                b@,
                i + 2,
                end as int,
            ));
            i = i + 2;
        }
    }
    assert(u@ =~= all);
    Some((text::from_utf16_lossy(u.as_slice()), le::get(when)))
}

/// The cards of the recycle bin of a volume: the path of each deleted file, and the
/// date of its deletion.
pub struct Corbeille {
    pub fiches: Vec<(String, u64)>,
}

/// The paths and dates of the cards among the first `k` contents.
pub open spec fn cards_in(contents: Seq<Vec<u8>>, k: int) -> Seq<(Seq<char>, u64)>
    decreases k,
{
    if k <= 0 {
        Seq::empty()
    } else if is_card(contents[k - 1]@) {
        cards_in(contents, k - 1).push((card_path(contents[k - 1]@), card_date(contents[k - 1]@)))
    } else {
        cards_in(contents, k - 1)
    }
}

/// From this date on, by 100 nanoseconds since 1601, a deletion is recent.
pub open spec fn date_floor(since_ms: u64) -> u64 {
    aggregate::wrapped((floor_ms(since_ms) * 10_000 + EPOQUE_FILETIME) as nat)
}

impl Corbeille {
    /// The cards, as paths and dates.
    pub open spec fn cards(self) -> Seq<(Seq<char>, u64)> {
        Seq::new(self.fiches@.len(), |i: int| (self.fiches@[i].0@, self.fiches@[i].1))
    }

    /// Reads the cards, given the contents of the entries worth opening. A volume
    /// without a recycle bin has none.
    pub fn lire(contents: &Vec<Vec<u8>>) -> (r: Corbeille)
        ensures
            r.cards() == cards_in(contents@, contents@.len() as int),
    {
        let mut r = Corbeille { fiches: Vec::new() };
        assert(r.cards() =~= cards_in(contents@, 0));
        let mut k: usize = 0;
        while k < contents.len()
            invariant
                k <= contents@.len(),
                r.cards() == cards_in(contents@, k as int),
            decreases contents@.len() - k,
        {
            let ghost before = r.cards();
            match fiche_i(contents[k].as_slice()) {
                Some(p) => {
                    let ghost item = (p.0@, p.1);
                    r.fiches.push(p);
                    assert(r.cards() =~= before.push(item));
                },
                None => {},
            }
            k = k + 1;
        }
        r
    }

    /// Whether the recycle bin took this path since `since_ms`: an older card is about
    /// an earlier deletion of the same path.
    pub fn contient(&self, path: &str, since_ms: u64) -> (r: bool)
        ensures
            r == has_card(self.cards(), path@, since_ms),
    {
        let base: u64 = since_ms.saturating_sub(2000);
        let floor: u64 = ((base as u128 * 10_000 + EPOQUE_FILETIME as u128)
            % 0x1_0000_0000_0000_0000) as u64;
        assert(floor == date_floor(since_ms));
        let mut i: usize = 0;
        while i < self.fiches.len()
            invariant
                i <= self.fiches@.len(),
                floor == date_floor(since_ms),
                forall|k: int|
                    0 <= k < i ==> !card_for(#[trigger] self.cards()[k], path@, since_ms),
            decreases self.fiches@.len() - i,
        {
            let f = &self.fiches[i];
            if f.1 >= floor && text::eq_ignore_case(f.0.as_str(), path) {
                assert(card_for(self.cards()[i as int], path@, since_ms));
                return true;
            }
            i = i + 1;
        }
        false
    }
}

/// A card is about a path, whatever the case of its letters, and recent.
pub open spec fn card_for(card: (Seq<char>, u64), path: Seq<char>, since_ms: u64) -> bool {
    card.1 >= date_floor(since_ms) && text::same_but_case(card.0, path)
}

/// Some card is about a path, and recent.
pub open spec fn has_card(cards: Seq<(Seq<char>, u64)>, path: Seq<char>, since_ms: u64) -> bool {
    exists|k: int| 0 <= k < cards.len() && card_for(#[trigger] cards[k], path, since_ms)
}

} // verus!
