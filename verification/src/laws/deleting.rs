//! What a deletion shows and does, told by its targets and by what became of them.
//!
//! A law of this file takes what a function was given and what it gave, bound by the
//! contract of that function, and says how the one follows from the other.

use crate::delete;
use crate::delete::{
    DeleteItem, DeleteOutcome, DeletePreview, Deletion, Fate, Mode, Pending, PendingDel, PreviewItem,
    Target,
};
use crate::laws::totals;
use crate::laws::walking;
use crate::path;
use crate::protect;
use crate::protect::Block;
use crate::refusal::Refusal;
use crate::snapshot::Snapshot;
use crate::split;
use crate::text;
use crate::win32;
use crate::win32::{Corbeille, Removal};
use vstd::prelude::*;

verus! {

// ---------------------------- what items stand for ----------------------------

/// The item is in the index.
pub open spec fn is_known(s: Snapshot, it: DeleteItem) -> bool {
    if it.is_dir {
        it.id < s.dirs@.len()
    } else {
        it.id < s.files@.len()
    }
}

/// A target tells what the index knows of its item: the totals of the whole subtree of a
/// folder, the size of a file.
pub open spec fn true_target(s: Snapshot, it: DeleteItem, t: Target) -> bool {
    &&& t.is_dir == it.is_dir
    &&& it.is_dir ==> exists|mtime: i64| #[trigger]
        totals::is_total(s.dirs@, s.files@, it.id as int, t.size, t.count, mtime)
    &&& !it.is_dir ==> t.size == s.files@[it.id as int].size && t.count == 1
}

proof fn lemma_targets(s: Snapshot, items: Seq<DeleteItem>, k: int)
    requires
        0 <= k <= items.len(),
    ensures
        ({
            let kept = items.take(k).filter(|it: DeleteItem| is_known(s, it));
            let ts = delete::targets_of(s, items, k);
            &&& ts.len() == kept.len()
            &&& forall|x: int|
                #![trigger kept[x]]
                0 <= x < kept.len() ==> ts[x] == delete::target_of(s, kept[x])
                    && delete::resolved(s, kept[x]) is Some && is_known(s, kept[x])
        }),
    decreases k,
{
    let p = |it: DeleteItem| is_known(s, it);
    if k > 0 {
        lemma_targets(s, items, k - 1);
        walking::lemma_filter_step(items, p, k - 1);
    } else {
        walking::lemma_filter_none(items, p);
    }
}

/// Law: items stand for targets one by one, in order; only those that the index does not
/// have are left out. Each target tells the path of its item, what the index knows of it,
/// and why it is protected, where it is.
pub proof fn law_items_stand_for_targets(
    s: &Snapshot,
    items: &Vec<DeleteItem>,
    ts: Vec<Target>,
    x: int,
    p: String,
    ps: &str,
    b: Option<Option<Block>>,
)
    requires
        s.wf(),
        call_ensures(delete::targets, (s, items), Some(ts)),
        0 <= x < ts@.len(),
        ({
            let it = items@.filter(|it: DeleteItem| is_known(*s, it))[x];
            &&& it.is_dir ==> call_ensures(Snapshot::dir_path, (s, it.id), p)
            &&& !it.is_dir ==> call_ensures(Snapshot::file_path, (s, it.id), p)
        }),
        ps@ == p@,
        call_ensures(protect::try_blocked_reason, (ps,), b),
    ensures
        ts@.len() == items@.filter(|it: DeleteItem| is_known(*s, it)).len(),
        true_target(*s, items@.filter(|it: DeleteItem| is_known(*s, it))[x], ts@[x]),
        ts@[x].path@ == p@,
        b == Some(ts@[x].block),
{
    let n = items@.len() as int;
    assert(items@.take(n) =~= items@);
    lemma_targets(*s, items@, n);
    let kept = items@.filter(|it: DeleteItem| is_known(*s, it));
    let it = kept[x];
    assert(delete::aims(ts@)[x] == ts@[x]@);
    assert(delete::aims(ts@).len() == ts@.len());
    if it.is_dir {
        totals::lemma_totals(*s, it.id as int);
    }
    assert(items@.contains(it)) by {
        items@.lemma_filter_contains_rev(|it: DeleteItem| is_known(*s, it), it);
    }
    let j = choose|j: int| 0 <= j < items@.len() && items@[j] == it;
    assert(delete::tellable(*s, items@[j]));
}

// ---------------------------- the dry run ----------------------------

/// The bytes of the lines that are not blocked, added up.
pub open spec fn open_bytes(lines: Seq<PreviewItem>) -> int {
    lines.fold_left(
        0int,
        |n: int, l: PreviewItem|
            if l.blocked {
                n
            } else {
                n + l.size
            },
    )
}

/// How many lines are not blocked.
pub open spec fn open_lines(lines: Seq<PreviewItem>) -> nat {
    lines.filter(|l: PreviewItem| !l.blocked).len()
}

proof fn lemma_open_step(lines: Seq<PreviewItem>, k: int)
    requires
        0 <= k < lines.len(),
    ensures
        open_bytes(lines.take(k + 1)) == open_bytes(lines.take(k)) + if lines[k].blocked {
            0int
        } else {
            lines[k].size as int
        },
        open_lines(lines.take(k + 1)) == open_lines(lines.take(k)) + if lines[k].blocked {
            0int
        } else {
            1
        },
{
    assert(lines.take(k + 1).drop_last() =~= lines.take(k));
    assert(lines.take(k + 1).last() == lines[k]);
    walking::lemma_filter_step(lines, |l: PreviewItem| !l.blocked, k);
}

proof fn lemma_open_none(lines: Seq<PreviewItem>)
    ensures
        open_bytes(lines.take(0)) == 0,
        open_lines(lines.take(0)) == 0,
{
    walking::lemma_filter_none(lines, |l: PreviewItem| !l.blocked);
}

proof fn lemma_dry_sums(ts: Seq<Target>, exists: Seq<bool>, lines: Seq<PreviewItem>, k: int)
    requires
        0 <= k <= ts.len(),
        lines.len() == ts.len(),
        exists.len() == ts.len(),
        forall|i: int| 0 <= i < ts.len() ==> delete::dry_line(#[trigger] lines[i], ts[i]@, exists[i]),
    ensures
        delete::deletable_size(delete::aims(ts), exists, k) == open_bytes(lines.take(k)),
        delete::deletable_count(delete::aims(ts), exists, k) == open_lines(lines.take(k)),
    decreases k,
{
    if k > 0 {
        lemma_dry_sums(ts, exists, lines, k - 1);
        lemma_open_step(lines, k - 1);
        assert(delete::dry_line(lines[k - 1], ts[k - 1]@, exists[k - 1]));
        assert(delete::aims(ts)[k - 1] == ts[k - 1]@);
    } else {
        lemma_open_none(lines);
    }
}

/// Law: a dry run has one line for each target, in order, with what the target tells. A
/// target is blocked where it is protected, for that reason, or where it is not on disk.
pub proof fn law_dry_lines(
    ts: &Vec<Target>,
    exists: &Vec<bool>,
    token: String,
    bin: bool,
    r: DeletePreview,
)
    requires
        exists@.len() == ts@.len(),
        call_ensures(delete::dry, (ts, exists, token, bin), r),
    ensures
        r.token@ == token@,
        r.corbeille == bin,
        r.items@.len() == ts@.len(),
        forall|i: int|
            #![trigger r.items@[i]]
            0 <= i < ts@.len() ==> {
                let l = r.items@[i];
                let t = ts@[i];
                &&& l.path@ == t.path@
                &&& l.size == t.size
                &&& l.count == t.count
                &&& l.is_dir == t.is_dir
                &&& l.exists == exists@[i]
                &&& l.blocked == (t.block is Some || !exists@[i])
                &&& t.block is Some ==> l.reason@ == protect::block_text(t.block->0)
                &&& t.block is None && exists@[i] ==> l.reason@.len() == 0
                &&& t.block is None && !exists@[i] ==> l.reason@ == "introuvable sur le disque"@
            },
{
    assert forall|i: int| #![trigger r.items@[i]] 0 <= i < ts@.len() implies delete::dry_line(
        r.items@[i],
        ts@[i]@,
        exists@[i],
    ) by {}
}

/// Law: the total of a dry run adds up over its lines: the sizes of all the lines that are
/// not blocked, modulo 2 to the power 64. Lines are counted one by one, and above twenty
/// gigabytes there is a warning.
pub proof fn law_dry_total(
    ts: &Vec<Target>,
    exists: &Vec<bool>,
    token: String,
    bin: bool,
    r: DeletePreview,
)
    requires
        exists@.len() == ts@.len(),
        call_ensures(delete::dry, (ts, exists, token, bin), r),
    ensures
        r.total_size == open_bytes(r.items@) % 0x1_0000_0000_0000_0000,
        r.deletable == open_lines(r.items@),
        r.blocked == r.items@.len() - open_lines(r.items@),
        r.volumineux <==> r.total_size > 20 * 1024 * 1024 * 1024,
{
    let n = ts@.len() as int;
    lemma_dry_sums(ts@, exists@, r.items@, n);
    assert(r.items@.take(n) =~= r.items@);
}

proof fn lemma_more_lines(a: Seq<PreviewItem>, b: Seq<PreviewItem>, k: int)
    requires
        0 <= k <= b.len(),
    ensures
        open_bytes(a + b.take(k)) == open_bytes(a) + open_bytes(b.take(k)),
        open_lines(a + b.take(k)) == open_lines(a) + open_lines(b.take(k)),
    decreases k,
{
    if k > 0 {
        let c = a + b;
        let m = a.len() + k - 1;
        lemma_more_lines(a, b, k - 1);
        lemma_open_step(b, k - 1);
        lemma_open_step(c, m);
        assert(c.take(m + 1) =~= a + b.take(k));
        assert(c.take(m) =~= a + b.take(k - 1));
        assert(c[m] == b[k - 1]);
    } else {
        lemma_open_none(b);
        assert(a + b.take(0) =~= a);
    }
}

/// Law: the total of two lists, one behind the other, is the sum of their totals; a list of
/// one target that can be deleted totals its size, and of one that cannot, nothing.
pub proof fn law_dry_totals_add(
    a: &Vec<Target>,
    xa: &Vec<bool>,
    ra: DeletePreview,
    b: &Vec<Target>,
    xb: &Vec<bool>,
    rb: DeletePreview,
    c: &Vec<Target>,
    xc: &Vec<bool>,
    rc: DeletePreview,
    token: String,
    bin: bool,
)
    requires
        xa@.len() == a@.len(),
        xb@.len() == b@.len(),
        c@ == a@ + b@,
        xc@ == xa@ + xb@,
        call_ensures(delete::dry, (a, xa, token, bin), ra),
        call_ensures(delete::dry, (b, xb, token, bin), rb),
        call_ensures(delete::dry, (c, xc, token, bin), rc),
    ensures
        rc.total_size == (ra.total_size + rb.total_size) % 0x1_0000_0000_0000_0000,
        rc.deletable == ra.deletable + rb.deletable,
        rc.blocked == ra.blocked + rb.blocked,
        a@.len() == 1 ==> ra.total_size == if a@[0].block is None && xa@[0] {
            a@[0].size
        } else {
            0
        },
{
    law_dry_total(a, xa, token, bin, ra);
    law_dry_total(b, xb, token, bin, rb);
    law_dry_total(c, xc, token, bin, rc);
    law_dry_lines(a, xa, token, bin, ra);
    law_dry_lines(b, xb, token, bin, rb);
    law_dry_lines(c, xc, token, bin, rc);
    let na = a@.len() as int;
    let nb = b@.len() as int;
    let all = ra.items@ + rb.items@;
    assert forall|i: int| 0 <= i < rc.items@.len() implies #[trigger] rc.items@[i].size
        == all[i].size && rc.items@[i].blocked == all[i].blocked by {
        let l = rc.items@[i];
        if i < na {
            assert(c@[i] == a@[i] && xc@[i] == xa@[i]);
            let m = ra.items@[i];
        } else {
            assert(c@[i] == b@[i - na] && xc@[i] == xb@[i - na]);
            let m = rb.items@[i - na];
        }
    }
    lemma_same_sums(rc.items@, all, rc.items@.len() as int);
    assert(rc.items@.take(rc.items@.len() as int) =~= rc.items@);
    assert(all.take(all.len() as int) =~= all);
    lemma_more_lines(ra.items@, rb.items@, nb);
    assert(rb.items@.take(nb) =~= rb.items@);
    vstd::arithmetic::div_mod::lemma_add_mod_noop(
        open_bytes(ra.items@),
        open_bytes(rb.items@),
        0x1_0000_0000_0000_0000,
    );
    if na == 1 {
        let l = ra.items@[0];
        lemma_open_none(ra.items@);
        lemma_open_step(ra.items@, 0);
        assert(ra.items@.take(1) =~= ra.items@);
    }
}

proof fn lemma_same_sums(a: Seq<PreviewItem>, b: Seq<PreviewItem>, k: int)
    requires
        a.len() == b.len(),
        0 <= k <= a.len(),
        forall|i: int|
            0 <= i < a.len() ==> #[trigger] a[i].size == b[i].size && a[i].blocked == b[i].blocked,
    ensures
        open_bytes(a.take(k)) == open_bytes(b.take(k)),
        open_lines(a.take(k)) == open_lines(b.take(k)),
    decreases k,
{
    if k > 0 {
        lemma_same_sums(a, b, k - 1);
        lemma_open_step(a, k - 1);
        lemma_open_step(b, k - 1);
        assert(a[k - 1].size == b[k - 1].size);
    } else {
        lemma_open_none(a);
        lemma_open_none(b);
    }
}

// ---------------------------- the outcome ----------------------------

proof fn lemma_gone_sums(ts: Seq<Target>, fs: Seq<Fate>, lines: Seq<PreviewItem>, k: int)
    requires
        0 <= k <= ts.len(),
        fs.len() == ts.len(),
        lines.len() == ts.len(),
        forall|i: int| 0 <= i < ts.len() ==> delete::fate_line(#[trigger] lines[i], ts[i]@, fs[i]),
    ensures
        delete::gone_size(delete::aims(ts), fs, k) == open_bytes(lines.take(k)),
        delete::gone(fs, k) == open_lines(lines.take(k)),
    decreases k,
{
    if k > 0 {
        lemma_gone_sums(ts, fs, lines, k - 1);
        lemma_open_step(lines, k - 1);
        assert(delete::fate_line(lines[k - 1], ts[k - 1]@, fs[k - 1]));
        assert(delete::aims(ts)[k - 1] == ts[k - 1]@);
    } else {
        lemma_open_none(lines);
    }
}

/// Law: the outcome has one line for each target, in order, with what the target tells. A
/// line is not blocked where its target is gone, and only there; the others say why.
pub proof fn law_outcome_lines(
    ts: &Vec<Target>,
    fs: &Vec<Fate>,
    to_trash: bool,
    bin: &Corbeille,
    since_ms: u64,
    o: DeleteOutcome,
    journal: Vec<String>,
)
    requires
        fs@.len() == ts@.len(),
        call_ensures(delete::execute, (ts, fs, to_trash, bin, since_ms), (o, journal)),
    ensures
        o.to_trash == to_trash,
        o.results@.len() == ts@.len(),
        forall|i: int|
            #![trigger o.results@[i]]
            0 <= i < ts@.len() ==> {
                let l = o.results@[i];
                let t = ts@[i];
                &&& l.path@ == t.path@
                &&& l.size == t.size
                &&& l.count == t.count
                &&& l.is_dir == t.is_dir
                &&& l.blocked == !(fs@[i] is Gone)
                &&& match fs@[i] {
                    Fate::Protected => l.exists && (t.block is Some ==> l.reason@
                        == protect::block_text(t.block->0)),
                    Fate::Missing => !l.exists && l.reason@ == "introuvable sur le disque"@,
                    Fate::Failed { error, still } => l.exists == still && l.reason@ == error@,
                    Fate::Gone { .. } => l.exists && l.reason@.len() == 0,
                }
            },
{
    assert forall|i: int| #![trigger o.results@[i]] 0 <= i < ts@.len() implies delete::fate_line(
        o.results@[i],
        ts@[i]@,
        fs@[i],
    ) by {
        assert(delete::aims(ts@)[i] == ts@[i]@);
    }
}

/// Law: what was freed adds up over the lines of what is gone, modulo 2 to the power 64;
/// lines are counted one by one. The volume is to be walked again as soon as one is gone.
pub proof fn law_outcome_total(
    ts: &Vec<Target>,
    fs: &Vec<Fate>,
    to_trash: bool,
    bin: &Corbeille,
    since_ms: u64,
    o: DeleteOutcome,
    journal: Vec<String>,
)
    requires
        fs@.len() == ts@.len(),
        call_ensures(delete::execute, (ts, fs, to_trash, bin, since_ms), (o, journal)),
    ensures
        o.freed == open_bytes(o.results@) % 0x1_0000_0000_0000_0000,
        o.done == open_lines(o.results@),
        o.failed == o.results@.len() - open_lines(o.results@),
        o.rescan <==> exists|i: int| 0 <= i < fs@.len() && (#[trigger] fs@[i]) is Gone,
{
    let n = ts@.len() as int;
    let lines = o.results@;
    assert forall|i: int| 0 <= i < ts@.len() implies delete::fate_line(
        #[trigger] lines[i],
        ts@[i]@,
        fs@[i],
    ) by {
        assert(delete::aims(ts@)[i] == ts@[i]@);
    }
    lemma_gone_sums(ts@, fs@, lines, n);
    assert(lines.take(n) =~= lines);
    lemma_some_gone(fs@, n);
}

proof fn lemma_some_gone(fs: Seq<Fate>, k: int)
    requires
        0 <= k <= fs.len(),
    ensures
        delete::gone(fs, k) > 0 <==> exists|i: int| 0 <= i < k && (#[trigger] fs[i]) is Gone,
    decreases k,
{
    if k > 0 {
        lemma_some_gone(fs, k - 1);
        if fs[k - 1] is Gone {
            assert(fs[k - 1] is Gone);
        }
    }
}

/// Law: where all that a dry run found deletable is gone and nothing else, what was freed
/// and how much was deleted is what the dry run announced.
pub proof fn law_freed_as_announced(
    ts: &Vec<Target>,
    exists: &Vec<bool>,
    token: String,
    has_bin: bool,
    shown: DeletePreview,
    fs: &Vec<Fate>,
    to_trash: bool,
    bin: &Corbeille,
    since_ms: u64,
    o: DeleteOutcome,
    journal: Vec<String>,
)
    requires
        exists@.len() == ts@.len(),
        fs@.len() == ts@.len(),
        call_ensures(delete::dry, (ts, exists, token, has_bin), shown),
        call_ensures(delete::execute, (ts, fs, to_trash, bin, since_ms), (o, journal)),
        forall|i: int|
            #![trigger fs@[i]]
            0 <= i < ts@.len() ==> (fs@[i] is Gone <==> ts@[i].block is None && exists@[i]),
    ensures
        o.freed == shown.total_size,
        o.done == shown.deletable,
        o.failed == shown.blocked,
{
    law_dry_total(ts, exists, token, has_bin, shown);
    law_dry_lines(ts, exists, token, has_bin, shown);
    law_outcome_total(ts, fs, to_trash, bin, since_ms, o, journal);
    law_outcome_lines(ts, fs, to_trash, bin, since_ms, o, journal);
    let a = shown.items@;
    let b = o.results@;
    assert forall|i: int| 0 <= i < a.len() implies #[trigger] a[i].size == b[i].size
        && a[i].blocked == b[i].blocked by {
        let f = fs@[i];
        let l = b[i];
    }
    lemma_same_sums(a, b, a.len() as int);
    assert(a.take(a.len() as int) =~= a);
    assert(b.take(b.len() as int) =~= b);
}

// ---------------------------- the bin and the journal ----------------------------

/// From this date on, by 100 nanoseconds since 1601, a card of the recycle bin is about a
/// deletion that started at `since_ms`: two seconds before it.
pub open spec fn card_floor(since_ms: u64) -> int {
    ((if since_ms >= 2000 {
        since_ms - 2000
    } else {
        0
    }) * 10_000 + 116_444_736_000_000_000) % 0x1_0000_0000_0000_0000
}

/// The recycle bin holds a path: some card is about it, whatever the case of its letters,
/// and recent enough.
pub open spec fn in_bin(bin: Corbeille, p: Seq<char>, since_ms: u64) -> bool {
    exists|k: int|
        0 <= k < bin.fiches@.len() && text::same_but_case((#[trigger] bin.fiches@[k]).0@, p)
            && bin.fiches@[k].1 >= card_floor(since_ms)
}

proof fn lemma_in_bin(bin: Corbeille, p: Seq<char>, since_ms: u64)
    ensures
        win32::has_card(bin.cards(), p, since_ms) == in_bin(bin, p, since_ms),
{
    let cards = bin.cards();
    if win32::has_card(cards, p, since_ms) {
        let k = choose|k: int| 0 <= k < cards.len() && win32::card_for(#[trigger] cards[k], p, since_ms);
        assert(bin.fiches@[k].1 == cards[k].1);
    }
    if in_bin(bin, p, since_ms) {
        let k = choose|k: int|
            0 <= k < bin.fiches@.len() && text::same_but_case((#[trigger] bin.fiches@[k]).0@, p)
                && bin.fiches@[k].1 >= card_floor(since_ms);
        assert(win32::card_for(cards[k], p, since_ms));
    }
}

/// Law: the recycle bin took a path where a card says so, whatever the case of its letters,
/// and the card is not older than two seconds before the operation.
pub proof fn law_bin_holds(bin: &Corbeille, p: &str, since_ms: u64, r: bool)
    requires
        call_ensures(Corbeille::contient, (bin, p, since_ms), r),
    ensures
        r == in_bin(*bin, p@, since_ms),
{
    lemma_in_bin(*bin, p@, since_ms);
}

/// The target at place `i` is gone.
pub open spec fn gone_at(fs: Seq<Fate>, i: int) -> bool {
    fs[i] is Gone
}

/// The target at place `i` is gone, was meant for the bin, and is not in it.
pub open spec fn lost_at(
    ts: Seq<Target>,
    fs: Seq<Fate>,
    to_trash: bool,
    bin: Corbeille,
    since_ms: u64,
    i: int,
) -> bool {
    gone_at(fs, i) && to_trash && !in_bin(bin, ts[i].path@, since_ms)
}

/// The places from zero to `n`, excluded.
pub open spec fn places(n: nat) -> Seq<int> {
    Seq::new(n, |i: int| i)
}

/// A line of the journal: the date, what took place, the bytes, the files and the path,
/// with tabs between them.
pub open spec fn journal_entry(t: Target, at_ms: i64, to_trash: bool, lost: bool) -> Seq<char> {
    let word = if !to_trash {
        "definitif"@
    } else if lost {
        "corbeille-refusee"@
    } else {
        "corbeille"@
    };
    text::decimal_int(at_ms as int) + "\t"@ + word + "\t"@ + text::decimal(t.size as nat) + "\t"@
        + text::decimal(t.count as nat) + "\t"@ + t.path@
}

proof fn lemma_records(
    ts: Seq<Target>,
    fs: Seq<Fate>,
    to_trash: bool,
    bin: Corbeille,
    since_ms: u64,
    k: int,
)
    requires
        fs.len() == ts.len(),
        0 <= k <= ts.len(),
    ensures
        ({
            let lost = places(ts.len()).take(k).filter(
                |i: int| lost_at(ts, fs, to_trash, bin, since_ms, i),
            );
            let out = delete::destroyed_in(
                delete::aims(ts),
                fs,
                to_trash,
                bin.cards(),
                since_ms,
                k,
            );
            &&& out.len() == lost.len()
            &&& forall|x: int| #![trigger lost[x]] 0 <= x < lost.len() ==> out[x] == ts[lost[x]].path@
        }),
        ({
            let went = places(ts.len()).take(k).filter(|i: int| gone_at(fs, i));
            let out = delete::journal_of(delete::aims(ts), fs, to_trash, bin.cards(), since_ms, k);
            &&& out.len() == went.len()
            &&& forall|x: int|
                #![trigger went[x]]
                0 <= x < went.len() ==> fs[went[x]] is Gone && out[x] == journal_entry(
                    ts[went[x]],
                    fs[went[x]]->at_ms,
                    to_trash,
                    !in_bin(bin, ts[went[x]].path@, since_ms),
                )
        }),
    decreases k,
{
    let p = |i: int| lost_at(ts, fs, to_trash, bin, since_ms, i);
    let q = |i: int| gone_at(fs, i);
    let at = places(ts.len());
    if k > 0 {
        lemma_records(ts, fs, to_trash, bin, since_ms, k - 1);
        walking::lemma_filter_step(at, p, k - 1);
        walking::lemma_filter_step(at, q, k - 1);
        assert(at[k - 1] == k - 1);
        assert(delete::aims(ts)[k - 1] == ts[k - 1]@);
        lemma_in_bin(bin, ts[k - 1].path@, since_ms);
    } else {
        walking::lemma_filter_none(at, p);
        walking::lemma_filter_none(at, q);
    }
}

/// Law: what was meant for the recycle bin, is gone and is not in it, is named: each such
/// path, in order, and no other. The journal has one line for each target that is gone, in
/// order, which says what really took place.
pub proof fn law_losses_and_journal(
    ts: &Vec<Target>,
    fs: &Vec<Fate>,
    to_trash: bool,
    bin: &Corbeille,
    since_ms: u64,
    o: DeleteOutcome,
    journal: Vec<String>,
)
    requires
        fs@.len() == ts@.len(),
        call_ensures(delete::execute, (ts, fs, to_trash, bin, since_ms), (o, journal)),
    ensures
        ({
            let lost = places(ts@.len()).filter(
                |i: int| lost_at(ts@, fs@, to_trash, *bin, since_ms, i),
            );
            &&& o.detruits@.len() == lost.len()
            &&& forall|x: int|
                #![trigger o.detruits@[x]]
                0 <= x < lost.len() ==> o.detruits@[x]@ == ts@[lost[x]].path@
        }),
        ({
            let went = places(ts@.len()).filter(|i: int| gone_at(fs@, i));
            &&& journal@.len() == went.len()
            &&& forall|x: int|
                #![trigger journal@[x]]
                0 <= x < went.len() ==> fs@[went[x]] is Gone && journal@[x]@ == journal_entry(
                    ts@[went[x]],
                    fs@[went[x]]->at_ms,
                    to_trash,
                    !in_bin(*bin, ts@[went[x]].path@, since_ms),
                )
        }),
{
    let n = ts@.len() as int;
    lemma_records(ts@, fs@, to_trash, *bin, since_ms, n);
    let at = places(ts@.len());
    assert(at.take(n) =~= at);
    let lost = at.filter(|i: int| lost_at(ts@, fs@, to_trash, *bin, since_ms, i));
    let went = at.filter(|i: int| gone_at(fs@, i));
    assert(split::texts(o.detruits@).len() == o.detruits@.len());
    assert(split::texts(journal@).len() == journal@.len());
    assert forall|x: int| #![trigger o.detruits@[x]] 0 <= x < lost.len() implies o.detruits@[x]@
        == ts@[lost[x]].path@ by {
        assert(split::texts(o.detruits@)[x] == o.detruits@[x]@);
    }
    assert forall|x: int| #![trigger journal@[x]] 0 <= x < went.len() implies fs@[went[x]] is Gone
        && journal@[x]@ == journal_entry(
        ts@[went[x]],
        fs@[went[x]]->at_ms,
        to_trash,
        !in_bin(*bin, ts@[went[x]].path@, since_ms),
    ) by {
        assert(split::texts(journal@)[x] == journal@[x]@);
    }
}

// ---------------------------- one target after the other ----------------------------

/// Law: a deletion takes its targets one by one, in order. A protected one and one that is
/// not on disk go nowhere near the system; any other one is handed over by its path, ended
/// by two zeros, with the flag that allows to undo where it is meant for the bin and without
/// it where it is not. A verbatim path is refused.
pub proof fn law_judged(
    p: PendingDel,
    to_trash: bool,
    d: Deletion,
    dj: &mut Deletion,
    exists: bool,
    r: Option<Removal>,
)
    requires
        call_ensures(Deletion::start, (p, to_trash), d),
        old(dj).wf(),
        old(dj).targets@ == d.targets@,
        old(dj).to_trash == d.to_trash,
        old(dj).fates@.len() < old(dj).targets@.len(),
        call_ensures(Deletion::judge, (dj, exists), r),
    ensures
        d.targets@ == p.targets@,
        d.fates@.len() == 0,
        d.to_trash == to_trash,
        final(dj).targets@ == p.targets@,
        final(dj).to_trash == to_trash,
        ({
            let k = old(dj).fates@.len() as int;
            let t = p.targets@[k];
            let verbatim = t.path@.len() >= 4 && t.path@.take(4) == seq!['\\', '\\', '?', '\\'];
            &&& r is Some <==> t.block is None && exists && !verbatim
            &&& r matches Some(op) ==> {
                &&& op.from@ == text::utf16(t.path@) + seq![0u16, 0u16]
                &&& to_trash ==> op.flags == 0x0454
                &&& !to_trash ==> op.flags == 0x0414
                &&& final(dj).fates@ == old(dj).fates@
            }
            &&& r is None ==> {
                &&& final(dj).fates@.len() == k + 1
                &&& final(dj).fates@.take(k) == old(dj).fates@
                &&& t.block is Some ==> final(dj).fates@[k] is Protected
                &&& t.block is None && !exists ==> final(dj).fates@[k] is Missing
                &&& t.block is None && exists ==> (final(dj).fates@[k] matches Fate::Failed {
                    error,
                    still,
                } && still && error@ == "chemin verbatim interdit pour une suppression"@)
            }
        }),
{
    let k = old(dj).fates@.len() as int;
    let t = p.targets@[k];
    if t.path@.len() >= 4 {
        let h = t.path@.take(4);
        assert(h == seq!['\\', '\\', '?', '\\'] <==> path::is_verbatim(t.path@)) by {
            if path::is_verbatim(t.path@) {
                assert(h =~= seq!['\\', '\\', '?', '\\']);
            }
            if h == seq!['\\', '\\', '?', '\\'] {
                assert(h[0] == '\\' && h[1] == '\\' && h[2] == '?' && h[3] == '\\');
            }
        }
    }
    if r is Some {
        assert(text::utf16(t.path@).push(0).push(0) =~= text::utf16(t.path@) + seq![0u16, 0u16]);
    } else {
        assert(final(dj).fates@.drop_last() =~= final(dj).fates@.take(k));
    }
}

/// Law: the disk alone says whether a target is gone: it is where the path is no longer
/// there and the system did not give up, whatever the system's code. What failed is told in
/// the words for what the system did.
pub proof fn law_the_disk_is_the_judge(
    d: &mut Deletion,
    aborted: bool,
    still: bool,
    code: i32,
    at_ms: i64,
    said: Result<(), String>,
)
    requires
        old(d).wf(),
        old(d).fates@.len() < old(d).targets@.len(),
        old(d).targets@[old(d).fates@.len() as int].block is None,
        !path::is_verbatim(old(d).targets@[old(d).fates@.len() as int].path@),
        call_ensures(Deletion::report, (d, aborted, still, code, at_ms), ()),
        call_ensures(win32::removed, (aborted, still, code), said),
    ensures
        final(d).targets@ == old(d).targets@,
        final(d).to_trash == old(d).to_trash,
        final(d).fates@.len() == old(d).fates@.len() + 1,
        final(d).fates@.take(old(d).fates@.len() as int) == old(d).fates@,
        !aborted && !still ==> final(d).fates@.last() == (Fate::Gone { at_ms }),
        aborted || still ==> (final(d).fates@.last() matches Fate::Failed { error, still: s } && s
            == still && error@.len() > 0 && (said matches Err(e) && error@ == e@)),
{
    let n = old(d).fates@.len() as int;
    assert(final(d).fates@.drop_last() =~= final(d).fates@.take(n));
    reveal_strlit("opération abandonnée par le système");
    reveal_strlit("SHFileOperationW a renvoyé ");
    reveal_strlit("le chemin existe toujours après l'opération");
}

/// Law: the next path is that of the first target without a fate; there is none where every
/// target has one. What a deletion sums up at its end is what became of its targets.
pub proof fn law_next_path_and_sum(
    d: &Deletion,
    r: Option<&str>,
    bin: &Corbeille,
    since_ms: u64,
    a: (DeleteOutcome, Vec<String>),
)
    requires
        d.wf(),
        call_ensures(Deletion::next_path, (d,), r),
        d.fates@.len() == d.targets@.len() ==> call_ensures(
            Deletion::finish,
            (d, bin, since_ms),
            a,
        ),
    ensures
        r is Some <==> d.fates@.len() < d.targets@.len(),
        r matches Some(p) ==> p@ == d.targets@[d.fates@.len() as int].path@,
        d.fates@.len() == d.targets@.len() ==> {
            &&& a.0.done == d.fates@.filter(|f: Fate| f is Gone).len()
            &&& a.0.results@.len() == d.targets@.len()
            &&& a.0.to_trash == d.to_trash
        },
{
    if d.fates@.len() == d.targets@.len() {
        let n = d.fates@.len() as int;
        lemma_gone_filter(d.fates@, n);
        assert(d.fates@.take(n) =~= d.fates@);
    }
}

proof fn lemma_gone_filter(fs: Seq<Fate>, k: int)
    requires
        0 <= k <= fs.len(),
    ensures
        delete::gone(fs, k) == fs.take(k).filter(|f: Fate| f is Gone).len(),
    decreases k,
{
    let p = |f: Fate| f is Gone;
    if k > 0 {
        lemma_gone_filter(fs, k - 1);
        walking::lemma_filter_step(fs, p, k - 1);
    } else {
        walking::lemma_filter_none(fs, p);
    }
}

// ---------------------------- tokens ----------------------------

/// Law: tokens of two dates or of two draws are never the same.
pub proof fn law_token_texts(t: i64, x: u64, a: String, u: i64, y: u64, b: String)
    requires
        call_ensures(delete::token, (t, x), a),
        call_ensures(delete::token, (u, y), b),
    ensures
        a@ == b@ <==> t == u && x == y,
{
    if a@ == b@ {
        delete::law_tokens_differ(t, x, u, y);
    }
}

/// Law: a token serves for ten minutes, for its volume alone, and to delete for good only
/// with the word for it. Turning a request down costs no token. `p` is what is kept before
/// the dry run, then come the dry run and the request.
pub proof fn law_token_serves(
    p: &mut Pending,
    token: String,
    drive: char,
    targets: Vec<Target>,
    at_ms: i64,
    c: &mut Pending,
    asked: &str,
    letter: char,
    to_trash: bool,
    confirm: &str,
    now_ms: i64,
    r: Result<(), Refusal>,
)
    requires
        old(p).wf(),
        call_ensures(Pending::keep, (p, token, drive, targets, at_ms), ()),
        *old(c) == *final(p),
        call_ensures(Pending::check, (c, asked, letter, to_trash, confirm, now_ms), r),
        asked@ == token@,
        i64::MIN <= now_ms - at_ms <= i64::MAX,
    ensures
        now_ms - at_ms >= 600_000 ==> (r matches Err(e) && e is NoToken) && final(c).value(
            token@,
        ) is None,
        now_ms - at_ms < 600_000 ==> {
            &&& final(c).value(token@) == Some(PendingDel { drive, targets, at_ms })
            &&& r is Ok <==> letter == drive && (to_trash || confirm@ == "EFFACER"@)
            &&& letter != drive ==> (r matches Err(e) && e is TokenOfAnotherDrive)
            &&& letter == drive && !to_trash && confirm@ != "EFFACER"@ ==> (r matches Err(e)
                && e is ConfirmationMissing)
        },
{
    let before = old(c).value(token@);
    let after = final(c).value(token@);
    assert(now_ms.wrapping_sub(at_ms) == now_ms - at_ms);
}

/// Law: a token that was never given out, or was used up, does not serve.
pub proof fn law_unknown_token(
    c: &mut Pending,
    asked: &str,
    letter: char,
    to_trash: bool,
    confirm: &str,
    now_ms: i64,
    r: Result<(), Refusal>,
)
    requires
        old(c).wf(),
        old(c).value(asked@) is None,
        call_ensures(Pending::check, (c, asked, letter, to_trash, confirm, now_ms), r),
    ensures
        r matches Err(e) && e is NoToken,
        final(c).value(asked@) is None,
{
    let after = final(c).value(asked@);
}

/// Law: a token gives the list that was kept under it, once: it does not serve a second
/// time. Other tokens are left alone.
pub proof fn law_token_serves_once(
    p: &mut Pending,
    token: String,
    drive: char,
    targets: Vec<Target>,
    at_ms: i64,
    c: &mut Pending,
    asked: &str,
    r: Result<PendingDel, Refusal>,
    c2: &mut Pending,
    r2: Result<PendingDel, Refusal>,
    other: Seq<char>,
)
    requires
        old(p).wf(),
        call_ensures(Pending::keep, (p, token, drive, targets, at_ms), ()),
        *old(c) == *final(p),
        asked@ == token@,
        call_ensures(Pending::consume, (c, asked), r),
        *old(c2) == *final(c),
        call_ensures(Pending::consume, (c2, asked), r2),
        other != token@,
    ensures
        r == Ok::<PendingDel, Refusal>(PendingDel { drive, targets, at_ms }),
        r2 matches Err(e) && e is TokenUsed,
        final(c).value(token@) is None,
        final(c2).value(other) == old(p).value(other),
{
    let a = final(p).value(other);
    let b = final(c).value(other);
    let d = final(c2).value(other);
}

/// Law: forgetting old tokens keeps those of the last ten minutes, as they are, and no
/// others.
pub proof fn law_old_tokens_go(p: &mut Pending, now_ms: i64, t: Seq<char>, d: PendingDel)
    requires
        old(p).wf(),
        old(p).value(t) == Some(d),
        i64::MIN <= now_ms - d.at_ms <= i64::MAX,
        call_ensures(Pending::prune, (p, now_ms), ()),
    ensures
        now_ms - d.at_ms < 600_000 ==> final(p).value(t) == Some(d),
        now_ms - d.at_ms >= 600_000 ==> final(p).value(t) is None,
{
    let after = final(p).value(t);
    assert(now_ms.wrapping_sub(d.at_ms) == now_ms - d.at_ms);
}

/// Law: there are three ways to delete, each with its word, and no other.
pub proof fn law_modes(word: &str, r: Result<Mode, Refusal>)
    requires
        call_ensures(delete::mode, (word,), r),
    ensures
        r == Ok::<Mode, Refusal>(Mode::Dry) <==> word@ == "dry"@,
        r == Ok::<Mode, Refusal>(Mode::Recycle) <==> word@ == "recycle"@,
        r == Ok::<Mode, Refusal>(Mode::Permanent) <==> word@ == "permanent"@,
        r matches Err(e) ==> e is UnknownMode,
{
    reveal_strlit("dry");
    reveal_strlit("recycle");
    reveal_strlit("permanent");
    assert("dry"@.len() == 3 && "recycle"@.len() == 7 && "permanent"@.len() == 9);
}

/// Law: a deletion is summed up as its targets and their fates are.
pub proof fn law_summed_up(
    d: &Deletion,
    bin: &Corbeille,
    since_ms: u64,
    a: (DeleteOutcome, Vec<String>),
    b: (DeleteOutcome, Vec<String>),
)
    requires
        d.wf(),
        d.fates@.len() == d.targets@.len(),
        call_ensures(Deletion::finish, (d, bin, since_ms), a),
        call_ensures(
            delete::execute,
            (&d.targets, &d.fates, d.to_trash, bin, since_ms),
            b,
        ),
    ensures
        a.0.done == b.0.done,
        a.0.failed == b.0.failed,
        a.0.freed == b.0.freed,
        a.0.to_trash == b.0.to_trash,
        a.0.rescan == b.0.rescan,
        a.0.detruits@.len() == b.0.detruits@.len(),
        forall|i: int|
            #![trigger a.0.detruits@[i]]
            0 <= i < a.0.detruits@.len() ==> a.0.detruits@[i]@ == b.0.detruits@[i]@,
        a.1@.len() == b.1@.len(),
        forall|i: int| #![trigger a.1@[i]] 0 <= i < a.1@.len() ==> a.1@[i]@ == b.1@[i]@,
        a.0.results@.len() == b.0.results@.len(),
        forall|i: int|
            #![trigger a.0.results@[i]]
            0 <= i < a.0.results@.len() ==> {
                &&& a.0.results@[i].path@ == b.0.results@[i].path@
                &&& a.0.results@[i].size == b.0.results@[i].size
                &&& a.0.results@[i].blocked == b.0.results@[i].blocked
                &&& a.0.results@[i].reason@ == b.0.results@[i].reason@
            },
{
    let x = split::texts(a.0.detruits@);
    let y = split::texts(b.0.detruits@);
    assert(x == y && x.len() == a.0.detruits@.len() && y.len() == b.0.detruits@.len());
    assert forall|i: int|
        #![trigger a.0.detruits@[i]]
        0 <= i < a.0.detruits@.len() implies a.0.detruits@[i]@ == b.0.detruits@[i]@ by {
        assert(x[i] == a.0.detruits@[i]@ && y[i] == b.0.detruits@[i]@);
    }
    let u = split::texts(a.1@);
    let v = split::texts(b.1@);
    assert(u == v && u.len() == a.1@.len() && v.len() == b.1@.len());
    assert forall|i: int| #![trigger a.1@[i]] 0 <= i < a.1@.len() implies a.1@[i]@ == b.1@[i]@ by {
        assert(u[i] == a.1@[i]@ && v[i] == b.1@[i]@);
    }
    let ts = delete::aims(d.targets@);
    assert forall|i: int| #![trigger a.0.results@[i]] 0 <= i < a.0.results@.len() implies {
        &&& a.0.results@[i].path@ == b.0.results@[i].path@
        &&& a.0.results@[i].size == b.0.results@[i].size
        &&& a.0.results@[i].blocked == b.0.results@[i].blocked
        &&& a.0.results@[i].reason@ == b.0.results@[i].reason@
    } by {
        assert(delete::fate_line(a.0.results@[i], ts[i], d.fates@[i]));
        assert(delete::fate_line(b.0.results@[i], ts[i], d.fates@[i]));
    }
}

/// Law: an item has a path where it is in the index, and weighs nothing where it is not.
pub proof fn law_unknown_items(
    s: &Snapshot,
    it: &DeleteItem,
    p: Option<String>,
    n: (u64, u64),
)
    requires
        s.wf(),
        delete::has_folder(*s, *it),
        call_ensures(delete::resolve, (s, it), p),
        call_ensures(delete::index_size, (s, it), n),
    ensures
        p is Some <==> is_known(*s, *it),
        !is_known(*s, *it) ==> n == (0u64, 0u64),
        is_known(*s, *it) && !it.is_dir ==> n == (s.files@[it.id as int].size, 1u64),
        is_known(*s, *it) && it.is_dir ==> exists|mtime: i64| #[trigger]
            totals::is_total(s.dirs@, s.files@, it.id as int, n.0, n.1, mtime),
{
    if is_known(*s, *it) && it.is_dir {
        let a = it.id as int;
        totals::lemma_totals(*s, a);
        assert(n == (s.size@[a], s.count@[a]));
        assert(totals::is_total(s.dirs@, s.files@, a, n.0, n.1, s.mtime@[a]));
    }
}

/// Law: a target that is protected is not tried, nor is one that is not on disk; what was
/// tried is gone where the verdict says so.
pub proof fn law_fates(
    t: &Target,
    exists: bool,
    before: Option<Fate>,
    verdict: Result<(), String>,
    still: bool,
    at_ms: i64,
    after: Fate,
)
    requires
        call_ensures(delete::fate_before, (t, exists), before),
        call_ensures(delete::fate_after, (verdict, still, at_ms), after),
    ensures
        before is None <==> t.block is None && exists,
        t.block is Some ==> (before matches Some(f) && f is Protected),
        t.block is None && !exists ==> (before matches Some(f) && f is Missing),
        verdict is Ok ==> after == (Fate::Gone { at_ms }),
        verdict matches Err(e) ==> after == (Fate::Failed { error: e, still }),
{
}

/// Law: at the start no token serves.
pub proof fn law_no_token_at_the_start(p: Pending, t: Seq<char>)
    requires
        call_ensures(Pending::new, (), p),
    ensures
        p.value(t) is None,
{
    let v = p.value(t);
}

} // verus!
