//! Deleting. Nothing is deleted that was not shown before: a dry run lists what will
//! disappear and gives a token, and only what that token stands for is deleted, once,
//! within ten minutes.

use crate::aggregate;
use crate::path;
use crate::protect;
use crate::protect::Block;
use crate::refusal::Refusal;
use crate::snapshot::Snapshot;
use crate::split;
use crate::table::Table;
use crate::text;
use crate::win32;
use crate::win32::{Corbeille, Removal};
use vstd::prelude::*;

verus! {

// ---------------------------- what to delete ----------------------------

/// A folder or a file to delete, by its number.
#[derive(Clone, Copy, Debug)]
pub struct DeleteItem {
    pub id: u32,
    pub is_dir: bool,
}

/// The path of an item; nothing where it is not in the index.
pub open spec fn resolved(s: Snapshot, it: DeleteItem) -> Option<Seq<char>> {
    if it.is_dir {
        if it.id < s.dirs@.len() {
            Some(path::path_of(s.dirs@, it.id))
        } else {
            None
        }
    } else if it.id < s.files@.len() {
        Some(s.path_of_file(it.id as int))
    } else {
        None
    }
}

/// The item is no file, or lies in a folder of the index, or is not in the index at all.
pub open spec fn has_folder(s: Snapshot, it: DeleteItem) -> bool {
    !it.is_dir && it.id < s.files@.len() ==> s.files@[it.id as int].parent < s.dirs@.len()
}

pub fn resolve(s: &Snapshot, it: &DeleteItem) -> (r: Option<String>)
    requires
        has_folder(*s, *it),
    ensures
        text::text_in(r) == resolved(*s, *it),
{
    if it.is_dir {
        if (it.id as usize) < s.n_dirs() {
            Some(s.dir_path(it.id))
        } else {
            None
        }
    } else if (it.id as usize) < s.n_files() {
        Some(s.file_path(it.id))
    } else {
        None
    }
}

/// The bytes and the number of files of an item; zero where it is not in the index.
pub open spec fn size_of_item(s: Snapshot, it: DeleteItem) -> (u64, u64) {
    if it.is_dir {
        if it.id < s.dirs@.len() {
            (s.size@[it.id as int], s.count@[it.id as int])
        } else {
            (0, 0)
        }
    } else if it.id < s.files@.len() {
        (s.files@[it.id as int].size, 1)
    } else {
        (0, 0)
    }
}

pub fn index_size(s: &Snapshot, it: &DeleteItem) -> (r: (u64, u64))
    requires
        s.wf(),
    ensures
        r == size_of_item(*s, *it),
{
    let i = it.id as usize;
    if it.is_dir {
        if i < s.n_dirs() {
            (s.size[i], s.count[i])
        } else {
            (0, 0)
        }
    } else if i < s.n_files() {
        (s.files[i].size, 1)
    } else {
        (0, 0)
    }
}

/// A path to delete, with what the index says of it.
#[derive(Debug)]
pub struct Target {
    pub path: String,
    pub size: u64,
    pub count: u64,
    pub is_dir: bool,
    /// Why it is protected, where it is.
    pub block: Option<Block>,
}

pub struct TargetView {
    pub path: Seq<char>,
    pub size: u64,
    pub count: u64,
    pub is_dir: bool,
    pub block: Option<Block>,
}

impl View for Target {
    type V = TargetView;

    open spec fn view(&self) -> TargetView {
        TargetView {
            path: self.path@,
            size: self.size,
            count: self.count,
            is_dir: self.is_dir,
            block: self.block,
        }
    }
}

/// What targets are.
pub open spec fn aims(ts: Seq<Target>) -> Seq<TargetView> {
    Seq::new(ts.len(), |i: int| ts[i]@)
}

/// The target that an item stands for.
pub open spec fn target_of(s: Snapshot, it: DeleteItem) -> TargetView {
    let p = resolved(s, it)->0;
    TargetView {
        path: p,
        size: size_of_item(s, it).0,
        count: size_of_item(s, it).1,
        is_dir: it.is_dir,
        block: protect::block_of(text::capitals(p)),
    }
}

/// The targets that the first `k` items stand for; those that are not in the index are
/// left out.
pub open spec fn targets_of(s: Snapshot, items: Seq<DeleteItem>, k: int) -> Seq<TargetView>
    decreases k,
{
    if k <= 0 {
        Seq::empty()
    } else if resolved(s, items[k - 1]) is Some {
        targets_of(s, items, k - 1).push(target_of(s, items[k - 1]))
    } else {
        targets_of(s, items, k - 1)
    }
}

/// The path of an item can be told, and whether it is protected.
pub open spec fn tellable(s: Snapshot, it: DeleteItem) -> bool {
    has_folder(s, it) && match resolved(s, it) {
        Some(p) => protect::sliceable(text::capitals(p)),
        None => true,
    }
}

/// The targets that items stand for. Gives nothing where the path of one of them cannot
/// be told, or whether it is protected.
pub fn targets(s: &Snapshot, items: &Vec<DeleteItem>) -> (r: Option<Vec<Target>>)
    requires
        s.wf(),
    ensures
        r is Some <==> forall|i: int|
            0 <= i < items@.len() ==> tellable(*s, #[trigger] items@[i]),
        r matches Some(ts) ==> aims(ts@) == targets_of(*s, items@, items@.len() as int),
{
    let mut out: Vec<Target> = Vec::new();
    assert(aims(out@) =~= targets_of(*s, items@, 0));
    let mut k: usize = 0;
    while k < items.len()
        invariant
            s.wf(),
            k <= items@.len(),
            forall|i: int| 0 <= i < k ==> tellable(*s, #[trigger] items@[i]),
            aims(out@) == targets_of(*s, items@, k as int),
        decreases items@.len() - k,
    {
        let it = items[k];
        if !it.is_dir && (it.id as usize) < s.n_files() && s.files[it.id as usize].parent as usize
            >= s.n_dirs() {
            assert(!tellable(*s, items@[k as int]));
            return None;
        }
        match resolve(s, &it) {
            Some(p) => {
                let block = match protect::try_blocked_reason(p.as_str()) {
                    Some(b) => b,
                    None => {
                        assert(!tellable(*s, items@[k as int]));
                        return None;
                    },
                };
                let (size, count) = index_size(s, &it);
                let t = Target { path: p, size, count, is_dir: it.is_dir, block };
                let ghost before = out@;
                assert(t@ == target_of(*s, it));
                out.push(t);
                assert(aims(out@) =~= aims(before).push(t@));
            },
            None => {},
        }
        k = k + 1;
    }
    Some(out)
}

// ---------------------------- the dry run ----------------------------

/// One line of what will be deleted, or of what became of it.
#[derive(Debug)]
pub struct PreviewItem {
    pub path: String,
    pub size: u64,
    pub count: u64,
    pub is_dir: bool,
    pub exists: bool,
    pub blocked: bool,
    pub reason: String,
}

/// A line, for a target.
pub open spec fn is_line(
    l: PreviewItem,
    t: TargetView,
    exists: bool,
    blocked: bool,
    reason: Seq<char>,
) -> bool {
    &&& l.path@ == t.path
    &&& l.size == t.size
    &&& l.count == t.count
    &&& l.is_dir == t.is_dir
    &&& l.exists == exists
    &&& l.blocked == blocked
    &&& l.reason@ == reason
}

fn line(t: &Target, exists: bool, blocked: bool, reason: String) -> (l: PreviewItem)
    ensures
        is_line(l, t@, exists, blocked, reason@),
{
    PreviewItem {
        path: t.path.clone(),
        size: t.size,
        count: t.count,
        is_dir: t.is_dir,
        exists,
        blocked,
        reason,
    }
}

/// The text of a reason; empty where there is none.
pub open spec fn reason_text(b: Option<Block>) -> Seq<char> {
    match b {
        Some(b) => protect::block_text(b),
        None => Seq::empty(),
    }
}

fn reason_of(b: Option<Block>) -> (r: String)
    ensures
        r@ == reason_text(b),
{
    match b {
        Some(b) => b.text().to_string(),
        None => {
            let none = String::new();
            assert(none@ =~= Seq::empty());
            none
        },
    }
}

/// A target is deleted only if it is not protected and still there.
pub open spec fn deletable(t: TargetView, exists: bool) -> bool {
    t.block is None && exists
}

/// What the dry run says of a target.
pub open spec fn dry_line(l: PreviewItem, t: TargetView, exists: bool) -> bool {
    is_line(
        l,
        t,
        exists,
        !deletable(t, exists),
        if t.block is Some || exists {
            reason_text(t.block)
        } else {
            "introuvable sur le disque"@
        },
    )
}

/// The bytes of what can be deleted among the first `k` targets.
pub open spec fn deletable_size(ts: Seq<TargetView>, exists: Seq<bool>, k: int) -> nat
    decreases k,
{
    if k <= 0 {
        0
    } else {
        deletable_size(ts, exists, k - 1) + if deletable(ts[k - 1], exists[k - 1]) {
            ts[k - 1].size as nat
        } else {
            0
        }
    }
}

/// How many of the first `k` targets can be deleted.
pub open spec fn deletable_count(ts: Seq<TargetView>, exists: Seq<bool>, k: int) -> nat
    decreases k,
{
    if k <= 0 {
        0
    } else {
        deletable_count(ts, exists, k - 1) + if deletable(ts[k - 1], exists[k - 1]) {
            1nat
        } else {
            0
        }
    }
}

/// Above this many bytes the dry run warns: twenty gigabytes.
pub const HEAVY: u64 = 21_474_836_480;

/// What a dry run shows.
#[derive(Debug)]
pub struct DeletePreview {
    pub token: String,
    pub items: Vec<PreviewItem>,
    pub total_size: u64,
    pub deletable: usize,
    pub blocked: usize,
    /// The volume has a recycle bin. Without one, what goes to it is destroyed.
    pub corbeille: bool,
    /// There is a lot to delete.
    pub volumineux: bool,
}

/// Shows what will be deleted. `exists` says of each target whether it is still on disk,
/// `corbeille` whether the volume has a recycle bin.
pub fn dry(ts: &Vec<Target>, exists: &Vec<bool>, token: String, corbeille: bool) -> (r:
    DeletePreview)
    requires
        exists@.len() == ts@.len(),
    ensures
        r.token@ == token@,
        r.items@.len() == ts@.len(),
        forall|i: int| 0 <= i < ts@.len() ==> dry_line(#[trigger] r.items@[i], ts@[i]@, exists@[i]),
        r.total_size == aggregate::wrapped(
            deletable_size(aims(ts@), exists@, ts@.len() as int),
        ),
        r.deletable == deletable_count(aims(ts@), exists@, ts@.len() as int),
        r.deletable + r.blocked == ts@.len(),
        r.corbeille == corbeille,
        r.volumineux == (r.total_size > 20 * 1024 * 1024 * 1024),
{
    let mut items: Vec<PreviewItem> = Vec::new();
    let mut total: u64 = 0;
    let mut deletable: usize = 0;
    let mut blocked: usize = 0;
    let ghost av = aims(ts@);
    let mut k: usize = 0;
    while k < ts.len()
        invariant
            k <= ts@.len(),
            exists@.len() == ts@.len(),
            av == aims(ts@),
            items@.len() == k,
            forall|i: int| 0 <= i < k ==> dry_line(#[trigger] items@[i], ts@[i]@, exists@[i]),
            total == aggregate::wrapped(deletable_size(av, exists@, k as int)),
            deletable == deletable_count(av, exists@, k as int),
            deletable + blocked == k,
        decreases ts@.len() - k,
    {
        let t = &ts[k];
        let there = exists[k];
        assert(av[k as int] == t@);
        let protected = t.block.is_some();
        let reason = if protected || there {
            reason_of(t.block)
        } else {
            "introuvable sur le disque".to_string()
        };
        if protected || !there {
            blocked = blocked + 1;
        } else {
            deletable = deletable + 1;
            total = total.wrapping_add(t.size);
        }
        let l = line(t, there, protected || !there, reason);
        items.push(l);
        k = k + 1;
    }
    let volumineux = total > HEAVY;
    DeletePreview { token, items, total_size: total, deletable, blocked, corbeille, volumineux }
}

/// The text of a token.
pub open spec fn token_text(now_ms: i64, alea: u64) -> Seq<char> {
    text::decimal_int(now_ms as int) + "-"@ + text::decimal(alea as nat)
}

/// A token: a date and a number that cannot be guessed.
pub fn token(now_ms: i64, alea: u64) -> (r: String)
    ensures
        r@ == token_text(now_ms, alea),
{
    let mut t = String::new();
    text::push_decimal_int(&mut t, now_ms);
    assert(t@ =~= text::decimal_int(now_ms as int));
    t.append("-");
    text::push_decimal(&mut t, alea);
    t
}

/// Law: two tokens are the same only where they come from one date and one draw.
pub proof fn law_tokens_differ(t: i64, x: u64, u: i64, y: u64)
    requires
        token_text(t, x) == token_text(u, y),
    ensures
        t == u,
        x == y,
{
    let a = text::decimal_int(t as int);
    let b = text::decimal_int(u as int);
    let c = text::decimal(x as nat);
    let d = text::decimal(y as nat);
    let s = token_text(t, x);
    reveal_strlit("-");
    assert(s == a + "-"@ + c);
    assert(s == b + "-"@ + d);
    text::law_decimal_back(x as nat);
    text::law_decimal_back(y as nat);
    assert(s[a.len() as int] == '-');
    assert(s[b.len() as int] == '-');
    if a.len() < b.len() {
        assert(s[b.len() as int] == c[b.len() - a.len() - 1]);
        assert(text::is_digit(c[b.len() - a.len() - 1]));
    } else if b.len() < a.len() {
        assert(s[a.len() as int] == d[a.len() - b.len() - 1]);
        assert(text::is_digit(d[a.len() - b.len() - 1]));
    }
    assert(a =~= s.take(a.len() as int));
    assert(b =~= s.take(a.len() as int));
    assert(c =~= s.skip(a.len() as int + 1));
    assert(d =~= s.skip(a.len() as int + 1));
    lemma_decimal_int(t as int, u as int);
}

proof fn lemma_decimal_int(t: int, u: int)
    requires
        text::decimal_int(t) == text::decimal_int(u),
    ensures
        t == u,
{
    let p = if t < 0 {
        -t
    } else {
        t
    };
    let q = if u < 0 {
        -u
    } else {
        u
    };
    text::law_decimal_back(p as nat);
    text::law_decimal_back(q as nat);
    let s = text::decimal_int(t);
    if t < 0 {
        assert(text::decimal(p as nat) =~= s.skip(1));
    } else {
        assert(text::is_digit(text::decimal(p as nat)[0]));
    }
    if u < 0 {
        assert(text::decimal(q as nat) =~= s.skip(1));
    } else {
        assert(text::is_digit(text::decimal(q as nat)[0]));
    }
}

// ---------------------------- tokens ----------------------------

/// What a dry run showed: without its token nothing can be deleted.
#[derive(Debug)]
pub struct PendingDel {
    pub drive: char,
    pub targets: Vec<Target>,
    pub at_ms: i64,
}

/// A token lives for ten minutes.
pub const LIFE_MS: i64 = 600_000;

/// A token made at `at_ms` is still good.
pub open spec fn fresh(now_ms: i64, at_ms: i64) -> bool {
    now_ms.wrapping_sub(at_ms) < LIFE_MS
}

/// What a token stands for at a given date.
pub open spec fn alive(p: Option<PendingDel>, now_ms: i64) -> Option<PendingDel> {
    match p {
        Some(d) => if fresh(now_ms, d.at_ms) {
            p
        } else {
            None
        },
        None => None,
    }
}

/// The tokens that were given out and not used.
pub struct Pending {
    pub table: Table<PendingDel>,
}

impl Pending {
    pub open spec fn wf(self) -> bool {
        self.table.wf()
    }

    /// What a token stands for.
    pub open spec fn value(self, token: Seq<char>) -> Option<PendingDel> {
        self.table.value(token)
    }

    pub fn new() -> (p: Pending)
        ensures
            p.wf(),
            forall|t: Seq<char>| #[trigger] p.value(t) is None,
    {
        Pending { table: Table::new() }
    }

    /// Keeps what a dry run showed, under its token.
    pub fn keep(&mut self, token: String, drive: char, targets: Vec<Target>, at_ms: i64)
        requires
            old(self).wf(),
        ensures
            final(self).wf(),
            final(self).value(token@) == Some(PendingDel { drive, targets, at_ms }),
            forall|t: Seq<char>|
                t != token@ ==> #[trigger] final(self).value(t) == old(self).value(t),
    {
        self.table.set(token, PendingDel { drive, targets, at_ms });
    }

    /// Forgets the tokens that are too old.
    pub fn prune(&mut self, now_ms: i64)
        requires
            old(self).wf(),
        ensures
            final(self).wf(),
            forall|t: Seq<char>| #[trigger]
                final(self).value(t) == alive(old(self).value(t), now_ms),
    {
        let ghost p0 = *self;
        let mut i: usize = 0;
        while i < self.table.pairs.len()
            invariant
                p0 == *old(self),
                p0.wf(),
                self.wf(),
                i <= self.table.pairs@.len(),
                forall|k: int|
                    0 <= k < i ==> fresh(now_ms, (#[trigger] self.table.pairs@[k]).1.at_ms),
                forall|t: Seq<char>|
                    #![trigger self.value(t)]
                    self.value(t) == p0.value(t) || (self.value(t) is None && alive(
                        p0.value(t),
                        now_ms,
                    ) is None),
            decreases self.table.pairs@.len() - i,
        {
            let at = self.table.pairs[i].1.at_ms;
            if now_ms.wrapping_sub(at) < LIFE_MS {
                i = i + 1;
            } else {
                let ghost p1 = *self;
                let ghost key = self.table.pairs@[i as int].0@;
                self.table.remove_at(i);
                proof {
                    assert(p1.value(key) is Some);
                    assert forall|t: Seq<char>|
                        #![trigger self.value(t)]
                        self.value(t) == p0.value(t) || (self.value(t) is None && alive(
                            p0.value(t),
                            now_ms,
                        ) is None) by {
                        let before = p1.value(t);
                        if t == key {
                            assert(before == p0.value(t));
                        }
                    }
                    assert forall|k: int| 0 <= k < i implies fresh(
                        now_ms,
                        (#[trigger] self.table.pairs@[k]).1.at_ms,
                    ) by {
                        assert(self.table.pairs@[k] == p1.table.pairs@[k]);
                    }
                }
            }
        }
        proof {
            assert forall|t: Seq<char>| #[trigger] self.value(t) == alive(p0.value(t), now_ms) by {
                if self.value(t) is Some {
                    let k = choose|k: int| self.table.at(t, k);
                    assert(self.table.at(t, k));
                    assert(fresh(now_ms, self.table.pairs@[k].1.at_ms));
                }
            }
        }
    }

    /// Decides whether a deletion may go on: its token must be known and fresh, for this
    /// volume, and deleting for good takes the word `EFFACER`. A request that is turned
    /// down costs no token.
    pub fn check(
        &mut self,
        token: &str,
        letter: char,
        to_trash: bool,
        confirm: &str,
        now_ms: i64,
    ) -> (r: Result<(), Refusal>)
        requires
            old(self).wf(),
        ensures
            final(self).wf(),
            forall|t: Seq<char>| #[trigger]
                final(self).value(t) == alive(old(self).value(t), now_ms),
            match alive(old(self).value(token@), now_ms) {
                None => r matches Err(e) && e is NoToken,
                Some(p) => if p.drive != letter {
                    r matches Err(e) && e is TokenOfAnotherDrive
                } else if !to_trash && confirm@ != "EFFACER"@ {
                    r matches Err(e) && e is ConfirmationMissing
                } else {
                    r is Ok
                },
            },
    {
        self.prune(now_ms);
        let drive = match self.table.get(token) {
            Some(p) => p.drive,
            None => {
                assert(self.value(token@) is None);
                return Err(Refusal::NoToken);
            },
        };
        assert(self.value(token@) is Some);
        if drive != letter {
            return Err(Refusal::TokenOfAnotherDrive);
        }
        if !to_trash && !text::str_eq(confirm, "EFFACER") {
            return Err(Refusal::ConfirmationMissing);
        }
        Ok(())
    }

    /// Uses a token up: it will not serve again.
    pub fn consume(&mut self, token: &str) -> (r: Result<PendingDel, Refusal>)
        requires
            old(self).wf(),
        ensures
            final(self).wf(),
            match old(self).value(token@) {
                Some(p) => r == Ok::<PendingDel, Refusal>(p),
                None => r matches Err(e) && e is TokenUsed,
            },
            final(self).value(token@) is None,
            forall|t: Seq<char>|
                t != token@ ==> #[trigger] final(self).value(t) == old(self).value(t),
    {
        match self.table.remove(token) {
            Some(p) => Ok(p),
            None => Err(Refusal::TokenUsed),
        }
    }
}

/// Law: a token stands for the list that was shown with it, and for no other: a later dry
/// run, even of the same date, leaves it alone unless both draws are the same. `p` is what
/// is kept before that dry run, `q` after it.
pub proof fn law_token_keeps_its_list(p: Pending, q: Pending, t: i64, x: u64, u: i64, y: u64)
    requires
        t != u || x != y,
        forall|k: Seq<char>| k != token_text(u, y) ==> #[trigger] q.value(k) == p.value(k),
    ensures
        token_text(t, x) != token_text(u, y),
        q.value(token_text(t, x)) == p.value(token_text(t, x)),
{
    if token_text(t, x) == token_text(u, y) {
        law_tokens_differ(t, x, u, y);
    }
}

// ---------------------------- the deletion ----------------------------

/// What became of a target.
#[derive(Debug)]
pub enum Fate {
    Protected,
    Missing,
    /// The system failed, with these words; whether the path is still there.
    Failed { error: String, still: bool },
    /// The path is gone, at this date.
    Gone { at_ms: i64 },
}

/// What becomes of a target before anything is tried; nothing where it is to be deleted.
pub fn fate_before(t: &Target, exists: bool) -> (r: Option<Fate>)
    ensures
        match r {
            Some(f) => !deletable(t@, exists) && if t.block is Some {
                f is Protected
            } else {
                f is Missing
            },
            None => deletable(t@, exists),
        },
{
    if t.block.is_some() {
        Some(Fate::Protected)
    } else if !exists {
        Some(Fate::Missing)
    } else {
        None
    }
}

/// What became of a target once its deletion was tried.
pub fn fate_after(verdict: Result<(), String>, still: bool, at_ms: i64) -> (r: Fate)
    ensures
        match verdict {
            Ok(_) => r == (Fate::Gone { at_ms }),
            Err(e) => r == (Fate::Failed { error: e, still }),
        },
{
    match verdict {
        Ok(()) => Fate::Gone { at_ms },
        Err(error) => Fate::Failed { error, still },
    }
}

/// What a deletion did.
#[derive(Debug)]
pub struct DeleteOutcome {
    pub done: usize,
    pub failed: usize,
    pub freed: u64,
    pub to_trash: bool,
    pub results: Vec<PreviewItem>,
    /// The index does not tell what is on disk any more: the volume is to be walked again.
    pub rescan: bool,
    /// What was meant for the recycle bin, and was destroyed.
    pub detruits: Vec<String>,
}

/// What the outcome says of a target.
pub open spec fn fate_line(l: PreviewItem, t: TargetView, f: Fate) -> bool {
    match f {
        Fate::Protected => is_line(l, t, true, true, reason_text(t.block)),
        Fate::Missing => is_line(l, t, false, true, "introuvable sur le disque"@),
        Fate::Failed { error, still } => is_line(l, t, still, true, error@),
        Fate::Gone { .. } => is_line(l, t, true, false, Seq::empty()),
    }
}

/// How many of the first `k` targets are gone.
pub open spec fn gone(fs: Seq<Fate>, k: int) -> nat
    decreases k,
{
    if k <= 0 {
        0
    } else {
        gone(fs, k - 1) + if fs[k - 1] is Gone {
            1nat
        } else {
            0
        }
    }
}

/// The bytes of those that are gone among the first `k` targets.
pub open spec fn gone_size(ts: Seq<TargetView>, fs: Seq<Fate>, k: int) -> nat
    decreases k,
{
    if k <= 0 {
        0
    } else {
        gone_size(ts, fs, k - 1) + if fs[k - 1] is Gone {
            ts[k - 1].size as nat
        } else {
            0
        }
    }
}

/// A path meant for the recycle bin is not in it.
pub open spec fn destroyed(
    p: Seq<char>,
    to_trash: bool,
    cards: Seq<(Seq<char>, u64)>,
    since_ms: u64,
) -> bool {
    to_trash && !win32::has_card(cards, p, since_ms)
}

/// The paths of those that were destroyed against the intention, among the first `k`.
pub open spec fn destroyed_in(
    ts: Seq<TargetView>,
    fs: Seq<Fate>,
    to_trash: bool,
    cards: Seq<(Seq<char>, u64)>,
    since_ms: u64,
    k: int,
) -> Seq<Seq<char>>
    decreases k,
{
    if k <= 0 {
        Seq::empty()
    } else {
        let before = destroyed_in(ts, fs, to_trash, cards, since_ms, k - 1);
        if fs[k - 1] is Gone && destroyed(ts[k - 1].path, to_trash, cards, since_ms) {
            before.push(ts[k - 1].path)
        } else {
            before
        }
    }
}

/// What took place, as the journal names it.
pub open spec fn outcome_word(to_trash: bool, lost: bool) -> Seq<char> {
    if !to_trash {
        "definitif"@
    } else if lost {
        "corbeille-refusee"@
    } else {
        "corbeille"@
    }
}

/// A line of the journal: date, outcome, bytes, files, path.
pub open spec fn journal_line(t: TargetView, at_ms: i64, to_trash: bool, lost: bool) -> Seq<char> {
    text::decimal_int(at_ms as int) + "\t"@ + outcome_word(to_trash, lost) + "\t"@ + text::decimal(
        t.size as nat,
    ) + "\t"@ + text::decimal(t.count as nat) + "\t"@ + t.path
}

/// The lines of the journal for the first `k` targets: one for each that is gone.
pub open spec fn journal_of(
    ts: Seq<TargetView>,
    fs: Seq<Fate>,
    to_trash: bool,
    cards: Seq<(Seq<char>, u64)>,
    since_ms: u64,
    k: int,
) -> Seq<Seq<char>>
    decreases k,
{
    if k <= 0 {
        Seq::empty()
    } else {
        let before = journal_of(ts, fs, to_trash, cards, since_ms, k - 1);
        match fs[k - 1] {
            Fate::Gone { at_ms } => before.push(
                journal_line(
                    ts[k - 1],
                    at_ms,
                    to_trash,
                    destroyed(ts[k - 1].path, to_trash, cards, since_ms),
                ),
            ),
            _ => before,
        }
    }
}

fn journal_text(t: &Target, at_ms: i64, to_trash: bool, lost: bool) -> (r: String)
    ensures
        r@ == journal_line(t@, at_ms, to_trash, lost),
{
    let mut l = String::new();
    text::push_decimal_int(&mut l, at_ms);
    assert(l@ =~= text::decimal_int(at_ms as int));
    l.append("\t");
    l.append(
        if !to_trash {
            "definitif"
        } else if lost {
            "corbeille-refusee"
        } else {
            "corbeille"
        },
    );
    l.append("\t");
    text::push_decimal(&mut l, t.size);
    l.append("\t");
    text::push_decimal(&mut l, t.count);
    l.append("\t");
    l.append(t.path.as_str());
    l
}

/// The outcome of a deletion and the lines for the journal, from the fate of each target.
pub open spec fn is_outcome(
    o: DeleteOutcome,
    journal: Seq<String>,
    ts: Seq<TargetView>,
    fates: Seq<Fate>,
    to_trash: bool,
    cards: Seq<(Seq<char>, u64)>,
    since_ms: u64,
) -> bool {
    let n = ts.len() as int;
    &&& o.results@.len() == n
    &&& forall|i: int| 0 <= i < n ==> fate_line(#[trigger] o.results@[i], ts[i], fates[i])
    &&& o.done == gone(fates, n)
    &&& o.done + o.failed == n
    &&& o.freed == aggregate::wrapped(gone_size(ts, fates, n))
    &&& o.to_trash == to_trash
    &&& o.rescan == (o.done > 0)
    &&& split::texts(o.detruits@) == destroyed_in(ts, fates, to_trash, cards, since_ms, n)
    &&& split::texts(journal) == journal_of(ts, fates, to_trash, cards, since_ms, n)
}

/// Sums up a deletion, from what became of each target and from the recycle bin as it is
/// afterwards: what took place, and the lines for the journal.
pub fn execute(
    ts: &Vec<Target>,
    fates: &Vec<Fate>,
    to_trash: bool,
    bin: &Corbeille,
    since_ms: u64,
) -> (r: (DeleteOutcome, Vec<String>))
    requires
        fates@.len() == ts@.len(),
    ensures
        is_outcome(r.0, r.1@, aims(ts@), fates@, to_trash, bin.cards(), since_ms),
{
    let mut results: Vec<PreviewItem> = Vec::new();
    let mut done: usize = 0;
    let mut failed: usize = 0;
    let mut freed: u64 = 0;
    let mut detruits: Vec<String> = Vec::new();
    let mut lines: Vec<String> = Vec::new();
    let ghost av = aims(ts@);
    let ghost cards = bin.cards();
    assert(split::texts(detruits@) =~= destroyed_in(av, fates@, to_trash, cards, since_ms, 0));
    assert(split::texts(lines@) =~= journal_of(av, fates@, to_trash, cards, since_ms, 0));
    let mut k: usize = 0;
    while k < ts.len()
        invariant
            k <= ts@.len(),
            fates@.len() == ts@.len(),
            av == aims(ts@),
            cards == bin.cards(),
            results@.len() == k,
            forall|i: int| 0 <= i < k ==> fate_line(#[trigger] results@[i], ts@[i]@, fates@[i]),
            done == gone(fates@, k as int),
            done + failed == k,
            freed == aggregate::wrapped(gone_size(av, fates@, k as int)),
            split::texts(detruits@) == destroyed_in(
                av,
                fates@,
                to_trash,
                cards,
                since_ms,
                k as int,
            ),
            split::texts(lines@) == journal_of(av, fates@, to_trash, cards, since_ms, k as int),
        decreases ts@.len() - k,
    {
        let t = &ts[k];
        assert(av[k as int] == t@);
        let l = match &fates[k] {
            Fate::Protected => {
                failed = failed + 1;
                line(t, true, true, reason_of(t.block))
            },
            Fate::Missing => {
                failed = failed + 1;
                line(t, false, true, "introuvable sur le disque".to_string())
            },
            Fate::Failed { error, still } => {
                failed = failed + 1;
                line(t, *still, true, error.clone())
            },
            Fate::Gone { at_ms } => {
                done = done + 1;
                freed = freed.wrapping_add(t.size);
                let lost = to_trash && !bin.contient(t.path.as_str(), since_ms);
                let ghost before = lines@;
                let text = journal_text(t, *at_ms, to_trash, lost);
                lines.push(text);
                assert(split::texts(lines@) =~= split::texts(before).push(text@));
                if lost {
                    let ghost before = detruits@;
                    let p = t.path.clone();
                    detruits.push(p);
                    assert(split::texts(detruits@) =~= split::texts(before).push(p@));
                }
                line(t, true, false, reason_of(None))
            },
        };
        results.push(l);
        k = k + 1;
    }
    (
        DeleteOutcome { done, failed, freed, to_trash, results, rescan: done > 0, detruits },
        lines,
    )
}

/// Law: a deletion deals with what the dry run showed, path by path, and with nothing
/// else: `shown` are the lines of the dry run that gave the token, `results` those of the
/// deletion that used it.
pub proof fn law_only_what_was_shown(
    ts: Seq<Target>,
    exists: Seq<bool>,
    fates: Seq<Fate>,
    shown: Seq<PreviewItem>,
    results: Seq<PreviewItem>,
)
    requires
        shown.len() == ts.len(),
        results.len() == ts.len(),
        forall|i: int| 0 <= i < ts.len() ==> dry_line(#[trigger] shown[i], ts[i]@, exists[i]),
        forall|i: int| 0 <= i < ts.len() ==> fate_line(#[trigger] results[i], ts[i]@, fates[i]),
    ensures
        forall|i: int|
            0 <= i < ts.len() ==> (#[trigger] results[i]).path@ == shown[i].path@ && results[i].size
                == shown[i].size && results[i].count == shown[i].count && results[i].is_dir
                == shown[i].is_dir,
{
    assert forall|i: int| 0 <= i < ts.len() implies (#[trigger] results[i]).path@ == shown[i].path@
        && results[i].size == shown[i].size && results[i].count == shown[i].count
        && results[i].is_dir == shown[i].is_dir by {
        assert(dry_line(shown[i], ts[i]@, exists[i]));
        assert(fate_line(results[i], ts[i]@, fates[i]));
    }
}

/// A deletion under way: what became of the first targets.
pub struct Deletion {
    pub to_trash: bool,
    pub targets: Vec<Target>,
    pub fates: Vec<Fate>,
}

impl Deletion {
    /// What is gone was neither protected nor given by a verbatim path.
    pub open spec fn wf(self) -> bool {
        &&& self.fates@.len() <= self.targets@.len()
        &&& forall|i: int|
            0 <= i < self.fates@.len() && (#[trigger] self.fates@[i]) is Gone
                ==> self.targets@[i].block is None && !path::is_verbatim(self.targets@[i].path@)
    }

    /// Starts the deletion that a token stands for.
    pub fn start(p: PendingDel, to_trash: bool) -> (d: Deletion)
        ensures
            d.wf(),
            d.to_trash == to_trash,
            d.targets@ == p.targets@,
            d.fates@.len() == 0,
    {
        Deletion { to_trash, targets: p.targets, fates: Vec::new() }
    }

    /// The path of the next target; nothing where all of them are dealt with.
    pub fn next_path(&self) -> (r: Option<&str>)
        requires
            self.wf(),
        ensures
            match r {
                Some(p) => self.fates@.len() < self.targets@.len() && p@
                    == self.targets@[self.fates@.len() as int].path@,
                None => self.fates@.len() == self.targets@.len(),
            },
    {
        let k = self.fates.len();
        if k < self.targets.len() {
            Some(self.targets[k].path.as_str())
        } else {
            None
        }
    }

    /// Decides on the next target, given whether it is still on disk: either there is
    /// something to hand to the system, or its fate is settled.
    pub fn judge(&mut self, exists: bool) -> (r: Option<Removal>)
        requires
            old(self).wf(),
            old(self).fates@.len() < old(self).targets@.len(),
        ensures
            final(self).wf(),
            final(self).to_trash == old(self).to_trash,
            final(self).targets@ == old(self).targets@,
            ({
                let t = old(self).targets@[old(self).fates@.len() as int];
                match r {
                    Some(op) => {
                        &&& deletable(t@, exists)
                        &&& !path::is_verbatim(t.path@)
                        &&& win32::is_removal(op, t.path@, old(self).to_trash)
                        &&& final(self).fates@ == old(self).fates@
                    },
                    None => {
                        &&& final(self).fates@.len() == old(self).fates@.len() + 1
                        &&& final(self).fates@.drop_last() == old(self).fates@
                        &&& if t.block is Some {
                            final(self).fates@.last() is Protected
                        } else if !exists {
                            final(self).fates@.last() is Missing
                        } else {
                            &&& path::is_verbatim(t.path@)
                            &&& final(self).fates@.last() matches Fate::Failed { error, still }
                            &&& error@ == "chemin verbatim interdit pour une suppression"@
                            &&& still
                        }
                    },
                }
            }),
    {
        let ghost before = self.fates@;
        let k = self.fates.len();
        match fate_before(&self.targets[k], exists) {
            Some(f) => {
                self.fates.push(f);
                assert(self.fates@.drop_last() =~= before);
                None
            },
            None => {
                match win32::delete_path(self.targets[k].path.as_str(), self.to_trash) {
                    Ok(op) => Some(op),
                    Err(e) => {
                        self.fates.push(fate_after(Err(e), exists, 0));
                        assert(self.fates@.drop_last() =~= before);
                        None
                    },
                }
            },
        }
    }

    /// Takes in what the system did of the target that `judge` let through.
    pub fn report(&mut self, aborted: bool, still: bool, code: i32, at_ms: i64)
        requires
            old(self).wf(),
            old(self).fates@.len() < old(self).targets@.len(),
            old(self).targets@[old(self).fates@.len() as int].block is None,
            !path::is_verbatim(old(self).targets@[old(self).fates@.len() as int].path@),
        ensures
            final(self).wf(),
            final(self).to_trash == old(self).to_trash,
            final(self).targets@ == old(self).targets@,
            final(self).fates@.len() == old(self).fates@.len() + 1,
            final(self).fates@.drop_last() == old(self).fates@,
            match final(self).fates@.last() {
                Fate::Gone { at_ms: at } => !aborted && !still && at == at_ms,
                Fate::Failed { error, still: s } => (aborted || still) && s == still && error@
                    == win32::failure_text(aborted, code),
                _ => false,
            },
    {
        let ghost before = self.fates@;
        let f = fate_after(win32::removed(aborted, still, code), still, at_ms);
        self.fates.push(f);
        assert(self.fates@.drop_last() =~= before);
    }

    /// Sums the deletion up, once every target is dealt with.
    pub fn finish(&self, bin: &Corbeille, since_ms: u64) -> (r: (DeleteOutcome, Vec<String>))
        requires
            self.wf(),
            self.fates@.len() == self.targets@.len(),
        ensures
            is_outcome(
                r.0,
                r.1@,
                aims(self.targets@),
                self.fates@,
                self.to_trash,
                bin.cards(),
                since_ms,
            ),
    {
        execute(&self.targets, &self.fates, self.to_trash, bin, since_ms)
    }
}

/// Law: a protected target is never among those that are gone, whatever the system did.
pub proof fn law_protected_stays(d: Deletion, i: int)
    requires
        d.wf(),
        0 <= i < d.fates@.len(),
        d.targets@[i].block is Some,
    ensures
        !(d.fates@[i] is Gone),
{
}

/// How to delete.
#[derive(Clone, Copy, Debug, PartialEq, Eq, Structural)]
pub enum Mode {
    Dry,
    Recycle,
    Permanent,
}

/// The way to delete that a word stands for.
pub open spec fn mode_in(word: Seq<char>) -> Option<Mode> {
    if word == "dry"@ {
        Some(Mode::Dry)
    } else if word == "recycle"@ {
        Some(Mode::Recycle)
    } else if word == "permanent"@ {
        Some(Mode::Permanent)
    } else {
        None
    }
}

pub fn mode(word: &str) -> (r: Result<Mode, Refusal>)
    ensures
        match mode_in(word@) {
            Some(m) => r == Ok::<Mode, Refusal>(m),
            None => r matches Err(e) && e is UnknownMode,
        },
{
    if text::str_eq(word, "dry") {
        Ok(Mode::Dry)
    } else if text::str_eq(word, "recycle") {
        Ok(Mode::Recycle)
    } else if text::str_eq(word, "permanent") {
        Ok(Mode::Permanent)
    } else {
        Err(Refusal::UnknownMode)
    }
}

} // verus!
