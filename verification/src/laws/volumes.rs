//! What becomes of the volumes, told by what they were and by what was asked.
//!
//! A law of this file takes what a function was given and what it gave, bound by the
//! contract of that function, and says how the one follows from the other.

use crate::delete::Mode;
use crate::explorer;
use crate::explorer::{App, AppView, DriveJson, DriveState, StateJson, Status};
use crate::http::Query;
use crate::laws::showing;
use crate::laws::walking;
use crate::refusal::Refusal;
use crate::snapshot::Snapshot;
use crate::split;
use crate::text;
use crate::walk::Progress;
use crate::win32::Drive;
use std::sync::Arc;
use vstd::prelude::*;

verus! {

/// The volume is as it was, but that its walk starts: nothing is counted yet, and nobody
/// told it to stop. It keeps its index.
pub open spec fn starts(before: DriveState, after: DriveState) -> bool {
    &&& after.info == before.info
    &&& after.snap == before.snap
    &&& after.status is Scanning
    &&& after.prog.dirs == 0
    &&& after.prog.files == 0
    &&& after.prog.errors == 0
    &&& !after.prog.cancel
}

/// What stands still around the volumes.
pub open spec fn same_program(a: App, b: App) -> bool {
    a.eleve == b.eleve && a.stopping == b.stopping && a.drives@.len() == b.drives@.len()
}

/// A walk starts where the program is not about to end, no volume is being walked and one
/// waits: that of the first one in the queue. Else nothing changes.
pub open spec fn next_goes(a: App, b: App, r: Option<char>) -> bool {
    &&& same_program(a, b)
    &&& r is Some <==> !a.stopping && a.scanning is None && a.queue@.len() > 0
    &&& r matches Some(l) ==> {
        &&& l == a.queue@[0]
        &&& b.scanning == Some(l)
        &&& b.queue@ == a.queue@.skip(1)
        &&& forall|i: int|
            #![trigger b.drives@[i]]
            0 <= i < a.drives@.len() ==> if a.drives@[i].info.letter == l {
                starts(a.drives@[i], b.drives@[i])
            } else {
                b.drives@[i] == a.drives@[i]
            }
    }
    &&& r is None ==> b.scanning == a.scanning && b.queue@ == a.queue@ && b.drives@ == a.drives@
}

/// Law: walks go one at a time, in the order of the queue, and none starts once the program
/// is about to end.
pub proof fn law_pumped(app: &mut App, r: Option<char>)
    requires
        old(app).wf(),
        call_ensures(App::pump, (app,), r),
    ensures
        next_goes(*old(app), *final(app), r),
{
    let a = old(app)@;
    assert(final(app).drives@ == final(app)@.drives);
    assert(final(app).queue@ == final(app)@.queue);
    if r is Some {
        assert(a.queue.drop_first() =~= a.queue.skip(1));
    }
}

/// Law: a volume that is asked for waits its turn, once: it goes behind those that wait,
/// unless it is one of them or is being walked. Then the next walk starts, if one may.
pub proof fn law_asked_for(app: &mut App, l: char, r: Option<char>, mid: App)
    requires
        old(app).wf(),
        call_ensures(App::start_scan, (app, l), r),
        mid.drives@ == old(app).drives@,
        mid.scanning == old(app).scanning,
        mid.eleve == old(app).eleve,
        mid.stopping == old(app).stopping,
        mid.queue@ == if old(app).scanning == Some(l) || old(app).queue@.contains(l) {
            old(app).queue@
        } else {
            old(app).queue@.push(l)
        },
    ensures
        next_goes(mid, *final(app), r),
{
    let a = mid@;
    assert(a == (AppView { queue: mid.queue@, ..old(app)@ }));
    assert(final(app).drives@ == final(app)@.drives);
    assert(final(app).queue@ == final(app)@.queue);
    if r is Some {
        assert(a.queue.drop_first() =~= a.queue.skip(1));
    }
}

/// The walk of a volume ended: with an index where it gave one and nobody told it to stop,
/// which is the index of that volume from then on, whatever it had; else the volume keeps
/// what it had.
pub open spec fn ended(before: DriveState, after: DriveState, given: Option<Snapshot>) -> bool {
    &&& after.info == before.info
    &&& given is Some && !before.prog.cancel ==> (after.snap matches Some(a) && *a == given->0)
    &&& given is None || before.prog.cancel ==> after.snap == before.snap
}

/// Law: when the walk of a volume ends with an index and nobody told it to stop, that index
/// is the one of the volume, whatever it had before; when it was told to stop, or gave none,
/// the volume keeps the one it had. No other volume changes, but the one whose walk starts.
pub proof fn law_walk_ended(
    app: &mut App,
    l: char,
    given: Option<Snapshot>,
    r: Option<char>,
    i: int,
)
    requires
        old(app).wf(),
        given matches Some(s) ==> s.wf(),
        call_ensures(App::finished, (app, l, given), r),
        0 <= i < old(app).drives@.len(),
    ensures
        same_program(*old(app), *final(app)),
        old(app).drives@[i].info.letter == l ==> {
            &&& ended(old(app).drives@[i], final(app).drives@[i], given)
            &&& r != Some(l) ==> final(app).drives@[i].prog == old(app).drives@[i].prog
            &&& r != Some(l) && given is Some && !old(app).drives@[i].prog.cancel ==> final(
                app).drives@[i].status is Ready
            &&& r != Some(l) && (given is None || old(app).drives@[i].prog.cancel) ==> final(
                app).drives@[i].status is Empty
        },
        old(app).drives@[i].info.letter != l && r != Some(old(app).drives@[i].info.letter)
            ==> final(app).drives@[i] == old(app).drives@[i],
        old(app).drives@[i].info.letter != l && r == Some(old(app).drives@[i].info.letter)
            ==> starts(old(app).drives@[i], final(app).drives@[i]),
        r is Some <==> !old(app).stopping && old(app).queue@.len() > 0,
        r matches Some(k) ==> k == old(app).queue@[0] && final(app).queue@ == old(app).queue@.skip(
            1,
        ),
        r is None ==> final(app).queue@ == old(app).queue@,
        final(app).scanning == r,
{
    let v = old(app)@;
    let w = final(app)@;
    assert(v.at(l, i) || v.drives[i].info.letter != l);
    lemma_progress(v, l, i);
    assert(final(app).drives@ == w.drives);
    assert(v.queue.len() > 0 ==> v.queue.drop_first() =~= v.queue.skip(1));
}

proof fn lemma_progress(v: AppView, l: char, i: int)
    requires
        v.wf(),
        0 <= i < v.drives.len(),
    ensures
        v.drives[i].info.letter == l ==> v.state(l) == Some(v.drives[i]) && v.progress(l)
            == v.drives[i].prog,
{
    if v.drives[i].info.letter == l {
        assert(v.at(l, i));
        let j = choose|j: int| v.at(l, j);
        assert(v.at(l, j));
        if i < j {
            assert(v.drives[i].info.letter < v.drives[j].info.letter);
        } else if j < i {
            assert(v.drives[j].info.letter < v.drives[i].info.letter);
        }
    }
}

/// No volume has this letter.
pub open spec fn no_such(drives: Seq<DriveState>, l: char) -> bool {
    forall|i: int| 0 <= i < drives.len() ==> (#[trigger] drives[i]).info.letter != l
}

proof fn lemma_no_such(v: AppView, l: char)
    ensures
        v.state(l) is None <==> no_such(v.drives, l),
{
    if no_such(v.drives, l) && exists|i: int| v.at(l, i) {
        let i = choose|i: int| v.at(l, i);
        assert(v.drives[i].info.letter != l);
    }
    if v.state(l) is None {
        assert forall|i: int| 0 <= i < v.drives.len() implies (#[trigger] v.drives[i]).info.letter
            != l by {
            assert(!v.at(l, i));
        }
    }
}

/// Law: what is kept of a walk that ended is what `finished` keeps: nothing where it was told
/// to stop.
pub proof fn law_kept_unless_stopped(app: &App, l: char, r: bool, i: int)
    requires
        app.wf(),
        call_ensures(App::keeps, (app, l), r),
        0 <= i < app.drives@.len(),
        app.drives@[i].info.letter == l,
    ensures
        r == !app.drives@[i].prog.cancel,
{
    lemma_progress(app@, l, i);
}

/// Law: noting how far a walk is changes the counts of that volume, and nothing else.
pub proof fn law_noted(app: &mut App, l: char, dirs: u64, files: u64, i: int)
    requires
        old(app).wf(),
        call_ensures(App::note, (app, l, dirs, files), ()),
        0 <= i < old(app).drives@.len(),
    ensures
        same_program(*old(app), *final(app)),
        final(app).scanning == old(app).scanning,
        final(app).queue@ == old(app).queue@,
        old(app).drives@[i].info.letter != l ==> final(app).drives@[i] == old(app).drives@[i],
        old(app).drives@[i].info.letter == l ==> {
            let a = old(app).drives@[i];
            let b = final(app).drives@[i];
            &&& b.info == a.info
            &&& b.status == a.status
            &&& b.snap == a.snap
            &&& b.prog.dirs == dirs
            &&& b.prog.files == files
            &&& b.prog.errors == a.prog.errors
            &&& b.prog.cancel == a.prog.cancel
        },
{
    assert(final(app).drives@ == final(app)@.drives);
    assert(final(app).queue@ == final(app)@.queue);
}

/// Law: the program ends when it is asked to, unless a volume is being walked and the end is
/// not forced: then nothing changes, and the answer says how far that walk is. Once it ends,
/// nothing waits any more and every walk is told to stop; indexes stay.
pub proof fn law_asked_to_end(app: &mut App, force: bool, r: Result<(), Refusal>, i: int)
    requires
        old(app).wf(),
        call_ensures(App::quit, (app, force), r),
        0 <= i < old(app).drives@.len(),
    ensures
        r is Ok <==> force || old(app).scanning is None,
        r is Ok ==> {
            &&& final(app).stopping
            &&& final(app).queue@.len() == 0
            &&& final(app).scanning == old(app).scanning
            &&& final(app).eleve == old(app).eleve
            &&& final(app).drives@.len() == old(app).drives@.len()
            &&& final(app).drives@[i].prog.cancel
            &&& final(app).drives@[i].prog.dirs == old(app).drives@[i].prog.dirs
            &&& final(app).drives@[i].prog.files == old(app).drives@[i].prog.files
            &&& final(app).drives@[i].snap == old(app).drives@[i].snap
            &&& final(app).drives@[i].status == old(app).drives@[i].status
            &&& final(app).drives@[i].info == old(app).drives@[i].info
        },
        r is Err ==> {
            &&& same_program(*old(app), *final(app))
            &&& final(app).queue@ == old(app).queue@
            &&& final(app).scanning == old(app).scanning
            &&& final(app).drives@ == old(app).drives@
            &&& r->Err_0 matches Refusal::Busy { letter, dirs, files } && {
                &&& old(app).scanning == Some(letter)
                &&& old(app).drives@[i].info.letter == letter ==> dirs
                    == old(app).drives@[i].prog.dirs && files == old(app).drives@[i].prog.files
            }
        },
{
    assert(final(app).drives@ == final(app)@.drives);
    assert(final(app).queue@ == final(app)@.queue);
    if let Some(l) = old(app).scanning {
        lemma_progress(old(app)@, l, i);
    }
}

/// Law: the end waits for the walk under way, three seconds at most; then nothing is marked
/// as being walked any more, and nothing else changes.
pub proof fn law_end_waits(app: &App, ms: u64, r: bool, st: &mut App)
    requires
        call_ensures(App::waits, (app, ms), r),
        old(st).wf(),
        call_ensures(App::stopped, (st,), ()),
    ensures
        r <==> app.scanning is Some && ms <= 3000,
        final(st).scanning is None,
        same_program(*old(st), *final(st)),
        final(st).drives@ == old(st).drives@,
        final(st).queue@ == old(st).queue@,
{
    assert(final(st).drives@ == final(st)@.drives);
    assert(final(st).queue@ == final(st)@.queue);
}

/// The index that a volume has, by its letter.
pub open spec fn has_index(app: App, l: char, s: Snapshot) -> bool {
    exists|i: int|
        0 <= i < app.drives@.len() && (#[trigger] app.drives@[i]).info.letter == l && (
        app.drives@[i].snap matches Some(a) && *a == s)
}

/// The volume has no index, or there is none with this letter.
pub open spec fn has_none(app: App, l: char) -> bool {
    forall|i: int|
        0 <= i < app.drives@.len() && (#[trigger] app.drives@[i]).info.letter == l
            ==> app.drives@[i].snap is None
}

proof fn lemma_index(app: App, l: char)
    requires
        app.wf(),
    ensures
        app@.index_of(l) matches Some(s) ==> has_index(app, l, s),
        app@.index_of(l) is None <==> has_none(app, l),
        forall|s: Snapshot| #[trigger] has_index(app, l, s) ==> app@.index_of(l) == Some(s),
{
    let v = app@;
    lemma_no_such(v, l);
    if exists|i: int| v.at(l, i) {
        let i = choose|i: int| v.at(l, i);
        lemma_progress(v, l, i);
        assert(app.drives@[i].info.letter == l);
        assert forall|s: Snapshot| #[trigger] has_index(app, l, s) implies v.index_of(l) == Some(
            s,
        ) by {
            let j = choose|j: int|
                0 <= j < app.drives@.len() && (#[trigger] app.drives@[j]).info.letter == l && (
                app.drives@[j].snap matches Some(a) && *a == s);
            lemma_progress(v, l, j);
        }
        if v.index_of(l) is None {
            assert forall|j: int|
                0 <= j < app.drives@.len() && (#[trigger] app.drives@[j]).info.letter == l implies app.drives@[j].snap is None by {
                lemma_progress(v, l, j);
            }
        }
    }
}

/// Law: the index that is served for a letter is the one that the volume has; there is none
/// where the volume has none. Its counts are those of that index.
pub proof fn law_index_served(
    app: &App,
    l: char,
    r: Option<Arc<Snapshot>>,
    nd: usize,
    nf: usize,
)
    requires
        app.wf(),
        call_ensures(App::snapshot, (app, l), r),
        call_ensures(App::count_dirs, (app, l), nd),
        call_ensures(App::count_files, (app, l), nf),
    ensures
        r matches Some(a) ==> has_index(*app, l, *a) && nd == a.dirs@.len() && nf == a.files@.len(),
        r is None ==> has_none(*app, l) && nd == 0 && nf == 0,
        has_none(*app, l) ==> r is None,
{
    lemma_index(*app, l);
}

/// The letter that a text names: its first character, as a capital.
pub open spec fn letter_named(t: Seq<char>, l: char) -> bool {
    t.len() > 0 && (if 'a' <= t[0] <= 'z' {
        l as u32 == t[0] as u32 - 32
    } else {
        l == t[0]
    })
}

proof fn lemma_letter(t: Seq<char>)
    ensures
        t.len() == 0 <==> split::letter_in(t) is None,
        forall|l: char| #[trigger] letter_named(t, l) <==> split::letter_in(t) == Some(l),
{
    if t.len() > 0 {
        assert forall|l: char| #[trigger] letter_named(t, l) <==> split::letter_in(t) == Some(
            l,
        ) by {
            lemma_capital(t[0], l);
        }
    }
}

proof fn lemma_capital(c: char, l: char)
    ensures
        text::upper_char(c) == l <==> if 'a' <= c <= 'z' {
            l as u32 == c as u32 - 32
        } else {
            l == c
        },
{
}

/// Law: a request about a volume names it by the first letter of a text, in any case. It is
/// turned down where nothing is named, or where that volume has no index.
pub proof fn law_request_names_a_volume(
    app: &App,
    drive: &str,
    r: Result<(char, Arc<Snapshot>), Refusal>,
    none: Result<(char, Arc<Snapshot>), Refusal>,
)
    requires
        app.wf(),
        call_ensures(App::index, (app, Some(drive)), r),
        call_ensures(App::index, (app, None::<&str>), none),
    ensures
        none matches Err(e) && e is DriveMissing,
        drive@.len() == 0 ==> (r matches Err(e) && e is DriveMissing),
        drive@.len() > 0 ==> match r {
            Ok(p) => letter_named(drive@, p.0) && has_index(*app, p.0, *p.1),
            Err(e) => e is NotScanned && forall|l: char| #[trigger]
                letter_named(drive@, l) ==> has_none(*app, l),
        },
{
    lemma_letter(drive@);
    if let Some(l) = split::letter_in(drive@) {
        lemma_index(*app, l);
        assert(letter_named(drive@, l));
    }
}

/// Law: a request to delete names its volume and the way to delete; it is turned down where
/// either is unknown.
pub proof fn law_request_to_delete(
    app: &App,
    drive: &str,
    word: &str,
    r: Result<(char, Arc<Snapshot>, Mode), Refusal>,
    i: Result<(char, Arc<Snapshot>), Refusal>,
    m: Result<Mode, Refusal>,
)
    requires
        app.wf(),
        call_ensures(App::delete, (app, drive, word), r),
        call_ensures(App::index, (app, Some(drive)), i),
        call_ensures(crate::delete::mode, (word,), m),
    ensures
        r is Ok <==> i is Ok && m is Ok,
        r matches Ok(p) ==> p.0 == i->Ok_0.0 && *p.1 == *i->Ok_0.1 && p.2 == m->Ok_0,
        r matches Err(e) ==> match i {
            Err(f) => (e is DriveMissing <==> f is DriveMissing) && (e is NotScanned <==> f is NotScanned),
            Ok(_) => e is UnknownMode,
        },
{
}

/// Law: a request to open names its volume, and a folder or a file of its index by its
/// number; it is turned down where there is no such volume, no number, or no such entry.
pub proof fn law_request_to_open(
    app: &App,
    q: &Query,
    r: Result<(Arc<Snapshot>, u32, bool), Refusal>,
    l: char,
    id: nat,
    s: Snapshot,
)
    requires
        app.wf(),
        q.wf(),
        call_ensures(App::open, (app, q), r),
        q.value("drive"@) matches Some(d) && letter_named(d, l),
        q.value("id"@) == Some(text::decimal(id)),
        id <= u32::MAX,
        has_index(*app, l, s),
    ensures
        ({
            let file = q.value("kind"@) == Some("file"@);
            let n = if file {
                s.files@.len()
            } else {
                s.dirs@.len()
            };
            &&& r is Ok <==> id < n
            &&& r matches Ok(p) ==> *p.0 == s && p.1 == id && p.2 == file
            &&& r matches Err(e) ==> if file {
                e is FileOutOfRange
            } else {
                e is DirOutOfRange
            }
        }),
{
    lemma_letter(q.value("drive"@)->0);
    lemma_index(*app, l);
    showing::lemma_asks(q.value("id"@), u32::MAX as nat, id, 0);
    showing::lemma_asks(q.value("id"@), u32::MAX as nat, id, 1);
}

/// Law: a request to open is turned down where it names no volume, no number, or a volume
/// without an index, in this order.
pub proof fn law_request_to_open_refused(
    app: &App,
    q: &Query,
    r: Result<(Arc<Snapshot>, u32, bool), Refusal>,
)
    requires
        app.wf(),
        q.wf(),
        call_ensures(App::open, (app, q), r),
    ensures
        q.value("drive"@) is None || q.value("drive"@)->0.len() == 0 ==> (r matches Err(e)
            && e is DriveMissing),
        q.value("drive"@) is Some && q.value("drive"@)->0.len() > 0 && (q.value("id"@) is None
            || showing::no_number(q.value("id"@)->0)) ==> (r matches Err(e) && e is BadId),
{
    if let Some(d) = q.value("drive"@) {
        lemma_letter(d);
    }
    if let Some(t) = q.value("id"@) {
        if showing::no_number(t) {
            showing::lemma_asks(Some(t), u32::MAX as nat, 0, 0);
            showing::lemma_asks(Some(t), u32::MAX as nat, 1, 1);
        }
    }
}

/// Law: a request to walk a volume names it by the letter behind its last slash. It is
/// turned down, and nothing changes, while the program ends, where no letter is named and
/// where there is no such volume; else it is asking for that volume.
pub proof fn law_request_to_walk(
    app: &mut App,
    path: &str,
    r: Result<Option<char>, Refusal>,
    head: Seq<char>,
    tail: Seq<char>,
    asked: &mut App,
    l: char,
    next: Option<char>,
)
    requires
        old(app).wf(),
        call_ensures(App::scan_request, (app, path), r),
        path@ == head.push('/') + tail,
        !tail.contains('/'),
        tail.len() > 0 ==> letter_named(tail, l),
        *old(asked) == *old(app),
        call_ensures(App::start_scan, (asked, l), next),
    ensures
        r is Err ==> final(app)@ == old(app)@,
        old(app).stopping ==> (r matches Err(e) && e is Stopping),
        !old(app).stopping && tail.len() == 0 ==> (r matches Err(e) && e is LetterMissing),
        !old(app).stopping && tail.len() > 0 && no_such(old(app).drives@, l) ==> (r matches Err(e)
            && e is UnknownDrive),
        !old(app).stopping && tail.len() > 0 && !no_such(old(app).drives@, l) ==> r
            == Ok::<Option<char>, Refusal>(next) && final(app)@ == final(asked)@,
{
    split::lemma_pieces_joined(head, '/', tail, 0);
    split::lemma_one_piece(tail, '/');
    assert(split::behind_last(path@, '/') == tail);
    lemma_letter(tail);
    lemma_no_such(old(app)@, l);
}

// ---------------------------- the start ----------------------------

/// No later volume has the letter of the one at place `i`.
pub open spec fn last_of_its_letter(drives: Seq<Drive>, i: int) -> bool {
    forall|j: int| i < j < drives.len() ==> (#[trigger] drives[j]).letter != drives[i].letter
}

proof fn lemma_last(drives: Seq<Drive>, k: int, i: int)
    requires
        0 <= k <= i < drives.len(),
        last_of_its_letter(drives, i),
    ensures
        explorer::last_at(drives, k, drives[i].letter) == Some(i),
    decreases i - k,
{
    if k < i {
        lemma_last(drives, k + 1, i);
    } else {
        lemma_none_behind(drives, i + 1, drives[i].letter);
    }
}

proof fn lemma_none_behind(drives: Seq<Drive>, k: int, l: char)
    requires
        0 <= k,
        forall|j: int| k <= j < drives.len() ==> (#[trigger] drives[j]).letter != l,
    ensures
        explorer::last_at(drives, k, l) is None,
    decreases drives.len() - k,
{
    if k < drives.len() {
        lemma_none_behind(drives, k + 1, l);
    }
}

proof fn lemma_waiting(ds: Seq<DriveState>, k: int)
    requires
        0 <= k <= ds.len(),
    ensures
        explorer::waiting(ds, k) == ds.take(k).filter(
            |d: DriveState| d.status is Empty,
        ).map_values(|d: DriveState| d.info.letter),
    decreases k,
{
    let p = |d: DriveState| d.status is Empty;
    let f = |d: DriveState| d.info.letter;
    if k > 0 {
        lemma_waiting(ds, k - 1);
        walking::lemma_filter_step(ds, p, k - 1);
        let was = ds.take(k - 1).filter(p);
        assert(was.push(ds[k - 1]).map_values(f) =~= was.map_values(f).push(f(ds[k - 1])));
    } else {
        walking::lemma_filter_none(ds, p);
        assert(explorer::waiting(ds, k) =~= ds.take(k).filter(p).map_values(f));
    }
}

/// Law: at the start every volume is there, in the order of their letters, ready with the
/// index that was kept of it or empty without one. Those without one wait to be walked, in
/// the order of their letters; none is being walked yet.
pub proof fn law_at_the_start(
    drives: Vec<Drive>,
    kept: Vec<Option<Snapshot>>,
    eleve: bool,
    r: App,
    i: int,
)
    requires
        kept@.len() == drives@.len(),
        call_ensures(App::new, (drives, kept, eleve), r),
        0 <= i < drives@.len(),
        last_of_its_letter(drives@, i),
    ensures
        r.eleve == eleve,
        !r.stopping,
        r.scanning is None,
        forall|x: int, y: int|
            0 <= x < y < r.drives@.len() ==> (#[trigger] r.drives@[x]).info.letter < (
            #[trigger] r.drives@[y]).info.letter,
        exists|k: int|
            #![trigger r.drives@[k]]
            0 <= k < r.drives@.len() && {
                let d = r.drives@[k];
                &&& d.info == drives@[i]
                &&& d.prog.dirs == 0 && d.prog.files == 0 && d.prog.errors == 0 && !d.prog.cancel
                &&& match kept@[i] {
                    Some(s) => d.status is Ready && (d.snap matches Some(a) && *a == s),
                    None => d.status is Empty && d.snap is None,
                }
            },
        r.queue@ == r.drives@.filter(|d: DriveState| d.status is Empty).map_values(
            |d: DriveState| d.info.letter,
        ),
{
    let l = drives@[i].letter;
    lemma_last(drives@, 0, i);
    let st = r@.state(l);
    let k = choose|k: int| r@.at(l, k);
    assert(r.drives@[k] == st->0);
    assert(r@.wf());
    assert(r.drives@ == r@.drives);
    let n = r.drives@.len() as int;
    lemma_waiting(r.drives@, n);
    assert(r.drives@.take(n) =~= r.drives@);
}

/// Law: at the start there is no volume but those that were given.
pub proof fn law_no_other_at_the_start(
    drives: Vec<Drive>,
    kept: Vec<Option<Snapshot>>,
    eleve: bool,
    r: App,
    k: int,
)
    requires
        kept@.len() == drives@.len(),
        call_ensures(App::new, (drives, kept, eleve), r),
        0 <= k < r.drives@.len(),
    ensures
        exists|i: int|
            0 <= i < drives@.len() && (#[trigger] drives@[i]).letter == r.drives@[k].info.letter,
{
    let l = r.drives@[k].info.letter;
    assert(r@.at(l, k));
    let st = r@.state(l);
    if forall|i: int| 0 <= i < drives@.len() ==> (#[trigger] drives@[i]).letter != l {
        lemma_none_behind(drives@, 0, l);
    }
}

// ---------------------------- what is shown ----------------------------

/// The line tells what is known of a volume: its names and room, where it stands, how far
/// its walk is, and what its index counts; zeros where it has none.
pub open spec fn true_line(d: DriveState, j: DriveJson) -> bool {
    &&& j.letter@ == seq![d.info.letter]
    &&& j.label@ == d.info.label@
    &&& j.fs@ == d.info.fs@
    &&& j.total == d.info.total
    &&& j.free == d.info.free
    &&& j.status == d.status
    &&& j.dirs == d.prog.dirs
    &&& j.files == d.prog.files
    &&& d.snap matches Some(s) ==> {
        &&& j.n_dirs == s.dirs@.len()
        &&& j.n_files == s.files@.len()
        &&& j.root_size == s.size@[0]
        &&& j.elapsed_ms == s.elapsed_ms
        &&& j.finished_ms == s.finished_ms
        &&& j.unreadable == s.unreadable_total
        &&& j.unreadable_droits == s.unreadable_droits
        &&& j.skipped == s.skipped
    }
    &&& d.snap is None ==> {
        &&& j.n_dirs == 0 && j.n_files == 0 && j.root_size == 0
        &&& j.elapsed_ms == 0 && j.finished_ms == 0
        &&& j.unreadable == 0 && j.unreadable_droits == 0 && j.skipped == 0
    }
}

/// Law: the state shows every volume, in order, with what is known of it, the letter of the
/// one that is being walked, and the rights.
pub proof fn law_state_shown(app: &App, r: StateJson)
    requires
        app.wf(),
        call_ensures(App::state_json, (app,), r),
    ensures
        r.drives@.len() == app.drives@.len(),
        forall|i: int|
            #![trigger r.drives@[i]]
            0 <= i < app.drives@.len() ==> true_line(app.drives@[i], r.drives@[i]),
        r.scanning is Some <==> app.scanning is Some,
        r.scanning matches Some(t) ==> t@ == seq![app.scanning->0],
        r.eleve == app.eleve,
{
}

/// Law: nobody told a volume that is not there to stop. A request to walk whose path has no
/// slash names its volume by its first letter.
pub proof fn law_odd_volumes(
    app: &App,
    l: char,
    r: bool,
    w: &mut App,
    path: &str,
    rw: Result<Option<char>, Refusal>,
    m: char,
)
    requires
        app.wf(),
        call_ensures(App::keeps, (app, l), r),
        no_such(app.drives@, l),
        old(w).wf(),
        call_ensures(App::scan_request, (w, path), rw),
        !path@.contains('/'),
        letter_named(path@, m),
        !old(w).stopping,
    ensures
        r,
        rw is Ok <==> !no_such(old(w).drives@, m),
        rw matches Err(e) ==> e is UnknownDrive,
{
    lemma_no_such(app@, l);
    split::lemma_one_piece(path@, '/');
    assert(split::behind_last(path@, '/') == path@);
    lemma_letter(path@);
    lemma_no_such(old(w)@, m);
}

} // verus!
