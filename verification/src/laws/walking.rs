//! What a walk records, told by the entries that it met.
//!
//! A law of this file takes what a function was given and what it gave, bound by the
//! contract of that function, and says how the one follows from the other.

use crate::records::{DirRec, FileRec};
use crate::snapshot::Snapshot;
use crate::walk;
use crate::walk::{Listing, ScanState, Seen};
use vstd::prelude::*;

verus! {

/// The items among the first ones that have a property, with one item more.
pub proof fn lemma_filter_step<A>(s: Seq<A>, p: spec_fn(A) -> bool, k: int)
    requires
        0 <= k < s.len(),
    ensures
        s.take(k + 1).filter(p) == if p(s[k]) {
            s.take(k).filter(p).push(s[k])
        } else {
            s.take(k).filter(p)
        },
{
    reveal(Seq::filter);
    assert(s.take(k + 1).drop_last() =~= s.take(k));
    assert(s.take(k + 1).last() == s[k]);
}

/// No item has a property where there are no items.
pub proof fn lemma_filter_none<A>(s: Seq<A>, p: spec_fn(A) -> bool)
    ensures
        s.take(0).filter(p) == Seq::<A>::empty(),
{
    reveal(Seq::filter);
}

/// An entry that was read, and is neither a junction nor a link nor a mount point.
pub open spec fn plain(e: Seen) -> bool {
    e is Entry && e->attributes & 0x400 == 0
}

pub open spec fn plain_folder(e: Seen) -> bool {
    plain(e) && e->is_dir
}

pub open spec fn plain_file(e: Seen) -> bool {
    plain(e) && !e->is_dir
}

pub open spec fn unread(e: Seen) -> bool {
    e is Lost
}

/// What a folder is known by: the folder that holds it, its name, its date.
pub open spec fn folder_facts(d: DirRec) -> (u32, Seq<char>, i64) {
    (d.parent, d.name@, d.own_mtime)
}

/// What a file is known by: the folder that holds it, its name, its size, its date.
pub open spec fn file_facts(f: FileRec) -> (u32, Seq<char>, u64, i64) {
    (f.parent, f.name@, f.size, f.mtime)
}

proof fn lemma_dirs_with(dirs: Seq<DirRec>, id: u32, es: Seq<Seen>, k: int)
    requires
        0 <= k <= es.len(),
        dirs.len() + es.len() <= u32::MAX,
        es.len() <= usize::MAX,
    ensures
        ({
            let after = walk::dirs_with(dirs, id, es, k);
            let met = es.take(k).filter(|e: Seen| plain_folder(e));
            let next = walk::next_dirs(dirs.len() as int, es, k);
            &&& after.len() == dirs.len() + met.len()
            &&& met.len() <= k
            &&& after.take(dirs.len() as int) == dirs
            &&& forall|x: int|
                #![trigger met[x]]
                0 <= x < met.len() ==> folder_facts(after[dirs.len() + x]) == (
                    id,
                    met[x]->name@,
                    met[x]->mtime,
                ) && after[dirs.len() + x].id == dirs.len() + x
            &&& next.len() == met.len()
            &&& forall|x: int|
                #![trigger next[x]]
                0 <= x < next.len() ==> next[x].0 == dirs.len() + x && next[x].1 < k
                    && es[next[x].1 as int] == met[x]
            &&& forall|x: int, y: int|
                0 <= x < y < next.len() ==> (#[trigger] next[x]).1 < (#[trigger] next[y]).1
        }),
    decreases k,
{
    let p = |e: Seen| plain_folder(e);
    if k > 0 {
        lemma_dirs_with(dirs, id, es, k - 1);
        lemma_filter_step(es, p, k - 1);
        let before = walk::dirs_with(dirs, id, es, k - 1);
        let after = walk::dirs_with(dirs, id, es, k);
        let next = walk::next_dirs(dirs.len() as int, es, k);
        let was = walk::next_dirs(dirs.len() as int, es, k - 1);
        assert(after.take(dirs.len() as int) =~= before.take(dirs.len() as int));
        assert(walk::is_folder(es[k - 1]) == plain_folder(es[k - 1]));
        assert forall|x: int| 0 <= x < was.len() implies was[x] == #[trigger] next[x] by {}
    } else {
        lemma_filter_none(es, p);
        assert(dirs.take(dirs.len() as int) =~= dirs);
    }
}

proof fn lemma_files_with(files: Seq<FileRec>, id: u32, es: Seq<Seen>, k: int)
    requires
        0 <= k <= es.len(),
    ensures
        ({
            let after = walk::files_with(files, id, es, k);
            let met = es.take(k).filter(|e: Seen| plain_file(e));
            &&& after.len() == files.len() + met.len()
            &&& after.take(files.len() as int) == files
            &&& forall|x: int|
                #![trigger met[x]]
                0 <= x < met.len() ==> file_facts(after[files.len() + x]) == (
                    id,
                    met[x]->name@,
                    met[x]->size,
                    met[x]->mtime,
                )
        }),
    decreases k,
{
    let p = |e: Seen| plain_file(e);
    if k > 0 {
        lemma_files_with(files, id, es, k - 1);
        lemma_filter_step(es, p, k - 1);
        let before = walk::files_with(files, id, es, k - 1);
        let after = walk::files_with(files, id, es, k);
        assert(after.take(files.len() as int) =~= before.take(files.len() as int));
        assert(walk::is_file(es[k - 1]) == plain_file(es[k - 1]));
    } else {
        lemma_filter_none(es, p);
        assert(files.take(files.len() as int) =~= files);
    }
}

proof fn lemma_lost(es: Seq<Seen>, k: int)
    requires
        0 <= k <= es.len(),
    ensures
        walk::lost(es, k) == es.take(k).filter(|e: Seen| unread(e)).len(),
    decreases k,
{
    let p = |e: Seen| unread(e);
    if k > 0 {
        lemma_lost(es, k - 1);
        lemma_filter_step(es, p, k - 1);
    } else {
        lemma_filter_none(es, p);
    }
}

/// Law: a walk records every folder and every file that it meets, in the order in which it
/// meets them, whatever their other attributes: only junctions, links and mount points are
/// left out. It keeps what it had, gives each new folder the next number, and says where
/// each stands among the entries. Entries that could not be read are counted, one by one.
pub proof fn law_every_entry_is_recorded(
    st: &mut ScanState,
    id: u32,
    listing: &Listing,
    r: Vec<(u32, usize)>,
    es: Seq<Seen>,
)
    requires
        old(st).wf(),
        !old(st).prog.cancel,
        old(st).room(listing.size()),
        id < old(st).dirs@.len(),
        listing matches Listing::Entries(v) && v@ == es,
        call_ensures(ScanState::walk, (st, id, listing), r),
    ensures
        ({
            let folders = es.filter(|e: Seen| plain_folder(e));
            let files = es.filter(|e: Seen| plain_file(e));
            let nd = old(st).dirs@.len() as int;
            let nf = old(st).files@.len() as int;
            &&& final(st).dirs@.len() == nd + folders.len()
            &&& final(st).dirs@.take(nd) == old(st).dirs@
            &&& forall|x: int|
                #![trigger folders[x]]
                0 <= x < folders.len() ==> {
                    let d = final(st).dirs@[nd + x];
                    &&& d.id == nd + x
                    &&& d.parent == id
                    &&& d.name@ == folders[x]->name@
                    &&& d.own_mtime == folders[x]->mtime
                }
            &&& final(st).files@.len() == nf + files.len()
            &&& final(st).files@.take(nf) == old(st).files@
            &&& forall|x: int|
                #![trigger files[x]]
                0 <= x < files.len() ==> {
                    let f = final(st).files@[nf + x];
                    &&& f.parent == id
                    &&& f.name@ == files[x]->name@
                    &&& f.size == files[x]->size
                    &&& f.mtime == files[x]->mtime
                }
            &&& r@.len() == folders.len()
            &&& forall|x: int|
                #![trigger r@[x]]
                0 <= x < r@.len() ==> r@[x].0 == nd + x && r@[x].1 < es.len()
                    && es[r@[x].1 as int] == folders[x]
            &&& forall|x: int, y: int|
                0 <= x < y < r@.len() ==> (#[trigger] r@[x]).1 < (#[trigger] r@[y]).1
            &&& final(st).prog.dirs == old(st).prog.dirs + 1
            &&& final(st).prog.files == old(st).prog.files + files.len()
            &&& final(st).skipped == old(st).skipped + es.filter(|e: Seen| unread(e)).len()
            &&& final(st).prog.errors == old(st).prog.errors + es.filter(
                |e: Seen| unread(e),
            ).len()
            &&& final(st).unreadable_total == old(st).unreadable_total
            &&& final(st).unreadable_droits == old(st).unreadable_droits
            &&& final(st).unreadable@ == old(st).unreadable@
        }),
{
    let n = es.len() as int;
    assert(es.take(n) =~= es);
    lemma_dirs_with(old(st).dirs@, id, es, n);
    lemma_files_with(old(st).files@, id, es, n);
    lemma_lost(es, n);
    let folders = es.filter(|e: Seen| plain_folder(e));
    let files = es.filter(|e: Seen| plain_file(e));
    assert forall|x: int|
        #![trigger folders[x]]
        0 <= x < folders.len() implies folder_facts(final(st).dirs@[old(st).dirs@.len() + x]) == (
        id,
        folders[x]->name@,
        folders[x]->mtime,
    ) by {}
    assert forall|x: int|
        #![trigger files[x]]
        0 <= x < files.len() implies file_facts(final(st).files@[old(st).files@.len() + x]) == (
        id,
        files[x]->name@,
        files[x]->size,
        files[x]->mtime,
    ) by {}
}

proof fn lemma_met<A>(s: Seq<A>, p: spec_fn(A) -> bool, k: int, n: int)
    requires
        0 <= k < n <= s.len(),
        p(s[k]),
    ensures
        s.take(n).filter(p).contains(s[k]),
    decreases n,
{
    lemma_filter_step(s, p, n - 1);
    let f = s.take(n).filter(p);
    if k == n - 1 {
        assert(f.last() == s[k]);
    } else {
        lemma_met(s, p, k, n - 1);
        let g = s.take(n - 1).filter(p);
        let x = choose|x: int| 0 <= x < g.len() && g[x] == s[k];
        assert(f[x] == s[k]);
    }
}

/// Law: no entry is missed. Of an entry at any place that was read and lacks the attribute
/// of junctions and links, whatever its other attributes, there is a record: a folder with
/// its name and date, to be walked next, or a file with its name, size and date.
pub proof fn law_no_entry_is_missed(
    st: &mut ScanState,
    id: u32,
    listing: &Listing,
    r: Vec<(u32, usize)>,
    es: Seq<Seen>,
    k: int,
)
    requires
        old(st).wf(),
        !old(st).prog.cancel,
        old(st).room(listing.size()),
        id < old(st).dirs@.len(),
        listing matches Listing::Entries(v) && v@ == es,
        call_ensures(ScanState::walk, (st, id, listing), r),
        0 <= k < es.len(),
        es[k] is Entry,
        es[k]->attributes & 0x400 == 0,
    ensures
        es[k]->is_dir ==> exists|d: int|
            old(st).dirs@.len() <= d < final(st).dirs@.len() && (#[trigger] final(st).dirs@[d]).parent
                == id && final(st).dirs@[d].name@ == es[k]->name@ && final(st).dirs@[d].own_mtime
                == es[k]->mtime,
        es[k]->is_dir ==> exists|x: int| 0 <= x < r@.len() && es[(#[trigger] r@[x]).1 as int] == es[k],
        !es[k]->is_dir ==> exists|f: int|
            old(st).files@.len() <= f < final(st).files@.len() && (#[trigger] final(st).files@[f]).parent == id && final(st).files@[f].name@ == es[k]->name@ && final(st).files@[f].size == es[k]->size && final(st).files@[f].mtime == es[k]->mtime,
{
    law_every_entry_is_recorded(st, id, listing, r, es);
    assert(es.take(es.len() as int) =~= es);
    if es[k]->is_dir {
        let p = |e: Seen| plain_folder(e);
        let met = es.filter(p);
        lemma_met(es, p, k, es.len() as int);
        let x = choose|x: int| 0 <= x < met.len() && met[x] == es[k];
        assert(final(st).dirs@[old(st).dirs@.len() + x].parent == id);
        assert(es[r@[x].1 as int] == met[x]);
    } else {
        let p = |e: Seen| plain_file(e);
        let met = es.filter(p);
        lemma_met(es, p, k, es.len() as int);
        let x = choose|x: int| 0 <= x < met.len() && met[x] == es[k];
        assert(final(st).files@[old(st).files@.len() + x].parent == id);
    }
}

/// Law: a folder that cannot be listed is one unreadable folder more, for lack of rights
/// where the system's code is five. Its path is kept, as long as fewer than five hundred
/// are. Nothing else changes, and there is nowhere to go from it.
pub proof fn law_refused_folder_is_counted(
    st: &mut ScanState,
    id: u32,
    listing: &Listing,
    r: Vec<(u32, usize)>,
    code: Option<i32>,
    path: String,
)
    requires
        old(st).wf(),
        !old(st).prog.cancel,
        old(st).room(0),
        id < old(st).dirs@.len(),
        *listing == Listing::Refused(code),
        call_ensures(ScanState::walk, (st, id, listing), r),
        call_ensures(crate::path::folder_path, (&old(st).dirs, id), path),
    ensures
        r@.len() == 0,
        final(st).dirs@ == old(st).dirs@,
        final(st).files@ == old(st).files@,
        final(st).prog.dirs == old(st).prog.dirs,
        final(st).prog.files == old(st).prog.files,
        final(st).skipped == old(st).skipped,
        final(st).prog.errors == old(st).prog.errors + 1,
        final(st).unreadable_total == old(st).unreadable_total + 1,
        code == Some(5i32) ==> final(st).unreadable_droits == old(st).unreadable_droits + 1,
        code != Some(5i32) ==> final(st).unreadable_droits == old(st).unreadable_droits,
        old(st).unreadable@.len() >= 500 ==> final(st).unreadable@ == old(st).unreadable@,
        old(st).unreadable@.len() < 500 ==> {
            &&& final(st).unreadable@.len() == old(st).unreadable@.len() + 1
            &&& final(st).unreadable@.drop_last() == old(st).unreadable@
            &&& final(st).unreadable@.last().path@ == path@
            &&& final(st).unreadable@.last().droits == (code == Some(5i32))
        },
{
}

/// Law: a walk that is told to stop records nothing any more, and goes nowhere.
pub proof fn law_a_stopped_walk_is_still(
    st: &mut ScanState,
    sw: &mut ScanState,
    id: u32,
    listing: &Listing,
    r: Vec<(u32, usize)>,
)
    requires
        old(st).wf(),
        call_ensures(ScanState::cancel, (st,), ()),
        *old(sw) == *final(st),
        id < old(sw).dirs@.len(),
        call_ensures(ScanState::walk, (sw, id, listing), r),
    ensures
        r@.len() == 0,
        final(sw).dirs@ == old(st).dirs@,
        final(sw).files@ == old(st).files@,
        final(sw).unreadable@ == old(st).unreadable@,
        final(sw).unreadable_total == old(st).unreadable_total,
        final(sw).unreadable_droits == old(st).unreadable_droits,
        final(sw).skipped == old(st).skipped,
        final(sw).prog.dirs == old(st).prog.dirs,
        final(sw).prog.files == old(st).prog.files,
        final(sw).prog.errors == old(st).prog.errors,
        final(sw).prog.cancel,
{
}

/// Law: a walk starts with the root alone, and nothing counted.
pub proof fn law_a_walk_starts_at_the_root(root: String, mtime: i64, s: ScanState)
    requires
        call_ensures(ScanState::new, (root, mtime), s),
    ensures
        s.dirs@.len() == 1,
        s.dirs@[0].id == 0,
        s.dirs@[0].parent == 0,
        s.dirs@[0].name@ == root@,
        s.dirs@[0].own_mtime == mtime,
        s.files@.len() == 0,
        s.unreadable@.len() == 0,
        s.unreadable_total == 0,
        s.unreadable_droits == 0,
        s.skipped == 0,
        s.prog.dirs == 0,
        s.prog.files == 0,
        s.prog.errors == 0,
        !s.prog.cancel,
{
}

/// The bytes of all the files of a list.
proof fn lemma_all_bytes(files: Seq<FileRec>)
    ensures
        crate::laws::all_bytes(files) == files.fold_left(0int, |n: int, f: FileRec| n + f.size),
    decreases files.len(),
{
    let add = |n: int, f: FileRec| n + f.size;
    if files.len() > 0 {
        lemma_all_bytes(files.drop_last());
    }
}

/// Law: the index of a walk holds what the walk recorded, as it recorded it. Its root has
/// every file, the bytes of all of them added up, and no date is later than its own.
pub proof fn law_index_of_a_walk(
    st: ScanState,
    root: String,
    elapsed_ms: u64,
    finished_ms: i64,
    s: Snapshot,
)
    requires
        st.wf(),
        call_ensures(ScanState::scan, (st, root, elapsed_ms, finished_ms), s),
    ensures
        s.root@ == root@,
        s.dirs@ == st.dirs@,
        s.files@ == st.files@,
        s.count@[0] == st.files@.len(),
        s.size@[0] == st.files@.fold_left(0int, |n: int, f: FileRec| n + f.size)
            % 0x1_0000_0000_0000_0000,
        forall|j: int| 0 <= j < st.files@.len() ==> (#[trigger] st.files@[j]).mtime <= s.mtime@[0],
        forall|d: int| 0 <= d < st.dirs@.len() ==> (#[trigger] st.dirs@[d]).own_mtime <= s.mtime@[0],
        s.elapsed_ms == elapsed_ms,
        s.finished_ms == finished_ms,
        s.errors == st.prog.errors,
        s.unreadable@ == st.unreadable@,
        s.unreadable_total == st.unreadable_total,
        s.unreadable_droits == st.unreadable_droits,
        s.skipped == st.skipped,
        s.errors == s.unreadable_total + s.skipped,
{
    lemma_all_bytes(st.files@);
    let t = s.mtime@[0];
    assert(crate::records::last_write(s.dirs@, s.files@, 0, t));
    assert forall|d: int| 0 <= d < st.dirs@.len() implies (#[trigger] st.dirs@[d]).own_mtime
        <= t by {
        crate::laws::lemma_under_root(s.dirs@, d);
        assert(crate::records::written_at(s.dirs@, s.files@, 0, s.dirs@[d].own_mtime));
    }
    assert forall|j: int| 0 <= j < st.files@.len() implies (#[trigger] st.files@[j]).mtime <= t by {
        crate::laws::lemma_under_root(s.dirs@, s.files@[j].parent as int);
        assert(crate::records::holds(s.dirs@, 0, s.files@[j]));
        assert(crate::records::written_at(s.dirs@, s.files@, 0, s.files@[j].mtime));
    }
}

/// Law: subfolders are walked side by side only where there are two of them at least, and
/// only above depth sixteen; there they always are.
pub proof fn law_forks(depth: u32, subdirs: usize, r: bool)
    requires
        call_ensures(walk::forks, (depth, subdirs), r),
    ensures
        r ==> subdirs >= 2 && depth <= 15,
        subdirs > 1 && depth < 16 ==> r,
{
}

/// Law: a listing can be taken in as long as folders and files keep numbers of four bytes
/// and counts of eight.
pub proof fn law_room(s: &ScanState, n: usize, r: bool)
    requires
        call_ensures(ScanState::has_room, (s, n), r),
        s.prog.dirs <= s.dirs@.len(),
        s.prog.files <= s.files@.len(),
        s.prog.errors <= 0xFFFF_FFFF_FFFF,
    ensures
        s.dirs@.len() + n <= 0xFFFF_FFFF && s.files@.len() + n <= 0xFFFF_FFFF ==> r,
        r ==> s.dirs@.len() + n <= 0xFFFF_FFFF && s.files@.len() + n <= 0xFFFF_FFFF,
{
}

} // verus!
