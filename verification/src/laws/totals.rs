//! The totals of folders, told by the ways that lead up to them.

use crate::aggregate;
use crate::laws::walking;
use crate::records;
use crate::records::{DirRec, FileRec};
use crate::snapshot;
use crate::snapshot::Snapshot;
use vstd::prelude::*;

verus! {

/// From the folder at place `i` of a way, the next one is its parent, whose number is the
/// smaller one.
pub open spec fn goes_up(dirs: Seq<DirRec>, way: Seq<int>, i: int) -> bool {
    0 <= way[i] < dirs.len() && dirs[way[i]].parent == way[i + 1] && way[i + 1] < way[i]
}

/// A way up from folder `d` to folder `a`: from each folder to its parent.
pub open spec fn is_way_up(dirs: Seq<DirRec>, a: int, d: int, way: Seq<int>) -> bool {
    &&& way.len() >= 1
    &&& way[0] == d
    &&& way.last() == a
    &&& forall|i: int| 0 <= i < way.len() - 1 ==> #[trigger] goes_up(dirs, way, i)
}

/// Folder `d` is folder `a`, or some way leads up from it to folder `a`.
pub open spec fn lies_in(dirs: Seq<DirRec>, a: int, d: int) -> bool {
    exists|way: Seq<int>| #[trigger] is_way_up(dirs, a, d, way)
}

proof fn lemma_longer(dirs: Seq<DirRec>, a: int, d: int, way: Seq<int>)
    requires
        0 <= d < dirs.len(),
        dirs[d].parent < d,
        is_way_up(dirs, a, dirs[d].parent as int, way),
    ensures
        is_way_up(dirs, a, d, seq![d] + way),
{
    let up = seq![d] + way;
    assert forall|i: int| 0 <= i < up.len() - 1 implies #[trigger] goes_up(dirs, up, i) by {
        if i > 0 {
            assert(goes_up(dirs, way, i - 1));
        }
    }
}

proof fn lemma_shorter(dirs: Seq<DirRec>, a: int, d: int, way: Seq<int>)
    requires
        a != d,
        is_way_up(dirs, a, d, way),
    ensures
        0 <= d < dirs.len(),
        dirs[d].parent < d,
        is_way_up(dirs, a, dirs[d].parent as int, way.drop_first()),
{
    let up = way.drop_first();
    assert(way.len() > 1);
    assert(goes_up(dirs, way, 0));
    assert forall|i: int| 0 <= i < up.len() - 1 implies #[trigger] goes_up(dirs, up, i) by {
        assert(goes_up(dirs, way, i + 1));
    }
}

pub proof fn lemma_way(dirs: Seq<DirRec>, a: int, d: int)
    ensures
        records::under(dirs, a, d) == lies_in(dirs, a, d),
    decreases d,
{
    if a == d {
        assert(is_way_up(dirs, a, d, seq![d]));
    } else {
        if lies_in(dirs, a, d) {
            let way = choose|way: Seq<int>| #[trigger] is_way_up(dirs, a, d, way);
            lemma_shorter(dirs, a, d, way);
            lemma_way(dirs, a, dirs[d].parent as int);
        }
        if 0 <= d < dirs.len() && dirs[d].parent < d {
            let p = dirs[d].parent as int;
            lemma_way(dirs, a, p);
            if lies_in(dirs, a, p) {
                let way = choose|way: Seq<int>| #[trigger] is_way_up(dirs, a, p, way);
                lemma_longer(dirs, a, d, way);
            }
        }
    }
}

/// The files that lie in folder `a` or somewhere below it.
pub open spec fn files_below(dirs: Seq<DirRec>, files: Seq<FileRec>, a: int) -> Seq<FileRec> {
    files.filter(|f: FileRec| f.parent < dirs.len() && lies_in(dirs, a, f.parent as int))
}

/// The bytes of files, added up.
pub open spec fn bytes_of(files: Seq<FileRec>) -> int {
    files.fold_left(0int, |n: int, f: FileRec| n + f.size)
}

/// What is shown of folder `a` is true: the bytes of all the files below it, added up
/// modulo 2 to the power 64, how many they are, and the date of the last write in it.
pub open spec fn is_total(
    dirs: Seq<DirRec>,
    files: Seq<FileRec>,
    a: int,
    size: u64,
    count: u64,
    mtime: i64,
) -> bool {
    let below = files_below(dirs, files, a);
    &&& size == bytes_of(below) % 0x1_0000_0000_0000_0000
    &&& count == below.len()
    &&& forall|k: int| 0 <= k < below.len() ==> (#[trigger] below[k]).mtime <= mtime
    &&& forall|d: int|
        0 <= d < dirs.len() && #[trigger] lies_in(dirs, a, d) ==> dirs[d].own_mtime <= mtime
    &&& {
        ||| exists|k: int| 0 <= k < below.len() && (#[trigger] below[k]).mtime == mtime
        ||| exists|d: int|
            0 <= d < dirs.len() && #[trigger] lies_in(dirs, a, d) && dirs[d].own_mtime == mtime
    }
}

proof fn lemma_bytes_of(dirs: Seq<DirRec>, files: Seq<FileRec>, a: int)
    ensures
        records::subtree_size(dirs, files, a) == bytes_of(files_below(dirs, files, a)),
        records::subtree_count(dirs, files, a) == files_below(dirs, files, a).len(),
    decreases files.len(),
{
    let p = |f: FileRec| f.parent < dirs.len() && lies_in(dirs, a, f.parent as int);
    let n = files.len() as int;
    assert(files.take(n) =~= files);
    if n > 0 {
        let rest = files.drop_last();
        lemma_bytes_of(dirs, rest, a);
        walking::lemma_filter_step(files, p, n - 1);
        assert(files.take(n - 1) =~= rest);
        lemma_way(dirs, a, files.last().parent as int);
        let below = files.filter(p);
        if p(files.last()) {
            assert(below.drop_last() =~= rest.filter(p));
        }
    } else {
        walking::lemma_filter_none(files, p);
    }
}

proof fn lemma_member(dirs: Seq<DirRec>, files: Seq<FileRec>, a: int)
    ensures
        forall|f: FileRec| #[trigger]
            files_below(dirs, files, a).contains(f) <==> files.contains(f) && records::holds(
                dirs,
                a,
                f,
            ),
{
    let p = |f: FileRec| f.parent < dirs.len() && lies_in(dirs, a, f.parent as int);
    let below = files.filter(p);
    broadcast use vstd::seq_lib::group_filter_ensures;

    assert forall|f: FileRec| #[trigger]
        files_below(dirs, files, a).contains(f) <==> files.contains(f) && records::holds(
            dirs,
            a,
            f,
        ) by {
        lemma_way(dirs, a, f.parent as int);
        if below.contains(f) {
            let i = choose|i: int| 0 <= i < below.len() && below[i] == f;
            assert(p(below[i]));
            files.lemma_filter_contains_rev(p, f);
        }
        if files.contains(f) && p(f) {
            let i = choose|i: int| 0 <= i < files.len() && files[i] == f;
            assert(below.contains(files[i]));
        }
    }
}

pub proof fn lemma_totals(s: Snapshot, a: int)
    requires
        s.wf(),
        0 <= a < s.dirs@.len(),
    ensures
        is_total(s.dirs@, s.files@, a, s.size@[a], s.count@[a], s.mtime@[a]),
{
    let dirs = s.dirs@;
    let files = s.files@;
    let below = files_below(dirs, files, a);
    let t = s.mtime@[a];
    lemma_bytes_of(dirs, files, a);
    lemma_member(dirs, files, a);
    assert(s.size@[a] == aggregate::wrapped(records::subtree_size(dirs, files, a)));
    assert(s.count@[a] as int == records::subtree_count(dirs, files, a));
    assert(records::last_write(dirs, files, a, t));
    assert forall|k: int| 0 <= k < below.len() implies (#[trigger] below[k]).mtime <= t by {
        assert(below.contains(below[k]));
        let j = choose|j: int| 0 <= j < files.len() && files[j] == below[k];
        assert(records::holds(dirs, a, files[j]));
        assert(records::written_at(dirs, files, a, below[k].mtime));
    }
    assert forall|d: int|
        0 <= d < dirs.len() && #[trigger] lies_in(dirs, a, d) implies dirs[d].own_mtime <= t by {
        lemma_way(dirs, a, d);
        assert(records::written_at(dirs, files, a, dirs[d].own_mtime));
    }
    assert(records::written_at(dirs, files, a, t));
    if exists|d: int|
        0 <= d < dirs.len() && #[trigger] records::under(dirs, a, d) && dirs[d].own_mtime == t {
        let d = choose|d: int|
            0 <= d < dirs.len() && #[trigger] records::under(dirs, a, d) && dirs[d].own_mtime == t;
        lemma_way(dirs, a, d);
        assert(lies_in(dirs, a, d));
    } else {
        let k = choose|k: int|
            0 <= k < files.len() && records::holds(dirs, a, #[trigger] files[k]) && files[k].mtime
                == t;
        assert(files.contains(files[k]));
        assert(below.contains(files[k]));
        let j = choose|j: int| 0 <= j < below.len() && below[j] == files[k];
        assert(below[j].mtime == t);
    }
}

/// Law: an index puts every folder at the place of its number and keeps the files as they
/// came. What it says of a folder is true: the bytes and the number of the files that lie
/// in it or anywhere below it, and the date of the last write there.
pub proof fn law_totals_of_an_index(
    root: String,
    dirs: Vec<DirRec>,
    files: Vec<FileRec>,
    elapsed_ms: u64,
    errors: u64,
    finished_ms: i64,
    s: Snapshot,
)
    requires
        dirs@.len() <= u32::MAX,
        files@.len() <= u32::MAX,
        snapshot::numbered(dirs@),
        call_ensures(Snapshot::new, (root, dirs, files, elapsed_ms, errors, finished_ms), s),
    ensures
        s.root@ == root@,
        s.dirs@.len() == dirs@.len(),
        forall|i: int|
            #![trigger dirs@[i]]
            0 <= i < dirs@.len() ==> s.dirs@[dirs@[i].id as int] == dirs@[i],
        s.files@ == files@,
        s.elapsed_ms == elapsed_ms,
        s.errors == errors,
        s.finished_ms == finished_ms,
        s.size@.len() == dirs@.len(),
        s.count@.len() == dirs@.len(),
        s.mtime@.len() == dirs@.len(),
        forall|a: int|
            #![trigger s.size@[a]]
            #![trigger s.count@[a]]
            #![trigger s.mtime@[a]]
            0 <= a < dirs@.len() ==> is_total(
                s.dirs@,
                files@,
                a,
                s.size@[a],
                s.count@[a],
                s.mtime@[a],
            ),
{
    assert forall|a: int|
        #![trigger s.size@[a]]
        #![trigger s.count@[a]]
        #![trigger s.mtime@[a]]
        0 <= a < dirs@.len() implies is_total(
        s.dirs@,
        files@,
        a,
        s.size@[a],
        s.count@[a],
        s.mtime@[a],
    ) by {
        lemma_totals(s, a);
    }
}

} // verus!
