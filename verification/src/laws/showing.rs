//! What listings show, told by the index and the request that they were made from.
//!
//! A law of this file takes what a function was given and what it gave, bound by the
//! contract of that function, and says how the one follows from the other.

use crate::http::Query;
use crate::laws::totals;
use crate::laws::walking;
use crate::listing;
use crate::listing::{Crumb, TreeJson, UnreadableJson};
use crate::order;
use crate::order::Sort;
use crate::path;
use crate::records;
use crate::records::{DirRec, FileRec, Row, RowView};
use crate::refusal::Refusal;
use crate::snapshot;
use crate::snapshot::Snapshot;
use crate::text;
use vstd::prelude::*;

verus! {

// ---------------------------- numbers in a request ----------------------------

/// A parameter asks for number `n`: it writes `n`, or it is missing or no number at all and
/// `n` is what is taken then.
pub open spec fn asks(v: Option<Seq<char>>, n: nat, otherwise: nat) -> bool {
    match v {
        Some(t) => t == text::decimal(n) || (no_number(t) && n == otherwise),
        None => n == otherwise,
    }
}

/// The text is empty, or holds something else than digits and plus signs.
pub open spec fn no_number(t: Seq<char>) -> bool {
    t.len() == 0 || exists|i: int| 0 <= i < t.len() && other_sign(#[trigger] t[i])
}

pub open spec fn other_sign(c: char) -> bool {
    c != '+' && !('0' <= c <= '9')
}

pub proof fn lemma_asks(v: Option<Seq<char>>, max: nat, n: nat, otherwise: nat)
    requires
        asks(v, n, otherwise),
        n <= max,
    ensures
        listing::number_or(v, max, otherwise) == n,
{
    if let Some(t) = v {
        if t == text::decimal(n) {
            text::law_decimal_back(n);
            assert(text::is_digit(t[0]));
        } else if t.len() > 0 {
            let i = choose|i: int| 0 <= i < t.len() && other_sign(#[trigger] t[i]);
            let d = text::unsigned(t);
            if t[0] == '+' {
                assert(d[i - 1] == t[i]);
                assert(!text::is_digit(d[i - 1]));
            } else {
                assert(!text::is_digit(d[i]));
            }
        }
    }
}

// ---------------------------- order ----------------------------

/// The texts are the same up to place `i`, where the first one ends or has the smaller
/// character.
pub open spec fn parts_at(a: Seq<char>, b: Seq<char>, i: int) -> bool {
    &&& 0 <= i <= a.len()
    &&& i < b.len()
    &&& a.take(i) == b.take(i)
    &&& i == a.len() || a[i] < b[i]
}

/// The first text comes before the second one in a dictionary.
pub open spec fn precedes(a: Seq<char>, b: Seq<char>) -> bool {
    exists|i: int| #[trigger] parts_at(a, b, i)
}

proof fn lemma_precedes(a: Seq<char>, b: Seq<char>)
    ensures
        order::text_less(a, b) == precedes(a, b),
    decreases a.len(),
{
    if a.len() > 0 && b.len() > 0 && a[0] == b[0] {
        let x = a.drop_first();
        let y = b.drop_first();
        lemma_precedes(x, y);
        if precedes(x, y) {
            let i = choose|i: int| #[trigger] parts_at(x, y, i);
            assert forall|k: int| 0 <= k < i + 1 implies #[trigger] a[k] == b[k] by {
                if k > 0 {
                    assert(x.take(i)[k - 1] == y.take(i)[k - 1]);
                }
            }
            assert(a.take(i + 1) =~= b.take(i + 1));
            assert(parts_at(a, b, i + 1));
        }
        if precedes(a, b) {
            let i = choose|i: int| #[trigger] parts_at(a, b, i);
            assert(i > 0);
            assert(x.take(i - 1) =~= a.take(i).drop_first());
            assert(y.take(i - 1) =~= b.take(i).drop_first());
            assert(parts_at(x, y, i - 1));
        }
    } else if b.len() > 0 {
        if a.len() == 0 {
            assert(a.take(0) =~= b.take(0));
            assert(parts_at(a, b, 0));
        } else {
            assert(a.take(0) =~= b.take(0));
            if a[0] < b[0] {
                assert(parts_at(a, b, 0));
            }
            if precedes(a, b) {
                let i = choose|i: int| #[trigger] parts_at(a, b, i);
                if i > 0 {
                    assert(a.take(i)[0] == b.take(i)[0]);
                }
            }
        }
    }
}

/// The key of one row comes before that of another one.
pub open spec fn key_before(by: Sort, a: RowView, b: RowView) -> bool {
    match by {
        Sort::Name => precedes(text::lower_text(a.name), text::lower_text(b.name)),
        Sort::Mtime => a.mtime < b.mtime,
        Sort::Count => a.count < b.count,
        Sort::Size => a.size < b.size,
    }
}

/// Rows go up in their keys, or down.
pub open spec fn in_order(rows: Seq<RowView>, by: Sort, asc: bool) -> bool {
    forall|x: int, y: int|
        #![trigger rows[x], rows[y]]
        0 <= x < y < rows.len() ==> if asc {
            !key_before(by, rows[y], rows[x])
        } else {
            !key_before(by, rows[x], rows[y])
        }
}

/// The rows of a page are in order, and those with the same key stand as they came.
proof fn lemma_page(
    rows: Seq<RowView>,
    p: Seq<usize>,
    by: Sort,
    asc: bool,
    offset: nat,
    limit: nat,
)
    requires
        order::ordered(p, rows, order::lower_names(rows), by, asc),
    ensures
        ({
            let shown = order::page(order::taken(rows, p), offset, limit);
            let from = if offset <= rows.len() {
                offset as int
            } else {
                rows.len() as int
            };
            &&& in_order(shown, by, asc)
            &&& shown.len() == if limit <= rows.len() - from {
                limit as int
            } else {
                rows.len() - from
            }
            &&& forall|x: int|
                #![trigger shown[x]]
                0 <= x < shown.len() ==> p[from + x] < rows.len() && shown[x] == rows[p[from
                    + x] as int]
            &&& forall|x: int, y: int|
                #![trigger shown[x], shown[y]]
                0 <= x < y < shown.len() && !key_before(by, shown[x], shown[y]) && !key_before(
                    by,
                    shown[y],
                    shown[x],
                ) ==> p[from + x] < p[from + y]
        }),
{
    let shown = order::page(order::taken(rows, p), offset, limit);
    let from = if offset <= rows.len() {
        offset as int
    } else {
        rows.len() as int
    };
    let names = order::lower_names(rows);
    assert forall|x: int|
        #![trigger shown[x]]
        0 <= x < shown.len() implies p[from + x] < rows.len() && shown[x] == rows[p[from
        + x] as int] by {
        assert(p[from + x] < rows.len());
    }
    assert forall|x: int, y: int|
        #![trigger shown[x], shown[y]]
        0 <= x < y < shown.len() implies (if asc {
        !key_before(by, shown[y], shown[x])
    } else {
        !key_before(by, shown[x], shown[y])
    }) && (!key_before(by, shown[x], shown[y]) && !key_before(by, shown[y], shown[x]) ==> p[from
        + x] < p[from + y]) by {
        let i = p[from + x] as int;
        let j = p[from + y] as int;
        assert(p[from + x] < rows.len() && p[from + y] < rows.len());
        assert(order::above(rows, names, by, asc, i, j));
        assert(names[i] == text::lower_text(rows[i].name));
        assert(names[j] == text::lower_text(rows[j].name));
        lemma_precedes(names[i], names[j]);
        lemma_precedes(names[j], names[i]);
        order::lemma_text_order(names[i], names[j], names[i]);
    }
}

/// Law: sorting gives every row once, in the order of its key, up or down; rows with the
/// same key stay as they were.
pub proof fn law_sorted_rows(rows: &Vec<Row>, by: Sort, asc: bool, p: Vec<usize>)
    requires
        call_ensures(order::sort_rows, (rows, by, asc), p),
    ensures
        p@.len() == rows@.len(),
        forall|i: usize| i < rows@.len() ==> p@.contains(i),
        in_order(Seq::new(p@.len(), |x: int| rows@[p@[x] as int]@), by, asc),
        forall|x: int, y: int|
            #![trigger p@[x], p@[y]]
            0 <= x < y < p@.len() && !key_before(by, rows@[p@[x] as int]@, rows@[p@[y] as int]@)
                && !key_before(by, rows@[p@[y] as int]@, rows@[p@[x] as int]@) ==> p@[x] < p@[y],
{
    let all = records::shown(rows@);
    lemma_page(all, p@, by, asc, 0, all.len());
    let shown = order::page(order::taken(all, p@), 0, all.len());
    let want = Seq::new(p@.len(), |x: int| rows@[p@[x] as int]@);
    assert(shown =~= want) by {
        assert forall|x: int| 0 <= x < p@.len() implies shown[x] == want[x] by {
            assert(p@[x] < all.len());
        }
    }
    assert forall|x: int, y: int|
        #![trigger p@[x], p@[y]]
        0 <= x < y < p@.len() && !key_before(by, rows@[p@[x] as int]@, rows@[p@[y] as int]@)
            && !key_before(by, rows@[p@[y] as int]@, rows@[p@[x] as int]@) implies p@[x]
        < p@[y] by {
        assert(shown[x] == want[x] && shown[y] == want[y]);
    }
}

// ---------------------------- the children of a folder ----------------------------

proof fn lemma_going_down(dirs: Seq<DirRec>, files: Seq<FileRec>, m: int, n: int, id: u32)
    requires
        0 <= m <= dirs.len() <= u32::MAX,
        0 <= n <= files.len() <= u32::MAX,
    ensures
        forall|x: int, y: int|
            0 <= x < y < snapshot::child_dir_list(dirs, m, id).len() ==> (
            #[trigger] snapshot::child_dir_list(dirs, m, id)[x]) > (
            #[trigger] snapshot::child_dir_list(dirs, m, id)[y]),
        forall|x: int, y: int|
            0 <= x < y < snapshot::child_file_list(dirs, files, n, id).len() ==> (
            #[trigger] snapshot::child_file_list(dirs, files, n, id)[x]) > (
            #[trigger] snapshot::child_file_list(dirs, files, n, id)[y]),
    decreases m + n,
{
    if m > 0 {
        lemma_going_down(dirs, files, m - 1, n, id);
        snapshot::lemma_children(dirs, files, m - 1, n, id);
    } else if n > 0 {
        lemma_going_down(dirs, files, m, n - 1, id);
        snapshot::lemma_children(dirs, files, m, n - 1, id);
    }
}

/// Law: the children of a folder are the folders, and the files, whose parent it is, each
/// once, the last one first. The root is no child of itself.
pub proof fn law_children_of(s: &Snapshot, id: u32, ds: Vec<u32>, fs: Vec<u32>)
    requires
        s.wf(),
        id < s.dirs@.len(),
        call_ensures(Snapshot::child_dirs, (s, id), ds),
        call_ensures(Snapshot::child_files, (s, id), fs),
    ensures
        forall|c: u32|
            #![trigger ds@.contains(c)]
            ds@.contains(c) <==> c < s.dirs@.len() && s.dirs@[c as int].parent == id && c != id,
        forall|c: u32|
            #![trigger fs@.contains(c)]
            fs@.contains(c) <==> c < s.files@.len() && s.files@[c as int].parent == id,
        forall|x: int, y: int| 0 <= x < y < ds@.len() ==> (#[trigger] ds@[x]) > (#[trigger] ds@[y]),
        forall|x: int, y: int| 0 <= x < y < fs@.len() ==> (#[trigger] fs@[x]) > (#[trigger] fs@[y]),
{
    lemma_going_down(s.dirs@, s.files@, s.dirs@.len() as int, s.files@.len() as int, id);
    snapshot::law_children(s.dirs@, s.files@, id);
}

/// How many folders lie directly in folder `id`.
pub open spec fn folders_in(dirs: Seq<DirRec>, id: u32) -> nat {
    dirs.filter(|d: DirRec| d.parent == id && d.id != id).len()
}

/// How many files lie directly in folder `id`.
pub open spec fn files_in(files: Seq<FileRec>, id: u32) -> nat {
    files.filter(|f: FileRec| f.parent == id).len()
}

proof fn lemma_counted(dirs: Seq<DirRec>, files: Seq<FileRec>, m: int, n: int, id: u32)
    requires
        id < dirs.len(),
        0 <= m <= dirs.len() <= u32::MAX,
        0 <= n <= files.len() <= u32::MAX,
        forall|i: int| 0 <= i < dirs.len() ==> (#[trigger] dirs[i]).id == i,
    ensures
        snapshot::child_dir_list(dirs, m, id).len() == dirs.take(m).filter(
            |d: DirRec| d.parent == id && d.id != id,
        ).len(),
        snapshot::child_file_list(dirs, files, n, id).len() == files.take(n).filter(
            |f: FileRec| f.parent == id,
        ).len(),
    decreases m + n,
{
    let p = |d: DirRec| d.parent == id && d.id != id;
    let q = |f: FileRec| f.parent == id;
    if m > 0 {
        lemma_counted(dirs, files, m - 1, n, id);
        walking::lemma_filter_step(dirs, p, m - 1);
    } else if n > 0 {
        lemma_counted(dirs, files, m, n - 1, id);
        walking::lemma_filter_step(files, q, n - 1);
    } else {
        walking::lemma_filter_none(dirs, p);
        walking::lemma_filter_none(files, q);
    }
}

// ---------------------------- a listing ----------------------------

/// What a request asks a listing for.
pub struct Wanted {
    pub id: nat,
    pub offset: nat,
    pub limit: nat,
    pub by: Sort,
    pub asc: bool,
}

/// The request asks for that: the root, the first three thousand rows, the largest first,
/// where it says nothing else. No page has more than fifty thousand rows.
pub open spec fn wants(q: Query, w: Wanted) -> bool {
    &&& w.id <= u32::MAX && asks(q.value("id"@), w.id, 0)
    &&& w.offset <= usize::MAX && asks(q.value("offset"@), w.offset, 0)
    &&& exists|n: nat|
        n <= usize::MAX && #[trigger] asks(q.value("limit"@), n, 3000) && w.limit == if n
            <= 50_000 {
            n
        } else {
            50_000
        }
    &&& q.value("sort"@) == Some("name"@) ==> w.by is Name
    &&& q.value("sort"@) == Some("mtime"@) ==> w.by is Mtime
    &&& q.value("sort"@) == Some("count"@) ==> w.by is Count
    &&& q.value("sort"@) != Some("name"@) && q.value("sort"@) != Some("mtime"@) && q.value(
        "sort"@,
    ) != Some("count"@) ==> w.by is Size
    &&& w.asc == (q.value("order"@) == Some("asc"@))
}

proof fn lemma_sorts(q: Query, w: Wanted)
    requires
        wants(q, w),
    ensures
        listing::sort_in(q.value("sort"@)) == w.by,
        listing::number_or(q.value("id"@), u32::MAX as nat, 0) == w.id,
        listing::number_or(q.value("offset"@), usize::MAX as nat, 0) == w.offset,
        listing::at_most(
            listing::number_or(q.value("limit"@), usize::MAX as nat, 3000),
            50_000,
        ) == w.limit,
{
    reveal_strlit("name");
    reveal_strlit("mtime");
    reveal_strlit("count");
    assert("name"@.len() == 4 && "mtime"@.len() == 5 && "count"@.len() == 5);
    assert("mtime"@[0] == 'm' && "count"@[0] == 'c');
    lemma_asks(q.value("id"@), u32::MAX as nat, w.id, 0);
    lemma_asks(q.value("offset"@), usize::MAX as nat, w.offset, 0);
    let n = choose|n: nat|
        n <= usize::MAX && #[trigger] asks(q.value("limit"@), n, 3000) && w.limit == if n
            <= 50_000 {
            n
        } else {
            50_000
        };
    lemma_asks(q.value("limit"@), usize::MAX as nat, n, 3000);
}

/// The row tells what the index knows of a folder or of a file that lies directly in
/// folder `id`: the totals of the whole subtree of a folder, the size and the date of a
/// file.
pub open spec fn child_row(s: Snapshot, id: nat, row: RowView) -> bool {
    if row.is_dir {
        let d = row.id as int;
        &&& d < s.dirs@.len()
        &&& s.dirs@[d].parent == id
        &&& d != id
        &&& row.name == s.dirs@[d].name@
        &&& totals::is_total(s.dirs@, s.files@, d, row.size, row.count, row.mtime)
    } else {
        let f = row.id as int;
        &&& f < s.files@.len()
        &&& s.files@[f].parent == id
        &&& row.name == s.files@[f].name@
        &&& row.size == s.files@[f].size
        &&& row.count == 1
        &&& row.mtime == s.files@[f].mtime
    }
}

/// Law: a listing is given of a folder that the index has, and of no other.
pub proof fn law_listed_if_known(s: &Snapshot, q: &Query, r: Result<TreeJson, Refusal>, w: Wanted)
    requires
        s.wf(),
        q.wf(),
        wants(*q, w),
        call_ensures(listing::tree, (s, q), r),
    ensures
        r is Ok <==> w.id < s.dirs@.len(),
        r matches Err(e) ==> e is DirOutOfRange,
{
    lemma_sorts(*q, w);
}

proof fn lemma_line(s: Snapshot, id: u32, i: int)
    requires
        s.wf(),
        id < s.dirs@.len(),
        0 <= i < listing::lines(s, id).len(),
    ensures
        child_row(s, id as nat, listing::lines(s, id)[i]),
        listing::lines(s, id)[i].is_dir == (i < snapshot::child_dir_list(
            s.dirs@,
            s.dirs@.len() as int,
            id,
        ).len()),
{
    let ds = snapshot::child_dir_list(s.dirs@, s.dirs@.len() as int, id);
    let fs = snapshot::child_file_list(s.dirs@, s.files@, s.files@.len() as int, id);
    snapshot::law_children(s.dirs@, s.files@, id);
    if i < ds.len() {
        let c = ds[i];
        assert(ds.contains(c));
        totals::lemma_totals(s, c as int);
    } else {
        let c = fs[i - ds.len()];
        assert(fs.contains(c));
    }
}

/// Law: a listing shows the children of one folder, sorted as asked, up or down: each row
/// tells what the index knows of its entry. Rows with the same key show folders before
/// files, and the later record first.
pub proof fn law_listing_rows(s: &Snapshot, q: &Query, t: TreeJson, w: Wanted)
    requires
        s.wf(),
        q.wf(),
        wants(*q, w),
        call_ensures(listing::tree, (s, q), Ok::<TreeJson, Refusal>(t)),
    ensures
        forall|x: int|
            #![trigger t.rows@[x]]
            0 <= x < t.rows@.len() ==> child_row(*s, w.id, t.rows@[x]@),
        in_order(Seq::new(t.rows@.len(), |x: int| t.rows@[x]@), w.by, w.asc),
        forall|x: int, y: int|
            #![trigger t.rows@[x], t.rows@[y]]
            0 <= x < y < t.rows@.len() && !key_before(w.by, t.rows@[x]@, t.rows@[y]@)
                && !key_before(w.by, t.rows@[y]@, t.rows@[x]@) ==> {
                &&& t.rows@[x].is_dir || !t.rows@[y].is_dir
                &&& t.rows@[x].is_dir == t.rows@[y].is_dir ==> t.rows@[x].id > t.rows@[y].id
            },
{
    lemma_sorts(*q, w);
    let id = w.id as u32;
    let all = listing::lines(*s, id);
    let shown = records::shown(t.rows@);
    let want = Seq::new(t.rows@.len(), |x: int| t.rows@[x]@);
    assert(shown =~= want);
    let p = choose|p: Seq<usize>| #[trigger]
        order::ordered(p, all, order::lower_names(all), w.by, w.asc) && shown == order::page(
            order::taken(all, p),
            w.offset,
            w.limit,
        );
    lemma_page(all, p, w.by, w.asc, w.offset, w.limit);
    let from = if w.offset <= all.len() {
        w.offset as int
    } else {
        all.len() as int
    };
    assert forall|x: int| #![trigger t.rows@[x]] 0 <= x < t.rows@.len() implies child_row(
        *s,
        w.id,
        t.rows@[x]@,
    ) by {
        assert(shown[x] == t.rows@[x]@);
        assert(p[from + x] < all.len());
        lemma_line(*s, id, p[from + x] as int);
    }
    let ds = snapshot::child_dir_list(s.dirs@, s.dirs@.len() as int, id);
    let fs = snapshot::child_file_list(s.dirs@, s.files@, s.files@.len() as int, id);
    lemma_going_down(s.dirs@, s.files@, s.dirs@.len() as int, s.files@.len() as int, id);
    assert forall|x: int, y: int|
        #![trigger t.rows@[x], t.rows@[y]]
        0 <= x < y < t.rows@.len() && !key_before(w.by, t.rows@[x]@, t.rows@[y]@) && !key_before(
            w.by,
            t.rows@[y]@,
            t.rows@[x]@,
        ) implies (t.rows@[x].is_dir || !t.rows@[y].is_dir) && (t.rows@[x].is_dir
        == t.rows@[y].is_dir ==> t.rows@[x].id > t.rows@[y].id) by {
        assert(shown[x] == t.rows@[x]@ && shown[y] == t.rows@[y]@);
        let i = p[from + x] as int;
        let j = p[from + y] as int;
        assert(p[from + x] < all.len() && p[from + y] < all.len());
        lemma_line(*s, id, i);
        lemma_line(*s, id, j);
        assert(i < j);
        if j < ds.len() {
            assert(ds[i] > ds[j]);
            assert(all[i].id == ds[i] && all[j].id == ds[j]);
        } else if i >= ds.len() {
            assert(fs[i - ds.len()] > fs[j - ds.len()]);
            assert(all[i].id == fs[i - ds.len()] && all[j].id == fs[j - ds.len()]);
        }
    }
}

/// Law: a listing says how many entries its folder has in all, and shows as many as the
/// page has room for; it says so where more follow. It tells the bytes of its folder, and
/// the way to it: from the top, each folder the parent of the next one, to the folder.
pub proof fn law_listing_counts(s: &Snapshot, q: &Query, t: TreeJson, w: Wanted)
    requires
        s.wf(),
        q.wf(),
        wants(*q, w),
        call_ensures(listing::tree, (s, q), Ok::<TreeJson, Refusal>(t)),
    ensures
        t.total_size == folders_in(s.dirs@, w.id as u32) + files_in(s.files@, w.id as u32),
        t.rows@.len() == if w.offset >= t.total_size {
            0
        } else if w.offset + w.limit <= t.total_size {
            w.limit as int
        } else {
            t.total_size - w.offset
        },
        t.truncated == (t.total_size > w.offset + w.limit),
        t.parent_size == s.size@[w.id as int],
        t.path@.len() >= 1,
        t.path@.last().id == w.id,
        forall|k: int|
            #![trigger t.path@[k]]
            0 <= k < t.path@.len() ==> t.path@[k].id < s.dirs@.len() && t.path@[k].name@
                == s.dirs@[t.path@[k].id as int].name@,
        forall|k: int|
            #![trigger t.path@[k]]
            0 < k < t.path@.len() ==> s.dirs@[t.path@[k].id as int].parent == t.path@[k - 1].id,
        s.dirs@[t.path@[0].id as int].parent >= t.path@[0].id,
{
    lemma_sorts(*q, w);
    let id = w.id as u32;
    let all = listing::lines(*s, id);
    let shown = records::shown(t.rows@);
    assert(shown.len() == t.rows@.len());
    let p = choose|p: Seq<usize>| #[trigger]
        order::ordered(p, all, order::lower_names(all), w.by, w.asc) && shown == order::page(
            order::taken(all, p),
            w.offset,
            w.limit,
        );
    lemma_page(all, p, w.by, w.asc, w.offset, w.limit);
    lemma_counted(s.dirs@, s.files@, s.dirs@.len() as int, s.files@.len() as int, id);
    assert(s.dirs@.take(s.dirs@.len() as int) =~= s.dirs@);
    assert(s.files@.take(s.files@.len() as int) =~= s.files@);
    path::lemma_chain(s.dirs@, id);
    let c = path::chain(s.dirs@, id);
    assert(t.path@[t.path@.len() - 1].id == c[c.len() - 1]);
    assert forall|k: int|
        #![trigger t.path@[k]]
        0 < k < t.path@.len() implies s.dirs@[t.path@[k].id as int].parent == t.path@[k - 1].id by {
        assert(t.path@[k].id == c[k]);
        assert(t.path@[k - 1].id == c[k - 1]);
    }
    assert(t.path@[0].id == c[0]);
}

/// Law: a page shows the rows that the whole listing shows at its place: `t` is a page, `u`
/// the listing in one page. So pages leave nothing out and show nothing twice.
pub proof fn law_page_of_the_whole(
    s: &Snapshot,
    q: &Query,
    t: TreeJson,
    w: Wanted,
    qu: &Query,
    u: TreeJson,
    wu: Wanted,
)
    requires
        s.wf(),
        q.wf(),
        qu.wf(),
        wants(*q, w),
        wants(*qu, wu),
        call_ensures(listing::tree, (s, q), Ok::<TreeJson, Refusal>(t)),
        call_ensures(listing::tree, (s, qu), Ok::<TreeJson, Refusal>(u)),
        w.id == wu.id,
        w.by == wu.by,
        w.asc == wu.asc,
        wu.offset == 0,
        wu.limit >= u.total_size,
    ensures
        forall|x: int|
            #![trigger t.rows@[x]]
            0 <= x < t.rows@.len() ==> w.offset + x < u.rows@.len() && t.rows@[x]@ == u.rows@[w.offset
                + x]@,
{
    lemma_sorts(*q, w);
    lemma_sorts(*qu, wu);
    let id = w.id as u32;
    let all = listing::lines(*s, id);
    let a = records::shown(t.rows@);
    let b = records::shown(u.rows@);
    let names = order::lower_names(all);
    let p = choose|p: Seq<usize>| #[trigger]
        order::ordered(p, all, names, w.by, w.asc) && a == order::page(
            order::taken(all, p),
            w.offset,
            w.limit,
        );
    let v = choose|v: Seq<usize>| #[trigger]
        order::ordered(v, all, names, w.by, w.asc) && b == order::page(
            order::taken(all, v),
            0,
            wu.limit,
        );
    order::law_one_order(p, v, all, names, w.by, w.asc);
    assert(a.len() == t.rows@.len() && b.len() == u.rows@.len());
    assert forall|x: int| #![trigger t.rows@[x]] 0 <= x < t.rows@.len() implies w.offset + x
        < u.rows@.len() && t.rows@[x]@ == u.rows@[w.offset + x]@ by {
        assert(a[x] == t.rows@[x]@);
        assert(b[w.offset + x] == u.rows@[w.offset + x]@);
    }
}

/// Law: a listing in one page shows every entry of its folder.
pub proof fn law_whole_listing(s: &Snapshot, q: &Query, t: TreeJson, w: Wanted)
    requires
        s.wf(),
        q.wf(),
        wants(*q, w),
        call_ensures(listing::tree, (s, q), Ok::<TreeJson, Refusal>(t)),
        w.offset == 0,
        w.limit >= t.total_size,
    ensures
        forall|d: u32|
            #![trigger s.dirs@[d as int]]
            d < s.dirs@.len() && s.dirs@[d as int].parent == w.id && d != w.id ==> exists|x: int|
                0 <= x < t.rows@.len() && (#[trigger] t.rows@[x]).is_dir && t.rows@[x].id == d,
        forall|f: u32|
            #![trigger s.files@[f as int]]
            f < s.files@.len() && s.files@[f as int].parent == w.id ==> exists|x: int|
                0 <= x < t.rows@.len() && !(#[trigger] t.rows@[x]).is_dir && t.rows@[x].id == f,
{
    lemma_sorts(*q, w);
    let id = w.id as u32;
    let all = listing::lines(*s, id);
    let shown = records::shown(t.rows@);
    let p = choose|p: Seq<usize>| #[trigger]
        order::ordered(p, all, order::lower_names(all), w.by, w.asc) && shown == order::page(
            order::taken(all, p),
            w.offset,
            w.limit,
        );
    assert(shown.len() == t.rows@.len());
    let ds = snapshot::child_dir_list(s.dirs@, s.dirs@.len() as int, id);
    let fs = snapshot::child_file_list(s.dirs@, s.files@, s.files@.len() as int, id);
    snapshot::law_children(s.dirs@, s.files@, id);
    assert forall|i: int| 0 <= i < all.len() implies exists|x: int|
        0 <= x < t.rows@.len() && (#[trigger] t.rows@[x])@ == #[trigger] all[i] by {
        assert(p.len() <= usize::MAX);
        assert(p.contains(i as usize));
        let x = choose|x: int| 0 <= x < p.len() && p[x] == i as usize;
        assert(shown[x] == t.rows@[x]@);
        assert(t.rows@[x]@ == all[i]);
    }
    assert forall|d: u32|
        #![trigger s.dirs@[d as int]]
        d < s.dirs@.len() && s.dirs@[d as int].parent == w.id && d != w.id implies exists|x: int|
        0 <= x < t.rows@.len() && (#[trigger] t.rows@[x]).is_dir && t.rows@[x].id == d by {
        assert(ds.contains(d));
        let i = choose|i: int| 0 <= i < ds.len() && ds[i] == d;
        assert(all[i].id == d && all[i].is_dir);
        let x = choose|x: int| 0 <= x < t.rows@.len() && (#[trigger] t.rows@[x])@ == all[i];
        assert(t.rows@[x].is_dir);
    }
    assert forall|f: u32|
        #![trigger s.files@[f as int]]
        f < s.files@.len() && s.files@[f as int].parent == w.id implies exists|x: int|
        0 <= x < t.rows@.len() && !(#[trigger] t.rows@[x]).is_dir && t.rows@[x].id == f by {
        assert(fs.contains(f));
        let i = choose|i: int| 0 <= i < fs.len() && fs[i] == f;
        assert(all[ds.len() + i].id == f && !all[ds.len() + i].is_dir);
        let x = choose|x: int|
            0 <= x < t.rows@.len() && (#[trigger] t.rows@[x])@ == all[ds.len() + i];
        assert(!t.rows@[x].is_dir);
    }
}

/// Law: the list of unreadable folders tells what the index knows of them, and says so
/// where it names fewer than there are.
pub proof fn law_unreadable_list(s: &Snapshot, r: UnreadableJson)
    requires
        call_ensures(listing::unreadable, (s,), r),
    ensures
        r.items@.len() == s.unreadable@.len(),
        forall|i: int|
            #![trigger r.items@[i]]
            0 <= i < s.unreadable@.len() ==> r.items@[i].path@ == s.unreadable@[i].path@
                && r.items@[i].droits == s.unreadable@[i].droits,
        r.total == s.unreadable_total,
        r.droits == s.unreadable_droits,
        r.skipped == s.skipped,
        r.tronque <==> r.total > r.items@.len(),
{
}

/// Law: a path is shown in the system's explorer only where it is one of the unreadable
/// folders; it goes between quotes. A folder is opened by its path, a file is highlighted.
pub proof fn law_what_the_explorer_gets(
    s: &Snapshot,
    p: &str,
    r: Result<String, Refusal>,
    id: u32,
    file: bool,
    arg: String,
    at: String,
)
    requires
        call_ensures(listing::reveal_arg, (s, p), r),
        s.wf(),
        !file ==> id < s.dirs@.len() && call_ensures(Snapshot::dir_path, (s, id), at),
        file ==> id < s.files@.len() && s.files@[id as int].parent < s.dirs@.len()
            && call_ensures(Snapshot::file_path, (s, id), at),
        call_ensures(listing::open_arg, (s, id, file), arg),
    ensures
        r is Ok <==> exists|i: int|
            0 <= i < s.unreadable@.len() && (#[trigger] s.unreadable@[i]).path@ == p@,
        r matches Ok(a) ==> a@ == "/select,"@ + "\""@ + p@ + "\""@,
        r matches Err(e) ==> e is NotUnreadable,
        !file ==> arg@ == at@,
        file ==> arg@ == "/select,"@ + at@,
{
    reveal_strlit("/select,\"");
    reveal_strlit("/select,");
    reveal_strlit("\"");
    assert("/select,\""@ =~= "/select,"@ + "\""@);
}

/// Law: an entry is in bounds where the index has it.
pub proof fn law_in_bounds(s: &Snapshot, id: u32, file: bool, r: Result<(), Refusal>)
    requires
        call_ensures(listing::in_bounds, (s, id, file), r),
    ensures
        r is Ok <==> if file {
            id < s.files@.len()
        } else {
            id < s.dirs@.len()
        },
        r matches Err(e) ==> if file {
            e is FileOutOfRange
        } else {
            e is DirOutOfRange
        },
{
}

} // verus!
