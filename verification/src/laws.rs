//! What holds of the parts taken together.

use crate::aggregate;
use crate::cache;
use crate::delete;
use crate::delete::{Fate, TargetView};
use crate::le;
use crate::order;
use crate::records;
use crate::records::{DirRec, FileRec, RowView};
use crate::snapshot;
use crate::snapshot::Snapshot;
use crate::text;
use crate::walk;
use crate::walk::{ScanState, Seen};
use crate::win32;
use vstd::prelude::*;

pub mod asking;
pub mod deleting;
pub mod guarding;
pub mod keeping;
pub mod searching;
pub mod showing;
pub mod system;
pub mod texts;
pub mod totals;
pub mod volumes;
pub mod walking;

verus! {

// ---------------------------- totals ----------------------------

proof fn lemma_under_parent(dirs: Seq<DirRec>, c: int, d: int)
    requires
        0 <= c < dirs.len(),
        dirs[c].parent < c,
        records::under(dirs, c, d),
    ensures
        records::under(dirs, dirs[c].parent as int, d),
    decreases d,
{
    if c != d {
        lemma_under_parent(dirs, c, dirs[d].parent as int);
    } else {
        assert(records::under(dirs, dirs[c].parent as int, dirs[c].parent as int));
    }
}

/// Law: a folder holds all that a folder in it holds: at least as many bytes, as many
/// files, and as recent a write.
pub proof fn law_parent_holds_child(dirs: Seq<DirRec>, files: Seq<FileRec>, c: int, tc: i64, tp: i64)
    requires
        0 <= c < dirs.len(),
        dirs[c].parent < c,
        records::last_write(dirs, files, c, tc),
        records::last_write(dirs, files, dirs[c].parent as int, tp),
    ensures
        records::subtree_size(dirs, files, c) <= records::subtree_size(
            dirs,
            files,
            dirs[c].parent as int,
        ),
        records::subtree_count(dirs, files, c) <= records::subtree_count(
            dirs,
            files,
            dirs[c].parent as int,
        ),
        tc <= tp,
{
    let p = dirs[c].parent as int;
    lemma_parent_totals(dirs, files, c);
    assert(records::written_at(dirs, files, c, tc));
    if exists|d: int|
        0 <= d < dirs.len() && #[trigger] records::under(dirs, c, d) && dirs[d].own_mtime == tc {
        let d = choose|d: int|
            0 <= d < dirs.len() && #[trigger] records::under(dirs, c, d) && dirs[d].own_mtime == tc;
        lemma_under_parent(dirs, c, d);
        assert(records::under(dirs, p, d));
    } else {
        let k = choose|k: int|
            0 <= k < files.len() && records::holds(dirs, c, #[trigger] files[k]) && files[k].mtime
                == tc;
        lemma_under_parent(dirs, c, files[k].parent as int);
        assert(records::holds(dirs, p, files[k]));
    }
    assert(records::written_at(dirs, files, p, tc));
}

proof fn lemma_parent_totals(dirs: Seq<DirRec>, files: Seq<FileRec>, c: int)
    requires
        0 <= c < dirs.len(),
        dirs[c].parent < c,
    ensures
        records::subtree_size(dirs, files, c) <= records::subtree_size(
            dirs,
            files,
            dirs[c].parent as int,
        ),
        records::subtree_count(dirs, files, c) <= records::subtree_count(
            dirs,
            files,
            dirs[c].parent as int,
        ),
    decreases files.len(),
{
    if files.len() > 0 {
        lemma_parent_totals(dirs, files.drop_last(), c);
        if records::holds(dirs, c, files.last()) {
            lemma_under_parent(dirs, c, files.last().parent as int);
        }
    }
}

/// The bytes of the files that lie directly in folder `a`.
pub open spec fn own_bytes(files: Seq<FileRec>, a: int) -> nat
    decreases files.len(),
{
    if files.len() == 0 {
        0
    } else {
        own_bytes(files.drop_last(), a) + if files.last().parent == a {
            files.last().size as nat
        } else {
            0
        }
    }
}

/// Folder `i` hangs directly below folder `a`.
pub open spec fn is_child(dirs: Seq<DirRec>, a: int, i: int) -> bool {
    dirs[i].parent == a && a < i
}

/// The bytes of the subtrees of the folders below number `k` that hang directly below
/// folder `a`.
pub open spec fn children_bytes(dirs: Seq<DirRec>, files: Seq<FileRec>, a: int, k: int) -> nat
    decreases k,
{
    if k <= 0 {
        0
    } else {
        children_bytes(dirs, files, a, k - 1) + if is_child(dirs, a, k - 1) {
            records::subtree_size(dirs, files, k - 1)
        } else {
            0
        }
    }
}

/// How many of the children of folder `a` below number `k` hold folder `d`.
spec fn holders(dirs: Seq<DirRec>, a: int, d: int, k: int) -> nat
    decreases k,
{
    if k <= 0 {
        0
    } else {
        holders(dirs, a, d, k - 1) + if is_child(dirs, a, k - 1) && records::under(
            dirs,
            k - 1,
            d,
        ) {
            1nat
        } else {
            0
        }
    }
}

proof fn lemma_under_is_below(dirs: Seq<DirRec>, i: int, d: int)
    requires
        records::under(dirs, i, d),
    ensures
        i <= d,
    decreases d,
{
    if i != d {
        lemma_under_is_below(dirs, i, dirs[d].parent as int);
    }
}

/// Below folder `a`, folder `d` lies in one child of `a` only.
proof fn lemma_holders(dirs: Seq<DirRec>, a: int, d: int, k: int)
    requires
        0 <= a < dirs.len(),
        0 <= d < dirs.len(),
        0 <= k <= dirs.len(),
    ensures
        d == a ==> holders(dirs, a, d, k) == 0,
        d != a && !records::under(dirs, a, d) ==> holders(dirs, a, d, k) == 0,
        d != a && records::under(dirs, a, d) ==> holders(dirs, a, d, k) <= 1,
        d != a && records::under(dirs, a, d) && k > d ==> holders(dirs, a, d, k) == 1,
    decreases d,
{
    lemma_same_holders(dirs, a, d, k);
    if d != a && dirs[d].parent < d {
        let p = dirs[d].parent as int;
        assert(records::under(dirs, a, d) == records::under(dirs, a, p));
        if p != a {
            lemma_holders(dirs, a, p, k);
        }
    } else if d == a {
        lemma_none_above(dirs, a, k);
    } else {
        assert(!records::under(dirs, a, d));
    }
}

/// No child of a folder holds the folder itself.
proof fn lemma_none_above(dirs: Seq<DirRec>, a: int, k: int)
    ensures
        holders(dirs, a, a, k) == 0,
    decreases k,
{
    if k > 0 {
        lemma_none_above(dirs, a, k - 1);
        if is_child(dirs, a, k - 1) && records::under(dirs, k - 1, a) {
            lemma_under_is_below(dirs, k - 1, a);
        }
    }
}

/// A folder that is no child of `a`, nor `a`, lies in the same children of `a` as its
/// parent; a child of `a` lies in itself alone.
proof fn lemma_same_holders(dirs: Seq<DirRec>, a: int, d: int, k: int)
    requires
        0 <= a < dirs.len(),
        0 <= d < dirs.len(),
        0 <= k <= dirs.len(),
    ensures
        d != a && dirs[d].parent < d && dirs[d].parent != a ==> holders(dirs, a, d, k) == holders(
            dirs,
            a,
            dirs[d].parent as int,
            k,
        ),
        d != a && dirs[d].parent < d && dirs[d].parent == a ==> holders(dirs, a, d, k) == if k > d {
            1nat
        } else {
            0
        },
        !(dirs[d].parent < d) ==> holders(dirs, a, d, k) == 0,
    decreases k,
{
    if k > 0 {
        lemma_same_holders(dirs, a, d, k - 1);
        let i = k - 1;
        if is_child(dirs, a, i) && records::under(dirs, i, d) {
            lemma_under_is_below(dirs, i, d);
            if i != d {
                lemma_under_is_below(dirs, i, dirs[d].parent as int);
            }
        }
    }
}

proof fn lemma_children_step(dirs: Seq<DirRec>, files: Seq<FileRec>, a: int, k: int)
    requires
        0 <= a < dirs.len(),
        0 <= k <= dirs.len(),
        files.len() > 0,
    ensures
        children_bytes(dirs, files, a, k) == children_bytes(dirs, files.drop_last(), a, k) + if (
        files.last().parent < dirs.len()) {
            holders(dirs, a, files.last().parent as int, k) * files.last().size
        } else {
            0
        },
    decreases k,
{
    if k > 0 {
        lemma_children_step(dirs, files, a, k - 1);
        let f = files.last();
        if f.parent < dirs.len() {
            let h = holders(dirs, a, f.parent as int, k - 1);
            assert((h + 1) * f.size == h * f.size + f.size) by (nonlinear_arith);
            if is_child(dirs, a, k - 1) && records::under(dirs, k - 1, f.parent as int) {
                assert(holders(dirs, a, f.parent as int, k) == h + 1);
            } else {
                assert(holders(dirs, a, f.parent as int, k) == h);
            }
        }
    } else {
        assert(0 * files.last().size == 0) by (nonlinear_arith);
    }
}

proof fn lemma_no_file_no_bytes(dirs: Seq<DirRec>, files: Seq<FileRec>, a: int, k: int)
    requires
        files.len() == 0,
    ensures
        children_bytes(dirs, files, a, k) == 0,
    decreases k,
{
    if k > 0 {
        lemma_no_file_no_bytes(dirs, files, a, k - 1);
    }
}

/// Law: the bytes of a folder are those of the files directly in it and those of the
/// folders directly in it, nothing twice and nothing left out.
pub proof fn law_size_adds_up(dirs: Seq<DirRec>, files: Seq<FileRec>, a: int)
    requires
        0 <= a < dirs.len(),
    ensures
        records::subtree_size(dirs, files, a) == own_bytes(files, a) + children_bytes(
            dirs,
            files,
            a,
            dirs.len() as int,
        ),
    decreases files.len(),
{
    let n = dirs.len() as int;
    if files.len() == 0 {
        lemma_no_file_no_bytes(dirs, files, a, n);
    } else {
        let f = files.last();
        law_size_adds_up(dirs, files.drop_last(), a);
        lemma_children_step(dirs, files, a, n);
        if f.parent < dirs.len() {
            let d = f.parent as int;
            lemma_holders(dirs, a, d, n);
            let h = holders(dirs, a, d, n);
            assert(h == 0 ==> h * f.size == 0) by (nonlinear_arith);
            assert(h == 1 ==> h * f.size == f.size) by (nonlinear_arith);
        }
    }
}

/// The bytes of all the files.
pub open spec fn all_bytes(files: Seq<FileRec>) -> nat
    decreases files.len(),
{
    if files.len() == 0 {
        0
    } else {
        all_bytes(files.drop_last()) + files.last().size as nat
    }
}

pub proof fn lemma_under_root(dirs: Seq<DirRec>, d: int)
    requires
        0 <= d < dirs.len(),
        forall|i: int| 0 < i < dirs.len() ==> (#[trigger] dirs[i]).parent < i,
    ensures
        records::under(dirs, 0, d),
    decreases d,
{
    if d > 0 {
        lemma_under_root(dirs, dirs[d].parent as int);
    }
}

proof fn lemma_root_totals(dirs: Seq<DirRec>, files: Seq<FileRec>)
    requires
        forall|i: int| 0 < i < dirs.len() ==> (#[trigger] dirs[i]).parent < i,
        forall|j: int| 0 <= j < files.len() ==> (#[trigger] files[j]).parent < dirs.len(),
    ensures
        records::subtree_size(dirs, files, 0) == all_bytes(files),
        records::subtree_count(dirs, files, 0) == files.len(),
    decreases files.len(),
{
    if files.len() > 0 {
        let rest = files.drop_last();
        assert forall|j: int| 0 <= j < rest.len() implies (#[trigger] rest[j]).parent
            < dirs.len() by {
            assert(rest[j] == files[j]);
        }
        lemma_root_totals(dirs, rest);
        assert(files.last() == files[files.len() - 1]);
        lemma_under_root(dirs, files.last().parent as int);
    }
}

/// Law: the root of a volume that was walked holds every file that the walk recorded,
/// and its bytes are those of all of them.
pub proof fn law_root_holds_all(st: ScanState)
    requires
        st.wf(),
    ensures
        records::subtree_size(st.dirs@, st.files@, 0) == all_bytes(st.files@),
        records::subtree_count(st.dirs@, st.files@, 0) == st.files@.len(),
{
    lemma_root_totals(st.dirs@, st.files@);
}

/// Law: the totals that an index shows are the true ones as long as the volume holds
/// less than 2 to the power 64 bytes.
pub proof fn law_shown_size_is_true(s: Snapshot, a: int)
    requires
        s.wf(),
        0 <= a < s.dirs@.len(),
        records::subtree_size(s.dirs@, s.files@, a) <= u64::MAX,
    ensures
        s.size@[a] == records::subtree_size(s.dirs@, s.files@, a),
{
    assert(s.size@[a] == aggregate::wrapped(records::subtree_size(s.dirs@, s.files@, a)));
}

proof fn lemma_same_under(p: Seq<DirRec>, q: Seq<DirRec>, a: int, d: int)
    requires
        p.len() == q.len(),
        forall|i: int| 0 <= i < p.len() ==> (#[trigger] q[i]).parent == p[i].parent,
    ensures
        records::under(p, a, d) == records::under(q, a, d),
    decreases d,
{
    if 0 <= d < p.len() {
        assert(q[d].parent == p[d].parent);
        if p[d].parent < d {
            lemma_same_under(p, q, a, p[d].parent as int);
        }
    }
}

proof fn lemma_same_totals(
    p: Seq<DirRec>,
    q: Seq<DirRec>,
    f: Seq<FileRec>,
    g: Seq<FileRec>,
    a: int,
)
    requires
        p.len() == q.len(),
        forall|i: int| 0 <= i < p.len() ==> (#[trigger] q[i]).parent == p[i].parent,
        f.len() == g.len(),
        forall|j: int|
            0 <= j < f.len() ==> (#[trigger] g[j]).parent == f[j].parent && g[j].size == f[j].size,
    ensures
        records::subtree_size(p, f, a) == records::subtree_size(q, g, a),
        records::subtree_count(p, f, a) == records::subtree_count(q, g, a),
    decreases f.len(),
{
    if f.len() > 0 {
        let n = f.len() - 1;
        let f1 = f.drop_last();
        let g1 = g.drop_last();
        assert forall|j: int| 0 <= j < f1.len() implies (#[trigger] g1[j]).parent == f1[j].parent
            && g1[j].size == f1[j].size by {
            assert(g[j].parent == f[j].parent);
        }
        lemma_same_totals(p, q, f1, g1, a);
        assert(g[n].parent == f[n].parent);
        lemma_same_under(p, q, a, f[n].parent as int);
    }
}

proof fn lemma_same_written(s: Snapshot, r: Snapshot, a: int, t: i64)
    requires
        cache::same_index(s, r),
    ensures
        records::written_at(s.dirs@, s.files@, a, t) ==> records::written_at(
            r.dirs@,
            r.files@,
            a,
            t,
        ),
        records::written_at(r.dirs@, r.files@, a, t) ==> records::written_at(
            s.dirs@,
            s.files@,
            a,
            t,
        ),
{
    let p = s.dirs@;
    let q = r.dirs@;
    assert forall|i: int| 0 <= i < p.len() implies (#[trigger] q[i]).parent == p[i].parent by {}
    assert forall|d: int| records::under(p, a, d) == #[trigger] records::under(q, a, d) by {
        lemma_same_under(p, q, a, d);
    }
    if exists|d: int|
        0 <= d < p.len() && #[trigger] records::under(p, a, d) && p[d].own_mtime == t {
        let d = choose|d: int|
            0 <= d < p.len() && #[trigger] records::under(p, a, d) && p[d].own_mtime == t;
        assert(records::under(q, a, d));
        assert(q[d].own_mtime == t);
    }
    if exists|k: int|
        0 <= k < s.files@.len() && records::holds(p, a, #[trigger] s.files@[k])
            && s.files@[k].mtime == t {
        let k = choose|k: int|
            0 <= k < s.files@.len() && records::holds(p, a, #[trigger] s.files@[k])
                && s.files@[k].mtime == t;
        assert(r.files@[k].parent == s.files@[k].parent);
        assert(records::under(q, a, r.files@[k].parent as int));
        assert(records::holds(q, a, r.files@[k]));
    }
    if exists|d: int|
        0 <= d < q.len() && #[trigger] records::under(q, a, d) && q[d].own_mtime == t {
        let d = choose|d: int|
            0 <= d < q.len() && #[trigger] records::under(q, a, d) && q[d].own_mtime == t;
        assert(records::under(p, a, d));
        assert(p[d].own_mtime == t);
    }
    if exists|k: int|
        0 <= k < r.files@.len() && records::holds(q, a, #[trigger] r.files@[k])
            && r.files@[k].mtime == t {
        let k = choose|k: int|
            0 <= k < r.files@.len() && records::holds(q, a, #[trigger] r.files@[k])
                && r.files@[k].mtime == t;
        assert(r.files@[k].parent == s.files@[k].parent);
        assert(records::under(q, a, r.files@[k].parent as int));
        assert(records::holds(p, a, s.files@[k]));
    }
}

/// Law: an index that was read back shows the same totals as the one that was written.
pub proof fn law_totals_survive_the_file(s: Snapshot, r: Snapshot)
    requires
        s.wf(),
        r.wf(),
        cache::same_index(s, r),
    ensures
        r.size@ == s.size@,
        r.count@ == s.count@,
        r.mtime@ == s.mtime@,
{
    let p = s.dirs@;
    let q = r.dirs@;
    let f = s.files@;
    let g = r.files@;
    assert forall|i: int| 0 <= i < p.len() implies (#[trigger] q[i]).parent == p[i].parent by {}
    assert forall|j: int| 0 <= j < f.len() implies (#[trigger] g[j]).parent == f[j].parent
        && g[j].size == f[j].size by {}
    assert forall|a: int| 0 <= a < p.len() implies r.size@[a] == s.size@[a] && r.count@[a]
        == s.count@[a] && r.mtime@[a] == s.mtime@[a] by {
        lemma_same_totals(p, q, f, g, a);
        assert(s.size@[a] == aggregate::wrapped(records::subtree_size(p, f, a)));
        assert(r.size@[a] == aggregate::wrapped(records::subtree_size(q, g, a)));
        assert(s.count@[a] as int == records::subtree_count(p, f, a));
        assert(r.count@[a] as int == records::subtree_count(q, g, a));
        let ts = s.mtime@[a];
        let tr = r.mtime@[a];
        assert(records::last_write(p, f, a, ts));
        assert(records::last_write(q, g, a, tr));
        lemma_same_written(s, r, a, ts);
        lemma_same_written(s, r, a, tr);
    }
    assert(r.size@ =~= s.size@);
    assert(r.count@ =~= s.count@);
    assert(r.mtime@ =~= s.mtime@);
}

// ---------------------------- the order of arrival ----------------------------

/// What a file adds to the bytes of folder `a`.
spec fn share_of(dirs: Seq<DirRec>, f: FileRec, a: int) -> nat {
    if records::holds(dirs, a, f) {
        f.size as nat
    } else {
        0
    }
}

spec fn one_of(dirs: Seq<DirRec>, f: FileRec, a: int) -> nat {
    if records::holds(dirs, a, f) {
        1
    } else {
        0
    }
}

proof fn lemma_without_one(dirs: Seq<DirRec>, files: Seq<FileRec>, a: int, j: int)
    requires
        0 <= j < files.len(),
    ensures
        records::subtree_size(dirs, files, a) == records::subtree_size(dirs, files.remove(j), a)
            + share_of(dirs, files[j], a),
        records::subtree_count(dirs, files, a) == records::subtree_count(dirs, files.remove(j), a)
            + one_of(dirs, files[j], a),
    decreases files.len(),
{
    let rest = files.remove(j);
    if j == files.len() - 1 {
        assert(rest =~= files.drop_last());
    } else {
        lemma_without_one(dirs, files.drop_last(), a, j);
        assert(files.drop_last().remove(j) =~= rest.drop_last());
        assert(rest.last() == files.last());
    }
}

proof fn lemma_any_order(dirs: Seq<DirRec>, f: Seq<FileRec>, g: Seq<FileRec>, a: int)
    requires
        f.to_multiset() == g.to_multiset(),
    ensures
        records::subtree_size(dirs, f, a) == records::subtree_size(dirs, g, a),
        records::subtree_count(dirs, f, a) == records::subtree_count(dirs, g, a),
    decreases f.len(),
{
    broadcast use vstd::seq_lib::group_to_multiset_ensures;

    assert(f.to_multiset().len() == f.len() && g.to_multiset().len() == g.len());
    if f.len() > 0 {
        let n = f.len() - 1;
        let x = f[n];
        assert(f.contains(x));
        assert(g.to_multiset().count(x) > 0);
        assert(g.contains(x));
        let j = choose|j: int| 0 <= j < g.len() && g[j] == x;
        assert(f.remove(n).to_multiset() =~= f.to_multiset().remove(x));
        assert(g.remove(j).to_multiset() =~= g.to_multiset().remove(x));
        lemma_any_order(dirs, f.remove(n), g.remove(j), a);
        lemma_without_one(dirs, f, a, n);
        lemma_without_one(dirs, g, a, j);
    }
}

proof fn lemma_written_any_order(
    dirs: Seq<DirRec>,
    f: Seq<FileRec>,
    g: Seq<FileRec>,
    a: int,
    t: i64,
)
    requires
        f.to_multiset() == g.to_multiset(),
        records::written_at(dirs, f, a, t),
    ensures
        records::written_at(dirs, g, a, t),
{
    broadcast use vstd::seq_lib::group_to_multiset_ensures;

    if exists|k: int|
        0 <= k < f.len() && records::holds(dirs, a, #[trigger] f[k]) && f[k].mtime == t {
        let k = choose|k: int|
            0 <= k < f.len() && records::holds(dirs, a, #[trigger] f[k]) && f[k].mtime == t;
        assert(f.contains(f[k]));
        assert(g.to_multiset().count(f[k]) > 0);
        assert(g.contains(f[k]));
        let j = choose|j: int| 0 <= j < g.len() && g[j] == f[k];
        assert(records::holds(dirs, a, g[j]));
    }
}

proof fn lemma_same_folders(d: Seq<DirRec>, e: Seq<DirRec>, p: Seq<DirRec>, q: Seq<DirRec>)
    requires
        d.to_multiset() == e.to_multiset(),
        p.len() == d.len(),
        q.len() == e.len(),
        forall|i: int| 0 <= i < d.len() ==> p[(#[trigger] d[i]).id as int] == d[i],
        forall|i: int| 0 <= i < e.len() ==> q[(#[trigger] e[i]).id as int] == e[i],
        snapshot::numbered(d),
    ensures
        p == q,
{
    broadcast use vstd::seq_lib::group_to_multiset_ensures;

    assert(d.to_multiset().len() == d.len() && e.to_multiset().len() == e.len());
    snapshot::lemma_all_numbers(d);
    assert forall|v: int| 0 <= v < p.len() implies p[v] == q[v] by {
        assert(snapshot::has_number(d, v));
        let i = choose|i: int| 0 <= i < d.len() && (#[trigger] d[i]).id == v;
        assert(d.contains(d[i]));
        assert(e.to_multiset().count(d[i]) > 0);
        assert(e.contains(d[i]));
        let j = choose|j: int| 0 <= j < e.len() && e[j] == d[i];
        assert(p[d[i].id as int] == d[i]);
        assert(q[e[j].id as int] == e[j]);
    }
    assert(p =~= q);
}

/// Law: the order in which folders and files come does not matter: two indexes made of the
/// same records have the same folders and the same totals. `a` and `b` are what
/// `Snapshot::new` gives on them.
pub proof fn law_any_order_of_arrival(
    a: Snapshot,
    b: Snapshot,
    d: Seq<DirRec>,
    e: Seq<DirRec>,
    f: Seq<FileRec>,
    g: Seq<FileRec>,
)
    requires
        d.to_multiset() == e.to_multiset(),
        f.to_multiset() == g.to_multiset(),
        snapshot::numbered(d),
        a.wf(),
        a.dirs@.len() == d.len(),
        forall|i: int| 0 <= i < d.len() ==> a.dirs@[(#[trigger] d[i]).id as int] == d[i],
        a.files@ == f,
        b.wf(),
        b.dirs@.len() == e.len(),
        forall|i: int| 0 <= i < e.len() ==> b.dirs@[(#[trigger] e[i]).id as int] == e[i],
        b.files@ == g,
    ensures
        a.dirs@ == b.dirs@,
        a.size@ == b.size@,
        a.count@ == b.count@,
        a.mtime@ == b.mtime@,
{
    lemma_same_folders(d, e, a.dirs@, b.dirs@);
    let p = a.dirs@;
    assert forall|v: int| 0 <= v < p.len() implies a.size@[v] == b.size@[v] && a.count@[v]
        == b.count@[v] && a.mtime@[v] == b.mtime@[v] by {
        lemma_any_order(p, f, g, v);
        assert(a.size@[v] == aggregate::wrapped(records::subtree_size(p, f, v)));
        assert(b.size@[v] == aggregate::wrapped(records::subtree_size(p, g, v)));
        assert(a.count@[v] as int == records::subtree_count(p, f, v));
        assert(b.count@[v] as int == records::subtree_count(p, g, v));
        let s = a.mtime@[v];
        let t = b.mtime@[v];
        assert(records::last_write(p, f, v, s));
        assert(records::last_write(p, g, v, t));
        lemma_written_any_order(p, f, g, v, s);
        lemma_written_any_order(p, g, f, v, t);
    }
    assert(a.size@ =~= b.size@);
    assert(a.count@ =~= b.count@);
    assert(a.mtime@ =~= b.mtime@);
}

// ---------------------------- the walk ----------------------------

/// Law: junctions, symbolic links and mount points are neither counted nor followed.
pub proof fn law_links_are_left_out(e: Seen)
    requires
        e matches Seen::Entry { attributes, .. } && attributes & walk::REPARSE_POINT != 0,
    ensures
        !walk::is_folder(e),
        !walk::is_file(e),
{
}

// ---------------------------- pages ----------------------------

/// Law: two pages in a row show what one page of both their lengths shows.
pub proof fn law_pages_follow(rows: Seq<RowView>, at: nat, n: nat, m: nat)
    ensures
        order::page(rows, at, n) + order::page(rows, at + n, m) == order::page(rows, at, n + m),
{
    assert(order::page(rows, at, n) + order::page(rows, at + n, m) =~= order::page(
        rows,
        at,
        n + m,
    ));
}

// ---------------------------- the recycle bin ----------------------------

/// Law: without a recycle bin, or with one that took nothing, everything that is gone
/// although it was meant for the bin is reported as destroyed.
pub proof fn law_no_card_means_destroyed(
    ts: Seq<TargetView>,
    fs: Seq<Fate>,
    since_ms: u64,
    k: int,
)
    requires
        0 <= k <= fs.len(),
    ensures
        delete::destroyed_in(ts, fs, true, Seq::empty(), since_ms, k).len() == delete::gone(fs, k),
    decreases k,
{
    if k > 0 {
        law_no_card_means_destroyed(ts, fs, since_ms, k - 1);
        assert(!win32::has_card(Seq::empty(), ts[k - 1].path, since_ms));
    }
}

/// Law: a card that is older than the operation proves nothing: where all the cards are
/// older, what is gone was destroyed.
pub proof fn law_old_card_proves_nothing(
    cards: Seq<(Seq<char>, u64)>,
    path: Seq<char>,
    since_ms: u64,
)
    requires
        forall|i: int|
            0 <= i < cards.len() ==> (#[trigger] cards[i]).1 < win32::date_floor(since_ms),
    ensures
        delete::destroyed(path, true, cards, since_ms),
{
}

/// Law: what is deleted for good is never reported as lost by the bin.
pub proof fn law_permanent_is_not_lost(
    ts: Seq<TargetView>,
    fs: Seq<Fate>,
    cards: Seq<(Seq<char>, u64)>,
    since_ms: u64,
    k: int,
)
    ensures
        delete::destroyed_in(ts, fs, false, cards, since_ms, k).len() == 0,
    decreases k,
{
    if k > 0 {
        law_permanent_is_not_lost(ts, fs, cards, since_ms, k - 1);
    }
}

/// Law: the journal has one line for each target that is gone.
pub proof fn law_journal_has_every_deletion(
    ts: Seq<TargetView>,
    fs: Seq<Fate>,
    to_trash: bool,
    cards: Seq<(Seq<char>, u64)>,
    since_ms: u64,
    k: int,
)
    ensures
        delete::journal_of(ts, fs, to_trash, cards, since_ms, k).len() == delete::gone(fs, k),
    decreases k,
{
    if k > 0 {
        law_journal_has_every_deletion(ts, fs, to_trash, cards, since_ms, k - 1);
    }
}

/// Units as bytes, two each, the smaller one first.
pub open spec fn unit_bytes(u: Seq<u16>) -> Seq<u8>
    decreases u.len(),
{
    if u.len() == 0 {
        Seq::empty()
    } else {
        unit_bytes(u.drop_last()) + seq![(u.last() % 256) as u8, (u.last() / 256) as u8]
    }
}

proof fn lemma_unit_bytes(u: Seq<u16>, k: int)
    requires
        0 <= k < u.len(),
    ensures
        unit_bytes(u).len() == 2 * u.len(),
        unit_bytes(u)[2 * k] + 256 * unit_bytes(u)[2 * k + 1] == u[k],
    decreases u.len(),
{
    let rest = u.drop_last();
    if k < rest.len() {
        lemma_unit_bytes(rest, k);
    } else {
        lemma_unit_len(rest);
        let v = u[k];
        assert(v == v % 256 + 256 * (v / 256));
        assert((v % 256) as u8 == v % 256);
        assert((v / 256) as u8 == v / 256);
    }
}

proof fn lemma_unit_len(u: Seq<u16>)
    ensures
        unit_bytes(u).len() == 2 * u.len(),
    decreases u.len(),
{
    if u.len() > 0 {
        lemma_unit_len(u.drop_last());
    }
}

/// A card of the recycle bin, as the system writes it: a version, a size, a date, the
/// length of the path and its final zero, the path.
pub open spec fn written_card(size: u64, date: u64, p: Seq<char>) -> Seq<u8> {
    let u = text::utf16(p).push(0);
    le::bytes(2, 8) + le::bytes(size as nat, 8) + le::bytes(date as nat, 8) + le::bytes(u.len(), 4)
        + unit_bytes(u)
}

proof fn lemma_read_units(b: Seq<u8>, u: Seq<u16>, k: int)
    requires
        0 <= k <= u.len(),
        b.len() == 0x1C + 2 * (u.len() + 1),
        forall|i: int| 0 <= i < u.len() ==> #[trigger] u[i] != 0,
        forall|i: int|
            0 <= i <= u.len() ==> b[0x1C + 2 * i] + 256 * b[0x1C + 2 * i + 1] == #[trigger] u.push(
                0,
            )[i],
    ensures
        win32::card_units(b, 0x1C + 2 * k, b.len() as int) == u.skip(k),
    decreases u.len() - k,
{
    let at = 0x1C + 2 * k;
    assert(b[at] + 256 * b[at + 1] == u.push(0)[k]);
    if k < u.len() {
        lemma_read_units(b, u, k + 1);
        assert(u.push(0)[k] == u[k]);
        assert(u[k] != 0);
        assert(u.skip(k) =~= seq![u[k]] + u.skip(k + 1));
    } else {
        assert(u.skip(k) =~= Seq::empty());
    }
}

/// Law: a card that the system wrote for a path is read back as that path and its date.
pub proof fn law_card_is_read_back(size: u64, date: u64, p: Seq<char>)
    requires
        p.len() > 0,
        forall|i: int| 0 <= i < p.len() ==> (#[trigger] p[i]) as u32 != 0,
        text::utf16(p).len() < u32::MAX,
    ensures
        win32::is_card(written_card(size, date, p)),
        win32::card_path(written_card(size, date, p)) == p,
        win32::card_date(written_card(size, date, p)) == date,
{
    let b = written_card(size, date, p);
    let u = text::utf16(p);
    let w = u.push(0);
    let n = w.len();
    le::lemma_powers();
    le::lemma_bytes_len(2, 8);
    le::lemma_bytes_len(size as nat, 8);
    le::lemma_bytes_len(date as nat, 8);
    le::lemma_bytes_len(n, 4);
    le::lemma_value_bytes(2, 4);
    le::lemma_value_bytes(date as nat, 8);
    le::lemma_value_bytes(n, 4);
    lemma_unit_len(w);
    lemma_utf16_len(p);
    lemma_two();
    assert(b.subrange(0, 4) =~= le::bytes(2, 4));
    assert(b.subrange(0x10, 0x18) =~= le::bytes(date as nat, 8));
    assert(b.subrange(0x18, 0x1C) =~= le::bytes(n, 4));
    assert(win32::card_len(b) == n);
    assert(win32::card_end(b) == b.len());
    win32::lemma_utf16_no_zero(p);
    assert forall|i: int| 0 <= i <= u.len() implies b[0x1C + 2 * i] + 256 * b[0x1C + 2 * i + 1]
        == #[trigger] u.push(0)[i] by {
        lemma_unit_bytes(w, i);
        assert(b[0x1C + 2 * i] == unit_bytes(w)[2 * i]);
        assert(b[0x1C + 2 * i + 1] == unit_bytes(w)[2 * i + 1]);
    }
    lemma_read_units(b, u, 0);
    assert(u.skip(0) =~= u);
    text::law_utf16_back(p);
}

proof fn lemma_two()
    ensures
        le::bytes(2, 8).take(4) == le::bytes(2, 4),
{
    reveal_with_fuel(le::bytes, 9);
    assert(le::bytes(2, 8).take(4) =~= le::bytes(2, 4));
}

proof fn lemma_utf16_len(p: Seq<char>)
    ensures
        p.len() > 0 ==> text::utf16(p).len() > 0,
{
}

} // verus!
