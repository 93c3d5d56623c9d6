//! Totals of every subtree, in two linear passes.
//!
//! The first pass gives each file to the folder that holds it. The second goes
//! through the folders from the last to the first and adds what each one has to its
//! parent: a parent's number is smaller than its children's, so what a folder hands
//! on is complete.

use crate::records;
use crate::records::{DirRec, FileRec};
use vstd::prelude::*;

verus! {

/// A total as it is kept: modulo 2 to the power 64.
pub open spec fn wrapped(n: nat) -> u64 {
    (n % 0x1_0000_0000_0000_0000) as u64
}

/// Like `under`, following only the parent links of folders numbered `from` and up.
spec fn reach(dirs: Seq<DirRec>, from: int, a: int, d: int) -> bool
    decreases d,
{
    a == d || (from <= d && 0 <= d < dirs.len() && dirs[d].parent < d && reach(
        dirs,
        from,
        a,
        dirs[d].parent as int,
    ))
}

spec fn kept(dirs: Seq<DirRec>, from: int, a: int, f: FileRec) -> bool {
    f.parent < dirs.len() && reach(dirs, from, a, f.parent as int)
}

spec fn weight(f: FileRec, counting: bool) -> nat {
    if counting {
        1
    } else {
        f.size as nat
    }
}

spec fn part(dirs: Seq<DirRec>, from: int, files: Seq<FileRec>, a: int, counting: bool) -> nat
    decreases files.len(),
{
    if files.len() == 0 {
        0
    } else {
        part(dirs, from, files.drop_last(), a, counting) + if kept(dirs, from, a, files.last()) {
            weight(files.last(), counting)
        } else {
            0
        }
    }
}

spec fn part_written(
    dirs: Seq<DirRec>,
    from: int,
    files: Seq<FileRec>,
    a: int,
    t: i64,
) -> bool {
    ||| exists|d: int|
        0 <= d < dirs.len() && #[trigger] reach(dirs, from, a, d) && dirs[d].own_mtime == t
    ||| exists|k: int|
        0 <= k < files.len() && kept(dirs, from, a, #[trigger] files[k]) && files[k].mtime == t
}

spec fn part_bound(dirs: Seq<DirRec>, from: int, files: Seq<FileRec>, a: int, t: i64) -> bool {
    &&& forall|d: int|
        0 <= d < dirs.len() && #[trigger] reach(dirs, from, a, d) ==> dirs[d].own_mtime <= t
    &&& forall|k: int|
        0 <= k < files.len() && kept(dirs, from, a, #[trigger] files[k]) ==> files[k].mtime <= t
}

/// With all the links, `reach` is `under`.
proof fn lemma_reach_all(dirs: Seq<DirRec>, from: int, a: int, d: int)
    requires
        from <= 1,
    ensures
        reach(dirs, from, a, d) == records::under(dirs, a, d),
    decreases d,
{
    if 0 <= d < dirs.len() && dirs[d].parent < d {
        lemma_reach_all(dirs, from, a, dirs[d].parent as int);
    }
}

/// Without any link a folder reaches itself alone.
proof fn lemma_reach_none(dirs: Seq<DirRec>, a: int, d: int)
    ensures
        reach(dirs, dirs.len() as int, a, d) == (a == d),
{
}

/// What one more link, that of folder `i`, changes: its parent reaches what `i`
/// reached, and nothing of it was reached before.
proof fn lemma_reach_step(dirs: Seq<DirRec>, i: int, a: int, d: int)
    requires
        0 <= i < dirs.len(),
        0 <= a,
    ensures
        dirs[i].parent < i && a == dirs[i].parent ==> reach(dirs, i, a, d) == (reach(
            dirs,
            i + 1,
            a,
            d,
        ) || reach(dirs, i + 1, i, d)) && !(reach(dirs, i + 1, a, d) && reach(dirs, i + 1, i, d)),
        !(dirs[i].parent < i && a == dirs[i].parent) ==> reach(dirs, i, a, d) == reach(
            dirs,
            i + 1,
            a,
            d,
        ),
    decreases d,
{
    if 0 <= d < dirs.len() && dirs[d].parent < d {
        if d > i {
            lemma_reach_step(dirs, i, a, dirs[d].parent as int);
        } else if d == i {
            let p = dirs[d].parent as int;
            assert(reach(dirs, i, a, p) == (a == p));
        }
    }
}

proof fn lemma_part_none(dirs: Seq<DirRec>, files: Seq<FileRec>, a: int, counting: bool)
    ensures
        files.len() > 0 ==> part(dirs, dirs.len() as int, files, a, counting) == part(
            dirs,
            dirs.len() as int,
            files.drop_last(),
            a,
            counting,
        ) + if files.last().parent < dirs.len() && files.last().parent == a {
            weight(files.last(), counting)
        } else {
            0
        },
{
    if files.len() > 0 {
        lemma_reach_none(dirs, a, files.last().parent as int);
    }
}

proof fn lemma_part_step(dirs: Seq<DirRec>, i: int, files: Seq<FileRec>, a: int, counting: bool)
    requires
        0 <= i < dirs.len(),
        0 <= a,
    ensures
        part(dirs, i, files, a, counting) == part(dirs, i + 1, files, a, counting) + if dirs[i].parent
            < i && a == dirs[i].parent {
            part(dirs, i + 1, files, i, counting)
        } else {
            0
        },
    decreases files.len(),
{
    if files.len() > 0 {
        lemma_part_step(dirs, i, files.drop_last(), a, counting);
        lemma_reach_step(dirs, i, a, files.last().parent as int);
    }
}

proof fn lemma_part_all(dirs: Seq<DirRec>, from: int, files: Seq<FileRec>, a: int)
    requires
        from <= 1,
    ensures
        part(dirs, from, files, a, false) == records::subtree_size(dirs, files, a),
        part(dirs, from, files, a, true) == records::subtree_count(dirs, files, a),
    decreases files.len(),
{
    if files.len() > 0 {
        lemma_part_all(dirs, from, files.drop_last(), a);
        lemma_reach_all(dirs, from, a, files.last().parent as int);
    }
}

proof fn lemma_part_count(dirs: Seq<DirRec>, from: int, files: Seq<FileRec>, a: int)
    ensures
        part(dirs, from, files, a, true) <= files.len(),
    decreases files.len(),
{
    if files.len() > 0 {
        lemma_part_count(dirs, from, files.drop_last(), a);
    }
}

/// Adding modulo 2 to the power 64.
fn wrapped_sum(x: u64, y: u64, Ghost(s): Ghost<nat>, Ghost(t): Ghost<nat>) -> (r: u64)
    requires
        x == wrapped(s),
        y == wrapped(t),
    ensures
        r == wrapped(s + t),
{
    proof {
        vstd::arithmetic::div_mod::lemma_add_mod_noop(s as int, t as int, 0x1_0000_0000_0000_0000);
    }
    x.wrapping_add(y)
}

/// The totals of every folder: bytes, number of files, date of the last write.
pub struct Totals {
    pub size: Vec<u64>,
    pub count: Vec<u64>,
    pub mtime: Vec<i64>,
}

impl Totals {
    spec fn at(self, dirs: Seq<DirRec>, from: int, files: Seq<FileRec>) -> bool {
        &&& self.size@.len() == dirs.len()
        &&& self.count@.len() == dirs.len()
        &&& self.mtime@.len() == dirs.len()
        &&& forall|a: int|
            0 <= a < dirs.len() ==> #[trigger] self.size@[a] == wrapped(
                part(dirs, from, files, a, false),
            )
        &&& forall|a: int|
            0 <= a < dirs.len() ==> #[trigger] self.count@[a] as int == part(
                dirs,
                from,
                files,
                a,
                true,
            )
        &&& forall|a: int|
            0 <= a < dirs.len() ==> part_written(dirs, from, files, a, #[trigger] self.mtime@[a])
        &&& forall|a: int|
            0 <= a < dirs.len() ==> part_bound(dirs, from, files, a, #[trigger] self.mtime@[a])
    }
}

/// One file given to the folder that holds it.
fn give(t: &mut Totals, dirs: &Vec<DirRec>, f: &FileRec, Ghost(before): Ghost<Seq<FileRec>>)
    requires
        old(t).at(dirs@, dirs@.len() as int, before),
        before.len() < u32::MAX,
    ensures
        final(t).at(dirs@, dirs@.len() as int, before.push(*f)),
{
    let ghost n = dirs@.len() as int;
    let ghost after = before.push(*f);
    proof {
        assert(after.drop_last() =~= before);
        assert forall|a: int| 0 <= a < n implies part(dirs@, n, after, a, false) == part(
            dirs@,
            n,
            before,
            a,
            false,
        ) + (if f.parent < n && f.parent == a { f.size as nat } else { 0 }) by {
            lemma_part_none(dirs@, after, a, false);
        }
        assert forall|a: int| 0 <= a < n implies part(dirs@, n, after, a, true) == part(
            dirs@,
            n,
            before,
            a,
            true,
        ) + (if f.parent < n && f.parent == a { 1nat } else { 0 }) && part(
            dirs@,
            n,
            before,
            a,
            true,
        ) <= before.len() by {
            lemma_part_none(dirs@, after, a, true);
            lemma_part_count(dirs@, n, before, a);
        }
        assert forall|a: int, u: i64| 0 <= a < n && part_written(dirs@, n, before, a, u) implies
            part_written(dirs@, n, after, a, u) by {
            if exists|k: int|
                0 <= k < before.len() && kept(dirs@, n, a, #[trigger] before[k]) && before[k].mtime
                    == u {
                let k = choose|k: int|
                    0 <= k < before.len() && kept(dirs@, n, a, #[trigger] before[k])
                        && before[k].mtime == u;
                assert(after[k] == before[k]);
            }
        }
        assert forall|a: int, u: i64|
            0 <= a < n && part_bound(dirs@, n, before, a, u) && (f.parent == a ==> f.mtime
                <= u) implies part_bound(dirs@, n, after, a, u) by {
            assert forall|k: int|
                0 <= k < after.len() && kept(dirs@, n, a, #[trigger] after[k]) implies after[k].mtime
                <= u by {
                if k < before.len() {
                    assert(after[k] == before[k]);
                } else {
                    lemma_reach_none(dirs@, a, f.parent as int);
                }
            }
        }
    }
    let p: usize = f.parent as usize;
    if p < dirs.len() {
        let s = t.size[p];
        proof {
            assert(wrapped(f.size as nat) == f.size);
        }
        let s2 = wrapped_sum(
            s,
            f.size,
            Ghost(part(dirs@, n, before, p as int, false)),
            Ghost(f.size as nat),
        );
        t.size.set(p, s2);
        let c = t.count[p];
        proof {
            lemma_part_count(dirs@, n, before, p as int);
        }
        t.count.set(p, c + 1);
        if f.mtime > t.mtime[p] {
            let ghost old_m = t.mtime@[p as int];
            t.mtime.set(p, f.mtime);
            proof {
                assert(after[before.len() as int] == *f);
                lemma_reach_none(dirs@, p as int, f.parent as int);
                assert(kept(dirs@, n, p as int, after[before.len() as int]));
                assert(part_bound(dirs@, n, before, p as int, old_m));
                assert(part_bound(dirs@, n, before, p as int, f.mtime));
            }
        }
    }
}

proof fn lemma_times_step(
    dirs: Seq<DirRec>,
    i: int,
    files: Seq<FileRec>,
    a: int,
    ta: i64,
    ti: i64,
)
    requires
        0 <= i < dirs.len(),
        0 <= a < dirs.len(),
        part_written(dirs, i + 1, files, a, ta),
        part_bound(dirs, i + 1, files, a, ta),
        part_written(dirs, i + 1, files, i, ti),
        part_bound(dirs, i + 1, files, i, ti),
    ensures
        ({
            let t = if dirs[i].parent < i && a == dirs[i].parent && ti > ta {
                ti
            } else {
                ta
            };
            part_written(dirs, i, files, a, t) && part_bound(dirs, i, files, a, t)
        }),
{
    let climbs = dirs[i].parent < i && a == dirs[i].parent;
    let t = if climbs && ti > ta {
        ti
    } else {
        ta
    };
    let src = if climbs && ti > ta {
        i
    } else {
        a
    };
    assert forall|d: int| 0 <= d < dirs.len() && #[trigger] reach(dirs, i, a, d) implies dirs[d].own_mtime
        <= t by {
        lemma_reach_step(dirs, i, a, d);
        assert(reach(dirs, i + 1, a, d) || (climbs && reach(dirs, i + 1, i, d)));
    }
    assert forall|k: int|
        0 <= k < files.len() && kept(dirs, i, a, #[trigger] files[k]) implies files[k].mtime <= t by {
        lemma_reach_step(dirs, i, a, files[k].parent as int);
        assert(kept(dirs, i + 1, a, files[k]) || (climbs && kept(dirs, i + 1, i, files[k])));
    }
    if exists|d: int|
        0 <= d < dirs.len() && #[trigger] reach(dirs, i + 1, src, d) && dirs[d].own_mtime == t {
        let d = choose|d: int|
            0 <= d < dirs.len() && #[trigger] reach(dirs, i + 1, src, d) && dirs[d].own_mtime == t;
        lemma_reach_step(dirs, i, a, d);
        assert(reach(dirs, i, a, d));
    } else {
        let k = choose|k: int|
            0 <= k < files.len() && kept(dirs, i + 1, src, #[trigger] files[k]) && files[k].mtime
                == t;
        lemma_reach_step(dirs, i, a, files[k].parent as int);
        assert(kept(dirs, i, a, files[k]));
    }
}

/// What folder `i` has, added to its parent.
fn climb(t: &mut Totals, dirs: &Vec<DirRec>, i: usize, Ghost(files): Ghost<Seq<FileRec>>)
    requires
        i < dirs@.len(),
        old(t).at(dirs@, i + 1, files),
        files.len() <= u32::MAX,
    ensures
        final(t).at(dirs@, i as int, files),
{
    proof {
        assert forall|a: int| 0 <= a < dirs@.len() implies part(dirs@, i as int, files, a, false)
            == part(dirs@, i + 1, files, a, false) + (if dirs@[i as int].parent < i && a
            == dirs@[i as int].parent {
            part(dirs@, i + 1, files, i as int, false)
        } else {
            0
        }) by {
            lemma_part_step(dirs@, i as int, files, a, false);
        }
        assert forall|a: int| 0 <= a < dirs@.len() implies part(dirs@, i as int, files, a, true)
            == part(dirs@, i + 1, files, a, true) + (if dirs@[i as int].parent < i && a
            == dirs@[i as int].parent {
            part(dirs@, i + 1, files, i as int, true)
        } else {
            0
        }) && part(dirs@, i as int, files, a, true) <= files.len() by {
            lemma_part_step(dirs@, i as int, files, a, true);
            lemma_part_count(dirs@, i as int, files, a);
        }
        assert forall|a: int| 0 <= a < dirs@.len() implies ({
            let u = if dirs@[i as int].parent < i && a == dirs@[i as int].parent
                && t.mtime@[i as int] > t.mtime@[a] {
                t.mtime@[i as int]
            } else {
                #[trigger] t.mtime@[a]
            };
            part_written(dirs@, i as int, files, a, u) && part_bound(dirs@, i as int, files, a, u)
        }) by {
            lemma_times_step(dirs@, i as int, files, a, t.mtime@[a], t.mtime@[i as int]);
        }
    }
    let p: usize = dirs[i].parent as usize;
    if p < i {
        let s = wrapped_sum(
            t.size[p],
            t.size[i],
            Ghost(part(dirs@, i + 1, files, p as int, false)),
            Ghost(part(dirs@, i + 1, files, i as int, false)),
        );
        t.size.set(p, s);
        proof {
            lemma_part_count(dirs@, i as int, files, p as int);
            lemma_part_step(dirs@, i as int, files, p as int, true);
        }
        let c = t.count[p] + t.count[i];
        t.count.set(p, c);
        let m = t.mtime[i];
        if m > t.mtime[p] {
            t.mtime.set(p, m);
        }
    }
}

/// The totals of every folder.
pub fn totals(dirs: &Vec<DirRec>, files: &Vec<FileRec>) -> (t: Totals)
    requires
        files@.len() <= u32::MAX,
    ensures
        t.size@.len() == dirs@.len(),
        t.count@.len() == dirs@.len(),
        t.mtime@.len() == dirs@.len(),
        forall|a: int|
            0 <= a < dirs@.len() ==> #[trigger] t.size@[a] == wrapped(
                records::subtree_size(dirs@, files@, a),
            ),
        forall|a: int|
            0 <= a < dirs@.len() ==> #[trigger] t.count@[a] as int == records::subtree_count(
                dirs@,
                files@,
                a,
            ),
        forall|a: int| 0 <= a < dirs@.len() ==> records::last_write(dirs@, files@, a, #[trigger] t.mtime@[a]),
{
    let n = dirs.len();
    let mut t = Totals { size: Vec::new(), count: Vec::new(), mtime: Vec::new() };
    let mut k: usize = 0;
    while k < n
        invariant
            k <= n == dirs@.len(),
            t.size@.len() == k,
            t.count@.len() == k,
            t.mtime@.len() == k,
            forall|a: int| 0 <= a < k ==> #[trigger] t.size@[a] == 0,
            forall|a: int| 0 <= a < k ==> #[trigger] t.count@[a] == 0,
            forall|a: int| 0 <= a < k ==> #[trigger] t.mtime@[a] == dirs@[a].own_mtime,
        decreases n - k,
    {
        t.size.push(0);
        t.count.push(0);
        t.mtime.push(dirs[k].own_mtime);
        k = k + 1;
    }
    proof {
        assert forall|a: int| 0 <= a < n implies part_written(
            dirs@,
            n as int,
            Seq::empty(),
            a,
            #[trigger] t.mtime@[a],
        ) && part_bound(dirs@, n as int, Seq::empty(), a, t.mtime@[a]) by {
            assert(reach(dirs@, n as int, a, a));
        }
        assert(files@.take(0) =~= Seq::empty());
    }
    let mut j: usize = 0;
    while j < files.len()
        invariant
            j <= files@.len() <= u32::MAX,
            t.at(dirs@, dirs@.len() as int, files@.take(j as int)),
        decreases files@.len() - j,
    {
        give(&mut t, dirs, &files[j], Ghost(files@.take(j as int)));
        proof {
            assert(files@.take(j + 1) =~= files@.take(j as int).push(files@[j as int]));
        }
        j = j + 1;
    }
    assert(files@.take(j as int) =~= files@);
    let mut i: usize = n;
    while i > 0
        invariant
            i <= dirs@.len(),
            files@.len() <= u32::MAX,
            t.at(dirs@, i as int, files@),
        decreases i,
    {
        i = i - 1;
        climb(&mut t, dirs, i, Ghost(files@));
    }
    proof {
        assert forall|a: int| 0 <= a < dirs@.len() implies #[trigger] t.size@[a] == wrapped(
            records::subtree_size(dirs@, files@, a),
        ) by {
            lemma_part_all(dirs@, 0, files@, a);
        }
        assert forall|a: int| 0 <= a < dirs@.len() implies #[trigger] t.count@[a] as int
            == records::subtree_count(dirs@, files@, a) by {
            lemma_part_all(dirs@, 0, files@, a);
        }
        assert forall|a: int| 0 <= a < dirs@.len() implies records::last_write(
            dirs@,
            files@,
            a,
            #[trigger] t.mtime@[a],
        ) by {
            lemma_times_all(dirs@, files@, a, t.mtime@[a]);
        }
    }
    t
}

proof fn lemma_times_all(dirs: Seq<DirRec>, files: Seq<FileRec>, a: int, t: i64)
    requires
        part_written(dirs, 0, files, a, t),
        part_bound(dirs, 0, files, a, t),
    ensures
        records::last_write(dirs, files, a, t),
{
    assert forall|d: int| records::under(dirs, a, d) == reach(dirs, 0, a, d) by {
        lemma_reach_all(dirs, 0, a, d);
    }
    assert forall|k: int| 0 <= k < files.len() implies records::holds(dirs, a, #[trigger] files[k]) == kept(
        dirs,
        0,
        a,
        files[k],
    ) by {
        lemma_reach_all(dirs, 0, a, files[k].parent as int);
    }
    if exists|d: int|
        0 <= d < dirs.len() && #[trigger] reach(dirs, 0, a, d) && dirs[d].own_mtime == t {
        let d = choose|d: int|
            0 <= d < dirs.len() && #[trigger] reach(dirs, 0, a, d) && dirs[d].own_mtime == t;
        assert(records::under(dirs, a, d));
    }
    assert forall|u: i64| #[trigger] records::written_at(dirs, files, a, u) implies u <= t by {
        if exists|d: int|
            0 <= d < dirs.len() && #[trigger] records::under(dirs, a, d) && dirs[d].own_mtime == u {
            let d = choose|d: int|
                0 <= d < dirs.len() && #[trigger] records::under(dirs, a, d) && dirs[d].own_mtime == u;
            assert(reach(dirs, 0, a, d));
        }
    }
}

} // verus!
