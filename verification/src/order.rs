//! The order in which rows are shown.

use crate::records;
use crate::records::{Row, RowView};
use crate::split;
use crate::text;
use vstd::prelude::*;

verus! {

/// What rows are sorted by.
#[derive(Clone, Copy, Debug, PartialEq, Eq, Structural)]
pub enum Sort {
    Name,
    Mtime,
    Count,
    Size,
}

/// The first text comes before the second one in the dictionary, character by character.
pub open spec fn text_less(a: Seq<char>, b: Seq<char>) -> bool
    decreases a.len(),
{
    if b.len() == 0 {
        false
    } else if a.len() == 0 {
        true
    } else if a[0] == b[0] {
        text_less(a.drop_first(), b.drop_first())
    } else {
        a[0] < b[0]
    }
}

/// The key of row `i` is smaller than that of row `j`. `names` holds the names in
/// lower case.
pub open spec fn key_less(
    rows: Seq<RowView>,
    names: Seq<Seq<char>>,
    by: Sort,
    i: int,
    j: int,
) -> bool {
    match by {
        Sort::Name => text_less(names[i], names[j]),
        Sort::Mtime => rows[i].mtime < rows[j].mtime,
        Sort::Count => rows[i].count < rows[j].count,
        Sort::Size => rows[i].size < rows[j].size,
    }
}

/// Row `i` is shown above row `j`: its key comes first or, where the keys are the same,
/// it came first.
pub open spec fn above(
    rows: Seq<RowView>,
    names: Seq<Seq<char>>,
    by: Sort,
    asc: bool,
    i: int,
    j: int,
) -> bool {
    let less = key_less(rows, names, by, i, j);
    let more = key_less(rows, names, by, j, i);
    if asc {
        less || (!more && i < j)
    } else {
        more || (!less && i < j)
    }
}

/// `p` lists each of `0`, .., `n - 1` once.
pub open spec fn lists_all(p: Seq<usize>, n: nat) -> bool {
    &&& p.len() == n
    &&& forall|x: int| 0 <= x < p.len() ==> (#[trigger] p[x]) < n
    &&& forall|v: usize| v < n ==> #[trigger] p.contains(v)
}

/// `p` gives the rows in order, from the top.
pub open spec fn ordered(
    p: Seq<usize>,
    rows: Seq<RowView>,
    names: Seq<Seq<char>>,
    by: Sort,
    asc: bool,
) -> bool {
    &&& lists_all(p, rows.len())
    &&& forall|x: int, y: int|
        0 <= x < y < p.len() ==> above(
            rows,
            names,
            by,
            asc,
            (#[trigger] p[x]) as int,
            (#[trigger] p[y]) as int,
        )
}

/// The rows, taken in the order of `p`.
pub open spec fn taken(rows: Seq<RowView>, p: Seq<usize>) -> Seq<RowView> {
    Seq::new(p.len(), |x: int| rows[p[x] as int])
}

/// The names of rows, in lower case.
pub open spec fn lower_names(rows: Seq<RowView>) -> Seq<Seq<char>> {
    Seq::new(rows.len(), |i: int| text::lower_text(rows[i].name))
}

pub proof fn lemma_text_order(a: Seq<char>, b: Seq<char>, c: Seq<char>)
    ensures
        !text_less(a, a),
        text_less(a, b) ==> !text_less(b, a),
        text_less(a, b) && text_less(b, c) ==> text_less(a, c),
        !text_less(a, b) && !text_less(b, c) ==> !text_less(a, c),
    decreases a.len() + b.len() + c.len(),
{
    if a.len() > 0 && b.len() > 0 && c.len() > 0 {
        lemma_text_order(a.drop_first(), b.drop_first(), c.drop_first());
    } else if a.len() > 0 && b.len() > 0 {
        lemma_text_order(a.drop_first(), b.drop_first(), c);
    } else if a.len() > 0 {
        lemma_text_order(a.drop_first(), b, c);
    }
}

/// Being above is a strict order, and of two rows one is above the other.
proof fn lemma_above(
    rows: Seq<RowView>,
    names: Seq<Seq<char>>,
    by: Sort,
    asc: bool,
    i: int,
    j: int,
    k: int,
)
    ensures
        above(rows, names, by, asc, i, j) ==> !above(rows, names, by, asc, j, i),
        i != j ==> above(rows, names, by, asc, i, j) || above(rows, names, by, asc, j, i),
        above(rows, names, by, asc, i, j) && above(rows, names, by, asc, j, k) ==> above(
            rows,
            names,
            by,
            asc,
            i,
            k,
        ),
{
    lemma_text_order(names[i], names[j], names[k]);
    lemma_text_order(names[k], names[j], names[i]);
    lemma_text_order(names[j], names[i], names[k]);
    lemma_text_order(names[i], names[k], names[j]);
    lemma_text_order(names[j], names[k], names[i]);
    lemma_text_order(names[k], names[i], names[j]);
}

/// Law: there is one order only. Two ways to list the rows in order are the same.
pub proof fn law_one_order(
    p: Seq<usize>,
    q: Seq<usize>,
    rows: Seq<RowView>,
    names: Seq<Seq<char>>,
    by: Sort,
    asc: bool,
)
    requires
        ordered(p, rows, names, by, asc),
        ordered(q, rows, names, by, asc),
    ensures
        p == q,
{
    assert forall|x: int| 0 <= x < p.len() implies p[x] == q[x] by {
        lemma_same_at(p, q, rows, names, by, asc, x);
    }
    assert(p =~= q);
}

proof fn lemma_same_at(
    p: Seq<usize>,
    q: Seq<usize>,
    rows: Seq<RowView>,
    names: Seq<Seq<char>>,
    by: Sort,
    asc: bool,
    x: int,
)
    requires
        ordered(p, rows, names, by, asc),
        ordered(q, rows, names, by, asc),
        0 <= x < p.len(),
    ensures
        p[x] == q[x],
    decreases x,
{
    assert forall|y: int| 0 <= y < x implies p[y] == q[y] by {
        lemma_same_at(p, q, rows, names, by, asc, y);
    }
    let a = p[x];
    let b = q[x];
    assert(q.contains(a));
    assert(p.contains(b));
    let s = choose|s: int| 0 <= s < q.len() && q[s] == a;
    let t = choose|t: int| 0 <= t < p.len() && p[t] == b;
    if s < x {
        assert(p[s] == q[s]);
        assert(above(rows, names, by, asc, p[s] as int, p[x] as int));
        lemma_above(rows, names, by, asc, a as int, a as int, a as int);
    }
    if t < x {
        assert(p[t] == q[t]);
        assert(above(rows, names, by, asc, q[t] as int, q[x] as int));
        lemma_above(rows, names, by, asc, b as int, b as int, b as int);
    }
    if a != b {
        assert(above(rows, names, by, asc, q[x] as int, q[s] as int));
        assert(above(rows, names, by, asc, p[x] as int, p[t] as int));
        lemma_above(rows, names, by, asc, a as int, b as int, a as int);
    }
}

fn is_text_less(a: &str, b: &str) -> (r: bool)
    ensures
        r == text_less(a@, b@),
{
    let x = text::chars_of(a);
    let y = text::chars_of(b);
    let mut i: usize = 0;
    assert(x@.skip(0) =~= a@);
    assert(y@.skip(0) =~= b@);
    while i < x.len() && i < y.len() && x[i] == y[i]
        invariant
            i <= x@.len(),
            i <= y@.len(),
            text_less(a@, b@) == text_less(x@.skip(i as int), y@.skip(i as int)),
        decreases x@.len() - i,
    {
        proof {
            assert(x@.skip(i as int).drop_first() =~= x@.skip(i + 1));
            assert(y@.skip(i as int).drop_first() =~= y@.skip(i + 1));
        }
        i = i + 1;
    }
    if i == y.len() {
        return false;
    }
    if i == x.len() {
        return true;
    }
    assert(x@.skip(i as int)[0] == x@[i as int]);
    assert(y@.skip(i as int)[0] == y@[i as int]);
    x[i] < y[i]
}

fn is_key_less(rows: &Vec<Row>, names: &Vec<String>, by: Sort, i: usize, j: usize) -> (r: bool)
    requires
        i < rows@.len(),
        j < rows@.len(),
        names@.len() == rows@.len(),
    ensures
        r == key_less(records::shown(rows@), split::texts(names@), by, i as int, j as int),
{
    match by {
        Sort::Name => is_text_less(names[i].as_str(), names[j].as_str()),
        Sort::Mtime => rows[i].mtime < rows[j].mtime,
        Sort::Count => rows[i].count < rows[j].count,
        Sort::Size => rows[i].size < rows[j].size,
    }
}

fn is_above(
    rows: &Vec<Row>,
    names: &Vec<String>,
    by: Sort,
    asc: bool,
    i: usize,
    j: usize,
) -> (r: bool)
    requires
        i < rows@.len(),
        j < rows@.len(),
        names@.len() == rows@.len(),
    ensures
        r == above(records::shown(rows@), split::texts(names@), by, asc, i as int, j as int),
{
    let less = is_key_less(rows, names, by, i, j);
    let more = is_key_less(rows, names, by, j, i);
    if asc {
        less || (!more && i < j)
    } else {
        more || (!less && i < j)
    }
}

/// `p` lists each of `from`, .., `to - 1`, in order.
spec fn run(
    p: Seq<usize>,
    from: int,
    to: int,
    rows: Seq<RowView>,
    names: Seq<Seq<char>>,
    by: Sort,
    asc: bool,
) -> bool {
    &&& p.len() == to - from
    &&& forall|x: int| 0 <= x < p.len() ==> from <= (#[trigger] p[x]) < to
    &&& forall|v: usize| from <= v < to ==> #[trigger] p.contains(v)
    &&& forall|x: int, y: int|
        0 <= x < y < p.len() ==> above(
            rows,
            names,
            by,
            asc,
            (#[trigger] p[x]) as int,
            (#[trigger] p[y]) as int,
        )
}

fn merge(
    a: &Vec<usize>,
    b: &Vec<usize>,
    rows: &Vec<Row>,
    names: &Vec<String>,
    by: Sort,
    asc: bool,
    from: Ghost<int>,
    mid: Ghost<int>,
    to: Ghost<int>,
) -> (r: Vec<usize>)
    requires
        0 <= from@ <= mid@ <= to@ <= rows@.len(),
        names@.len() == rows@.len(),
        run(a@, from@, mid@, records::shown(rows@), split::texts(names@), by, asc),
        run(b@, mid@, to@, records::shown(rows@), split::texts(names@), by, asc),
    ensures
        run(r@, from@, to@, records::shown(rows@), split::texts(names@), by, asc),
{
    let ghost rv = records::shown(rows@);
    let ghost nv = split::texts(names@);
    let mut out: Vec<usize> = Vec::new();
    let mut i: usize = 0;
    let mut j: usize = 0;
    while i < a.len() || j < b.len()
        invariant
            0 <= from@ <= mid@ <= to@ <= rows@.len(),
            names@.len() == rows@.len(),
            rv == records::shown(rows@),
            nv == split::texts(names@),
            run(a@, from@, mid@, rv, nv, by, asc),
            run(b@, mid@, to@, rv, nv, by, asc),
            i <= a@.len(),
            j <= b@.len(),
            out@.len() == i + j,
            forall|x: int| 0 <= x < out@.len() ==> from@ <= (#[trigger] out@[x]) < to@,
            forall|x: int| 0 <= x < i ==> out@.contains(#[trigger] a@[x]),
            forall|x: int| 0 <= x < j ==> out@.contains(#[trigger] b@[x]),
            forall|x: int, y: int|
                0 <= x < y < out@.len() ==> above(
                    rv,
                    nv,
                    by,
                    asc,
                    (#[trigger] out@[x]) as int,
                    (#[trigger] out@[y]) as int,
                ),
            forall|x: int, y: int|
                0 <= x < out@.len() && i <= y < a@.len() ==> above(
                    rv,
                    nv,
                    by,
                    asc,
                    (#[trigger] out@[x]) as int,
                    (#[trigger] a@[y]) as int,
                ),
            forall|x: int, y: int|
                0 <= x < out@.len() && j <= y < b@.len() ==> above(
                    rv,
                    nv,
                    by,
                    asc,
                    (#[trigger] out@[x]) as int,
                    (#[trigger] b@[y]) as int,
                ),
        decreases a@.len() - i + b@.len() - j,
    {
        let ghost before = out@;
        let left = if i == a.len() {
            false
        } else if j == b.len() {
            true
        } else {
            is_above(rows, names, by, asc, a[i], b[j])
        };
        if left {
            let v = a[i];
            proof {
                assert forall|y: int| j <= y < b@.len() implies above(
                    rv,
                    nv,
                    by,
                    asc,
                    v as int,
                    (#[trigger] b@[y]) as int,
                ) by {
                    if y > j {
                        assert(above(rv, nv, by, asc, b@[j as int] as int, b@[y] as int));
                        lemma_above(rv, nv, by, asc, v as int, b@[j as int] as int, b@[y] as int);
                    }
                }
            }
            out.push(v);
            i = i + 1;
        } else {
            let v = b[j];
            proof {
                assert forall|y: int| i <= y < a@.len() implies above(
                    rv,
                    nv,
                    by,
                    asc,
                    v as int,
                    (#[trigger] a@[y]) as int,
                ) by {
                    let w = a@[i as int] as int;
                    assert(w != v);
                    lemma_above(rv, nv, by, asc, w, v as int, w);
                    if y > i {
                        assert(above(rv, nv, by, asc, w, a@[y] as int));
                        lemma_above(rv, nv, by, asc, v as int, w, a@[y] as int);
                    }
                }
            }
            out.push(v);
            j = j + 1;
        }
        proof {
            assert(out@ == before.push(out@.last()));
            assert forall|x: int| 0 <= x < i implies out@.contains(#[trigger] a@[x]) by {
                lemma_still_there(before, out@.last(), a@[x]);
            }
            assert forall|x: int| 0 <= x < j implies out@.contains(#[trigger] b@[x]) by {
                lemma_still_there(before, out@.last(), b@[x]);
            }
        }
    }
    proof {
        assert forall|v: usize| from@ <= v < to@ implies #[trigger] out@.contains(v) by {
            if v < mid@ {
                assert(a@.contains(v));
                let x = choose|x: int| 0 <= x < a@.len() && a@[x] == v;
                assert(out@.contains(a@[x]));
            } else {
                assert(b@.contains(v));
                let x = choose|x: int| 0 <= x < b@.len() && b@[x] == v;
                assert(out@.contains(b@[x]));
            }
        }
    }
    out
}

proof fn lemma_still_there(s: Seq<usize>, last: usize, v: usize)
    requires
        s.contains(v) || v == last,
    ensures
        s.push(last).contains(v),
{
    if s.contains(v) {
        let x = choose|x: int| 0 <= x < s.len() && s[x] == v;
        assert(s.push(last)[x] == v);
    } else {
        assert(s.push(last)[s.len() as int] == v);
    }
}

fn sort_run(
    rows: &Vec<Row>,
    names: &Vec<String>,
    by: Sort,
    asc: bool,
    from: usize,
    to: usize,
) -> (r: Vec<usize>)
    requires
        from <= to <= rows@.len(),
        names@.len() == rows@.len(),
    ensures
        run(r@, from as int, to as int, records::shown(rows@), split::texts(names@), by, asc),
    decreases to - from,
{
    if to - from == 0 {
        return Vec::new();
    }
    if to - from == 1 {
        let mut one: Vec<usize> = Vec::new();
        one.push(from);
        assert(one@[0] == from);
        assert forall|v: usize| from <= v < to implies #[trigger] one@.contains(v) by {
            assert(one@[0] == v);
        }
        return one;
    }
    let mid = from + (to - from) / 2;
    let a = sort_run(rows, names, by, asc, from, mid);
    let b = sort_run(rows, names, by, asc, mid, to);
    merge(
        &a,
        &b,
        rows,
        names,
        by,
        asc,
        Ghost(from as int),
        Ghost(mid as int),
        Ghost(to as int),
    )
}

/// Lists the rows in order, from the top. `names` holds the names in lower case; rows
/// with the same key keep their order.
pub fn arrange(rows: &Vec<Row>, names: &Vec<String>, by: Sort, asc: bool) -> (p: Vec<usize>)
    requires
        names@.len() == rows@.len(),
    ensures
        ordered(p@, records::shown(rows@), split::texts(names@), by, asc),
{
    sort_run(rows, names, by, asc, 0, rows.len())
}

/// Lists the rows in order, from the top, whatever the case of the letters of their names.
pub fn sort_rows(rows: &Vec<Row>, by: Sort, asc: bool) -> (p: Vec<usize>)
    ensures
        ordered(
            p@,
            records::shown(rows@),
            lower_names(records::shown(rows@)),
            by,
            asc,
        ),
{
    let mut names: Vec<String> = Vec::new();
    let mut i: usize = 0;
    while i < rows.len()
        invariant
            i <= rows@.len(),
            names@.len() == i,
            forall|k: int|
                0 <= k < i ==> (#[trigger] names@[k])@ == text::lower_text(rows@[k].name@),
        decreases rows@.len() - i,
    {
        names.push(text::to_lowercase(rows[i].name.as_str()));
        i = i + 1;
    }
    assert(split::texts(names@) =~= lower_names(records::shown(rows@)));
    arrange(rows, &names, by, asc)
}

impl Row {
    pub fn copy(&self) -> (r: Row)
        ensures
            r@ == self@,
    {
        Row {
            id: self.id,
            name: self.name.clone(),
            size: self.size,
            count: self.count,
            mtime: self.mtime,
            is_dir: self.is_dir,
            path: self.path.clone(),
        }
    }
}

/// A page of rows: those from place `offset` on, `limit` of them at most.
pub open spec fn page<A>(s: Seq<A>, offset: nat, limit: nat) -> Seq<A> {
    let from = if offset <= s.len() {
        offset as int
    } else {
        s.len() as int
    };
    let to = if from + limit <= s.len() {
        from + limit
    } else {
        s.len() as int
    };
    s.subrange(from, to)
}

/// The rows of a page, taken in the order of `p`.
pub fn pick(rows: &Vec<Row>, p: &Vec<usize>, offset: usize, limit: usize) -> (r: Vec<Row>)
    requires
        forall|x: int| 0 <= x < p@.len() ==> (#[trigger] p@[x]) < rows@.len(),
    ensures
        records::shown(r@) == page(
            taken(records::shown(rows@), p@),
            offset as nat,
            limit as nat,
        ),
{
    let ghost all = taken(records::shown(rows@), p@);
    let mut out: Vec<Row> = Vec::new();
    let start: usize = if offset <= p.len() {
        offset
    } else {
        p.len()
    };
    let mut k: usize = start;
    assert(records::shown(out@) =~= all.subrange(start as int, start as int));
    while k < p.len() && k - start < limit
        invariant
            start <= k <= p@.len(),
            k - start <= limit,
            all == taken(records::shown(rows@), p@),
            forall|x: int| 0 <= x < p@.len() ==> (#[trigger] p@[x]) < rows@.len(),
            records::shown(out@) == all.subrange(start as int, k as int),
        decreases p@.len() - k,
    {
        let ghost before = out@;
        let row = rows[p[k]].copy();
        out.push(row);
        proof {
            assert(records::shown(out@) =~= records::shown(before).push(row@));
            assert(row@ == all[k as int]);
            assert(all.subrange(start as int, k + 1) =~= all.subrange(start as int, k as int).push(
                all[k as int],
            ));
        }
        k = k + 1;
    }
    out
}

} // verus!
