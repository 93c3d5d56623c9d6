//! What a search shows, told by the names of the index and the text that is looked for.
//!
//! A law of this file takes what a function was given and what it gave, bound by the
//! contract of that function, and says how the one follows from the other.

use crate::http::Query;
use crate::laws::showing;
use crate::laws::texts;
use crate::laws::totals;
use crate::listing;
use crate::listing::SearchJson;
use crate::order;
use crate::order::Sort;
use crate::records;
use crate::records::{Row, RowView};
use crate::snapshot;
use crate::snapshot::Snapshot;
use crate::text;
use vstd::prelude::*;
use vstd::utf8::encode_utf8;

verus! {

// ---------------------------- a text in a name ----------------------------

/// The bytes of `n` stand somewhere among those of `h`.
pub open spec fn within(h: Seq<u8>, n: Seq<u8>) -> bool {
    exists|pre: Seq<u8>, post: Seq<u8>| h == #[trigger] (pre + n + post)
}

/// Bytes, with `a` to `z` for `A` to `Z`.
pub open spec fn folded(h: Seq<u8>) -> Seq<u8> {
    Seq::new(
        h.len(),
        |i: int|
            if 65 <= h[i] <= 90 {
                (h[i] + 32) as u8
            } else {
                h[i]
            },
    )
}

/// A search for a text sees a name: the text stands in the name, with capital ASCII letters
/// taken for small ones, or in the name in lower case. An empty text stands in no name.
pub open spec fn sees(name: Seq<char>, needle: Seq<char>) -> bool {
    needle.len() > 0 && (within(folded(encode_utf8(name)), encode_utf8(needle)) || within(
        encode_utf8(text::lower_text(name)),
        encode_utf8(needle),
    ))
}

proof fn lemma_within(h: Seq<u8>, n: Seq<u8>)
    ensures
        within(h, n) <==> exists|i: int| #[trigger] snapshot::occurs_at(h, n, i),
{
    if within(h, n) {
        let (pre, post) = choose|pre: Seq<u8>, post: Seq<u8>| h == #[trigger] (pre + n + post);
        let i = pre.len() as int;
        assert(h.subrange(i, i + n.len()) =~= n);
        assert(snapshot::occurs_at(h, n, i));
    }
    if exists|i: int| #[trigger] snapshot::occurs_at(h, n, i) {
        let i = choose|i: int| #[trigger] snapshot::occurs_at(h, n, i);
        let pre = h.take(i);
        let post = h.skip(i + n.len());
        assert(h =~= pre + h.subrange(i, i + n.len()) + post);
    }
}

proof fn lemma_folded(h: Seq<u8>)
    ensures
        folded(h) == snapshot::low_bytes(h),
{
    assert(folded(h) =~= snapshot::low_bytes(h));
}

proof fn lemma_some_bytes(t: Seq<char>)
    ensures
        t.len() > 0 <==> encode_utf8(t).len() > 0,
{
    if t.len() > 0 {
        assert(encode_utf8(t) == vstd::utf8::encode_scalar(t[0] as u32) + encode_utf8(
            t.drop_first(),
        ));
    }
}

proof fn lemma_sees(name: Seq<char>, needle: Seq<char>)
    ensures
        snapshot::finds(name, encode_utf8(needle)) == sees(name, needle),
{
    lemma_some_bytes(needle);
    lemma_folded(encode_utf8(name));
    lemma_within(folded(encode_utf8(name)), encode_utf8(needle));
    lemma_within(encode_utf8(text::lower_text(name)), encode_utf8(needle));
}

/// Law: a name is seen by every piece of its lower case, wherever the piece stands.
pub proof fn law_seen_by_any_piece(name: Seq<char>, before: Seq<char>, piece: Seq<char>, after: Seq<
    char,
>)
    requires
        piece.len() > 0,
        text::lower_text(name) == before + piece + after,
    ensures
        sees(name, piece),
{
    texts::lemma_joined_bytes(before + piece, after);
    texts::lemma_joined_bytes(before, piece);
    assert(encode_utf8(text::lower_text(name)) == encode_utf8(before) + encode_utf8(piece)
        + encode_utf8(after));
}

/// Law: a text holds bytes where they stand somewhere in it, as they are; and with capital
/// ASCII letters taken for small ones where case is ignored. No bytes at all stand nowhere.
pub proof fn law_text_holds(t: &str, n: &[u8], a: bool, b: bool)
    requires
        call_ensures(snapshot::holds, (t, n), a),
        call_ensures(snapshot::contains_ci, (t, n), b),
    ensures
        a == (n@.len() > 0 && within(encode_utf8(t@), n@)),
        b == (n@.len() > 0 && within(folded(encode_utf8(t@)), n@)),
{
    lemma_within(encode_utf8(t@), n@);
    lemma_within(folded(encode_utf8(t@)), n@);
    lemma_folded(encode_utf8(t@));
}

// ---------------------------- what is found ----------------------------

/// The row tells what the index knows of a folder or of a file: the totals of the whole
/// subtree of a folder, the size and the date of a file.
pub open spec fn true_row(s: Snapshot, row: RowView) -> bool {
    if row.is_dir {
        let d = row.id as int;
        &&& d < s.dirs@.len()
        &&& row.name == s.dirs@[d].name@
        &&& totals::is_total(s.dirs@, s.files@, d, row.size, row.count, row.mtime)
    } else {
        let f = row.id as int;
        &&& f < s.files@.len()
        &&& row.name == s.files@[f].name@
        &&& row.size == s.files@[f].size
        &&& row.count == 1
        &&& row.mtime == s.files@[f].mtime
    }
}

/// Some row is that of folder `d`.
pub open spec fn shows_folder(rows: Seq<Row>, d: int) -> bool {
    exists|x: int| 0 <= x < rows.len() && (#[trigger] rows[x]).is_dir && rows[x].id == d
}

/// Some row is that of file `f`.
pub open spec fn shows_file(rows: Seq<Row>, f: int) -> bool {
    exists|x: int| 0 <= x < rows.len() && !(#[trigger] rows[x]).is_dir && rows[x].id == f
}

proof fn lemma_dir_hits(s: Snapshot, needle: Seq<char>, k: int)
    requires
        s.wf(),
        0 <= k <= s.dirs@.len(),
    ensures
        ({
            let hits = s.dir_hits(s.low_dirs(), encode_utf8(needle), k);
            &&& hits.len() <= k
            &&& forall|x: int|
                #![trigger hits[x]]
                0 <= x < hits.len() ==> hits[x].is_dir && hits[x].id < k && hits[x] == s.dir_row(
                    hits[x].id as int,
                ) && sees(hits[x].name, needle)
            &&& forall|x: int, y: int|
                0 <= x < y < hits.len() ==> (#[trigger] hits[x]).id < (#[trigger] hits[y]).id
            &&& forall|d: int|
                #![trigger s.dirs@[d]]
                0 <= d < k && sees(s.dirs@[d].name@, needle) ==> hits.contains(s.dir_row(d))
        }),
    decreases k,
{
    if k > 0 {
        let n = encode_utf8(needle);
        lemma_dir_hits(s, needle, k - 1);
        let was = s.dir_hits(s.low_dirs(), n, k - 1);
        let hits = s.dir_hits(s.low_dirs(), n, k);
        let name = s.dirs@[k - 1].name@;
        lemma_sees(name, needle);
        assert(s.low_dirs()[k - 1] == text::lower_text(name));
        assert forall|d: int|
            #![trigger s.dirs@[d]]
            0 <= d < k && sees(s.dirs@[d].name@, needle) implies hits.contains(s.dir_row(d)) by {
            if d == k - 1 {
                assert(hits[was.len() as int] == s.dir_row(d));
            } else {
                let x = choose|x: int| 0 <= x < was.len() && was[x] == s.dir_row(d);
                assert(hits[x] == was[x]);
            }
        }
        assert forall|x: int| 0 <= x < was.len() implies #[trigger] hits[x] == was[x] by {}
    }
}

proof fn lemma_file_hits(s: Snapshot, needle: Seq<char>, k: int)
    requires
        s.wf(),
        0 <= k <= s.files@.len(),
    ensures
        ({
            let hits = s.file_hits(s.low_files(), encode_utf8(needle), k);
            &&& hits.len() <= k
            &&& forall|x: int|
                #![trigger hits[x]]
                0 <= x < hits.len() ==> !hits[x].is_dir && hits[x].id < k && hits[x] == s.file_row(
                    hits[x].id as int,
                ) && sees(hits[x].name, needle)
            &&& forall|x: int, y: int|
                0 <= x < y < hits.len() ==> (#[trigger] hits[x]).id < (#[trigger] hits[y]).id
            &&& forall|f: int|
                #![trigger s.files@[f]]
                0 <= f < k && sees(s.files@[f].name@, needle) ==> hits.contains(s.file_row(f))
        }),
    decreases k,
{
    if k > 0 {
        let n = encode_utf8(needle);
        lemma_file_hits(s, needle, k - 1);
        let was = s.file_hits(s.low_files(), n, k - 1);
        let hits = s.file_hits(s.low_files(), n, k);
        let name = s.files@[k - 1].name@;
        lemma_sees(name, needle);
        assert(s.low_files()[k - 1] == text::lower_text(name));
        assert forall|f: int|
            #![trigger s.files@[f]]
            0 <= f < k && sees(s.files@[f].name@, needle) implies hits.contains(s.file_row(f)) by {
            if f == k - 1 {
                assert(hits[was.len() as int] == s.file_row(f));
            } else {
                let x = choose|x: int| 0 <= x < was.len() && was[x] == s.file_row(f);
                assert(hits[x] == was[x]);
            }
        }
        assert forall|x: int| 0 <= x < was.len() implies #[trigger] hits[x] == was[x] by {}
    }
}

/// What a search shows is right: true rows of names that it sees, folders before files,
/// each in the order of the index, none twice.
pub open spec fn right_rows(s: Snapshot, needle: Seq<char>, rows: Seq<Row>) -> bool {
    &&& forall|x: int|
        #![trigger rows[x]]
        0 <= x < rows.len() ==> true_row(s, rows[x]@) && sees(rows[x].name@, needle)
    &&& forall|x: int, y: int|
        #![trigger rows[x], rows[y]]
        0 <= x < y < rows.len() ==> {
            &&& rows[x].is_dir || !rows[y].is_dir
            &&& rows[x].is_dir == rows[y].is_dir ==> rows[x].id < rows[y].id
        }
}

/// What a search shows leaves nothing out in front of what it shows, and nothing at all
/// where the limit was not reached. Whatever the limit, some folder is shown where one is
/// seen.
pub open spec fn nothing_left_out(s: Snapshot, needle: Seq<char>, limit: nat, rows: Seq<Row>) -> bool {
    &&& forall|d: int|
        #![trigger s.dirs@[d]]
        0 <= d < s.dirs@.len() && sees(s.dirs@[d].name@, needle) && (rows.len() < limit || rows.len()
            == 0 || exists|x: int|
            0 <= x < rows.len() && (!(#[trigger] rows[x]).is_dir || d < rows[x].id)) ==> shows_folder(
            rows,
            d,
        )
    &&& forall|f: int|
        #![trigger s.files@[f]]
        0 <= f < s.files@.len() && sees(s.files@[f].name@, needle) && (rows.len() < limit || exists|
            x: int,
        |
            0 <= x < rows.len() && !(#[trigger] rows[x]).is_dir && f < rows[x].id) ==> shows_file(
            rows,
            f,
        )
}

proof fn lemma_found(s: Snapshot, needle: Seq<char>, limit: nat, rows: Seq<Row>)
    requires
        s.wf(),
        records::shown(rows) == s.found(encode_utf8(needle), limit),
    ensures
        right_rows(s, needle, rows),
        nothing_left_out(s, needle, limit, rows),
        limit > 0 ==> rows.len() <= limit,
        limit == 0 ==> rows.len() <= 1 && forall|x: int|
            0 <= x < rows.len() ==> (#[trigger] rows[x]).is_dir,
{
    let n = encode_utf8(needle);
    let nd = s.dirs@.len() as int;
    let nf = s.files@.len() as int;
    lemma_dir_hits(s, needle, nd);
    lemma_file_hits(s, needle, nf);
    let dh = s.dir_hits(s.low_dirs(), n, nd);
    let fh = s.file_hits(s.low_files(), n, nf);
    let d = s.dirs_found(s.low_dirs(), n, limit);
    let all = records::shown(rows);
    assert(all.len() == rows.len());
    assert forall|x: int| 0 <= x < rows.len() implies #[trigger] rows[x]@ == all[x] by {}
    assert forall|x: int| 0 <= x < d.len() implies #[trigger] d[x] == dh[x] && all[x] == dh[x] by {}
    assert forall|x: int| d.len() <= x < all.len() implies #[trigger] all[x] == fh[x - d.len()] by {}
    assert forall|x: int| #![trigger rows[x]] 0 <= x < rows.len() implies true_row(s, rows[x]@)
        && sees(rows[x].name@, needle) && rows[x].is_dir == (x < d.len()) && rows[x]@ == all[x] by {
        assert(rows[x]@ == all[x]);
        if x < d.len() {
            assert(d[x] == dh[x]);
            totals::lemma_totals(s, dh[x].id as int);
        } else {
            assert(all[x] == fh[x - d.len()]);
        }
    }
    assert forall|x: int, y: int|
        #![trigger rows[x], rows[y]]
        0 <= x < y < rows.len() implies (rows[x].is_dir || !rows[y].is_dir) && (rows[x].is_dir
        == rows[y].is_dir ==> rows[x].id < rows[y].id) by {
        assert(rows[x]@ == all[x] && rows[y]@ == all[y]);
        if y < d.len() {
            assert(d[x] == dh[x] && d[y] == dh[y]);
            assert(dh[x].id < dh[y].id);
        } else if x >= d.len() {
            assert(fh[x - d.len()].id < fh[y - d.len()].id);
        }
    }
    assert forall|k: int|
        #![trigger s.dirs@[k]]
        0 <= k < nd && sees(s.dirs@[k].name@, needle) && (rows.len() < limit || rows.len() == 0
            || exists|x: int|
            0 <= x < rows.len() && (!(#[trigger] rows[x]).is_dir || k < rows[x].id)) implies shows_folder(
        rows,
        k,
    ) by {
        assert(dh.contains(s.dir_row(k)));
        let x = choose|x: int| 0 <= x < dh.len() && dh[x] == s.dir_row(k);
        if x >= d.len() {
            let y = choose|y: int|
                0 <= y < rows.len() && (!(#[trigger] rows[y]).is_dir || k < rows[y].id);
            assert(rows[y]@ == all[y]);
            if y < d.len() {
                assert(dh[y].id < dh[x].id);
            }
        }
        assert(rows[x]@ == all[x]);
        assert(rows[x].is_dir && rows[x].id == k);
    }
    assert forall|f: int|
        #![trigger s.files@[f]]
        0 <= f < nf && sees(s.files@[f].name@, needle) && (rows.len() < limit || exists|x: int|
            0 <= x < rows.len() && !(#[trigger] rows[x]).is_dir && f < rows[x].id) implies shows_file(
        rows,
        f,
    ) by {
        assert(fh.contains(s.file_row(f)));
        let x = choose|x: int| 0 <= x < fh.len() && fh[x] == s.file_row(f);
        if d.len() + x >= rows.len() {
            let y = choose|y: int|
                0 <= y < rows.len() && !(#[trigger] rows[y]).is_dir && f < rows[y].id;
            assert(rows[y]@ == all[y]);
            assert(fh[y - d.len()].id < fh[x].id);
        }
        assert(rows[d.len() + x]@ == all[d.len() + x]);
        assert(!rows[d.len() + x].is_dir && rows[d.len() + x].id == f);
    }
}

/// Law: a search of the names shows folders and files whose name it sees and no others,
/// each with what is true of it; folders first, then files, in the order of the index. It
/// leaves none out but behind the limit.
pub proof fn law_search_shows_what_it_sees(s: &Snapshot, needle: &str, limit: usize, rows: Vec<Row>)
    requires
        s.wf(),
        call_ensures(Snapshot::search, (s, needle, limit), rows) || call_ensures(
            Snapshot::find,
            (s, needle, limit),
            Some(rows),
        ),
    ensures
        right_rows(*s, needle@, rows@),
        nothing_left_out(*s, needle@, limit as nat, rows@),
        limit > 0 ==> rows@.len() <= limit,
        limit == 0 ==> rows@.len() <= 1 && forall|x: int|
            0 <= x < rows@.len() ==> (#[trigger] rows@[x]).is_dir,
{
    lemma_found(*s, needle@, limit as nat, rows@);
}

/// Law: a row of a search tells the path of its entry, the one that the index gives.
pub proof fn law_search_paths(
    s: &Snapshot,
    needle: &str,
    limit: usize,
    rows: Vec<Row>,
    x: int,
    p: String,
)
    requires
        s.wf(),
        call_ensures(Snapshot::search, (s, needle, limit), rows) || call_ensures(
            Snapshot::find,
            (s, needle, limit),
            Some(rows),
        ),
        0 <= x < rows@.len(),
        rows@[x].is_dir ==> call_ensures(Snapshot::dir_path, (s, rows@[x].id), p),
        !rows@[x].is_dir ==> call_ensures(Snapshot::file_path, (s, rows@[x].id), p),
    ensures
        rows@[x].path@ == p@,
{
    let n = encode_utf8(needle@);
    lemma_dir_hits(*s, needle@, s.dirs@.len() as int);
    lemma_file_hits(*s, needle@, s.files@.len() as int);
    let all = records::shown(rows@);
    assert(all.len() == rows@.len());
    assert(all == s.found(n, limit as nat));
    assert(all[x] == rows@[x]@);
    let d = s.dirs_found(s.low_dirs(), n, limit as nat);
    let dh = s.dir_hits(s.low_dirs(), n, s.dirs@.len() as int);
    let fh = s.file_hits(s.low_files(), n, s.files@.len() as int);
    if x < d.len() {
        assert(all[x] == dh[x]);
    } else {
        assert(all[x] == fh[x - d.len()]);
    }
}

/// Law: where every file lies in a folder of the index, a search always shows something to
/// show, however it is asked for.
pub proof fn law_search_never_fails(s: &Snapshot, needle: &str, limit: usize, r: Option<Vec<Row>>)
    requires
        s.wf(),
        forall|i: int|
            0 <= i < s.files@.len() ==> (#[trigger] s.files@[i]).parent < s.dirs@.len(),
        call_ensures(Snapshot::find, (s, needle, limit), r),
    ensures
        r is Some,
{
}

// ---------------------------- a request to search ----------------------------

/// The text that a request looks for: none at all where it names none.
pub open spec fn term(q: Query) -> Seq<char> {
    match q.value("q"@) {
        Some(t) => t,
        None => Seq::empty(),
    }
}

/// The request asks for `limit` rows: five hundred where it says nothing else, and never
/// more than twenty thousand.
pub open spec fn wants_rows(q: Query, limit: nat) -> bool {
    exists|n: nat|
        n <= usize::MAX && #[trigger] showing::asks(q.value("limit"@), n, 500) && limit == if n
            <= 20_000 {
            n
        } else {
            20_000
        }
}

proof fn lemma_limit(q: Query, limit: nat)
    requires
        wants_rows(q, limit),
    ensures
        listing::at_most(
            listing::number_or(q.value("limit"@), usize::MAX as nat, 500),
            20_000,
        ) == limit,
{
    let n = choose|n: nat|
        n <= usize::MAX && #[trigger] showing::asks(q.value("limit"@), n, 500) && limit == if n
            <= 20_000 {
            n
        } else {
            20_000
        };
    showing::lemma_asks(q.value("limit"@), usize::MAX as nat, n, 500);
}

/// Some row shows this.
pub open spec fn some_row(rows: Seq<Row>, v: RowView) -> bool {
    exists|y: int| 0 <= y < rows.len() && (#[trigger] rows[y])@ == v
}

/// Law: a request to search is answered with what a search for its text in lower case
/// finds, every row of it and no other, the largest first, those of one size as that search
/// has them; it is said where the limit was reached. It fails only where that search does.
pub proof fn law_search_request(
    s: &Snapshot,
    q: &Query,
    r: Option<SearchJson>,
    low: &str,
    limit: usize,
    found: Option<Vec<Row>>,
)
    requires
        s.wf(),
        q.wf(),
        call_ensures(listing::search, (s, q), r),
        low@ == text::lower_text(term(*q)),
        wants_rows(*q, limit as nat),
        call_ensures(Snapshot::find, (s, low, limit), found),
    ensures
        r is Some <==> found is Some,
        r matches Some(j) ==> found matches Some(rows) && {
            &&& j.rows@.len() == rows@.len()
            &&& j.truncated == (rows@.len() >= limit)
            &&& forall|x: int, y: int|
                0 <= x < y < j.rows@.len() ==> (#[trigger] j.rows@[x]).size >= (
                #[trigger] j.rows@[y]).size
            &&& forall|x: int, y: int|
                #![trigger j.rows@[x], j.rows@[y]]
                0 <= x < y < j.rows@.len() && j.rows@[x].size == j.rows@[y].size ==> {
                    &&& j.rows@[x].is_dir || !j.rows@[y].is_dir
                    &&& j.rows@[x].is_dir == j.rows@[y].is_dir ==> j.rows@[x].id < j.rows@[y].id
                }
            &&& forall|x: int|
                #![trigger rows@[x]]
                0 <= x < rows@.len() ==> some_row(j.rows@, rows@[x]@)
            &&& forall|y: int|
                #![trigger j.rows@[y]]
                0 <= y < j.rows@.len() ==> some_row(rows@, j.rows@[y]@)
        },
{
    lemma_limit(*q, limit as nat);
    let n = encode_utf8(low@);
    if r is Some && found is Some {
        let j = r->0;
        let rows = found->0;
        let all = records::shown(rows@);
        let shown = records::shown(j.rows@);
        assert(all == s.found(n, limit as nat));
        assert(all.len() == rows@.len() && shown.len() == j.rows@.len());
        let names = order::lower_names(all);
        let p = choose|p: Seq<usize>| #[trigger]
            order::ordered(p, all, names, Sort::Size, false) && shown == order::page(
                order::taken(all, p),
                0,
                all.len(),
            );
        assert(shown =~= order::taken(all, p));
        assert forall|x: int, y: int| 0 <= x < y < j.rows@.len() implies (
        #[trigger] j.rows@[x]).size >= (#[trigger] j.rows@[y]).size by {
            assert(shown[x] == j.rows@[x]@ && shown[y] == j.rows@[y]@);
            assert(order::above(all, names, Sort::Size, false, p[x] as int, p[y] as int));
        }
        lemma_found(*s, low@, limit as nat, rows@);
        assert forall|x: int, y: int|
            #![trigger j.rows@[x], j.rows@[y]]
            0 <= x < y < j.rows@.len() && j.rows@[x].size == j.rows@[y].size implies (
        j.rows@[x].is_dir || !j.rows@[y].is_dir) && (j.rows@[x].is_dir == j.rows@[y].is_dir
            ==> j.rows@[x].id < j.rows@[y].id) by {
            assert(shown[x] == j.rows@[x]@ && shown[y] == j.rows@[y]@);
            assert(order::above(all, names, Sort::Size, false, p[x] as int, p[y] as int));
            assert(p[x] < all.len() && p[y] < all.len());
            let a = rows@[p[x] as int];
            let b = rows@[p[y] as int];
            assert(all[p[x] as int] == a@ && all[p[y] as int] == b@);
        }
        assert forall|x: int| #![trigger rows@[x]] 0 <= x < rows@.len() implies some_row(
            j.rows@,
            rows@[x]@,
        ) by {
            assert(all[x] == rows@[x]@);
            assert(p.contains(x as usize));
            let y = choose|y: int| 0 <= y < p.len() && p[y] == x as usize;
            assert(shown[y] == j.rows@[y]@);
        }
        assert forall|y: int| #![trigger j.rows@[y]] 0 <= y < j.rows@.len() implies some_row(
            rows@,
            j.rows@[y]@,
        ) by {
            assert(shown[y] == j.rows@[y]@);
            assert(p[y] < all.len());
            assert(all[p[y] as int] == rows@[p[y] as int]@);
        }
    }
}

/// Law: what is looked for may be written in any case: requests whose texts are the same in
/// lower case are answered the same.
pub proof fn law_search_request_any_case(
    s: &Snapshot,
    q: &Query,
    r: Option<SearchJson>,
    qu: &Query,
    ru: Option<SearchJson>,
)
    requires
        s.wf(),
        q.wf(),
        qu.wf(),
        call_ensures(listing::search, (s, q), r),
        call_ensures(listing::search, (s, qu), ru),
        text::lower_text(term(*q)) == text::lower_text(term(*qu)),
        q.value("limit"@) == qu.value("limit"@),
    ensures
        r is Some <==> ru is Some,
        r is Some ==> {
            &&& r->0.truncated == ru->0.truncated
            &&& r->0.rows@.len() == ru->0.rows@.len()
            &&& forall|x: int|
                #![trigger r->0.rows@[x]]
                0 <= x < r->0.rows@.len() ==> r->0.rows@[x]@ == ru->0.rows@[x]@
        },
{
    if r is Some && ru is Some {
        let a = records::shown(r->0.rows@);
        let b = records::shown(ru->0.rows@);
        let limit = listing::at_most(
            listing::number_or(q.value("limit"@), usize::MAX as nat, 500),
            20_000,
        );
        let all = s.found(encode_utf8(text::lower_text(term(*q))), limit);
        let names = order::lower_names(all);
        let p = choose|p: Seq<usize>| #[trigger]
            order::ordered(p, all, names, Sort::Size, false) && a == order::page(
                order::taken(all, p),
                0,
                all.len(),
            );
        let v = choose|v: Seq<usize>| #[trigger]
            order::ordered(v, all, names, Sort::Size, false) && b == order::page(
                order::taken(all, v),
                0,
                all.len(),
            );
        order::law_one_order(p, v, all, names, Sort::Size, false);
        assert(a == b);
        assert(a.len() == r->0.rows@.len() && b.len() == ru->0.rows@.len());
        assert forall|x: int| #![trigger r->0.rows@[x]] 0 <= x < r->0.rows@.len() implies r->0.rows@[x]@
            == ru->0.rows@[x]@ by {
            assert(a[x] == r->0.rows@[x]@ && b[x] == ru->0.rows@[x]@);
        }
    }
}

} // verus!
