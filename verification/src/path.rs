//! Paths of Windows volumes, as text.

use crate::records::DirRec;
use crate::split;
use crate::text;
use vstd::prelude::*;

verus! {

pub open spec fn is_sep(c: char) -> bool {
    c == '\\' || c == '/'
}

pub open spec fn is_letter(c: char) -> bool {
    'A' <= c <= 'Z' || 'a' <= c <= 'z'
}

/// The text starts with a drive: a letter and a colon.
pub open spec fn has_drive(s: Seq<char>) -> bool {
    s.len() >= 2 && is_letter(s[0]) && s[1] == ':'
}

/// Where the next separator stands from place `i` on: a backslash alone, or either kind
/// (`any`); the length where there is none.
pub open spec fn next_sep(s: Seq<char>, i: int, any: bool) -> int
    decreases s.len() - i,
{
    if i >= s.len() {
        s.len() as int
    } else if s[i] == '\\' || (any && s[i] == '/') {
        i
    } else {
        next_sep(s, i + 1, any)
    }
}

/// The path has the verbatim prefix.
pub open spec fn is_verbatim(s: Seq<char>) -> bool {
    s.len() >= 4 && s[0] == '\\' && s[1] == '\\' && s[2] == '?' && s[3] == '\\'
}

/// The end of a server and a share, the server from place `i` on: that of the server where
/// no share follows.
pub open spec fn share_end(s: Seq<char>, i: int, any: bool) -> int {
    let a = next_sep(s, i, any);
    let b = next_sep(s, a + 1, any);
    if b > a + 1 {
        b
    } else {
        a
    }
}

/// How long the prefix of a path is: a drive, a server and a share, a device, or one of
/// these in the verbatim form. Zero where the path has none.
pub open spec fn prefix_len(s: Seq<char>) -> int {
    if is_verbatim(s) {
        if s.len() >= 8 && s[4] == 'U' && s[5] == 'N' && s[6] == 'C' && is_sep(s[7]) {
            share_end(s, 8, false)
        } else if has_drive(s.skip(4)) && (s.len() == 6 || is_sep(s[6])) {
            6
        } else {
            next_sep(s, 4, false)
        }
    } else if s.len() >= 2 && is_sep(s[0]) && is_sep(s[1]) {
        if s.len() >= 4 && s[2] == '.' && is_sep(s[3]) {
            next_sep(s, 4, true)
        } else {
            let a = next_sep(s, 2, true);
            let b = next_sep(s, a + 1, true);
            if a > 2 && b > a + 1 {
                b
            } else {
                0
            }
        }
    } else if has_drive(s) {
        2
    } else {
        0
    }
}

/// Names, with a backslash between one and the next, among the first `k`.
pub open spec fn strung(names: Seq<Seq<char>>, k: int) -> Seq<char>
    decreases k,
{
    if k <= 0 {
        Seq::empty()
    } else if k == 1 {
        names[0]
    } else {
        strung(names, k - 1).push('\\') + names[k - 1]
    }
}

/// A text with backslashes for separators.
pub open spec fn backslashed(s: Seq<char>) -> Seq<char> {
    s.map_values(
        |c: char|
            if c == '/' {
                '\\'
            } else {
                c
            },
    )
}

/// One step from a folder: a dot stays there, two dots go back where there is a name to
/// take off, any other name goes in.
pub open spec fn stepped(names: Seq<Seq<char>>, name: Seq<char>) -> Seq<Seq<char>> {
    if name == "."@ {
        names
    } else if name == ".."@ {
        if names.len() > 0 && names.last() != "."@ && names.last() != ".."@ {
            names.drop_last()
        } else {
            names
        }
    } else {
        names.push(name)
    }
}

/// Where the first `k` steps lead.
pub open spec fn walked(names: Seq<Seq<char>>, steps: Seq<Seq<char>>, k: int) -> Seq<Seq<char>>
    decreases k,
{
    if k <= 0 {
        names
    } else {
        stepped(walked(names, steps, k - 1), steps[k - 1])
    }
}

/// A part starts at a root.
pub open spec fn is_rooted(part: Seq<char>) -> bool {
    part.len() > 0 && is_sep(part[0])
}

/// The names behind the prefix of a verbatim path.
pub open spec fn names_of(base: Seq<char>) -> Seq<Seq<char>> {
    split::names_between(base.skip(prefix_len(base)), '\\')
}

/// A part taken from a folder given in the verbatim form, where the system itself knows
/// neither dots nor slashes: name by name.
pub open spec fn joined_verbatim(base: Seq<char>, part: Seq<char>) -> Seq<char> {
    let n = prefix_len(base);
    let from = if is_rooted(part) {
        Seq::empty()
    } else {
        names_of(base)
    };
    let steps = split::names_between(backslashed(part), '\\');
    let names = walked(from, steps, steps.len() as int);
    if names.len() > 0 || is_rooted(part) || n < base.len() {
        base.take(n).push('\\') + strung(names, names.len() as int)
    } else {
        base.take(n)
    }
}

/// `part` taken from the folder `base`. A part with a prefix replaces the base. A part that
/// starts at a root keeps the prefix of the base. Any other part goes behind the base, with
/// one separator between them.
pub open spec fn joined(base: Seq<char>, part: Seq<char>) -> Seq<char> {
    if prefix_len(part) > 0 {
        part
    } else if is_verbatim(base) && part.len() > 0 {
        joined_verbatim(base, part)
    } else if is_rooted(part) {
        base.take(prefix_len(base)) + part
    } else if base.len() == 0 || is_sep(base.last()) || (has_drive(base) && base.len() == 2) {
        base + part
    } else {
        base.push('\\') + part
    }
}

fn sep(c: char) -> (r: bool)
    ensures
        r == is_sep(c),
{
    c == '\\' || c == '/'
}

fn drive(cs: &[char], at: usize) -> (r: bool)
    requires
        at <= cs@.len(),
    ensures
        r == has_drive(cs@.skip(at as int)),
{
    cs.len() - at >= 2 && cs[at + 1] == ':' && ((cs[at] >= 'A' && cs[at] <= 'Z') || (cs[at] >= 'a'
        && cs[at] <= 'z'))
}

fn find_sep(cs: &[char], i: usize, any: bool) -> (r: usize)
    ensures
        r == next_sep(cs@, i as int, any),
        r <= cs@.len(),
        i <= cs@.len() ==> i <= r,
{
    let mut k: usize = i;
    while k < cs.len()
        invariant
            i <= k,
            i <= cs@.len() ==> k <= cs@.len(),
            next_sep(cs@, i as int, any) == next_sep(cs@, k as int, any),
        decreases cs@.len() - k,
    {
        if cs[k] == '\\' || (any && cs[k] == '/') {
            return k;
        }
        k = k + 1;
    }
    cs.len()
}

pub fn verbatim(cs: &[char]) -> (r: bool)
    ensures
        r == is_verbatim(cs@),
{
    cs.len() >= 4 && cs[0] == '\\' && cs[1] == '\\' && cs[2] == '?' && cs[3] == '\\'
}

/// Finds the end of the prefix of a path.
fn prefix(cs: &[char]) -> (r: usize)
    ensures
        r == prefix_len(cs@),
        r <= cs@.len(),
{
    if verbatim(cs) {
        if cs.len() >= 8 && cs[4] == 'U' && cs[5] == 'N' && cs[6] == 'C' && sep(cs[7]) {
            let a = find_sep(cs, 8, false);
            if a == cs.len() {
                assert(next_sep(cs@, a + 1, false) == cs@.len());
                return a;
            }
            let b = find_sep(cs, a + 1, false);
            if b > a + 1 {
                b
            } else {
                a
            }
        } else if drive(cs, 4) && (cs.len() == 6 || sep(cs[6])) {
            6
        } else {
            find_sep(cs, 4, false)
        }
    } else if cs.len() >= 2 && sep(cs[0]) && sep(cs[1]) {
        if cs.len() >= 4 && cs[2] == '.' && sep(cs[3]) {
            find_sep(cs, 4, true)
        } else {
            let a = find_sep(cs, 2, true);
            if a == cs.len() {
                assert(next_sep(cs@, a + 1, true) == cs@.len());
                return 0;
            }
            let b = find_sep(cs, a + 1, true);
            if a > 2 && b > a + 1 {
                b
            } else {
                0
            }
        }
    } else {
        assert(cs@.skip(0) =~= cs@);
        if drive(cs, 0) {
            2
        } else {
            0
        }
    }
}

fn is_dots(s: &str) -> (r: bool)
    ensures
        r == (s@ == "."@ || s@ == ".."@),
{
    text::str_eq(s, ".") || text::str_eq(s, "..")
}

fn join_verbatim(b: &Vec<char>, part: &str, p: &Vec<char>) -> (r: String)
    requires
        is_verbatim(b@),
        p@ == part@,
    ensures
        r@ == joined_verbatim(b@, part@),
{
    let n = prefix(b);
    let rooted = p.len() > 0 && sep(p[0]);
    let mut slashed = String::new();
    let mut i: usize = 0;
    assert(slashed@ =~= backslashed(p@).take(0));
    while i < p.len()
        invariant
            i <= p@.len(),
            slashed@ == backslashed(p@).take(i as int),
        decreases p@.len() - i,
    {
        let c = if p[i] == '/' {
            '\\'
        } else {
            p[i]
        };
        slashed.push(c);
        assert(backslashed(p@).take(i + 1) =~= backslashed(p@).take(i as int).push(c));
        i = i + 1;
    }
    assert(slashed@ =~= backslashed(part@));
    let steps = split::split_names(slashed.as_str(), '\\');
    let ghost st = split::texts(steps@);
    let mut names: Vec<String> = if rooted {
        Vec::new()
    } else {
        let rest = text::string_of(b, n, b.len());
        assert(rest@ =~= b@.skip(n as int));
        split::split_names(rest.as_str(), '\\')
    };
    let ghost from = split::texts(names@);
    proof {
        if rooted {
            assert(from =~= Seq::empty());
        }
    }
    let mut k: usize = 0;
    while k < steps.len()
        invariant
            k <= steps@.len(),
            st == split::texts(steps@),
            split::texts(names@) == walked(from, st, k as int),
        decreases steps@.len() - k,
    {
        let ghost before = names@;
        let ghost was = split::texts(names@);
        assert(st[k as int] == steps@[k as int]@);
        let step = steps[k].as_str();
        if text::str_eq(step, ".") {
        } else if text::str_eq(step, "..") {
            let m = names.len();
            if m > 0 {
                assert(was.last() == names@[m - 1]@);
                if !is_dots(names[m - 1].as_str()) {
                    names.pop();
                    assert(split::texts(names@) =~= was.drop_last());
                }
            }
        } else {
            let name = steps[k].clone();
            names.push(name);
            assert(split::texts(names@) =~= was.push(name@));
        }
        assert(was.len() == before.len());
        k = k + 1;
    }
    let ghost all = split::texts(names@);
    assert(all.len() == names@.len());
    let mut out = text::string_of(b, 0, n);
    assert(out@ =~= b@.take(n as int));
    if names.len() > 0 || rooted || n < b.len() {
        out.push('\\');
        let ghost head = out@;
        let mut j: usize = 0;
        assert(out@ =~= head + strung(all, 0));
        while j < names.len()
            invariant
                j <= names@.len(),
                all == split::texts(names@),
                out@ == head + strung(all, j as int),
            decreases names@.len() - j,
        {
            assert(all[j as int] == names@[j as int]@);
            if j > 0 {
                out.push('\\');
            }
            out.append(names[j].as_str());
            assert(out@ =~= head + strung(all, j + 1));
            j = j + 1;
        }
    }
    out
}

/// Takes `part` from the folder `base`.
pub fn join(base: &str, part: &str) -> (r: String)
    ensures
        r@ == joined(base@, part@),
{
    let b = text::chars_of(base);
    let p = text::chars_of(part);
    if prefix(&p) > 0 {
        let mut out = String::new();
        out.append(part);
        assert(out@ =~= part@);
        return out;
    }
    if verbatim(&b) && p.len() > 0 {
        return join_verbatim(&b, part, &p);
    }
    if p.len() > 0 && sep(p[0]) {
        let n = prefix(&b);
        let mut out = text::string_of(&b, 0, n);
        assert(out@ =~= base@.take(n as int));
        out.append(part);
        return out;
    }
    let mut out = String::new();
    out.append(base);
    assert(out@ =~= base@);
    assert(b@.skip(0) =~= b@);
    if !(b.len() == 0 || sep(b[b.len() - 1]) || (b.len() == 2 && drive(&b, 0))) {
        out.push('\\');
    }
    out.append(part);
    out
}

/// The folders on the way from the top to folder `d`, `d` included.
pub open spec fn chain(dirs: Seq<DirRec>, d: u32) -> Seq<u32>
    decreases d,
{
    if d < dirs.len() && dirs[d as int].parent < d {
        chain(dirs, dirs[d as int].parent).push(d)
    } else {
        seq![d]
    }
}

/// The path of folder `d`: its name, taken from the path of its parent.
pub open spec fn path_of(dirs: Seq<DirRec>, d: u32) -> Seq<char>
    decreases d,
{
    if d < dirs.len() && dirs[d as int].parent < d {
        joined(path_of(dirs, dirs[d as int].parent), dirs[d as int].name@)
    } else {
        dirs[d as int].name@
    }
}

/// A way from the top to a folder: each folder is the parent of the next one.
pub proof fn lemma_chain(dirs: Seq<DirRec>, d: u32)
    requires
        d < dirs.len(),
    ensures
        chain(dirs, d).len() >= 1,
        chain(dirs, d).last() == d,
        forall|k: int|
            0 <= k < chain(dirs, d).len() ==> (#[trigger] chain(dirs, d)[k]) < dirs.len(),
        forall|k: int|
            #![trigger chain(dirs, d)[k]]
            0 < k < chain(dirs, d).len() ==> dirs[chain(dirs, d)[k] as int].parent == chain(
                dirs,
                d,
            )[k - 1] && chain(dirs, d)[k - 1] < chain(dirs, d)[k],
        !(dirs[chain(dirs, d)[0] as int].parent < chain(dirs, d)[0]),
    decreases d,
{
    if dirs[d as int].parent < d {
        lemma_chain(dirs, dirs[d as int].parent);
    }
}

/// The folders on the way from the top to folder `id`.
pub fn lineage(dirs: &Vec<DirRec>, id: u32) -> (r: Vec<u32>)
    requires
        id < dirs@.len(),
    ensures
        r@ == chain(dirs@, id),
{
    let mut up: Vec<u32> = Vec::new();
    let mut cur: u32 = id;
    while cur != 0 && dirs[cur as usize].parent < cur
        invariant
            cur <= id < dirs@.len(),
            chain(dirs@, id) == chain(dirs@, cur) + up@.reverse(),
        decreases cur,
    {
        let ghost before = up@;
        up.push(cur);
        proof {
            let p = dirs@[cur as int].parent;
            assert(up@.reverse() =~= seq![cur] + before.reverse());
            assert(chain(dirs@, p) + up@.reverse() =~= chain(dirs@, cur) + before.reverse());
        }
        cur = dirs[cur as usize].parent;
    }
    let mut out: Vec<u32> = Vec::new();
    out.push(cur);
    assert(out@ =~= chain(dirs@, cur));
    let mut k: usize = up.len();
    while k > 0
        invariant
            k <= up@.len(),
            out@ == chain(dirs@, cur) + up@.reverse().take(up@.len() - k),
        decreases k,
    {
        k = k - 1;
        out.push(up[k]);
        proof {
            let r = up@.reverse();
            assert(r.take(up@.len() - k) =~= r.take(up@.len() - k - 1).push(up@[k as int]));
        }
    }
    assert(up@.reverse().take(up@.len() as int) =~= up@.reverse());
    out
}

/// The path of folder `id`.
pub fn folder_path(dirs: &Vec<DirRec>, id: u32) -> (r: String)
    requires
        id < dirs@.len(),
    ensures
        r@ == path_of(dirs@, id),
{
    let way = lineage(dirs, id);
    proof {
        lemma_chain(dirs@, id);
    }
    let mut p = dirs[way[0] as usize].name.clone();
    let mut k: usize = 1;
    while k < way.len()
        invariant
            1 <= k <= way@.len(),
            way@ == chain(dirs@, id),
            p@ == path_of(dirs@, way@[k - 1]),
            forall|j: int| 0 <= j < way@.len() ==> (#[trigger] way@[j]) < dirs@.len(),
            forall|j: int|
                #![trigger way@[j]]
                0 < j < way@.len() ==> dirs@[way@[j] as int].parent == way@[j - 1] && way@[j - 1]
                    < way@[j],
        decreases way@.len() - k,
    {
        let ghost w = way@[k as int];
        p = join(p.as_str(), dirs[way[k] as usize].name.as_str());
        k = k + 1;
    }
    p
}

} // verus!
