use diskmap::explorer::{App, Status};
use diskmap::http::{parse_query, Query};
use diskmap::listing::{in_bounds, open_arg, reveal_arg, search, search_for, tree};
use diskmap::order::{arrange, pick, sort_rows, Sort};
use diskmap::path::join;
use diskmap::records::{DirRec, FileRec, Row, Unreadable};
use diskmap::refusal::Refusal;
use diskmap::snapshot::Snapshot;
use diskmap::win32::Drive;

fn drive(letter: char) -> Drive {
    Drive {
        letter,
        label: format!("vol{}", letter),
        fs: "NTFS".to_string(),
        kind: 3,
        total: 1000,
        free: 10,
    }
}

fn dir(id: u32, parent: u32, name: &str, t: i64) -> DirRec {
    DirRec { id, parent, name: name.to_string(), own_mtime: t }
}

fn file(parent: u32, name: &str, size: u64, mtime: i64) -> FileRec {
    FileRec { parent, name: name.to_string(), size, mtime }
}

/// C:\ > b (1), A (2) ; files of C:\: z (5), Y (5), x (90) ; in A: 7 bytes
fn sample() -> Snapshot {
    Snapshot::new(
        "C:\\".to_string(),
        vec![dir(0, 0, "C:\\", 1), dir(1, 0, "b", 2), dir(2, 0, "A", 3)],
        vec![
            file(0, "z", 5, 10),
            file(0, "Y", 5, 20),
            file(0, "x", 90, 30),
            file(2, "in", 7, 40),
        ],
        3,
        4,
        5,
    )
}

fn names(rows: &[Row]) -> Vec<String> {
    rows.iter().map(|r| r.name.clone()).collect()
}

fn listed(q: &str) -> Vec<String> {
    names(&tree(&sample(), &parse_query(q)).unwrap().rows)
}

#[test]
fn a_folder_is_listed_by_size_first() {
    // Children come last first: A, b, then x, Y, z. Rows of one size keep that order.
    assert_eq!(listed(""), vec!["x", "A", "Y", "z", "b"]);
    assert_eq!(listed("order=asc"), vec!["b", "Y", "z", "A", "x"]);
    assert_eq!(listed("sort=other"), vec!["x", "A", "Y", "z", "b"]);
}

#[test]
fn a_folder_is_listed_by_name_date_or_count() {
    assert_eq!(listed("sort=name&order=asc"), vec!["A", "b", "x", "Y", "z"]);
    assert_eq!(listed("sort=name"), vec!["z", "Y", "x", "b", "A"]);
    assert_eq!(listed("sort=mtime"), vec!["A", "x", "Y", "z", "b"]);
    assert_eq!(listed("sort=count"), vec!["A", "x", "Y", "z", "b"]);
    assert_eq!(listed("sort=count&order=asc"), vec!["b", "A", "x", "Y", "z"]);
}

#[test]
fn a_listing_tells_where_it_is() {
    let s = sample();
    let t = tree(&s, &parse_query("id=2")).unwrap();
    assert_eq!(names(&t.rows), vec!["in"]);
    assert!(!t.rows[0].is_dir);
    assert_eq!(t.rows[0].id, 3);
    assert_eq!(t.rows[0].path, "");
    let way: Vec<(String, u32)> = t.path.iter().map(|c| (c.name.clone(), c.id)).collect();
    assert_eq!(way, vec![("C:\\".to_string(), 0), ("A".to_string(), 2)]);
    assert_eq!(t.parent_size, 7);
    assert_eq!(t.total_size, 1);
    assert!(!t.truncated);
    let t = tree(&s, &Query::new()).unwrap();
    assert_eq!(t.parent_size, 107);
    assert_eq!(t.rows[1].count, 1);
    assert!(t.rows[1].is_dir);
}

#[test]
fn pages_of_a_listing() {
    let s = sample();
    let t = tree(&s, &parse_query("limit=2")).unwrap();
    assert_eq!(names(&t.rows), vec!["x", "A"]);
    assert_eq!(t.total_size, 5);
    assert!(t.truncated);
    let t = tree(&s, &parse_query("limit=2&offset=2")).unwrap();
    assert_eq!(names(&t.rows), vec!["Y", "z"]);
    assert!(t.truncated);
    let t = tree(&s, &parse_query("limit=2&offset=4")).unwrap();
    assert_eq!(names(&t.rows), vec!["b"]);
    assert!(!t.truncated);
    let t = tree(&s, &parse_query("offset=99")).unwrap();
    assert!(t.rows.is_empty());
    assert!(!t.truncated);
    let t = tree(&s, &parse_query("limit=0")).unwrap();
    assert!(t.rows.is_empty());
    assert!(t.truncated);
    // Nothing lies behind the last page, however far it starts.
    let t = tree(&s, &parse_query("limit=2&offset=18446744073709551615")).unwrap();
    assert!(t.rows.is_empty());
    assert!(!t.truncated);
}

#[test]
fn a_folder_that_is_not_there() {
    let s = sample();
    assert!(matches!(tree(&s, &parse_query("id=3")), Err(Refusal::DirOutOfRange)));
    // What is no number stands for the root.
    assert_eq!(tree(&s, &parse_query("id=-1")).unwrap().parent_size, 107);
    assert_eq!(tree(&s, &parse_query("id=4294967296")).unwrap().parent_size, 107);
}

fn row(id: u32, name: &str, size: u64) -> Row {
    Row { id, name: name.to_string(), size, count: 0, mtime: 0, is_dir: false, path: String::new() }
}

#[test]
fn rows_with_the_same_key_keep_their_order() {
    let rows = vec![row(0, "b", 1), row(1, "A", 2), row(2, "B", 1), row(3, "a", 2), row(4, "c", 1)];
    assert_eq!(sort_rows(&rows, Sort::Size, true), vec![0, 2, 4, 1, 3]);
    assert_eq!(sort_rows(&rows, Sort::Size, false), vec![1, 3, 0, 2, 4]);
    assert_eq!(sort_rows(&rows, Sort::Name, true), vec![1, 3, 0, 2, 4]);
    assert_eq!(sort_rows(&rows, Sort::Name, false), vec![4, 0, 2, 1, 3]);
    assert_eq!(sort_rows(&Vec::new(), Sort::Name, true), Vec::<usize>::new());
    let p = sort_rows(&rows, Sort::Name, true);
    assert_eq!(names(&pick(&rows, &p, 1, 2)), vec!["a", "b"]);
}

#[test]
fn names_are_compared_without_their_case_beyond_ascii() {
    let rows = vec![row(0, "\u{c9}b", 0), row(1, "\u{e9}a", 0)];
    assert_eq!(sort_rows(&rows, Sort::Name, true), vec![1, 0]);
    // With the keys as they stand, the capital comes first.
    let keys = vec!["\u{c9}b".to_string(), "\u{e9}a".to_string()];
    assert_eq!(arrange(&rows, &keys, Sort::Name, true), vec![0, 1]);
    // A shorter text comes before a longer one that starts with it.
    let keys = vec!["ab".to_string(), "a".to_string()];
    assert_eq!(arrange(&rows, &keys, Sort::Name, true), vec![1, 0]);
}

#[test]
fn a_search_shows_the_largest_first() {
    let s = sample();
    let r = search(&s, &parse_query("q=X")).unwrap();
    assert_eq!(names(&r.rows), vec!["x"]);
    assert_eq!(r.rows[0].path, "C:\\x");
    assert!(!r.truncated);
    let r = search_for(&s, "a", 500).unwrap();
    assert_eq!(names(&r.rows), vec!["A"]);
    let r = search(&s, &parse_query("q=&limit=5")).unwrap();
    assert!(r.rows.is_empty());
    let r = search(&s, &parse_query("q=I&limit=1")).unwrap();
    assert_eq!(names(&r.rows), vec!["in"]);
    assert!(r.truncated);
    let all = Snapshot::new(
        "C:\\".to_string(),
        vec![dir(0, 0, "C:\\", 0)],
        vec![file(0, "f1", 1, 0), file(0, "F2", 9, 0), file(0, "f3", 4, 0)],
        0,
        0,
        0,
    );
    let r = search(&all, &parse_query("q=F")).unwrap();
    assert_eq!(names(&r.rows), vec!["F2", "f3", "f1"]);
}

#[test]
fn a_search_goes_beyond_ascii() {
    let s = Snapshot::new(
        "C:\\".to_string(),
        vec![dir(0, 0, "C:\\", 0)],
        vec![file(0, "\u{e9}t\u{e9}.txt", 1, 0)],
        0,
        0,
        0,
    );
    let r = search(&s, &parse_query("q=%C3%89T%C3%89")).unwrap();
    assert_eq!(r.rows.len(), 1);
    let s = Snapshot::new(
        "C:\\".to_string(),
        vec![dir(0, 0, "C:\\", 0)],
        vec![file(0, "\u{c9}T\u{c9}.TXT", 1, 1)],
        0,
        0,
        0,
    );
    for q in ["q=%C3%89T%C3%89", "q=%C3%A9t%C3%A9.txt", "q=%C3%89t%C3%A9"] {
        let r = search(&s, &parse_query(q)).unwrap();
        assert_eq!(names(&r.rows), vec!["\u{c9}T\u{c9}.TXT"]);
        assert!(!r.truncated);
    }
}

#[test]
fn opening_and_revealing() {
    let mut s = sample();
    assert_eq!(open_arg(&s, 2, false), "C:\\A");
    assert_eq!(open_arg(&s, 3, true), "/select,C:\\A\\in");
    assert!(in_bounds(&s, 2, false).is_ok());
    assert!(matches!(in_bounds(&s, 3, false), Err(Refusal::DirOutOfRange)));
    assert!(in_bounds(&s, 3, true).is_ok());
    assert!(matches!(in_bounds(&s, 4, true), Err(Refusal::FileOutOfRange)));
    s.unreadable.push(Unreadable { path: "C:\\a, b".to_string(), droits: true });
    assert_eq!(reveal_arg(&s, "C:\\a, b").unwrap(), "/select,\"C:\\a, b\"");
    assert!(matches!(reveal_arg(&s, "C:\\a"), Err(Refusal::NotUnreadable)));
}

#[test]
fn paths_are_joined_as_the_system_does() {
    assert_eq!(join("C:\\", "a"), "C:\\a");
    assert_eq!(join("C:\\a", "b"), "C:\\a\\b");
    assert_eq!(join("C:\\a", "D:\\b"), "D:\\b");
    assert_eq!(join("C:\\a", "\\b"), "C:\\b");
    assert_eq!(join("C:", "a"), "C:a");
    assert_eq!(join("", "a"), "a");
    assert_eq!(join("C:\\a", "\\\\srv\\x"), "\\\\srv\\x");
    assert_eq!(join("C:\\a", "C:b"), "C:b");
    assert_eq!(join("C:\\a", ""), "C:\\a\\");
}

#[test]
fn only_a_full_prefix_replaces_the_base() {
    // Two separators that name no server and share: a root, and the drive stays.
    assert_eq!(join("C:\\", "\\\\x"), "C:\\\\x");
    assert_eq!(join("C:\\a", "\\\\"), "C:\\\\");
    assert_eq!(join("C:\\a", "//srv"), "C://srv");
    assert_eq!(join("C:\\a", "\\\\srv\\"), "C:\\\\srv\\");
    assert_eq!(join("C:\\a", "//srv/share"), "//srv/share");
    assert_eq!(join("C:\\a", "\\\\?\\D:\\b"), "\\\\?\\D:\\b");
    assert_eq!(join("C:\\a", "\\\\.\\COM4"), "\\\\.\\COM4");
}

#[test]
fn a_base_keeps_its_prefix() {
    assert_eq!(join("\\\\srv\\share\\a", "\\b"), "\\\\srv\\share\\b");
    assert_eq!(join("\\\\srv\\share", "b"), "\\\\srv\\share\\b");
    assert_eq!(join("\\\\.\\dev\\a", "\\b"), "\\\\.\\dev\\b");
    assert_eq!(join("rel", "\\b"), "\\b");
}

#[test]
fn a_verbatim_base_is_followed_name_by_name() {
    assert_eq!(join("\\\\?\\C:\\a", "b"), "\\\\?\\C:\\a\\b");
    assert_eq!(join("\\\\?\\C:\\a\\", "b/c"), "\\\\?\\C:\\a\\b\\c");
    assert_eq!(join("\\\\?\\C:\\a", "..\\.\\b"), "\\\\?\\C:\\b");
    assert_eq!(join("\\\\?\\C:\\a", "..\\..\\.."), "\\\\?\\C:\\");
    assert_eq!(join("\\\\?\\C:\\a", "\\b"), "\\\\?\\C:\\b");
    assert_eq!(join("\\\\?\\C:", "b"), "\\\\?\\C:\\b");
    assert_eq!(join("\\\\?\\UNC\\srv\\share\\a", "\\b"), "\\\\?\\UNC\\srv\\share\\b");
    assert_eq!(join("\\\\?\\pipe\\a", "b"), "\\\\?\\pipe\\a\\b");
}

fn app() -> App {
    // In no order, and D twice: the last one counts.
    App::new(
        vec![drive('E'), drive('D'), drive('C'), drive('D')],
        vec![None, Some(sample()), Some(sample()), None],
        true,
    )
}

fn letters(a: &App) -> Vec<char> {
    a.drives.iter().map(|d| d.info.letter).collect()
}

fn status(a: &App, l: char) -> Status {
    a.drives.iter().find(|d| d.info.letter == l).unwrap().status
}

#[test]
fn volumes_without_an_index_wait_to_be_walked() {
    let mut a = app();
    assert_eq!(letters(&a), vec!['C', 'D', 'E']);
    assert_eq!(status(&a, 'C'), Status::Ready);
    assert_eq!(status(&a, 'D'), Status::Empty);
    assert_eq!(a.queue, vec!['D', 'E']);
    assert_eq!(a.pump(), Some('D'));
    assert_eq!(a.scanning, Some('D'));
    assert_eq!(status(&a, 'D'), Status::Scanning);
    assert_eq!(a.queue, vec!['E']);
}

#[test]
fn one_volume_is_walked_at_a_time() {
    let mut a = app();
    a.pump();
    assert_eq!(a.pump(), None);
    assert_eq!(a.start_scan('C'), None);
    assert_eq!(a.start_scan('C'), None);
    assert_eq!(a.start_scan('D'), None);
    assert_eq!(a.queue, vec!['E', 'C']);
    assert_eq!(a.finished('D', Some(sample())), Some('E'));
    assert_eq!(status(&a, 'D'), Status::Ready);
    assert_eq!(a.count_dirs('D'), 3);
    assert_eq!(a.count_files('D'), 4);
    assert_eq!(a.finished('E', Some(sample())), Some('C'));
    assert_eq!(a.finished('C', Some(sample())), None);
    assert_eq!(a.scanning, None);
    assert_eq!(a.start_scan('E'), Some('E'));
}

#[test]
fn a_walk_that_was_cut_short_keeps_the_index() {
    let mut a = app();
    a.queue.clear();
    assert_eq!(a.start_scan('C'), Some('C'));
    assert_eq!(a.finished('C', None), None);
    assert_eq!(status(&a, 'C'), Status::Empty);
    assert_eq!(a.count_dirs('C'), 3);
    assert_eq!(a.count_dirs('Z'), 0);
    assert_eq!(a.count_files('E'), 0);
}

#[test]
fn nothing_is_kept_of_a_walk_that_was_told_to_stop() {
    let mut a = app();
    a.queue.clear();
    assert_eq!(a.start_scan('E'), Some('E'));
    assert!(a.keeps('E'));
    assert!(a.quit(true).is_ok());
    assert!(!a.keeps('E'));
    assert_eq!(a.finished('E', Some(sample())), None);
    assert_eq!(status(&a, 'E'), Status::Empty);
    assert!(a.snapshot('E').is_none());
    assert_eq!(a.scanning, None);
    assert!(a.keeps('Q'));
}

#[test]
fn quitting_during_a_walk_takes_force() {
    let mut a = app();
    a.pump();
    a.note('D', 12, 34);
    match a.quit(false) {
        Err(Refusal::Busy { letter, dirs, files }) => {
            assert_eq!((letter, dirs, files), ('D', 12, 34));
        }
        _ => panic!(),
    }
    assert!(!a.stopping);
    assert!(a.quit(true).is_ok());
    assert!(a.stopping);
    assert!(a.queue.is_empty());
    assert!(a.drives.iter().all(|d| d.prog.cancel));
    // The walk is waited for, but not for ever.
    assert!(a.waits(0));
    assert!(a.waits(3000));
    assert!(!a.waits(3001));
    assert_eq!(a.finished('D', None), None);
    assert!(!a.waits(0));
    assert_eq!(a.start_scan('C'), None);
    a.stopped();
    assert_eq!(a.scanning, None);
    assert_eq!(a.pump(), None);
    assert!(matches!(a.scan_request("/api/scan/C"), Err(Refusal::Stopping)));
}

#[test]
fn quitting_when_nothing_is_walked() {
    let mut a = app();
    assert!(a.quit(false).is_ok());
    assert!(a.stopping);
}

#[test]
fn walks_on_request() {
    let mut a = app();
    assert!(matches!(a.scan_request("/api/scan/"), Err(Refusal::LetterMissing)));
    assert!(matches!(a.scan_request("/api/scan/q"), Err(Refusal::UnknownDrive)));
    assert!(matches!(a.scan_request("/api/scan/x/c:"), Ok(Some('D'))));
    assert_eq!(a.queue, vec!['E', 'C']);
}

#[test]
fn requests_name_a_volume() {
    let a = app();
    assert!(matches!(a.index(None), Err(Refusal::DriveMissing)));
    assert!(matches!(a.index(Some("")), Err(Refusal::DriveMissing)));
    assert!(matches!(a.index(Some("D")), Err(Refusal::NotScanned)));
    assert!(matches!(a.index(Some("Q")), Err(Refusal::NotScanned)));
    let (l, s) = a.index(Some("c:")).ok().unwrap();
    assert_eq!(l, 'C');
    assert_eq!(s.n_files(), 4);
    assert!(a.snapshot('D').is_none());
}

#[test]
fn requests_to_open() {
    let a = app();
    assert!(matches!(a.open(&parse_query("id=1")), Err(Refusal::DriveMissing)));
    assert!(matches!(a.open(&parse_query("drive=c")), Err(Refusal::BadId)));
    assert!(matches!(a.open(&parse_query("drive=c&id=x")), Err(Refusal::BadId)));
    assert!(matches!(a.open(&parse_query("drive=d&id=1")), Err(Refusal::NotScanned)));
    assert!(matches!(a.open(&parse_query("drive=c&id=3")), Err(Refusal::DirOutOfRange)));
    assert!(matches!(a.open(&parse_query("drive=c&id=4&kind=file")), Err(Refusal::FileOutOfRange)));
    let (_, id, is_file) = a.open(&parse_query("drive=c&id=3&kind=file")).ok().unwrap();
    assert_eq!((id, is_file), (3, true));
    let (_, id, is_file) = a.open(&parse_query("drive=c&id=2&kind=other")).ok().unwrap();
    assert_eq!((id, is_file), (2, false));
}

#[test]
fn the_state_of_the_volumes() {
    let mut a = app();
    a.pump();
    a.note('D', 3, 8);
    let j = a.state_json();
    assert_eq!(j.scanning.as_deref(), Some("D"));
    assert!(j.eleve);
    assert_eq!(j.drives.len(), 3);
    let c = &j.drives[0];
    assert_eq!((c.letter.as_str(), c.label.as_str(), c.fs.as_str()), ("C", "volC", "NTFS"));
    assert_eq!((c.total, c.free), (1000, 10));
    assert_eq!((c.n_dirs, c.n_files, c.root_size), (3, 4, 107));
    assert_eq!((c.elapsed_ms, c.finished_ms), (3, 5));
    assert_eq!(c.status, Status::Ready);
    let d = &j.drives[1];
    assert_eq!((d.n_dirs, d.n_files, d.root_size, d.dirs, d.files), (0, 0, 0, 3, 8));
    assert_eq!(d.status, Status::Scanning);
}
