use diskmap::walk::{forks, Listing, Progress, ScanState, Seen, MAX_UNREADABLE};

fn entry(name: &str, attributes: u32, is_dir: bool, size: u64, mtime: i64) -> Seen {
    Seen::Entry { name: name.to_string(), attributes, is_dir, size, mtime }
}

#[test]
fn a_walk_starts_with_the_root_alone() {
    let st = ScanState::new("C:\\".to_string(), 42);
    assert_eq!(st.dirs.len(), 1);
    assert_eq!(st.dirs[0].name, "C:\\");
    assert_eq!(st.dirs[0].own_mtime, 42);
    assert_eq!(st.dirs[0].parent, 0);
    let p = Progress::new();
    assert_eq!((p.dirs, p.files, p.errors, p.cancel), (0, 0, 0, false));
}

#[test]
fn a_folder_gets_its_number_before_its_children() {
    let mut st = ScanState::new("C:\\".to_string(), 1);
    let top = Listing::Entries(vec![
        entry("a", 0x10, true, 0, 2),
        entry("f", 0x20, false, 9, 3),
        entry("b", 0x10, true, 0, 4),
        Seen::Lost,
    ]);
    assert!(st.has_room(4));
    let next = st.walk(0, &top);
    assert_eq!(next, vec![(1, 0), (2, 2)]);
    let sub = Listing::Entries(vec![entry("c", 0x10, true, 0, 5), entry("g", 0, false, 1, 6)]);
    let next = st.walk(1, &sub);
    assert_eq!(next, vec![(3, 0)]);
    assert_eq!(st.dirs[3].parent, 1);
    assert_eq!(st.files[1].parent, 1);
    assert_eq!(st.prog.dirs, 2);
    assert_eq!(st.prog.files, 2);
    assert_eq!(st.prog.errors, 1);
    assert_eq!(st.skipped, 1);
    let s = st.scan("C:\\".to_string(), 7, 8);
    assert_eq!(s.size, vec![10, 1, 0, 0]);
    assert_eq!(s.count[0], 2);
    assert_eq!(s.mtime, vec![6, 6, 4, 5]);
    assert_eq!(s.elapsed_ms, 7);
    assert_eq!(s.finished_ms, 8);
    assert_eq!(s.errors, 1);
    assert_eq!(s.skipped, 1);
    assert_eq!(s.dir_path(3), "C:\\a\\c");
}

#[test]
fn junctions_and_links_are_neither_counted_nor_followed() {
    let mut st = ScanState::new("C:\\".to_string(), 1);
    let l = Listing::Entries(vec![
        entry("Documents and Settings", 0x410, true, 0, 2),
        entry("link", 0x400, false, 99, 3),
    ]);
    let next = st.walk(0, &l);
    assert!(next.is_empty());
    assert_eq!(st.dirs.len(), 1);
    assert!(st.files.is_empty());
    assert_eq!(st.prog.dirs, 1);
    assert_eq!(st.prog.errors, 0);
}

#[test]
fn unreadable_folders_are_counted_and_named() {
    let mut st = ScanState::new("C:\\".to_string(), 1);
    st.walk(0, &Listing::Entries(vec![entry("secret", 0x10, true, 0, 2)]));
    st.walk(1, &Listing::Refused(Some(5)));
    st.walk(0, &Listing::Refused(Some(3)));
    st.walk(0, &Listing::Refused(None));
    assert_eq!(st.unreadable_total, 3);
    assert_eq!(st.unreadable_droits, 1);
    assert_eq!(st.prog.errors, 3);
    assert_eq!(st.unreadable[0].path, "C:\\secret");
    assert!(st.unreadable[0].droits);
    assert!(!st.unreadable[1].droits);
    assert_eq!(st.unreadable[1].path, "C:\\");
}

#[test]
fn the_list_of_unreadable_folders_is_capped() {
    let mut st = ScanState::new("C:\\".to_string(), 1);
    for _ in 0..MAX_UNREADABLE + 20 {
        st.walk(0, &Listing::Refused(Some(5)));
    }
    assert_eq!(st.unreadable.len(), 500);
    assert_eq!(st.unreadable_total, 520);
    let s = st.scan("C:\\".to_string(), 0, 0);
    let u = diskmap::listing::unreadable(&s);
    assert_eq!(u.items.len(), 500);
    assert_eq!(u.total, 520);
    assert_eq!(u.droits, 520);
    assert!(u.tronque);
}

#[test]
fn jobs_are_forked_down_to_sixteen_levels() {
    assert!(forks(0, 2));
    assert!(forks(15, 2));
    assert!(!forks(16, 50));
    assert!(!forks(0, 1));
}

#[test]
fn a_walk_that_was_told_to_stop_records_nothing() {
    let mut st = ScanState::new("C:\\".to_string(), 1);
    st.walk(0, &Listing::Entries(vec![entry("a", 0x10, true, 0, 2)]));
    st.cancel();
    assert!(st.prog.cancel);
    let next = st.walk(1, &Listing::Entries(vec![entry("b", 0x10, true, 0, 2), Seen::Lost]));
    assert!(next.is_empty());
    assert!(st.walk(1, &Listing::Refused(Some(5))).is_empty());
    assert_eq!(st.dirs.len(), 2);
    assert!(st.files.is_empty());
    assert!(st.unreadable.is_empty());
    assert_eq!((st.prog.dirs, st.prog.files, st.prog.errors), (1, 0, 0));
    assert_eq!((st.unreadable_total, st.skipped), (0, 0));
}
