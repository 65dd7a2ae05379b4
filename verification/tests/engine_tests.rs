use dirsync::init::{clear_action, plan_populate, ClearAction, EntryKind};
use dirsync::paths::dest_path;
use dirsync::table::{bytes_eq, DirectorySnapshot, ModTimeTable};
use dirsync::tick::{classify, plan_tick, SyncAction};

fn p(s: &str) -> Vec<u8> {
    s.as_bytes().to_vec()
}

#[test]
fn bytes_eq_compares_contents() {
    assert!(bytes_eq(&p("a/b"), &p("a/b")));
    assert!(!bytes_eq(&p("a/b"), &p("a/c")));
    assert!(!bytes_eq(&p("a/b"), &p("a/bc")));
}

#[test]
fn table_get_and_insert() {
    let mut t = ModTimeTable::new();
    assert_eq!(t.get(&p("work/a")), None);
    t.insert(p("work/a"), 5);
    assert_eq!(t.get(&p("work/a")), Some(5));
    t.insert(p("work/a"), 9);
    assert_eq!(t.get(&p("work/a")), Some(9));
    assert_eq!(t.get(&p("work/b")), None);
}

#[test]
fn snapshot_keeps_first_record() {
    let mut s = DirectorySnapshot::new();
    assert_eq!(s.len(), 0);
    s.add(p("work/a"), 1);
    s.add(p("work/a"), 2);
    assert_eq!(s.len(), 1);
    assert!(s.contains(&p("work/a")));
    assert!(!s.contains(&p("work/b")));
}

#[test]
fn classify_decides_per_file() {
    assert_eq!(classify(None, 5), SyncAction::CopyNew);
    assert_eq!(classify(Some(3), 5), SyncAction::CopyModified);
    assert_eq!(classify(Some(5), 5), SyncAction::Skip);
    assert_eq!(classify(Some(7), 5), SyncAction::Skip);
}

#[test]
fn first_tick_copies_everything_and_records_wall_clock() {
    let mut table = ModTimeTable::new();
    let mut snap = DirectorySnapshot::new();
    snap.add(p("work/a"), 10);
    snap.add(p("work/b"), 11);
    let copies = plan_tick(&mut table, &snap, 100);
    assert_eq!(copies, vec![p("work/a"), p("work/b")]);
    assert_eq!(table.get(&p("work/a")), Some(100));
    assert_eq!(table.get(&p("work/b")), Some(100));
}

#[test]
fn modified_file_is_copied_and_untouched_file_is_not() {
    let mut table = ModTimeTable::new();
    table.insert(p("work/a"), 5);
    table.insert(p("work/b"), 5);
    let mut snap = DirectorySnapshot::new();
    snap.add(p("work/a"), 6);
    snap.add(p("work/b"), 5);
    let copies = plan_tick(&mut table, &snap, 100);
    assert_eq!(copies, vec![p("work/a")]);
    // The stored time is deliberately not refreshed on the modified branch.
    assert_eq!(table.get(&p("work/a")), Some(5));
    assert_eq!(table.get(&p("work/b")), Some(5));
}

#[test]
fn new_file_appears_in_copy_list_once() {
    let mut table = ModTimeTable::new();
    table.insert(p("work/a"), 5);
    let mut snap = DirectorySnapshot::new();
    snap.add(p("work/a"), 5);
    snap.add(p("work/sub/c"), 7);
    let copies = plan_tick(&mut table, &snap, 42);
    assert_eq!(copies, vec![p("work/sub/c")]);
    assert_eq!(table.get(&p("work/sub/c")), Some(42));
    // The new file lands in the backup at the same relative path.
    assert_eq!(
        dest_path(&copies[0], &p("work"), &p("backup")),
        Some(p("backup/sub/c"))
    );
}

#[test]
fn vanished_file_is_neither_copied_nor_forgotten() {
    let mut table = ModTimeTable::new();
    table.insert(p("work/a"), 5);
    let snap = DirectorySnapshot::new();
    let copies = plan_tick(&mut table, &snap, 100);
    assert!(copies.is_empty());
    // The table never drops an entry: deletion does not propagate.
    assert_eq!(table.get(&p("work/a")), Some(5));
}

#[test]
fn older_observation_is_skipped() {
    let mut table = ModTimeTable::new();
    table.insert(p("work/a"), 9);
    let mut snap = DirectorySnapshot::new();
    snap.add(p("work/a"), 3);
    let copies = plan_tick(&mut table, &snap, 100);
    assert!(copies.is_empty());
    assert_eq!(table.get(&p("work/a")), Some(9));
}

#[test]
fn many_changes_in_one_tick_are_all_dispatched() {
    let mut table = ModTimeTable::new();
    let mut snap = DirectorySnapshot::new();
    // 50 known and modified, 50 known and unchanged, 50 new.
    for i in 0..50 {
        let path = p(&format!("work/mod{i}"));
        table.insert(path.clone(), 10);
        snap.add(path, 11);
    }
    for i in 0..50 {
        let path = p(&format!("work/same{i}"));
        table.insert(path.clone(), 10);
        snap.add(path, 10);
    }
    for i in 0..50 {
        snap.add(p(&format!("work/new{i}")), 12);
    }
    let copies = plan_tick(&mut table, &snap, 777);
    assert_eq!(copies.len(), 100);
    for i in 0..50 {
        assert!(copies.contains(&p(&format!("work/mod{i}"))));
        assert!(copies.contains(&p(&format!("work/new{i}"))));
        assert!(!copies.contains(&p(&format!("work/same{i}"))));
        assert_eq!(table.get(&p(&format!("work/new{i}"))), Some(777));
        assert_eq!(table.get(&p(&format!("work/mod{i}"))), Some(10));
    }
}

#[test]
fn clear_action_handles_each_entry_kind() {
    assert_eq!(clear_action(EntryKind::Directory), ClearAction::RemoveTree);
    assert_eq!(clear_action(EntryKind::File), ClearAction::RemoveFile);
    assert_eq!(clear_action(EntryKind::Other), ClearAction::Fail);
}

#[test]
fn populate_plan_rebases_every_backup_file() {
    let mut snap = DirectorySnapshot::new();
    snap.add(p("backup/x"), 1);
    snap.add(p("backup/sub/y"), 2);
    let ops = plan_populate(&snap, &p("backup"), &p("work")).unwrap();
    assert_eq!(ops.len(), 2);
    assert_eq!(ops[0].src, p("backup/x"));
    assert_eq!(ops[0].dst, p("work/x"));
    assert_eq!(ops[1].src, p("backup/sub/y"));
    assert_eq!(ops[1].dst, p("work/sub/y"));
}

#[test]
fn populate_plan_fails_on_first_stray_path() {
    let mut snap = DirectorySnapshot::new();
    snap.add(p("backup/x"), 1);
    snap.add(p("elsewhere/z"), 2);
    let err = plan_populate(&snap, &p("backup"), &p("work")).unwrap_err();
    assert_eq!(err.path, p("elsewhere/z"));
}

#[test]
fn initialization_is_idempotent() {
    let mut snap = DirectorySnapshot::new();
    snap.add(p("backup/x"), 1);
    snap.add(p("backup/sub/y"), 2);
    snap.add(p("backup/sub/deep/z"), 3);
    let first = plan_populate(&snap, &p("backup"), &p("work")).unwrap();
    let second = plan_populate(&snap, &p("backup"), &p("work")).unwrap();
    assert_eq!(first.len(), second.len());
    for (a, b) in first.iter().zip(second.iter()) {
        assert_eq!(a.src, b.src);
        assert_eq!(a.dst, b.dst);
    }
    // The planned destinations are exactly the backup's files, rebased.
    let dsts: Vec<Vec<u8>> = first.iter().map(|o| o.dst.clone()).collect();
    assert_eq!(dsts, vec![p("work/x"), p("work/sub/y"), p("work/sub/deep/z")]);
}
