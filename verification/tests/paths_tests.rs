use dirsync::paths::{dest_path, join, parent_dir, strip_prefix};

fn p(s: &str) -> Vec<u8> {
    s.as_bytes().to_vec()
}

#[test]
fn strip_prefix_removes_root() {
    assert_eq!(strip_prefix(&p("work/sub/a.txt"), &p("work")), Some(p("sub/a.txt")));
}

#[test]
fn strip_prefix_rejects_other_root() {
    assert_eq!(strip_prefix(&p("elsewhere/a.txt"), &p("work")), None);
}

#[test]
fn strip_prefix_rejects_root_itself() {
    assert_eq!(strip_prefix(&p("work"), &p("work")), None);
    assert_eq!(strip_prefix(&p("work/"), &p("work")), None);
}

#[test]
fn strip_prefix_rejects_sibling_with_shared_prefix() {
    assert_eq!(strip_prefix(&p("workbench/a.txt"), &p("work")), None);
}

#[test]
fn join_adds_one_separator() {
    assert_eq!(join(&p("backup"), &p("sub/a.txt")), p("backup/sub/a.txt"));
}

#[test]
fn parent_dir_drops_last_component() {
    assert_eq!(parent_dir(&p("backup/sub/dir/file.txt")), p("backup/sub/dir"));
}

#[test]
fn parent_dir_of_bare_name_is_empty() {
    assert_eq!(parent_dir(&p("file.txt")), p(""));
}

#[test]
fn dest_path_preserves_relative_path() {
    assert_eq!(
        dest_path(&p("work/sub/dir/file.txt"), &p("work"), &p("backup")),
        Some(p("backup/sub/dir/file.txt"))
    );
}

#[test]
fn dest_path_fails_outside_source_root() {
    assert_eq!(dest_path(&p("other/file.txt"), &p("work"), &p("backup")), None);
}
