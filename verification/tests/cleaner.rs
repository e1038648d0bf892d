use nmuidi::nmuidi::{
    classify, is_reparse_point, thread_budget, Action, Cleaner, FsEntry,
    FILE_ATTRIBUTE_REPARSE_POINT,
};

fn entry(path: &str, depth: usize, is_dir: bool, is_file: bool) -> FsEntry {
    FsEntry {
        path: path.to_string(),
        depth,
        ok: true,
        is_dir,
        is_file,
        is_symlink: false,
        readonly: false,
        attributes: 0,
    }
}

fn file(path: &str, depth: usize) -> FsEntry {
    entry(path, depth, false, true)
}

fn dir(path: &str, depth: usize) -> FsEntry {
    entry(path, depth, true, false)
}

#[test]
fn test_nested() {
    let entries = vec![
        dir("tmp/nested", 0),
        dir("tmp/nested/dir1", 1),
        file("tmp/nested/dir1/file1.txt", 2),
        dir("tmp/nested/dir1/dir2", 2),
        file("tmp/nested/dir1/dir2/file2.txt", 3),
        dir("tmp/nested/dir1/dir2/dir3", 3),
        file("tmp/nested/dir1/dir2/dir3/file3.txt", 4),
    ];
    let mut cleaner = Cleaner::new("tmp/nested");
    let plan = cleaner.plan_clean(&entries);

    assert_eq!(plan.actions.len(), 7);
    assert_eq!(plan.actions[0].1, Action::Skip);
    assert_eq!(
        plan.actions[1].1,
        Action::RecordDir {
            clear_readonly: false
        }
    );
    assert_eq!(
        plan.actions[2].1,
        Action::RemoveFile {
            clear_readonly: false
        }
    );

    assert_eq!(plan.dir_groups.len(), 3);
    assert_eq!(plan.dir_groups[0].depth, 3);
    assert_eq!(
        plan.dir_groups[0].dirs,
        vec!["tmp/nested/dir1/dir2/dir3".to_string()]
    );
    assert_eq!(plan.dir_groups[1].depth, 2);
    assert_eq!(
        plan.dir_groups[1].dirs,
        vec!["tmp/nested/dir1/dir2".to_string()]
    );
    assert_eq!(plan.dir_groups[2].depth, 1);
    assert_eq!(plan.dir_groups[2].dirs, vec!["tmp/nested/dir1".to_string()]);

    for g in &plan.dir_groups {
        assert!(g.depth >= 1);
        assert!(!g.dirs.contains(&"tmp/nested".to_string()));
    }
}

#[test]
fn test_dirs() {
    let entries = vec![
        dir("tmp/dirs", 0),
        dir("tmp/dirs/dir1", 1),
        dir("tmp/dirs/dir1a", 1),
        dir("tmp/dirs/dir1/dir2", 2),
        dir("tmp/dirs/dir1/dir2a", 2),
        dir("tmp/dirs/dir1/dir2/dir3", 3),
        dir("tmp/dirs/dir1/dir2/dir3a", 3),
    ];
    let mut cleaner = Cleaner::new("tmp/dirs");
    let plan = cleaner.plan_clean(&entries);

    assert_eq!(plan.dir_groups.len(), 3);
    assert_eq!(plan.dir_groups[0].depth, 3);
    assert_eq!(
        plan.dir_groups[0].dirs,
        vec![
            "tmp/dirs/dir1/dir2/dir3".to_string(),
            "tmp/dirs/dir1/dir2/dir3a".to_string()
        ]
    );
    assert_eq!(plan.dir_groups[1].depth, 2);
    assert_eq!(
        plan.dir_groups[1].dirs,
        vec![
            "tmp/dirs/dir1/dir2".to_string(),
            "tmp/dirs/dir1/dir2a".to_string()
        ]
    );
    assert_eq!(plan.dir_groups[2].depth, 1);
    assert_eq!(
        plan.dir_groups[2].dirs,
        vec!["tmp/dirs/dir1".to_string(), "tmp/dirs/dir1a".to_string()]
    );
}

#[test]
fn test_files() {
    let mut entries = vec![dir("tmp/files", 0)];
    for i in 1..=6 {
        entries.push(file(&format!("tmp/files/file{i}.txt"), 1));
    }
    let mut cleaner = Cleaner::new("tmp/files");
    let plan = cleaner.plan_clean(&entries);

    assert_eq!(plan.actions.len(), 7);
    assert_eq!(plan.actions[0].1, Action::Skip);
    for i in 1..=6 {
        assert_eq!(plan.actions[i].0, format!("tmp/files/file{i}.txt"));
        assert_eq!(
            plan.actions[i].1,
            Action::RemoveFile {
                clear_readonly: false
            }
        );
    }
    assert!(plan.dir_groups.is_empty());
}

#[test]
fn test_readonly_file_cleared_before_removal() {
    let mut e = file("tmp/ro/locked.txt", 1);
    e.readonly = true;
    assert_eq!(
        classify(&e),
        Action::RemoveFile {
            clear_readonly: true
        }
    );

    let mut d = dir("tmp/ro/dir", 1);
    d.readonly = true;
    assert_eq!(
        classify(&d),
        Action::RecordDir {
            clear_readonly: true
        }
    );
}

#[test]
fn test_junction_removed_as_single_unit() {
    let mut junction = dir("tmp/j/link", 1);
    junction.attributes = FILE_ATTRIBUTE_REPARSE_POINT;
    let entries = vec![
        dir("tmp/j", 0),
        junction,
        dir("tmp/j/real", 1),
        file("tmp/j/real/a.txt", 2),
    ];
    let mut cleaner = Cleaner::new("tmp/j");
    let plan = cleaner.plan_clean(&entries);

    assert_eq!(plan.actions[1].0, "tmp/j/link");
    assert_eq!(plan.actions[1].1, Action::RemoveJunction);
    assert_eq!(plan.dir_groups.len(), 1);
    assert_eq!(plan.dir_groups[0].depth, 1);
    assert_eq!(plan.dir_groups[0].dirs, vec!["tmp/j/real".to_string()]);
    for g in &plan.dir_groups {
        assert!(!g.dirs.contains(&"tmp/j/link".to_string()));
    }
}

#[test]
fn test_is_reparse_point_bit() {
    assert!(!is_reparse_point(0));
    assert!(is_reparse_point(0x0400));
    assert!(is_reparse_point(0x0410));
    assert!(!is_reparse_point(0x0010));
    assert!(!is_reparse_point(!0x0400));
}

#[test]
fn test_symlink_removed_not_followed() {
    let mut link = entry("tmp/s/link", 1, false, false);
    link.is_symlink = true;
    assert_eq!(
        classify(&link),
        Action::RemoveFile {
            clear_readonly: false
        }
    );
}

#[test]
fn test_unreadable_entry_skipped() {
    let mut e = file("tmp/u/gone.txt", 1);
    e.ok = false;
    assert_eq!(classify(&e), Action::Skip);
}

#[test]
fn test_failure_isolation() {
    let healthy = vec![
        dir("tmp/iso", 0),
        file("tmp/iso/a.txt", 1),
        file("tmp/iso/held.txt", 1),
        dir("tmp/iso/sub", 1),
        file("tmp/iso/sub/b.txt", 2),
    ];
    let mut broken = vec![
        dir("tmp/iso", 0),
        file("tmp/iso/a.txt", 1),
        file("tmp/iso/held.txt", 1),
        dir("tmp/iso/sub", 1),
        file("tmp/iso/sub/b.txt", 2),
    ];
    broken[2].ok = false;

    let mut c1 = Cleaner::new("tmp/iso");
    let p1 = c1.plan_clean(&healthy);
    let mut c2 = Cleaner::new("tmp/iso");
    let p2 = c2.plan_clean(&broken);

    assert_eq!(p2.actions[2].1, Action::Skip);
    for i in 0..healthy.len() {
        if i != 2 {
            assert_eq!(p1.actions[i], p2.actions[i]);
        }
    }
    assert_eq!(p1.dir_groups.len(), p2.dir_groups.len());
    assert_eq!(p1.dir_groups[0].dirs, p2.dir_groups[0].dirs);
}

#[test]
fn test_root_file_is_removed() {
    let entries = vec![file("tmp/lone.txt", 0)];
    let mut cleaner = Cleaner::new("tmp/lone.txt");
    let plan = cleaner.plan_clean(&entries);
    assert_eq!(
        plan.actions[0].1,
        Action::RemoveFile {
            clear_readonly: false
        }
    );
    assert!(plan.dir_groups.is_empty());
}

#[test]
fn test_groups_ordered_for_interleaved_records() {
    let entries = vec![
        dir("r", 0),
        dir("r/a/b", 2),
        dir("r/a", 1),
        dir("r/a/b/c", 3),
        dir("r/aa/bb", 2),
        dir("r/aa", 1),
    ];
    let mut cleaner = Cleaner::new("r");
    let plan = cleaner.plan_clean(&entries);

    assert_eq!(plan.dir_groups.len(), 3);
    let depths: Vec<usize> = plan.dir_groups.iter().map(|g| g.depth).collect();
    assert_eq!(depths, vec![3, 2, 1]);
    assert_eq!(
        plan.dir_groups[1].dirs,
        vec!["r/a/b".to_string(), "r/aa/bb".to_string()]
    );
    assert_eq!(
        plan.dir_groups[2].dirs,
        vec!["r/a".to_string(), "r/aa".to_string()]
    );
}

#[test]
fn test_thread_budget_oversubscribes() {
    assert_eq!(thread_budget(1), 100);
    assert_eq!(thread_budget(4), 400);
    assert_eq!(thread_budget(usize::MAX), usize::MAX);
}

#[test]
fn test_new_configures_worker_pool() {
    let cleaner = Cleaner::new("some/path");
    assert_eq!(cleaner.path, "some/path");
    assert!(cleaner.dirs.is_empty());
    assert!(cleaner.threads >= 100);
}

#[test]
fn test_clean_missing_root() {
    let mut cleaner = Cleaner::new("tmp/no-such-path-anywhere-here");
    cleaner.threads = 4;
    let plan = cleaner.clean();
    for (_, action) in &plan.actions {
        assert_eq!(*action, Action::Skip);
    }
    assert!(plan.dir_groups.is_empty());
}
