use inode_cache::scan::{
    classify, copy_path, scan_directory, ChildEntry, EntryKind, ErrorRecord, Meta, ScanOutcome,
    WorkItem,
};
use inode_cache::stats::DisplayStats;

fn meta(is_symlink: bool, is_file: bool, is_dir: bool, device: u64) -> Meta {
    Meta { is_symlink, is_file, is_dir, device }
}

fn file(path: &str, device: u64) -> ChildEntry {
    ChildEntry::Found { path: path.as_bytes().to_vec(), meta: meta(false, true, false, device) }
}

fn symlink(path: &str, device: u64) -> ChildEntry {
    ChildEntry::Found { path: path.as_bytes().to_vec(), meta: meta(true, false, false, device) }
}

fn dir(path: &str, device: u64) -> ChildEntry {
    ChildEntry::Found { path: path.as_bytes().to_vec(), meta: meta(false, false, true, device) }
}

fn socket(path: &str, device: u64) -> ChildEntry {
    ChildEntry::Found { path: path.as_bytes().to_vec(), meta: meta(false, false, false, device) }
}

fn root() -> WorkItem {
    WorkItem { path: b"root".to_vec(), device: 7 }
}

#[test]
fn classify_puts_symlink_first() {
    assert_eq!(classify(&meta(true, false, false, 0)), EntryKind::Symlink);
    assert_eq!(classify(&meta(true, true, false, 0)), EntryKind::Symlink);
    assert_eq!(classify(&meta(true, false, true, 0)), EntryKind::Symlink);
    assert_eq!(classify(&meta(true, true, true, 0)), EntryKind::Symlink);
}

#[test]
fn classify_puts_file_before_directory() {
    assert_eq!(classify(&meta(false, true, false, 0)), EntryKind::File);
    assert_eq!(classify(&meta(false, true, true, 0)), EntryKind::File);
    assert_eq!(classify(&meta(false, false, true, 0)), EntryKind::Dir);
}

#[test]
fn classify_leaves_the_rest_uncounted() {
    assert_eq!(classify(&meta(false, false, false, 3)), EntryKind::Other);
}

#[test]
fn copy_path_gives_the_same_bytes() {
    assert_eq!(copy_path(&b"a/\xff/b".to_vec()), b"a/\xff/b".to_vec());
    assert_eq!(copy_path(&Vec::new()), Vec::<u8>::new());
}

#[test]
fn empty_directory_yields_nothing() {
    let out = scan_directory(&root(), Ok(Vec::new()));
    assert_eq!(
        out,
        ScanOutcome { counts: DisplayStats::new(), errors: Vec::new(), discovered: Vec::new() }
    );
}

#[test]
fn each_child_is_counted_by_its_kind() {
    let listing = vec![
        file("root/f1", 7),
        symlink("root/l1", 7),
        dir("root/d1", 7),
        file("root/f2", 7),
        socket("root/s", 7),
        dir("root/d2", 7),
        file("root/f3", 7),
    ];
    let out = scan_directory(&root(), Ok(listing));
    assert_eq!(out.counts, DisplayStats { file: 3, sym: 1, dir: 2 });
    assert!(out.errors.is_empty());
    assert_eq!(
        out.discovered,
        vec![
            WorkItem { path: b"root/d1".to_vec(), device: 7 },
            WorkItem { path: b"root/d2".to_vec(), device: 7 },
        ]
    );
}

#[test]
fn directory_on_another_device_is_counted_not_queued() {
    let listing = vec![dir("root/mnt", 8), dir("root/home", 7)];
    let out = scan_directory(&root(), Ok(listing));
    assert_eq!(out.counts, DisplayStats { file: 0, sym: 0, dir: 2 });
    assert_eq!(out.discovered, vec![WorkItem { path: b"root/home".to_vec(), device: 7 }]);
    assert!(out.errors.is_empty());
}

#[test]
fn file_or_symlink_on_another_device_is_counted() {
    let listing = vec![file("root/f", 9), symlink("root/l", 9)];
    let out = scan_directory(&root(), Ok(listing));
    assert_eq!(out.counts, DisplayStats { file: 1, sym: 1, dir: 0 });
    assert!(out.discovered.is_empty());
}

#[test]
fn symlink_to_a_directory_is_not_entered() {
    let link = ChildEntry::Found {
        path: b"root/l".to_vec(),
        meta: meta(true, false, true, 7),
    };
    let out = scan_directory(&root(), Ok(vec![link]));
    assert_eq!(out.counts, DisplayStats { file: 0, sym: 1, dir: 0 });
    assert!(out.discovered.is_empty());
}

#[test]
fn failed_listing_is_one_error_for_the_directory() {
    let out = scan_directory(&root(), Err(String::from("Permission denied (os error 13)")));
    assert_eq!(out.counts, DisplayStats::new());
    assert_eq!(
        out.errors,
        vec![ErrorRecord {
            path: b"root".to_vec(),
            cause: String::from("Permission denied (os error 13)"),
        }]
    );
    assert!(out.discovered.is_empty());
}

#[test]
fn unreadable_child_is_reported_and_siblings_go_on() {
    let listing = vec![
        file("root/a", 7),
        ChildEntry::Unreadable { path: b"root/b".to_vec(), cause: String::from("stale") },
        dir("root/c", 7),
    ];
    let out = scan_directory(&root(), Ok(listing));
    assert_eq!(out.counts, DisplayStats { file: 1, sym: 0, dir: 1 });
    assert_eq!(
        out.errors,
        vec![ErrorRecord { path: b"root/b".to_vec(), cause: String::from("stale") }]
    );
    assert_eq!(out.discovered, vec![WorkItem { path: b"root/c".to_vec(), device: 7 }]);
}

#[test]
fn broken_listing_entry_is_laid_to_the_directory() {
    let listing = vec![
        ChildEntry::Broken { cause: String::from("io") },
        file("root/a", 7),
    ];
    let out = scan_directory(&root(), Ok(listing));
    assert_eq!(out.counts, DisplayStats { file: 1, sym: 0, dir: 0 });
    assert_eq!(out.errors, vec![ErrorRecord { path: b"root".to_vec(), cause: String::from("io") }]);
}

#[test]
fn errors_keep_the_order_of_the_listing() {
    let listing = vec![
        ChildEntry::Unreadable { path: b"root/1".to_vec(), cause: String::from("one") },
        ChildEntry::Broken { cause: String::from("two") },
        file("root/f", 7),
        ChildEntry::Unreadable { path: b"root/3".to_vec(), cause: String::from("three") },
    ];
    let out = scan_directory(&root(), Ok(listing));
    assert_eq!(
        out.errors,
        vec![
            ErrorRecord { path: b"root/1".to_vec(), cause: String::from("one") },
            ErrorRecord { path: b"root".to_vec(), cause: String::from("two") },
            ErrorRecord { path: b"root/3".to_vec(), cause: String::from("three") },
        ]
    );
}
