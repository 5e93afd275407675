use rcleaner::backup::{sanitize_path, select_backup_roots, verify_backup_item, Backup,
    BackupItem, BackupManager, PathNode, PathSource};
use rcleaner::checksum::{dir_checksum, file_checksum, to_hex, TreeFile};
use rcleaner::cleaner::{
    category_order, is_rotated_log_name, progress_steps, selected_indices, temp_cutoff,
    temp_entry_eligible, trash_info_path, ApplicationsCleaner, CacheCleaner, LogsCleaner,
    OldKernelsCleaner, OldPackagesCleaner, TempFilesCleaner,
};
use rcleaner::error::RcleanerError;
use rcleaner::models::{CleanupCategory, CleanupItem, CleanupResult, CleanupSource};

fn fs_item(path: &str, size: u64, can_clean: bool) -> CleanupItem {
    CleanupItem {
        id: path.to_string(),
        name: path.to_string(),
        path: Some(path.to_string()),
        size,
        description: "test".to_string(),
        category: CleanupCategory::Cache,
        source: CleanupSource::FileSystem,
        selected: true,
        can_clean,
        blocked_reason: None,
        dependencies: Vec::new(),
    }
}

fn generation(id: &str, timestamp: i64, size: u64) -> Backup {
    Backup { id: id.to_string(), timestamp, items: Vec::new(), size }
}

#[test]
fn nested_paths_collapse_to_shallowest_ancestor() {
    // A directory and a file inside it: only the directory is copied.
    let items = vec![
        fs_item("/tmp/cache/deep/file.txt", 10, true),
        fs_item("/tmp/cache", 100, true),
        fs_item("/tmp/other.log", 5, true),
        fs_item("/tmp/blocked", 1, false),
    ];
    let roots = select_backup_roots(&items);
    assert_eq!(roots, vec!["/tmp/cache", "/tmp/other.log"]);
}

#[test]
fn root_dedup_keeps_unrelated_siblings() {
    let items = vec![
        fs_item("/tmp/ab", 1, true),
        fs_item("/tmp/abc", 1, true),
    ];
    // /tmp/ab is not a path ancestor of /tmp/abc.
    let roots = select_backup_roots(&items);
    assert_eq!(roots, vec!["/tmp/ab", "/tmp/abc"]);
}

#[test]
fn retention_evicts_oldest_until_budget_holds() {
    // Sizes [5, 5, 5] and budget 10: a new backup of 4 evicts the two
    // oldest generations and leaves 5 + 4 = 9 under budget.
    let manager = BackupManager::new("/backups".to_string(), 10);
    let existing = vec![
        generation("g2", 200, 5),
        generation("g1", 100, 5),
        generation("g3", 300, 5),
    ];
    let evict = manager.plan_capacity(&existing, 4).unwrap();
    assert_eq!(evict, vec!["g1", "g2"]);
}

#[test]
fn retention_rejects_oversized_backup_and_deletes_nothing() {
    let manager = BackupManager::new("/backups".to_string(), 10);
    let existing = vec![generation("g1", 100, 5)];
    let err = manager.plan_capacity(&existing, 11).unwrap_err();
    assert!(matches!(err, RcleanerError::Backup(_)));
}

#[test]
fn retention_without_budget_never_evicts() {
    let manager = BackupManager::new("/backups".to_string(), 0);
    let existing = vec![generation("g1", 100, 5)];
    assert!(manager.plan_capacity(&existing, 1 << 60).unwrap().is_empty());
    assert!(manager.plan_prune(&existing).is_empty());
}

#[test]
fn prune_brings_total_under_budget() {
    let manager = BackupManager::new("/backups".to_string(), 10);
    let existing = vec![
        generation("g1", 100, 6),
        generation("g2", 200, 6),
    ];
    assert_eq!(manager.plan_prune(&existing), vec!["g1"]);
}

fn hex_of_digest(data: &[u8]) -> String {
    let digest = <sha2::Sha256 as sha2::Digest>::digest(data);
    let mut out = String::new();
    for b in digest.iter() {
        out.push_str(&format!("{:02x}", b));
    }
    out
}

#[test]
fn file_checksum_matches_direct_digest() {
    let data = b"hello".to_vec();
    assert_eq!(file_checksum(&data), hex_of_digest(b"hello"));
    assert_eq!(
        file_checksum(&Vec::new()),
        "e3b0c44298fc1c149afbf4c8996fb92427ae41e4649b934ca495991b7852b855"
    );
}

#[test]
fn to_hex_encodes_bytes() {
    assert_eq!(to_hex(&vec![0u8, 15, 255]), "000fff");
}

fn tree(entries: &[(&str, &[u8])]) -> Vec<TreeFile> {
    entries
        .iter()
        .map(|(p, d)| TreeFile { rel_path: p.to_string(), data: d.to_vec() })
        .collect()
}

#[test]
fn dir_checksum_ignores_listing_order() {
    let a = tree(&[("a.txt", b"one"), ("b/b.txt", b"two")]);
    let b = tree(&[("b/b.txt", b"two"), ("a.txt", b"one")]);
    assert_eq!(dir_checksum(&a), dir_checksum(&b));
}

#[test]
fn dir_checksum_sees_content_and_structure_changes() {
    let base = tree(&[("a.txt", b"one"), ("b.txt", b"two")]);
    let changed = tree(&[("a.txt", b"one!"), ("b.txt", b"two")]);
    let renamed = tree(&[("a2.txt", b"one"), ("b.txt", b"two")]);
    let added = tree(&[("a.txt", b"one"), ("b.txt", b"two"), ("c.txt", b"three")]);
    let removed = tree(&[("a.txt", b"one")]);
    let original = dir_checksum(&base);
    assert_ne!(original, dir_checksum(&changed));
    assert_ne!(original, dir_checksum(&renamed));
    assert_ne!(original, dir_checksum(&added));
    assert_ne!(original, dir_checksum(&removed));
}

#[test]
fn sanitize_path_strips_escaping_components() {
    assert_eq!(sanitize_path("/tmp/x"), "tmp/x");
    assert_eq!(sanitize_path("../etc/passwd"), "etc/passwd");
    assert_eq!(sanitize_path("/a/./b/../c"), "a/b/c");
}

#[test]
fn create_backup_end_to_end_unlimited_budget() {
    // One cleanable item, no budget: the backup is planned with one
    // fingerprinted entry whose checksum matches a direct digest.
    let manager = BackupManager::new("/backups".to_string(), 0);
    let items = vec![fs_item("/tmp/x", 100, true)];
    let sources = vec![PathSource {
        path: "/tmp/x".to_string(),
        node: PathNode::File(b"payload".to_vec()),
    }];
    let plan = manager
        .create_backup(&items, &sources, &Vec::new(), "backup-1".to_string(), 42)
        .unwrap()
        .unwrap();
    assert!(plan.evict.is_empty());
    assert_eq!(plan.backup.id, "backup-1");
    assert_eq!(plan.backup.timestamp, 42);
    assert_eq!(plan.backup.size, 7);
    assert_eq!(plan.backup.items.len(), 1);
    let item = &plan.backup.items[0];
    assert_eq!(item.original_path, "/tmp/x");
    assert_eq!(item.backup_path, "/backups/backup-1/tmp/x");
    assert_eq!(item.size, 7);
    assert_eq!(item.checksum, hex_of_digest(b"payload"));
}

#[test]
fn create_backup_with_nothing_to_save() {
    let manager = BackupManager::new("/backups".to_string(), 0);
    let items = vec![fs_item("/tmp/x", 100, false)];
    let planned = manager
        .create_backup(&items, &Vec::new(), &Vec::new(), "backup-2".to_string(), 1)
        .unwrap();
    assert!(planned.is_none());
}

#[test]
fn create_backup_skips_missing_sources() {
    let manager = BackupManager::new("/backups".to_string(), 0);
    let items = vec![fs_item("/tmp/gone", 5, true), fs_item("/tmp/here", 5, true)];
    let sources = vec![
        PathSource { path: "/tmp/gone".to_string(), node: PathNode::Missing },
        PathSource { path: "/tmp/here".to_string(), node: PathNode::File(b"ok".to_vec()) },
    ];
    let plan = manager
        .create_backup(&items, &sources, &Vec::new(), "backup-3".to_string(), 2)
        .unwrap()
        .unwrap();
    assert_eq!(plan.backup.items.len(), 1);
    assert_eq!(plan.backup.items[0].original_path, "/tmp/here");
}

#[test]
fn create_backup_refused_when_budget_cannot_fit() {
    let manager = BackupManager::new("/backups".to_string(), 4);
    let items = vec![fs_item("/tmp/x", 0, true)];
    let sources = vec![PathSource {
        path: "/tmp/x".to_string(),
        node: PathNode::File(b"12345".to_vec()),
    }];
    let err = manager
        .create_backup(&items, &sources, &Vec::new(), "backup-4".to_string(), 3)
        .unwrap_err();
    assert!(matches!(err, RcleanerError::Backup(_)));
}

#[test]
fn merge_totals_do_not_depend_on_order() {
    let a = CleanupResult { cleaned_items: 1, freed_bytes: 10, skipped_items: 0, errors: vec![
        "a".to_string(),
    ] };
    let b = CleanupResult { cleaned_items: 2, freed_bytes: 20, skipped_items: 1, errors: Vec::new() };
    let c = CleanupResult { cleaned_items: 3, freed_bytes: 30, skipped_items: 2, errors: vec![
        "c".to_string(),
    ] };
    // ((a + b) + c) and (a + (b + c)) agree completely.
    let mut left = a.clone();
    left.merge(&b);
    left.merge(&c);
    let mut bc = b.clone();
    bc.merge(&c);
    let mut right = a.clone();
    right.merge(&bc);
    assert_eq!(left.cleaned_items, right.cleaned_items);
    assert_eq!(left.freed_bytes, right.freed_bytes);
    assert_eq!(left.skipped_items, right.skipped_items);
    assert_eq!(left.errors, right.errors);
    // Totals also commute.
    let mut ab = a.clone();
    ab.merge(&b);
    let mut ba = b.clone();
    ba.merge(&a);
    assert_eq!(ab.cleaned_items, ba.cleaned_items);
    assert_eq!(ab.freed_bytes, ba.freed_bytes);
    assert_eq!(ab.skipped_items, ba.skipped_items);
}

#[test]
fn dry_run_reports_what_a_clean_would_do() {
    let cleaner = CacheCleaner::new();
    let items = vec![
        fs_item("/tmp/a", 10, true),
        fs_item("/tmp/b", 20, false),
        fs_item("/tmp/c", 30, true),
    ];
    let dry = cleaner.clean_dry_run(&items);
    assert_eq!(dry.cleaned_items, 2);
    assert_eq!(dry.freed_bytes, 40);
    assert_eq!(dry.skipped_items, 1);
    assert!(dry.errors.is_empty());
    // The removal plan carries exactly the counted items, so a real run
    // where every removal succeeds reports the same counts.
    let (targets, skipped) = cleaner.partition(&items);
    assert_eq!(targets.len(), dry.cleaned_items);
    assert_eq!(targets.iter().map(|t| t.size).sum::<u64>(), dry.freed_bytes);
    assert_eq!(skipped, dry.skipped_items);
    let temp = TempFilesCleaner::new();
    let temp_dry = temp.clean_dry_run(&items);
    assert_eq!(temp_dry.cleaned_items, 2);
    assert_eq!(temp_dry.freed_bytes, 40);
}

#[test]
fn grouped_cleaners_count_by_backend() {
    let mk = |manager: &str, name: &str| CleanupItem {
        id: format!("{}:{}", manager, name),
        name: name.to_string(),
        path: None,
        size: 0,
        description: "pkg".to_string(),
        category: CleanupCategory::OldPackages,
        source: CleanupSource::PackageManager(manager.to_string()),
        selected: true,
        can_clean: true,
        blocked_reason: None,
        dependencies: Vec::new(),
    };
    let items = vec![mk("apt", "a"), mk("dnf", "b"), mk("zypper", "c"), mk("apt", "d")];
    let cleaner = OldPackagesCleaner::new();
    let groups = cleaner.partition(&items);
    assert_eq!(groups.apt, vec!["a", "d"]);
    assert_eq!(groups.dnf, vec!["b"]);
    assert!(groups.pacman.is_empty());
    assert_eq!(groups.skipped, 1);
    let dry = cleaner.clean_dry_run(&items);
    assert_eq!(dry.cleaned_items, 3);
    assert_eq!(dry.freed_bytes, 0);
    assert_eq!(dry.skipped_items, 1);
}

#[test]
fn logs_cleaner_handles_journal_and_paths() {
    let journal = CleanupItem {
        id: "systemd-journal".to_string(),
        name: "systemd journal".to_string(),
        path: None,
        size: 50,
        description: "journal".to_string(),
        category: CleanupCategory::Logs,
        source: CleanupSource::FileSystem,
        selected: true,
        can_clean: true,
        blocked_reason: None,
        dependencies: Vec::new(),
    };
    let items = vec![journal, fs_item("/var/log", 100, true)];
    let dry = LogsCleaner::new().clean_dry_run(&items);
    assert_eq!(dry.cleaned_items, 2);
    assert_eq!(dry.freed_bytes, 150);
    assert_eq!(dry.skipped_items, 0);
}

#[test]
fn orchestrator_grouping_and_progress() {
    assert_eq!(category_order().len(), 6);
    let mut a = fs_item("/tmp/a", 1, true);
    a.category = CleanupCategory::Cache;
    let mut b = fs_item("/tmp/b", 1, true);
    b.category = CleanupCategory::Logs;
    let mut c = fs_item("/tmp/c", 1, true);
    c.category = CleanupCategory::Logs;
    c.selected = false;
    let items = vec![a, b, c];
    assert_eq!(progress_steps(&items), 2);
    assert_eq!(selected_indices(&items, CleanupCategory::Logs), vec![1]);
    assert_eq!(selected_indices(&items, CleanupCategory::Cache), vec![0]);
    assert!(selected_indices(&items, CleanupCategory::TempFiles).is_empty());
    assert_eq!(progress_steps(&Vec::new()), 1);
    let apps = ApplicationsCleaner::new();
    assert_eq!(apps.name(), "Applications Cleaner");
    let kernels = OldKernelsCleaner::new();
    assert_eq!(kernels.name(), "Old Kernels Cleaner");
}

#[test]
fn create_backup_with_no_items_at_all() {
    let manager = BackupManager::new("/backups".to_string(), 10);
    let planned = manager
        .create_backup(&Vec::new(), &Vec::new(), &Vec::new(), "backup-5".to_string(), 9)
        .unwrap();
    assert!(planned.is_none());
}

#[test]
fn retention_keeps_listing_order_for_equal_timestamps() {
    // Generations born in the same second leave in listing order.
    let manager = BackupManager::new("/backups".to_string(), 4);
    let existing = vec![
        generation("first", 100, 3),
        generation("second", 100, 3),
    ];
    let evict = manager.plan_capacity(&existing, 4).unwrap();
    assert_eq!(evict, vec!["first", "second"]);
}

#[test]
fn empty_tree_hashes_like_empty_input() {
    let empty: Vec<TreeFile> = Vec::new();
    assert_eq!(
        dir_checksum(&empty),
        "e3b0c44298fc1c149afbf4c8996fb92427ae41e4649b934ca495991b7852b855"
    );
}

#[test]
fn rotated_log_names() {
    assert!(is_rotated_log_name("syslog.1"));
    assert!(is_rotated_log_name("messages.old"));
    assert!(is_rotated_log_name("archive.tar.gz"));
    assert!(is_rotated_log_name("daemon.log.2"));
    // A hidden file named only like the suffix has no extension.
    assert!(!is_rotated_log_name(".gz"));
    assert!(!is_rotated_log_name(".old"));
    assert!(!is_rotated_log_name("messages"));
    // The numeric rotation check reads the whole name.
    assert!(is_rotated_log_name(".1"));
}

#[test]
fn temp_entry_eligibility() {
    let cutoff = temp_cutoff(1_000_000, 7);
    assert_eq!(cutoff, 1_000_000 - 7 * 86400);
    assert!(temp_entry_eligible(cutoff, 1000, cutoff, true, 1000));
    assert!(!temp_entry_eligible(cutoff + 1, 1000, cutoff, true, 1000));
    assert!(!temp_entry_eligible(cutoff, 1001, cutoff, true, 1000));
    assert!(temp_entry_eligible(cutoff, 1001, cutoff, false, 1000));
    // Ages reaching past the epoch clamp there.
    assert_eq!(temp_cutoff(100, 7), 0);
}

#[test]
fn trash_sidecar_paths() {
    assert_eq!(
        trash_info_path("/home/op/.local/share/Trash/files/old.txt").as_deref(),
        Some("/home/op/.local/share/Trash/info/old.txt.trashinfo")
    );
    assert_eq!(trash_info_path("/tmp/plain/file.txt"), None);
    assert_eq!(trash_info_path("file.txt"), None);
}

#[test]
fn rollback_verification_gate() {
    let item = BackupItem {
        original_path: "/tmp/x".to_string(),
        backup_path: "/backups/b/tmp/x".to_string(),
        size: 7,
        checksum: hex_of_digest(b"payload"),
    };
    assert!(verify_backup_item(&item, &PathNode::File(b"payload".to_vec())));
    assert!(!verify_backup_item(&item, &PathNode::File(b"tampered".to_vec())));
    assert!(!verify_backup_item(&item, &PathNode::Missing));
}
