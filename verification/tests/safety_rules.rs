use rcleaner::config::Config;
use rcleaner::models::{CleanupCategory, CleanupItem, CleanupSource};
use rcleaner::error::RcleanerError;
use rcleaner::safety::{can_clean_path, check_permissions, require_root, SafetyChecker, SafetyRules};

fn item_with_path(path: &str) -> CleanupItem {
    CleanupItem {
        id: path.to_string(),
        name: "test".to_string(),
        path: Some(path.to_string()),
        size: 0,
        description: "test".to_string(),
        category: CleanupCategory::Cache,
        source: CleanupSource::FileSystem,
        selected: false,
        can_clean: true,
        blocked_reason: None,
        dependencies: Vec::new(),
    }
}

#[test]
fn test_default_rules_block_system_paths() {
    let config = Config::default();
    let rules = SafetyRules::from_config(&config, None);
    let item = item_with_path("/usr/bin/rcleaner-test");
    assert!(!rules.check_item(&item));
}

#[test]
fn test_whitelist_blocks_path() {
    let mut config = Config::default();
    config.rules.whitelist.paths = vec!["/tmp/rcleaner-protect".to_string()];
    let rules = SafetyRules::from_config(&config, None);
    let item = item_with_path("/tmp/rcleaner-protect/file");
    assert!(!rules.check_item(&item));
}

#[test]
fn test_blacklist_blocks_pattern() {
    let mut config = Config::default();
    config.rules.blacklist.patterns = vec!["*.log".to_string()];
    let rules = SafetyRules::from_config(&config, None);
    let item = item_with_path("/tmp/rcleaner-test.log");
    assert!(!rules.check_item(&item));
}

#[test]
fn test_safe_path_allowed() {
    let config = Config::default();
    let rules = SafetyRules::from_config(&config, None);
    let item = item_with_path("/tmp/rcleaner-ok");
    assert!(rules.check_item(&item));
}

#[test]
fn blacklist_glob_allows_other_extension() {
    // The pattern *.log blocks /tmp/app.log but leaves /tmp/app.txt alone.
    let mut config = Config::default();
    config.rules.whitelist.paths = Vec::new();
    config.rules.blacklist.patterns = vec!["*.log".to_string()];
    let rules = SafetyRules::from_config(&config, None);
    assert!(!rules.check_item(&item_with_path("/tmp/app.log")));
    assert!(rules.check_item(&item_with_path("/tmp/app.txt")));
}

#[test]
fn usr_bin_blocked_whatever_the_user_rules_say() {
    // Built-in rules outrank user rules.
    let mut config = Config::default();
    config.rules.whitelist.paths = vec!["/usr/bin".to_string()];
    config.rules.blacklist.patterns = vec!["*.nomatch".to_string()];
    let rules = SafetyRules::from_config(&config, None);
    assert!(!rules.check_item(&item_with_path("/usr/bin/some-tool")));
    let empty = SafetyRules::from_config(&Config::default(), Some("/home/op".to_string()));
    assert!(!empty.check_item(&item_with_path("/usr/bin/other")));
}

#[test]
fn check_item_reason_reports_first_match() {
    let config = Config::default();
    let rules = SafetyRules::from_config(&config, None);
    let reason = rules.check_item_reason(&item_with_path("/usr/bin/rcleaner-test"));
    assert!(reason.is_some());
    let none = rules.check_item_reason(&item_with_path("/tmp/rcleaner-ok"));
    assert!(none.is_none());
}

#[test]
fn tilde_patterns_expand_against_home() {
    let mut config = Config::default();
    config.rules.whitelist.paths = vec!["~/keep".to_string()];
    config.rules.blacklist.patterns = Vec::new();
    let rules = SafetyRules::from_config(&config, Some("/home/op".to_string()));
    assert!(!rules.check_item(&item_with_path("/home/op/keep/notes.txt")));
    assert!(rules.check_item(&item_with_path("/home/other/keep/notes.txt")));
}

#[test]
fn permission_check_limits_non_root() {
    assert!(can_clean_path("/etc/passwd", true, &None));
    assert!(!can_clean_path("/etc/passwd", false, &None));
    assert!(can_clean_path("/tmp/x", false, &None));
    assert!(can_clean_path("/var/tmp/x", false, &None));
    assert!(can_clean_path("/home/op/x", false, &Some("/home/op".to_string())));
    assert!(!can_clean_path("/home/other/x", false, &Some("/home/op".to_string())));
}

#[test]
fn apply_to_item_blocks_and_records_reason() {
    let config = Config::default();
    let checker = SafetyChecker::new(config, false, None);
    let mut item = item_with_path("/usr/bin/rcleaner-test");
    checker.apply_to_item(&mut item, &Vec::new());
    assert!(!item.can_clean);
    assert!(item.blocked_reason.is_some());
}

#[test]
fn apply_to_item_records_dependents() {
    let config = Config::default();
    let checker = SafetyChecker::new(config, true, None);
    let mut item = CleanupItem {
        id: "apt:foo".to_string(),
        name: "foo".to_string(),
        path: None,
        size: 0,
        description: "package".to_string(),
        category: CleanupCategory::OldPackages,
        source: CleanupSource::PackageManager("apt".to_string()),
        selected: false,
        can_clean: true,
        blocked_reason: None,
        dependencies: Vec::new(),
    };
    let deps = vec!["bar".to_string(), "baz".to_string()];
    checker.apply_to_item(&mut item, &deps);
    assert!(!item.can_clean);
    assert_eq!(item.blocked_reason.as_deref(), Some("Package has dependents"));
    assert_eq!(item.dependencies, deps);
}

#[test]
fn apply_to_item_is_idempotent_on_verdict() {
    let config = Config::default();
    let checker = SafetyChecker::new(config, false, None);
    let mut item = item_with_path("/usr/bin/rcleaner-test");
    checker.apply_to_item(&mut item, &Vec::new());
    let first_reason = item.blocked_reason.clone();
    checker.apply_to_item(&mut item, &Vec::new());
    assert!(!item.can_clean);
    assert_eq!(item.blocked_reason, first_reason);
}

#[test]
fn escape_hatch_allows_everything_for_root() {
    let mut config = Config::default();
    config.safety.enabled = false;
    let checker = SafetyChecker::new(config, true, None);
    let item = item_with_path("/usr/bin/rcleaner-test");
    assert!(checker.is_safe_to_clean(&item, &Vec::new()));
}

#[test]
fn escape_hatch_allows_everything_without_root() {
    // Safety off, and disabling open to everyone: even the journal and
    // system paths are allowed to a non-root caller, and nothing is
    // recorded on the item.
    let mut config = Config::default();
    config.safety.enabled = false;
    config.safety.only_root_can_disable = false;
    let checker = SafetyChecker::new(config, false, None);
    let journal = journal_item();
    assert!(checker.is_safe_to_clean(&journal, &Vec::new()));
    let mut sys = item_with_path("/usr/bin/rcleaner-test");
    assert!(checker.is_safe_to_clean(&sys, &Vec::new()));
    checker.apply_to_item(&mut sys, &Vec::new());
    assert!(sys.can_clean);
    assert!(sys.blocked_reason.is_none());
}

fn journal_item() -> CleanupItem {
    CleanupItem {
        id: "systemd-journal".to_string(),
        name: "systemd journal".to_string(),
        path: None,
        size: 10,
        description: "journal".to_string(),
        category: CleanupCategory::Logs,
        source: CleanupSource::FileSystem,
        selected: false,
        can_clean: true,
        blocked_reason: None,
        dependencies: Vec::new(),
    }
}

#[test]
fn journal_requires_root() {
    let config = Config::default();
    let checker = SafetyChecker::new(config, false, None);
    assert!(!checker.is_safe_to_clean(&journal_item(), &Vec::new()));
}

#[test]
fn root_requirement_yields_permission_error() {
    assert!(require_root(true).is_ok());
    let err = require_root(false).unwrap_err();
    assert!(matches!(err, RcleanerError::Permission(_)));
    assert_eq!(err.detail(), "Root permissions required");
    assert!(matches!(check_permissions(false), Ok(false)));
}
