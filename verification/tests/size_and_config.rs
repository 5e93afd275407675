use rcleaner::config::Config;
use rcleaner::size_format::{format_percentage, format_size, parse_size_string};

#[test]
fn test_format_size() {
    assert_eq!(format_size(0), "0.00 B");
    assert_eq!(format_size(1024), "1.00 KB");
    assert_eq!(format_size(1024 * 1024), "1.00 MB");
    assert_eq!(format_size(1024 * 1024 * 1024), "1.00 GB");
}

#[test]
fn test_format_percentage() {
    assert_eq!(format_percentage(50, 100), "50%");
    assert_eq!(format_percentage(25, 100), "25%");
    assert_eq!(format_percentage(0, 100), "0%");
    assert_eq!(format_percentage(100, 0), "0%");
}

#[test]
fn test_parse_size_string() {
    assert_eq!(parse_size_string("123"), Some(123));
    assert_eq!(parse_size_string("1 KB"), Some(1024));
    assert_eq!(parse_size_string("1.5MB"), Some(1572864));
    assert_eq!(parse_size_string("2GiB"), Some(2147483648));
}

#[test]
fn format_size_fractions_and_units() {
    assert_eq!(format_size(1536), "1.50 KB");
    assert_eq!(format_size(500), "500.00 B");
    assert_eq!(format_size(1024 * 1024 * 1024 * 1024), "1.00 TB");
}

#[test]
fn parse_size_rejects_garbage() {
    assert_eq!(parse_size_string(""), None);
    assert_eq!(parse_size_string("   "), None);
    assert_eq!(parse_size_string("KB"), None);
    assert_eq!(parse_size_string("1.2.3"), None);
    assert_eq!(parse_size_string("5 parsecs"), None);
}

#[test]
fn parse_size_units_and_commas() {
    assert_eq!(parse_size_string("1,5 kb"), Some(1536));
    assert_eq!(parse_size_string("2 bytes"), Some(2));
    assert_eq!(parse_size_string("10"), Some(10));
    assert_eq!(parse_size_string("0.5 KB"), Some(512));
}

#[test]
fn test_current_profile() {
    let mut config = Config::default();
    assert!(!config.current_profile().auto_confirm);
    config.safety.level = "aggressive".to_string();
    assert!(config.current_profile().auto_confirm);
}

#[test]
fn default_config_values() {
    let config = Config::default();
    assert!(config.safety.enabled);
    assert!(config.safety.only_root_can_disable);
    assert_eq!(config.safety.level, "safe");
    assert_eq!(config.profiles.safe.max_backup_size_gb, 10);
    assert_eq!(config.profiles.aggressive.max_backup_size_gb, 5);
    assert_eq!(config.rules.whitelist.paths.len(), 3);
    assert_eq!(config.rules.blacklist.patterns.len(), 2);
}
