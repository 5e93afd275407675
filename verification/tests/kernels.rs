use rcleaner::old_kernels::{
    build_kernel_items, extract_kernel_version, group_by_version, is_version_like,
    parse_apt_kernel_packages, parse_rpm_kernel_packages, select_versions_to_keep,
};
use rcleaner::models::CleanupSource;

fn prefixes(list: &[&str]) -> Vec<String> {
    list.iter().map(|p| p.to_string()).collect()
}

#[test]
fn test_extract_kernel_version_skips_meta() {
    let prefixes = prefixes(&["linux-image-unsigned-", "linux-image-"]);
    assert!(extract_kernel_version("linux-image-generic", &prefixes).is_none());
    assert!(extract_kernel_version("linux-image-amd64", &prefixes).is_none());
    assert_eq!(
        extract_kernel_version("linux-image-6.1.0-13-amd64", &prefixes).as_deref(),
        Some("6.1.0-13-amd64")
    );
}

#[test]
fn test_select_versions_to_keep_respects_current() {
    let versions = vec![
        ("6.1.0-12-amd64".to_string(), 10),
        ("6.1.0-13-amd64".to_string(), 20),
        ("6.1.0-14-amd64".to_string(), 30),
    ];
    let keep = select_versions_to_keep(versions, "6.1.0-12-amd64", 1);
    assert!(keep.iter().any(|v| v == "6.1.0-14-amd64"));
    assert!(keep.iter().any(|v| v == "6.1.0-12-amd64"));
    assert!(!keep.iter().any(|v| v == "6.1.0-13-amd64"));
}

#[test]
fn version_likeness() {
    assert!(is_version_like("6.1.0-13"));
    assert!(is_version_like("5.15.0"));
    assert!(!is_version_like("generic"));
    assert!(!is_version_like("686"));
}

#[test]
fn kernel_package_list_parsing() {
    let rpm_out = "kernel-core-6.5.1\nkernel-modules-6.5.1\npackage kernel is not installed\n";
    assert_eq!(
        parse_rpm_kernel_packages(rpm_out),
        vec!["kernel-core-6.5.1", "kernel-modules-6.5.1"]
    );
    let dpkg_out = "Desired=Unknown\nii  linux-image-6.1.0-13-amd64  6.1.90  amd64  kernel\nrc  linux-image-old  1.0  amd64  kernel\n";
    assert_eq!(parse_apt_kernel_packages(dpkg_out), vec!["linux-image-6.1.0-13-amd64"]);
}

#[test]
fn grouping_collects_packages_per_version() {
    let packages = vec![
        "kernel-core-6.5.1".to_string(),
        "kernel-modules-6.5.1".to_string(),
        "kernel-core-6.4.0".to_string(),
        "kernel-meta".to_string(),
    ];
    let prefixes = prefixes(&["kernel-core-", "kernel-modules-", "kernel-"]);
    let groups = group_by_version(&packages, &prefixes);
    assert_eq!(groups.len(), 2);
    assert_eq!(groups[0].0, "6.5.1");
    assert_eq!(groups[0].1, vec!["kernel-core-6.5.1", "kernel-modules-6.5.1"]);
    assert_eq!(groups[1].0, "6.4.0");
    assert_eq!(groups[1].1, vec!["kernel-core-6.4.0"]);
}

#[test]
fn build_kernel_items_removes_only_old_versions() {
    let packages = vec![
        "kernel-core-6.5.1".to_string(),
        "kernel-core-6.4.0".to_string(),
        "kernel-core-6.3.0".to_string(),
    ];
    let times = vec![
        ("6.5.1".to_string(), 30i64),
        ("6.4.0".to_string(), 20i64),
        ("6.3.0".to_string(), 10i64),
    ];
    let prefixes = prefixes(&["kernel-core-", "kernel-modules-", "kernel-"]);
    let items = build_kernel_items(&packages, &times, "6.5.1", 1, "rpm", &prefixes);
    assert_eq!(items.len(), 2);
    assert_eq!(items[0].name, "kernel-core-6.4.0");
    assert_eq!(items[0].id, "rpm:kernel-core-6.4.0");
    assert_eq!(items[0].description, "Old kernel package (rpm)");
    assert!(items[0].can_clean);
    assert!(items[0].path.is_none());
    assert!(matches!(&items[0].source, CleanupSource::PackageManager(m) if m == "rpm"));
    assert_eq!(items[1].name, "kernel-core-6.3.0");
}
