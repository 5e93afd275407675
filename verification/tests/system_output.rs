use rcleaner::detection::{
    detect_system, normalize_desktop_environment, parse_os_release, os_release_value,
    DesktopType, PackageManagerType, SystemType,
};
use rcleaner::system::{
    check_dependencies_for_manager, is_no_requires_message, is_safe_to_remove, parse_apt_rdepends,
    parse_dnf_list, parse_pacman_required_by, parse_snap_list, split_lines, AptManager,
    CommandCapture, RpmManager,
};
use rcleaner::error::RcleanerError;

#[test]
fn test_is_no_requires_message_english() {
    let msg = "no package requires libnsl";
    assert!(is_no_requires_message(msg, "libnsl"));
}

#[test]
fn test_is_no_requires_message_russian() {
    let msg = "ни один из пакетов не требует libnsl";
    assert!(is_no_requires_message(msg, "libnsl"));
}

#[test]
fn test_is_no_requires_message_without_package() {
    let msg = "no package requires";
    assert!(is_no_requires_message(msg, "libnsl"));
}

#[test]
fn test_is_no_requires_message_other_error() {
    let msg = "error: package libnsl is not installed";
    assert!(!is_no_requires_message(msg, "libnsl"));
}

#[test]
fn no_requires_message_ignores_case() {
    // The real lower-casing runs here: an upper-case message matches too.
    assert!(is_no_requires_message("NO PACKAGE REQUIRES foo", "foo"));
    assert!(is_no_requires_message("Ни один из пакетов не требует foo", "foo"));
}

#[test]
fn split_lines_trims_and_drops_empties() {
    let out = split_lines("  one \n\n two\r\nthree\n");
    assert_eq!(out, vec!["one", "two", "three"]);
}

#[test]
fn apt_rdepends_parsing() {
    let out = "foo\nReverse Depends:\n  bar\n |baz\n\n";
    let deps = parse_apt_rdepends(out);
    assert_eq!(deps, vec!["foo", "bar", "baz"]);
}

#[test]
fn apt_check_dependencies_drops_the_package_itself() {
    let capture = CommandCapture {
        success: true,
        stdout: "foo\nReverse Depends:\n  bar\n  foo\n".to_string(),
        stderr: String::new(),
    };
    let deps = AptManager::new().check_dependencies("foo", &capture).unwrap();
    assert_eq!(deps, vec!["bar"]);
}

#[test]
fn rpm_failure_becomes_command_error() {
    let capture = CommandCapture {
        success: false,
        stdout: String::new(),
        stderr: "rpm exploded".to_string(),
    };
    let err = RpmManager::new().list_installed(&capture).unwrap_err();
    match err {
        RcleanerError::Command(m) => assert_eq!(m, "rpm command failed: rpm exploded"),
        _ => panic!("expected a command error"),
    }
}

#[test]
fn rpm_no_requires_failure_is_empty() {
    let capture = CommandCapture {
        success: false,
        stdout: String::new(),
        stderr: "no package requires libnsl".to_string(),
    };
    let deps = RpmManager::new().check_dependencies("libnsl", &capture).unwrap();
    assert!(deps.is_empty());
}

#[test]
fn pacman_required_by_parsing() {
    let out = "Name : foo\nRequired By : bar baz\nOptional : x\n";
    assert_eq!(parse_pacman_required_by(out), vec!["bar", "baz"]);
    let none = "Name : foo\nRequired By : None\n";
    assert!(parse_pacman_required_by(none).is_empty());
}

#[test]
fn dnf_list_skips_headers() {
    let out = "Installed Packages\nfoo.x86_64  1.0  @repo\nbar.noarch  2.0  @repo\n";
    assert_eq!(parse_dnf_list(out), vec!["foo.x86_64", "bar.noarch"]);
}

#[test]
fn snap_list_skips_header_line() {
    let out = "Name  Version  Rev  Tracking\nfirefox  119  321  stable\ncore  16  999  stable\n";
    assert_eq!(parse_snap_list(out), vec!["firefox", "core"]);
}

#[test]
fn dependency_dispatch_defaults_to_empty() {
    assert!(check_dependencies_for_manager("apt", "foo", None).unwrap().is_empty());
    let capture = CommandCapture {
        success: true,
        stdout: "dep1\n".to_string(),
        stderr: String::new(),
    };
    assert!(check_dependencies_for_manager("zypper", "foo", Some(&capture)).unwrap().is_empty());
    let deps = check_dependencies_for_manager("rpm", "foo", Some(&capture)).unwrap();
    assert_eq!(deps, vec!["dep1"]);
}

#[test]
fn safe_to_remove_needs_install_and_no_dependents() {
    let installed = vec!["foo".to_string(), "bar".to_string()];
    assert!(is_safe_to_remove(&"foo".to_string(), &installed, &Some(Vec::new())));
    assert!(!is_safe_to_remove(&"foo".to_string(), &installed, &Some(vec!["x".to_string()])));
    assert!(!is_safe_to_remove(&"foo".to_string(), &installed, &None));
    assert!(!is_safe_to_remove(&"ghost".to_string(), &installed, &Some(Vec::new())));
}

#[test]
fn os_release_drives_detection() {
    let content = "# comment\nNAME=\"Fedora Linux\"\nPRETTY_NAME=\"Fedora Linux 40\"\nID=fedora\nVERSION_ID=40\n";
    let entries = parse_os_release(content);
    assert_eq!(os_release_value(&entries, "ID").as_deref(), Some("fedora"));
    let info = detect_system(content, vec![PackageManagerType::Dnf], Vec::new(), None, false);
    assert_eq!(info.os_name, "Fedora Linux 40");
    assert_eq!(info.os_version, "40");
    assert_eq!(info.system_type, SystemType::Desktop(DesktopType::RpmFedora));
    let atomic = detect_system(content, Vec::new(), Vec::new(), None, true);
    assert_eq!(atomic.system_type, SystemType::AtomicRpmOstree);
}

#[test]
fn id_like_and_managers_break_ties() {
    let content = "ID=neon\nID_LIKE=\"ubuntu debian\"\n";
    let info = detect_system(content, Vec::new(), Vec::new(), None, false);
    assert_eq!(info.system_type, SystemType::Desktop(DesktopType::AptUbuntu));
    let bare = detect_system("", vec![PackageManagerType::Pacman], Vec::new(), None, false);
    assert_eq!(bare.system_type, SystemType::Desktop(DesktopType::PacmanArch));
}

#[test]
fn desktop_environment_normalization() {
    assert_eq!(normalize_desktop_environment("ubuntu:GNOME"), "GNOME");
    assert_eq!(normalize_desktop_environment("plasmax11"), "KDE");
    assert_eq!(normalize_desktop_environment("XFCE Session"), "XFCE");
    assert_eq!(normalize_desktop_environment("  sway  "), "sway");
}
