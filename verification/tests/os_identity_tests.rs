use disk_scrutiny::os_identity::{classify_os, TargetOS};

#[test]
fn test_posix_check() {
    assert!(TargetOS::Linux._is_posix());
    assert!(TargetOS::MacOS._is_posix());
    assert!(!TargetOS::Windows._is_posix());
}

#[test]
fn classify_known_platforms() {
    assert_eq!(classify_os("linux"), TargetOS::Linux);
    assert_eq!(classify_os("macos"), TargetOS::MacOS);
    assert_eq!(classify_os("windows"), TargetOS::Windows);
    assert_eq!(classify_os("freebsd"), TargetOS::BSD);
    assert_eq!(classify_os("openbsd"), TargetOS::BSD);
    assert_eq!(classify_os("netbsd"), TargetOS::BSD);
    assert_eq!(classify_os("dragonfly"), TargetOS::BSD);
}

#[test]
fn classify_unrecognized_is_unknown_not_error() {
    assert_eq!(classify_os("beos"), TargetOS::Unknown);
    assert_eq!(classify_os(""), TargetOS::Unknown);
    assert_eq!(classify_os("Linux"), TargetOS::Unknown);
}
