use mountpoint::canon::{is_path_prefix_of, parent_of};
use mountpoint::device_walk::{find_mountpoint, find_mountpoint_pre_canonicalized, Walker};
use mountpoint::native_stat::{accept_mount_report, to_cstring_bytes};
use mountpoint::prefix_scan;
use mountpoint::Error;

#[test]
fn integration_basic() {
    // "./Cargo.toml" canonicalizes (an application step: canonicalization
    // reads the filesystem) to a path like "/home/user/proj/Cargo.toml"; on
    // a machine whose home directories live on the root filesystem, every
    // ancestor reports the same device identifier.
    let sample = b"/home/user/proj/Cargo.toml".to_vec();
    let devs = vec![7u64, 7, 7, 7, 7];
    let result = find_mountpoint_pre_canonicalized(&sample, &devs);
    assert_eq!(result.unwrap(), b"/".to_vec());
}

#[test]
fn integration_basic_without_canonicalization() {
    let sample = b"/home/user/proj/Cargo.toml".to_vec();
    let devs = vec![7u64, 7, 7, 7, 7];
    let result = find_mountpoint(&sample, &devs);
    assert_eq!(result.unwrap(), b"/".to_vec());
}

#[test]
fn integration_another_fs() {
    // "/Volumes/energeia" is a separately mounted volume: it and the file
    // on it report one device, "/Volumes" and "/" another.
    let sample = b"/Volumes/energeia/CONFIG.SYS".to_vec();
    let devs = vec![5u64, 5, 2, 2];
    let result = find_mountpoint_pre_canonicalized(&sample, &devs);
    assert_eq!(result.unwrap(), b"/Volumes/energeia".to_vec());
}

#[test]
fn result_is_prefix_of_input() {
    let sample = b"/Volumes/energeia/CONFIG.SYS".to_vec();
    let devs = vec![5u64, 5, 2, 2];
    let result = find_mountpoint_pre_canonicalized(&sample, &devs).unwrap();
    assert!(!result.is_empty());
    assert!(is_path_prefix_of(&result, &sample));
}

#[test]
fn root_is_its_own_mountpoint() {
    let root = b"/".to_vec();
    let devs = vec![3u64];
    assert_eq!(find_mountpoint_pre_canonicalized(&root, &devs).unwrap(), b"/".to_vec());
    assert_eq!(find_mountpoint(&root, &devs).unwrap(), b"/".to_vec());
}

#[test]
fn mountpoint_of_a_mountpoint_is_itself() {
    // "/Volumes/energeia" is itself the mount point: its parent already
    // lies on another device.
    let sample = b"/Volumes/energeia".to_vec();
    let devs = vec![5u64, 2, 2];
    let result = find_mountpoint_pre_canonicalized(&sample, &devs);
    assert_eq!(result.unwrap(), sample);
}

#[test]
fn canonicalized_and_pre_canonicalized_agree() {
    let sample = b"/Volumes/energeia/CONFIG.SYS".to_vec();
    let devs = vec![5u64, 5, 2, 2];
    let a = find_mountpoint(&sample, &devs).unwrap();
    let b = find_mountpoint_pre_canonicalized(&sample, &devs).unwrap();
    assert_eq!(a, b);
}

#[test]
fn walker_agrees_with_supplied_identifiers() {
    // Driving the incremental walk with the same device readings gives the
    // same mount point as handing them over up front.
    let sample = b"/Volumes/energeia/CONFIG.SYS".to_vec();
    let devs = vec![5u64, 5, 2, 2];
    let expected = find_mountpoint_pre_canonicalized(&sample, &devs).unwrap();

    let mut walker = Walker::new(&sample, 5);
    let q1 = walker.next_query().unwrap();
    assert_eq!(q1, b"/Volumes/energeia".to_vec());
    assert!(walker.advance(5).is_none());
    let q2 = walker.next_query().unwrap();
    assert_eq!(q2, b"/Volumes".to_vec());
    let found = walker.advance(2).unwrap();
    assert_eq!(found, expected);
}

#[test]
fn walker_reaches_the_root() {
    let sample = b"/home/user".to_vec();
    let mut walker = Walker::new(&sample, 9);
    assert!(walker.advance(9).is_none());
    assert!(walker.advance(9).is_none());
    assert!(walker.next_query().is_none());
    assert_eq!(walker.finish(), b"/".to_vec());
}

#[test]
fn parent_steps() {
    assert_eq!(parent_of(&b"/a/b".to_vec()), Some(b"/a".to_vec()));
    assert_eq!(parent_of(&b"/a".to_vec()), Some(b"/".to_vec()));
    assert_eq!(parent_of(&b"/".to_vec()), None);
    assert_eq!(
        parent_of(&b"/home/user/proj/Cargo.toml".to_vec()),
        Some(b"/home/user/proj".to_vec())
    );
}

#[test]
fn path_prefix_needs_a_component_boundary() {
    assert!(is_path_prefix_of(&b"/Volumes".to_vec(), &b"/Volumes/energeia".to_vec()));
    assert!(is_path_prefix_of(&b"/".to_vec(), &b"/Volumes".to_vec()));
    assert!(is_path_prefix_of(&b"/a/b".to_vec(), &b"/a/b".to_vec()));
    assert!(!is_path_prefix_of(&b"/Volume".to_vec(), &b"/Volumes/energeia".to_vec()));
    assert!(!is_path_prefix_of(&b"/a/c".to_vec(), &b"/a/b/c".to_vec()));
}

#[test]
fn prefix_scan_drive() {
    let path = b"C:\\Users\\me\\file.txt".to_vec();
    let result = prefix_scan::find_mountpoint_pre_canonicalized(&path);
    assert_eq!(result.unwrap(), b"C:".to_vec());
}

#[test]
fn prefix_scan_share() {
    let path = b"\\\\server\\share\\dir\\file.txt".to_vec();
    let result = prefix_scan::find_mountpoint_pre_canonicalized(&path);
    assert_eq!(result.unwrap(), b"\\\\server\\share".to_vec());
}

#[test]
fn prefix_scan_verbatim_disk() {
    let path = b"\\\\?\\C:\\x\\y".to_vec();
    let result = prefix_scan::find_mountpoint_pre_canonicalized(&path);
    assert_eq!(result.unwrap(), b"\\\\?\\C:".to_vec());
}

#[test]
fn prefix_scan_verbatim_share() {
    let path = b"\\\\?\\UNC\\srv\\sh\\file".to_vec();
    let result = prefix_scan::find_mountpoint_pre_canonicalized(&path);
    assert_eq!(result.unwrap(), b"\\\\?\\UNC\\srv\\sh".to_vec());
}

#[test]
fn prefix_scan_device_namespace() {
    let path = b"\\\\.\\COM1\\x".to_vec();
    let result = prefix_scan::find_mountpoint_pre_canonicalized(&path);
    assert_eq!(result.unwrap(), b"\\\\.\\COM1".to_vec());
}

#[test]
fn prefix_scan_rejects_prefixless_path() {
    let path = b"/usr/lib/file".to_vec();
    let result = prefix_scan::find_mountpoint_pre_canonicalized(&path);
    match result {
        Err(Error::S(message)) => assert_eq!(message, "Couldn't find prefix on path."),
        other => panic!("expected the missing-prefix failure, got {:?}", other),
    }
}

#[test]
fn prefix_scan_rejects_relative_path() {
    let path = b"Cargo.toml".to_vec();
    let result = prefix_scan::find_mountpoint_pre_canonicalized(&path);
    assert!(matches!(result, Err(Error::S(_))));
}

#[test]
fn prefix_scan_is_idempotent_on_its_result() {
    let path = b"\\\\server\\share\\dir\\file.txt".to_vec();
    let first = prefix_scan::find_mountpoint_pre_canonicalized(&path).unwrap();
    let second = prefix_scan::find_mountpoint_pre_canonicalized(&first).unwrap();
    assert_eq!(second, first);
}

#[test]
fn prefix_scan_canonicalized_variant_agrees() {
    let path = b"C:\\Users\\me".to_vec();
    let a = prefix_scan::find_mountpoint(&path).unwrap();
    let b = prefix_scan::find_mountpoint_pre_canonicalized(&path).unwrap();
    assert_eq!(a, b);
}

#[test]
fn cstring_bytes_appends_terminator() {
    let path = b"/tmp/x".to_vec();
    let result = to_cstring_bytes(&path);
    assert_eq!(result.unwrap(), b"/tmp/x\0".to_vec());
}

#[test]
fn cstring_bytes_rejects_interior_terminator() {
    let path = b"/tm\0p".to_vec();
    match to_cstring_bytes(&path) {
        Err(Error::Ffi { nul_position }) => assert_eq!(nul_position, 3),
        other => panic!("expected the construction failure, got {:?}", other),
    }
}

#[test]
fn mount_report_accepted_when_valid() {
    let path = b"/Volumes/energeia/CONFIG.SYS".to_vec();
    let report = b"/Volumes/energeia".to_vec();
    assert_eq!(accept_mount_report(&path, &report), Some(report));
}

#[test]
fn mount_report_rejected_off_boundary() {
    let path = b"/Volumes/energeia/CONFIG.SYS".to_vec();
    let report = b"/Volume".to_vec();
    assert_eq!(accept_mount_report(&path, &report), None);
}

#[test]
fn mount_report_rejected_when_empty() {
    let path = b"/Volumes/energeia/CONFIG.SYS".to_vec();
    let report = Vec::new();
    assert_eq!(accept_mount_report(&path, &report), None);
}

#[test]
fn error_from_message() {
    let err = Error::from(String::from("no prefix"));
    assert!(matches!(err, Error::S(_)));
}

#[test]
fn error_carries_os_code() {
    // the I/O variant carries the operating system's error code verbatim;
    // it is the embedding application that meets system-call failures and
    // builds it
    let err = Error::Io { code: 2 };
    match err {
        Error::Io { code } => assert_eq!(code, 2),
        other => panic!("expected the I/O failure, got {:?}", other),
    }
}
