use diffcopy::filesync::copy_is_due;
use diffcopy::filesync::write_on_bytes_diff;
use diffcopy::hashing::Fnv1a64;

#[test]
fn copy_is_due_when_the_probe_produced_no_digest() {
    assert!(copy_is_due(7, None));
}

#[test]
fn copy_is_due_when_the_digests_differ() {
    assert!(copy_is_due(7, Some(8)));
}

#[test]
fn no_copy_is_due_when_the_digests_agree() {
    assert!(!copy_is_due(7, Some(7)));
}

#[test]
fn test_bytes_diff_dest_nonexistent() {
    let mut dest: Option<Vec<u8>> = None;
    let wrote = write_on_bytes_diff::<Fnv1a64>(b"hello", &mut dest);
    assert!(wrote);
    assert_eq!(dest, Some(b"hello".to_vec()));
}

#[test]
fn test_bytes_diff_bytes_are_same() {
    let mut dest: Option<Vec<u8>> = Some(b"hello".to_vec());
    let wrote = write_on_bytes_diff::<Fnv1a64>(b"hello", &mut dest);
    assert!(!wrote);
    assert_eq!(dest, Some(b"hello".to_vec()));
}

#[test]
fn test_bytes_diff_bytes_are_different() {
    let mut dest: Option<Vec<u8>> = Some(b"world".to_vec());
    let wrote = write_on_bytes_diff::<Fnv1a64>(b"hello", &mut dest);
    assert!(wrote);
    assert_eq!(dest, Some(b"hello".to_vec()));
}

#[test]
fn test_bytes_diff_empty_source() {
    let mut dest: Option<Vec<u8>> = Some(b"world".to_vec());
    let wrote = write_on_bytes_diff::<Fnv1a64>(b"", &mut dest);
    assert!(wrote);
    assert_eq!(dest, Some(Vec::new()));
}

#[test]
fn test_bytes_diff_empty_dest() {
    let mut dest: Option<Vec<u8>> = Some(Vec::new());
    let wrote = write_on_bytes_diff::<Fnv1a64>(b"hello", &mut dest);
    assert!(wrote);
    assert_eq!(dest, Some(b"hello".to_vec()));
}

#[test]
fn test_bytes_diff_both_empty() {
    let mut dest: Option<Vec<u8>> = Some(Vec::new());
    let wrote = write_on_bytes_diff::<Fnv1a64>(b"", &mut dest);
    assert!(!wrote);
    assert_eq!(dest, Some(Vec::new()));
}

#[test]
fn a_second_application_never_writes() {
    let cases: Vec<Option<Vec<u8>>> = vec![None, Some(b"hello".to_vec()), Some(b"world".to_vec())];
    for start in cases {
        let mut dest = start;
        write_on_bytes_diff::<Fnv1a64>(b"hello", &mut dest);
        let first = dest.clone();
        let wrote_again = write_on_bytes_diff::<Fnv1a64>(b"hello", &mut dest);
        assert!(!wrote_again);
        assert_eq!(dest, first);
    }
}
