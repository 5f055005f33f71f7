use diffcopy::hashing::digest_of_bytes;
use diffcopy::hashing::ContentHasher;
use diffcopy::hashing::Fnv1a64;

#[test]
fn digest_of_empty_input_is_the_offset_basis() {
    assert_eq!(digest_of_bytes::<Fnv1a64>(b""), 0xcbf2_9ce4_8422_2325);
}

#[test]
fn digest_of_one_byte() {
    assert_eq!(digest_of_bytes::<Fnv1a64>(b"a"), 0xaf63_dc4c_8601_ec8c);
}

#[test]
fn digest_of_hello() {
    assert_eq!(digest_of_bytes::<Fnv1a64>(b"hello"), 0xa430_d846_80aa_bd0b);
}

#[test]
fn incremental_feeding_matches_one_shot() {
    let mut h = Fnv1a64::start();
    h.absorb(b"he");
    h.absorb(b"");
    h.absorb(b"llo");
    assert_eq!(h.finalize(), digest_of_bytes::<Fnv1a64>(b"hello"));
}

#[test]
fn equal_streams_have_equal_digests() {
    let a = vec![0u8, 1, 2, 3, 255];
    let b = vec![0u8, 1, 2, 3, 255];
    assert_eq!(
        digest_of_bytes::<Fnv1a64>(&a),
        digest_of_bytes::<Fnv1a64>(&b)
    );
}

#[test]
fn hello_and_world_have_different_digests() {
    assert_ne!(
        digest_of_bytes::<Fnv1a64>(b"hello"),
        digest_of_bytes::<Fnv1a64>(b"world")
    );
}

#[test]
fn finalize_can_be_read_between_chunks() {
    let mut h = Fnv1a64::start();
    h.absorb(b"hel");
    let partial = h.finalize();
    assert_eq!(partial, digest_of_bytes::<Fnv1a64>(b"hel"));
    h.absorb(b"lo");
    assert_eq!(h.finalize(), digest_of_bytes::<Fnv1a64>(b"hello"));
}
