use binspector::digest::hashes;

#[test]
fn digests_match_known_vectors() {
    let (md5, sha1, sha256) = hashes(b"abc");
    assert_eq!(md5, "900150983cd24fb0d6963f7d28e17f72");
    assert_eq!(sha1, "a9993e364706816aba3e25717850c26c9cd0d89d");
    assert_eq!(
        sha256,
        "ba7816bf8f01cfea414140de5dae2223b00361a396177a9cb410ff61f20015ad"
    );
}

#[test]
fn digests_of_empty_input() {
    let (md5, sha1, sha256) = hashes(b"");
    assert_eq!(md5, "d41d8cd98f00b204e9800998ecf8427e");
    assert_eq!(sha1, "da39a3ee5e6b4b0d3255bfef95601890afd80709");
    assert_eq!(
        sha256,
        "e3b0c44298fc1c149afbf4c8996fb92427ae41e4649b934ca495991b7852b855"
    );
}
