use imos::digest::{key_name, Digester};
use imos::plan::validate_digest;

#[test]
fn digests_are_sha256() {
    let mut digester = Digester::new();
    digester.update(b"abc");
    assert_eq!(
        digester.finish(),
        "sha256:ba7816bf8f01cfea414140de5dae2223b00361a396177a9cb410ff61f20015ad"
    );
}

#[test]
fn digest_of_nothing() {
    assert_eq!(
        Digester::new().finish(),
        "sha256:e3b0c44298fc1c149afbf4c8996fb92427ae41e4649b934ca495991b7852b855"
    );
}

#[test]
fn digests_do_not_depend_on_how_bytes_come() {
    let mut digester = Digester::new();
    digester.update(b"a");
    digester.update(b"");
    digester.update(b"bc");
    let mut whole = Digester::new();
    whole.update(b"abc");
    assert_eq!(digester.finish(), whole.finish());
}

#[test]
fn digests_can_be_asked_for() {
    let mut digester = Digester::new();
    digester.update(b"data");
    assert!(validate_digest(&digester.finish()).is_ok());
}

#[test]
fn keys_have_names() {
    assert_eq!(
        key_name("abc"),
        "ba7816bf8f01cfea414140de5dae2223b00361a396177a9cb410ff61f20015ad"
    );
    assert_eq!(key_name("tool-1.0").len(), 64);
    assert_ne!(key_name("a"), key_name("b"));
}
