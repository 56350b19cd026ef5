//! SHA-256 digests, and the names that keys have in a store.

use sha2::Digest;
use vstd::prelude::*;

verus! {

use vstd::utf8::encode_utf8;

/// The SHA-256 digest of a byte string, as `sha2` computes it.
pub uninterp spec fn sha256(data: Seq<u8>) -> Seq<u8>;

/// The bytes that a `sha2::Sha256` has taken in so far.
pub uninterp spec fn absorbed(hasher: sha2::Sha256) -> Seq<u8>;

/// The SHA-256 hasher of `sha2`.
#[verifier::external_type_specification]
#[verifier::external_body]
pub struct ExSha256(sha2::Sha256);

/// One lowercase hexadecimal digit.
pub open spec fn hex_digit(value: int) -> char {
    if value < 10 {
        (value + 48) as char
    } else {
        (value + 87) as char
    }
}

/// A byte string in lowercase hexadecimal: two digits for each byte, the higher
/// one first.
pub open spec fn hex_text(bytes: Seq<u8>) -> Seq<char> {
    Seq::new(
        2 * bytes.len(),
        |i: int|
            if i % 2 == 0 {
                hex_digit(bytes[i / 2] as int / 16)
            } else {
                hex_digit(bytes[i / 2] as int % 16)
            },
    )
}

/// Calls `sha2::Sha256::new`: a hasher that has taken in nothing.
#[verifier::external_body]
fn new_hasher() -> (hasher: sha2::Sha256)
    ensures
        absorbed(hasher) == Seq::<u8>::empty(),
{
    sha2::Sha256::new()
}

/// Calls `sha2::Sha256::update`: the hasher takes in the bytes after those that
/// it has.
#[verifier::external_body]
fn update_hasher(hasher: &mut sha2::Sha256, bytes: &[u8])
    ensures
        absorbed(*final(hasher)) == absorbed(*old(hasher)) + bytes@,
{
    hasher.update(bytes);
}

/// Calls `sha2::Sha256::finalize`: the digest of all that the hasher has taken
/// in, which is 32 bytes long.
#[verifier::external_body]
fn finish_hasher(hasher: sha2::Sha256) -> (digest: Vec<u8>)
    ensures
        digest@ == sha256(absorbed(hasher)),
        digest@.len() == 32,
{
    hasher.finalize().to_vec()
}

/// Calls `hex::encode`: lowercase hexadecimal.
#[verifier::external_body]
fn encode_hex(bytes: &[u8]) -> (text: String)
    ensures
        text@ == hex_text(bytes@),
{
    hex::encode(bytes)
}

/// The digest of a byte string as plans write it.
pub open spec fn digest_text(data: Seq<u8>) -> Seq<char> {
    "sha256:"@ + hex_text(sha256(data))
}

/// The name under which the objects of a key are kept.
pub open spec fn key_digest(key: Seq<char>) -> Seq<char> {
    hex_text(sha256(encode_utf8(key)))
}

/// A digest in the making.
pub struct Digester {
    hasher: sha2::Sha256,
}

impl View for Digester {
    type V = Seq<u8>;

    /// All bytes that went into the digest.
    closed spec fn view(&self) -> Seq<u8> {
        absorbed(self.hasher)
    }
}

impl Digester {
    /// A digest of nothing yet.
    pub fn new() -> (digester: Digester)
        ensures
            digester@ == Seq::<u8>::empty(),
    {
        Digester { hasher: new_hasher() }
    }

    /// Takes in more bytes.
    pub fn update(&mut self, bytes: &[u8])
        ensures
            final(self)@ == old(self)@ + bytes@,
    {
        update_hasher(&mut self.hasher, bytes);
    }

    /// The digest as plans write it.
    pub fn finish(self) -> (text: String)
        ensures
            text@ == digest_text(self@),
            crate::plan::digest_error(text@) is None,
    {
        let digest = finish_hasher(self.hasher);
        let mut text = "sha256:".to_owned();
        text.append(encode_hex(digest.as_slice()).as_str());
        proof {
            lemma_digest_text_accepted(digest@);
        }
        text
    }
}

/// The name under which the objects of a key are kept: the SHA-256 digest of the
/// key in lowercase hexadecimal.
pub fn key_name(key: &str) -> (name: String)
    ensures
        name@ == key_digest(key@),
        name@.len() == 64,
        crate::path::plain_name(name@),
{
    let mut hasher = new_hasher();
    update_hasher(&mut hasher, key.as_bytes());
    assert(Seq::<u8>::empty() + encode_utf8(key@) =~= encode_utf8(key@));
    let digest = finish_hasher(hasher);
    proof {
        lemma_hex_text_is_plain(digest@);
    }
    encode_hex(digest.as_slice())
}

/// A byte string in hexadecimal is a plain name.
pub proof fn lemma_hex_text_is_plain(bytes: Seq<u8>)
    requires
        bytes.len() > 0,
    ensures
        crate::path::plain_name(hex_text(bytes)),
{
    let text = hex_text(bytes);
    assert forall|i: int| 0 <= i < text.len() implies ((#[trigger] text[i]) as int) < 128
        && text[i] != '/' && text[i] != '.' by {
        lemma_hex_digit(bytes[i / 2] as int / 16);
        lemma_hex_digit(bytes[i / 2] as int % 16);
    }
}

proof fn lemma_hex_digit(value: int)
    requires
        0 <= value < 16,
    ensures
        (hex_digit(value) as u8) as int == if value < 10 { value + 48 } else { value + 87 },
        (hex_digit(value) as int) < 128,
{
}

/// A digest that is 32 bytes long can be checked once it is written down.
proof fn lemma_digest_text_accepted(digest: Seq<u8>)
    requires
        digest.len() == 32,
    ensures
        crate::plan::digest_error("sha256:"@ + hex_text(digest)) is None,
{
    let text = hex_text(digest);
    let whole = "sha256:"@ + text;
    assert(whole.skip("sha256:"@.len() as int) =~= text);
    assert("sha256:"@.is_prefix_of(whole));
    assert forall|i: int| 0 <= i < text.len() implies ((#[trigger] text[i]) as int) < 128
        && crate::plan::is_hex_byte(text[i] as u8) by {
        lemma_hex_digit(digest[i / 2] as int / 16);
        lemma_hex_digit(digest[i / 2] as int % 16);
    }
    vstd::utf8::is_ascii_chars_encode_utf8(text);
    let bytes = encode_utf8(text);
    assert forall|i: int| 0 <= i < bytes.len() implies crate::plan::is_hex_byte(
        #[trigger] bytes[i],
    ) by {
        assert(bytes[i] == text[i] as u8);
    }
}

} // verus!
