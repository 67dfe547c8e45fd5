//! The content hasher: streams bytes through a SHA-256 digest and emits the
//! canonical lowercase-hex signature.
//!
//! The digest itself is computed by the `sha2` crate and named, not spelled
//! out; the hex encoding, done by `base16ct`, is specified exactly. Reading
//! the bytes of a file is the caller's business: the hasher is fed chunks,
//! so memory stays bounded regardless of content size.

use vstd::prelude::*;

verus! {

/// Declares the `sha2` crate's hasher state to the verifier; its values are
/// opaque and are spoken of only through `sha256_fed`.
#[verifier::external_type_specification]
#[verifier::external_body]
pub struct ExSha256(sha2::Sha256);

/// What a SHA-256 state holds: the bytes fed to it so far.
pub uninterp spec fn sha256_fed(h: sha2::Sha256) -> Seq<u8>;

/// The SHA-256 digest of a byte sequence: a function of the bytes alone.
pub uninterp spec fn sha256_of(data: Seq<u8>) -> Seq<u8>;

/// Relies on sha2::Sha256, Digest::new: a fresh state has seen no bytes.
#[verifier::external_body]
fn sha256_new() -> (r: sha2::Sha256)
    ensures
        sha256_fed(r) == Seq::<u8>::empty(),
{
    <sha2::Sha256 as sha2::Digest>::new()
}

/// Relies on sha2::Sha256, Digest::update: feeding a chunk appends it to
/// the processed stream.
#[verifier::external_body]
fn sha256_update(h: &mut sha2::Sha256, chunk: &[u8])
    ensures
        sha256_fed(*final(h)) == sha256_fed(*old(h)) + chunk@,
{
    sha2::Digest::update(h, chunk);
}

/// Relies on sha2::Sha256, Digest::finalize: the digest depends on the fed
/// bytes alone and is 32 bytes long.
#[verifier::external_body]
fn sha256_finalize(h: sha2::Sha256) -> (r: Vec<u8>)
    ensures
        r@ == sha256_of(sha256_fed(h)),
        r@.len() == 32,
{
    sha2::Digest::finalize(h).to_vec()
}

/// Relies on base16ct::lower::encode_string: two lowercase hex digits per
/// byte, high nibble first.
#[verifier::external_body]
fn hex_lower(data: &[u8]) -> (r: String)
    requires
        data@.len() <= usize::MAX / 2,
    ensures
        r@ == hex_lower_of(data@),
{
    base16ct::lower::encode_string(data)
}

/// The lowercase hex digit for a nibble: `0`-`9` then `a`-`f`.
pub open spec fn hex_digit(n: u8) -> char {
    if n < 10 {
        ((n + 48) as char)
    } else {
        ((n + 87) as char)
    }
}

/// Lowercase base-16 encoding: two digits per byte, high nibble first.
pub open spec fn hex_lower_of(data: Seq<u8>) -> Seq<char>
    decreases data.len(),
{
    if data.len() == 0 {
        Seq::empty()
    } else {
        hex_lower_of(data.drop_last()) + seq![
            hex_digit(data.last() / 16),
            hex_digit(data.last() % 16),
        ]
    }
}

/// The signature of some content: the lowercase hex encoding of its SHA-256
/// digest.
pub open spec fn signature_of(data: Seq<u8>) -> Seq<char> {
    hex_lower_of(sha256_of(data))
}

/// Hash determinism: identical byte content always yields identical
/// signatures, on every machine and in every run.
pub proof fn lemma_signature_deterministic(a: Seq<u8>, b: Seq<u8>)
    requires
        a == b,
    ensures
        signature_of(a) == signature_of(b),
{
}

/// An incremental content hasher; its view is the bytes fed so far.
pub struct ContentHasher {
    inner: sha2::Sha256,
}

impl View for ContentHasher {
    type V = Seq<u8>;

    closed spec fn view(&self) -> Seq<u8> {
        sha256_fed(self.inner)
    }
}

impl ContentHasher {
    /// A fresh hasher that has seen no bytes.
    pub fn new() -> (r: ContentHasher)
        ensures
            r@ == Seq::<u8>::empty(),
    {
        ContentHasher { inner: sha256_new() }
    }

    /// Feeds one chunk: the processed stream grows by exactly the chunk.
    pub fn update(&mut self, chunk: &[u8])
        ensures
            final(self)@ == old(self)@ + chunk@,
    {
        sha256_update(&mut self.inner, chunk);
    }

    /// Consumes the hasher: the SHA-256 digest of everything fed to it.
    pub fn finalize(self) -> (r: Vec<u8>)
        ensures
            r@ == sha256_of(self@),
            r@.len() == 32,
    {
        let ContentHasher { inner } = self;
        sha256_finalize(inner)
    }

    /// Consumes the hasher: the canonical signature of everything fed to it.
    pub fn finalize_hex(self) -> (r: String)
        ensures
            r@ == signature_of(self@),
    {
        let digest = self.finalize();
        hex_lower(digest.as_slice())
    }
}

/// The signature of a whole in-memory byte buffer.
pub fn hash_bytes(data: &[u8]) -> (r: String)
    ensures
        r@ == signature_of(data@),
{
    let mut hasher = ContentHasher::new();
    hasher.update(data);
    proof {
        assert(hasher@ =~= data@);
    }
    hasher.finalize_hex()
}

} // verus!
