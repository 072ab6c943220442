//! Content hashing with BLAKE3: the identity of every stored blob and of
//! every commit is the lowercase hex of a BLAKE3 digest.

use vstd::prelude::*;

verus! {

#[verifier::external_type_specification]
#[verifier::external_body]
pub struct ExBlake3Hasher(blake3::Hasher);

/// The bytes fed to a `blake3::Hasher` since it was created, in order.
pub uninterp spec fn blake3_absorbed(h: blake3::Hasher) -> Seq<u8>;

/// The 32-byte BLAKE3 digest of `input`.
pub uninterp spec fn blake3_digest(input: Seq<u8>) -> Seq<u8>;

/// The character of one hex digit (`0`-`9`, then `a`-`f`).
pub open spec fn hex_digit(v: int) -> char {
    if v < 10 {
        (48 + v) as char
    } else {
        (87 + v) as char
    }
}

/// Lowercase hexadecimal of `bytes`, two digits per byte, high nibble first.
pub open spec fn hex_lower(bytes: Seq<u8>) -> Seq<char>
    decreases bytes.len(),
{
    if bytes.len() == 0 {
        Seq::empty()
    } else {
        hex_lower(bytes.drop_last()) + seq![
            hex_digit(bytes.last() as int / 16),
            hex_digit(bytes.last() as int % 16),
        ]
    }
}

/// The identity of a content: the lowercase hex of its BLAKE3 digest.
pub open spec fn content_id(data: Seq<u8>) -> Seq<char> {
    hex_lower(blake3_digest(data))
}

/// `blake3::Hasher::new`: a hasher that has absorbed nothing yet.
#[verifier::external_body]
fn hasher_new() -> (h: blake3::Hasher)
    ensures
        blake3_absorbed(h) == Seq::<u8>::empty(),
{
    blake3::Hasher::new()
}

/// `blake3::Hasher::update`: appends `data` to what the hasher has absorbed
/// (the crate documents that feeding input in pieces gives the digest of
/// their concatenation).
#[verifier::external_body]
fn hasher_update(h: &mut blake3::Hasher, data: &[u8])
    ensures
        blake3_absorbed(*final(h)) == blake3_absorbed(*old(h)) + data@,
{
    h.update(data);
}

/// `blake3::Hasher::finalize`, then `to_string` of the `Hash`: the crate's
/// `Display` writes the 32 digest bytes as 64 lowercase hex digits.
#[verifier::external_body]
fn hasher_finalize_hex(h: &blake3::Hasher) -> (s: String)
    ensures
        s@ == hex_lower(blake3_digest(blake3_absorbed(*h))),
        s@.len() == 64,
{
    h.finalize().to_string()
}

/// An incremental BLAKE3 hasher for blob and commit identities.
pub struct BlobHasher {
    inner: blake3::Hasher,
}

impl BlobHasher {
    /// The bytes fed to this hasher so far.
    pub closed spec fn absorbed(&self) -> Seq<u8> {
        blake3_absorbed(self.inner)
    }

    /// A hasher that has absorbed nothing.
    pub fn new() -> (h: BlobHasher)
        ensures
            h.absorbed() == Seq::<u8>::empty(),
    {
        BlobHasher { inner: hasher_new() }
    }

    /// Feeds `data` after everything absorbed so far.
    pub fn update(&mut self, data: &[u8])
        ensures
            final(self).absorbed() == old(self).absorbed() + data@,
    {
        hasher_update(&mut self.inner, data);
    }

    /// The identity of everything absorbed: 64 lowercase hex digits.
    pub fn finalize_hex(&self) -> (s: String)
        ensures
            s@ == content_id(self.absorbed()),
            s@.len() == 64,
    {
        hasher_finalize_hex(&self.inner)
    }
}

/// Every character of a hex string is an ASCII hex digit.
pub proof fn lemma_hex_lower_digits(bytes: Seq<u8>)
    ensures
        hex_lower(bytes).len() == 2 * bytes.len(),
        forall|i: int|
            0 <= i < hex_lower(bytes).len() ==> {
                let c = #[trigger] hex_lower(bytes)[i];
                ('0' <= c && c <= '9') || ('a' <= c && c <= 'f')
            },
    decreases bytes.len(),
{
    if bytes.len() > 0 {
        lemma_hex_lower_digits(bytes.drop_last());
    }
}

} // verus!
