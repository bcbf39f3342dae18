//! Rolling digests of the byte stream.
//!
//! The hash functions themselves are those of the `sha2` and `blake3`
//! crates. What is proved here is which bytes each of them has been fed.

use vstd::prelude::*;

verus! {

/// The number of characters of a digest as text: two for each of its 32
/// bytes.
pub const DIGEST_TEXT_LEN: usize = 64;

/// The SHA-256 digest of `message`, as 64 lower-case hexadecimal digits.
pub uninterp spec fn sha256_hex(message: Seq<u8>) -> Seq<char>;

/// The BLAKE3 digest of `message`, as 64 lower-case hexadecimal digits.
pub uninterp spec fn blake3_hex(message: Seq<u8>) -> Seq<char>;

/// The bytes that a SHA-256 hasher has been fed so far, in order.
pub uninterp spec fn sha256_fed(h: Sha256State) -> Seq<u8>;

/// The bytes that a BLAKE3 hasher has been fed so far, in order.
pub uninterp spec fn blake3_fed(h: blake3::Hasher) -> Seq<u8>;

/// The incremental SHA-256 hasher of the `sha2` crate. Its type is an
/// instance of a generic wrapper over traits of that crate, so it is held
/// here as a whole and handled by the functions below alone.
#[verifier::external_body]
pub struct Sha256State {
    inner: sha2::Sha256,
}

/// The incremental BLAKE3 hasher.
#[verifier::external_type_specification]
#[verifier::external_body]
pub struct ExBlake3(blake3::Hasher);

/// `sha2::Digest::new`. Trusted: a new hasher has been fed nothing.
#[verifier::external_body]
fn sha256_new() -> (h: Sha256State)
    ensures
        sha256_fed(h) == Seq::<u8>::empty(),
{
    Sha256State { inner: sha2::Digest::new() }
}

/// `sha2::Digest::update`. Trusted: the bytes are added behind those fed
/// before.
#[verifier::external_body]
fn sha256_update(h: &mut Sha256State, input: &[u8])
    ensures
        sha256_fed(*final(h)) == sha256_fed(*old(h)) + input@,
{
    sha2::Digest::update(&mut h.inner, input)
}

/// `sha2::Digest::finalize`, printed in lower-case hexadecimal. Trusted:
/// the text is the digest of all the bytes fed, whatever the pieces they
/// came in; the digest has 32 bytes, so the text has 64 characters.
#[verifier::external_body]
fn sha256_finalize(h: Sha256State) -> (text: String)
    ensures
        text@ == sha256_hex(sha256_fed(h)),
        text@.len() == DIGEST_TEXT_LEN,
{
    format!("{:x}", sha2::Digest::finalize(h.inner))
}

/// `blake3::Hasher::new`. Trusted: a new hasher has been fed nothing.
#[verifier::external_body]
fn blake3_new() -> (h: blake3::Hasher)
    ensures
        blake3_fed(h) == Seq::<u8>::empty(),
{
    blake3::Hasher::new()
}

/// `blake3::Hasher::update`. Trusted: the bytes are added behind those fed
/// before.
#[verifier::external_body]
fn blake3_update(h: &mut blake3::Hasher, input: &[u8])
    ensures
        blake3_fed(*final(h)) == blake3_fed(*old(h)) + input@,
{
    h.update(input);
}

/// `blake3::Hasher::finalize`, printed by `blake3::Hash`'s `Display`, which
/// is lower-case hexadecimal. Trusted: the text is the digest of all the
/// bytes fed, whatever the pieces they came in; the digest has 32 bytes, so
/// the text has 64 characters.
#[verifier::external_body]
fn blake3_finalize(h: &blake3::Hasher) -> (text: String)
    ensures
        text@ == blake3_hex(blake3_fed(*h)),
        text@.len() == DIGEST_TEXT_LEN,
{
    h.finalize().to_string()
}

/// The text that stands for the stream `message` when the digests named
/// are kept: SHA-256 where it is asked for, else BLAKE3, else nothing.
pub open spec fn digest_text(sha256: bool, blake3: bool, message: Seq<u8>) -> Option<Seq<char>> {
    if sha256 {
        Some(sha256_hex(message))
    } else if blake3 {
        Some(blake3_hex(message))
    } else {
        None
    }
}

/// The digests kept over one stream.
pub struct Digests {
    sha256: Option<Sha256State>,
    blake3: Option<blake3::Hasher>,
    fed: Ghost<Seq<u8>>,
}

impl Digests {
    /// Whether SHA-256 is kept.
    pub closed spec fn sha256_on(&self) -> bool {
        self.sha256 is Some
    }

    /// Whether BLAKE3 is kept.
    pub closed spec fn blake3_on(&self) -> bool {
        self.blake3 is Some
    }

    /// All the bytes fed so far, in order.
    pub closed spec fn message(&self) -> Seq<u8> {
        self.fed@
    }

    /// Every digest kept has been fed exactly `message()`.
    pub closed spec fn wf(&self) -> bool {
        &&& self.sha256 matches Some(h) ==> sha256_fed(h) == self.fed@
        &&& self.blake3 matches Some(h) ==> blake3_fed(h) == self.fed@
    }

    /// Fresh digests, as asked for, over the empty stream.
    pub fn new(sha256: bool, blake3: bool) -> (d: Digests)
        ensures
            d.wf(),
            d.sha256_on() == sha256,
            d.blake3_on() == blake3,
            d.message() == Seq::<u8>::empty(),
    {
        Digests {
            sha256: if sha256 {
                Some(sha256_new())
            } else {
                None
            },
            blake3: if blake3 {
                Some(blake3_new())
            } else {
                None
            },
            fed: Ghost(Seq::empty()),
        }
    }

    /// Feeds `bytes` to every digest kept.
    pub fn update(&mut self, bytes: &[u8])
        requires
            old(self).wf(),
        ensures
            final(self).wf(),
            final(self).sha256_on() == old(self).sha256_on(),
            final(self).blake3_on() == old(self).blake3_on(),
            final(self).message() == old(self).message() + bytes@,
    {
        match &mut self.sha256 {
            Some(h) => sha256_update(h, bytes),
            None => {},
        }
        match &mut self.blake3 {
            Some(h) => blake3_update(h, bytes),
            None => {},
        }
        self.fed = Ghost(self.fed@ + bytes@);
    }

    /// The digest of the stream as text: that of SHA-256 where it is kept,
    /// else that of BLAKE3, else none.
    pub fn finalize(self) -> (text: Option<String>)
        requires
            self.wf(),
        ensures
            match text {
                Some(t) => Some(t@),
                None => None,
            } == digest_text(self.sha256_on(), self.blake3_on(), self.message()),
            text matches Some(t) ==> t@.len() == DIGEST_TEXT_LEN,
    {
        match self.sha256 {
            Some(h) => Some(sha256_finalize(h)),
            None => match self.blake3 {
                Some(h) => Some(blake3_finalize(&h)),
                None => None,
            },
        }
    }
}

} // verus!
