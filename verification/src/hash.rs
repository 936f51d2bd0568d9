//! Object identifiers and the hash function that produces them.
use vstd::prelude::*;

verus! {

/// The hash function by which objects are named.
#[derive(Clone, Copy, Debug, PartialEq, Eq, Structural)]
pub enum Kind {
    /// SHA-1, with digests of 20 bytes.
    Sha1,
}

/// The width in bytes of a digest of the given kind.
pub open spec fn kind_len(kind: Kind) -> nat {
    match kind {
        Kind::Sha1 => 20,
    }
}

/// The byte that stands for the given kind in file headers.
pub open spec fn kind_code(kind: Kind) -> u8 {
    match kind {
        Kind::Sha1 => 1,
    }
}

impl Kind {
    /// The width in bytes of a digest of this kind.
    pub fn len_in_bytes(&self) -> (r: usize)
        ensures
            r == kind_len(*self),
    {
        match self {
            Kind::Sha1 => 20,
        }
    }

    /// The byte that stands for this kind in file headers.
    pub fn code(&self) -> (r: u8)
        ensures
            r == kind_code(*self),
    {
        match self {
            Kind::Sha1 => 1,
        }
    }
}

/// The name of an object: the digest of its content, as raw bytes.
#[derive(Clone, Copy, Debug)]
pub struct ObjectId {
    /// The digest.
    pub bytes: [u8; 20],
}

impl View for ObjectId {
    type V = Seq<u8>;

    open spec fn view(&self) -> Seq<u8> {
        self.bytes@
    }
}

/// The digest of `bytes` under SHA-1, as `git_features::hash::Sha1` computes it.
pub uninterp spec fn sha1_of(bytes: Seq<u8>) -> Seq<u8>;

/// `git_features::hash::hasher` for the kind, one `update` with all of
/// `bytes`, then `digest`: the result is the SHA-1 digest of `bytes`, which
/// depends on nothing else.
#[verifier::external_body]
pub(crate) fn digest_bytes(kind: Kind, bytes: &[u8]) -> (r: [u8; 20])
    ensures
        r@ == sha1_of(bytes@),
{
    let mut hasher = git_features::hash::hasher(match kind {
        Kind::Sha1 => git_hash::Kind::Sha1,
    });
    hasher.update(bytes);
    hasher.digest()
}

impl ObjectId {
    /// The identifier that holds the given digest.
    pub fn new(bytes: [u8; 20]) -> (r: ObjectId)
        ensures
            r@ == bytes@,
    {
        ObjectId { bytes }
    }

    /// The kind of hash that produced this identifier.
    pub fn kind(&self) -> (r: Kind)
        ensures
            r == Kind::Sha1,
            self@.len() == kind_len(r),
    {
        Kind::Sha1
    }

    /// The raw bytes of the identifier.
    pub fn as_slice(&self) -> (r: &[u8])
        ensures
            r@ == self@,
    {
        self.bytes.as_slice()
    }

    /// The leading byte, by which lookup tables are partitioned.
    pub fn first_byte(&self) -> (r: u8)
        ensures
            r == self@[0],
    {
        self.bytes[0]
    }

    /// The identifier of the given content: its digest.
    pub fn of_content(kind: Kind, content: &[u8]) -> (r: ObjectId)
        ensures
            r@ == sha1_of(content@),
    {
        ObjectId { bytes: digest_bytes(kind, content) }
    }
}

} // verus!
