//! The threshold protocols as traits.

use vstd::prelude::*;

verus! {

/// A key that can be used for threshold cryptography protocols. Such a key
/// can be split into `n` fragments, of which `m` (the threshold) are needed
/// to re-assemble it, by a secret sharing scheme such as Shamir's.
pub trait ThresholdKey: Sized {
    /// Whether the key is a fragment of a split key.
    spec fn fragment(&self) -> bool;

    /// Splits the key into `n` fragments, at most 256, with a threshold of
    /// `m` fragments required to re-assemble the full key.
    fn split(&self, m: usize, n: usize) -> (fragments: Vec<Self>)
        requires
            1 <= m <= n <= 256,
        ensures
            fragments@.len() == n,
            forall|k: int| 0 <= k < n ==> (#[trigger] fragments@[k]).fragment(),
    ;

    /// Re-assembles a key from fragments, at most 256. The result is no
    /// fragment.
    fn recover(fragments: &[Self]) -> (key: Self)
        requires
            fragments@.len() <= 256,
            forall|k: int| 0 <= k < fragments@.len() ==> (#[trigger] fragments@[k]).fragment(),
        ensures
            !key.fragment(),
    ;

    /// Whether the key is a fragment of a split key.
    fn is_fragment(&self) -> (b: bool)
        ensures
            b == self.fragment(),
    ;
}

/// A signature from a threshold signing protocol. From a threshold set of
/// signature fragments a full signature can be assembled, which the key
/// that was split verifies.
pub trait ThresholdSignature: Sized {
    /// Whether the signature was made by a fragment of a split key.
    spec fn fragment(&self) -> bool;

    /// Assembles a signature from fragments of it, at most 256. The result
    /// is no fragment.
    fn assemble(fragments: &[Self]) -> (signature: Self)
        requires
            fragments@.len() <= 256,
            forall|k: int| 0 <= k < fragments@.len() ==> (#[trigger] fragments@[k]).fragment(),
        ensures
            !signature.fragment(),
    ;

    /// Whether the signature was made by a fragment of a split key.
    fn is_fragment(&self) -> (b: bool)
        ensures
            b == self.fragment(),
    ;
}

} // verus!
