//! Authorities and the signatures they make.

use crate::types::{NodeCount, NodeIndex};
use sp_runtime::app_crypto::{ed25519, Pair};
use vstd::prelude::*;

verus! {

/// A signature made by an authority.
#[derive(Clone, Copy, Debug, PartialEq, Eq, Hash)]
pub struct Signature(pub [u8; 64]);

impl View for Signature {
    type V = Seq<u8>;

    open spec fn view(&self) -> Seq<u8> {
        self.0@
    }
}

/// The public key of an authority.
#[derive(Clone, Copy, Debug, PartialEq, Eq, Hash)]
pub struct AuthorityId(pub [u8; 32]);

impl View for AuthorityId {
    type V = Seq<u8>;

    open spec fn view(&self) -> Seq<u8> {
        self.0@
    }
}

/// Whether ed25519 takes `signature` for one that the owner of `public` made of `message`.
pub uninterp spec fn ed25519_accepts(public: Seq<u8>, message: Seq<u8>, signature: Seq<u8>) -> bool;

/// Calls `verify` of `sp_core`'s `ed25519::Pair`, which `sp_runtime::app_crypto` passes on. It is
/// trusted to look at nothing but the key, the message and the signature; what makes a signature
/// good is left to ed25519.
#[verifier::external_body]
fn ed25519_verify(public: &AuthorityId, message: &[u8], signature: &Signature) -> (good: bool)
    ensures
        good == ed25519_accepts(public@, message@, signature@),
{
    let public = ed25519::Public::from_raw(public.0);
    let signature = ed25519::Signature::from_raw(signature.0);
    ed25519::Pair::verify(&signature, message, &public)
}

/// Whether `signature` under `message` is one of the authority with index `node_id`. No signature
/// is, where the index is not one of an authority.
pub open spec fn verifies(
    authorities: Seq<Seq<u8>>,
    message: Seq<u8>,
    signature: Seq<u8>,
    node_id: usize,
) -> bool {
    node_id < authorities.len() && ed25519_accepts(
        authorities[node_id as int],
        message,
        signature,
    )
}

/// Verifies the signatures of the authorities of one session.
#[derive(Debug)]
pub struct AuthorityVerifier {
    authorities: Vec<AuthorityId>,
}

impl Clone for AuthorityVerifier {
    fn clone(&self) -> (copy: AuthorityVerifier)
        ensures
            copy@ == self@,
    {
        let copy = AuthorityVerifier { authorities: self.authorities.clone() };
        assert(copy@ =~= self@);
        copy
    }
}

impl View for AuthorityVerifier {
    type V = Seq<Seq<u8>>;

    closed spec fn view(&self) -> Seq<Seq<u8>> {
        self.authorities@.map_values(|authority: AuthorityId| authority@)
    }
}

impl AuthorityVerifier {
    /// A verifier for the given authorities, the position of each being its index.
    pub fn new(authorities: Vec<AuthorityId>) -> (verifier: AuthorityVerifier)
        ensures
            verifier@ == authorities@.map_values(|authority: AuthorityId| authority@),
            verifier@.len() == authorities@.len(),
            forall|i: int|
                0 <= i < authorities@.len() ==> #[trigger] verifier@[i] == authorities@[i].0@,
    {
        AuthorityVerifier { authorities }
    }

    /// There are not more authorities than indices.
    pub(crate) proof fn lemma_len(&self)
        ensures
            self@.len() <= usize::MAX,
    {
        assert(self.authorities.len() <= usize::MAX);
    }

    /// The number of authorities.
    pub fn node_count(&self) -> (count: NodeCount)
        ensures
            count.0 == self@.len(),
    {
        NodeCount(self.authorities.len())
    }

    /// Whether the authority with the given index made the signature under the message.
    pub fn verify(&self, message: &[u8], signature: &Signature, index: NodeIndex) -> (good: bool)
        ensures
            good == verifies(self@, message@, signature@, index.0),
            index.0 < self@.len() ==> good == ed25519_accepts(
                self@[index.0 as int],
                message@,
                signature.0@,
            ),
            index.0 >= self@.len() ==> !good,
    {
        if index.0 < self.authorities.len() {
            ed25519_verify(&self.authorities[index.0], message, signature)
        } else {
            false
        }
    }
}

} // verus!
