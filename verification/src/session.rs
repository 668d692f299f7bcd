//! Handling of the authentications of one session.

use crate::authentication::{
    legacy_form, AuthData, AuthDataView, Authentication, LegacyAuthData, LegacyAuthentication,
    LegacyAuthDataView, PeerAuthentications, PeerAuthenticationsView, Received,
};
use crate::crypto::{ed25519_accepts, AuthorityVerifier, Signature};
use crate::laws::handling::missing_nodes_are_the_unknown_others;
use crate::network::{encodings, Data, Multiaddressed, PeerId};
use crate::state::{
    distinct, initial_info, lemma_position, lists, position, stored, Entries, HandlerView,
    SessionInfoView, SignedAuthorityView,
};
use crate::types::{NodeCount, NodeIndex, SessionId};
use std::collections::HashMap;
use vstd::prelude::*;

verus! {

broadcast use vstd::std_specs::hash::group_hash_axioms;

/// The messages that a validator has to sign to take part in a session.
#[derive(Debug)]
pub struct SigningRequest {
    /// The validator's statement about its address.
    pub message: Vec<u8>,
    /// The legacy form of the same statement.
    pub legacy_message: Vec<u8>,
}

impl SigningRequest {
    /// Whether these are the messages of the node with the given index and encoded address.
    pub open spec fn is_for<M: Data, A: Multiaddressed<M>>(
        &self,
        node_id: usize,
        session_id: u32,
        address: Seq<u8>,
    ) -> bool {
        let data = AuthDataView { address, node_id, session_id };
        &&& self.message@ == data.encoding()
        &&& self.legacy_message@ == legacy_form::<M, A>(data).encoding()
    }

    /// What the node with the given index and address has to sign for a session.
    pub fn new<M: Data, A: Multiaddressed<M>>(
        node_index: NodeIndex,
        session_id: SessionId,
        address: &A,
    ) -> (request: SigningRequest)
        requires
            A::split(address.encoding()).len() <= u32::MAX,
        ensures
            request.is_for::<M, A>(node_index.0, session_id.0, address.encoding()),
            request.message@ == (AuthDataView {
                address: address.encoding(),
                node_id: node_index.0,
                session_id: session_id.0,
            }).encoding(),
            request.legacy_message@ == (LegacyAuthDataView {
                addresses: A::split(address.encoding()),
                node_id: node_index.0,
                session_id: session_id.0,
            }).encoding(),
    {
        let auth_data = AuthData { address: address.duplicate(), node_id: node_index, session_id };
        let legacy_auth_data = LegacyAuthData::<M>::from_auth_data(&auth_data);
        SigningRequest { message: auth_data.encode(), legacy_message: legacy_auth_data.encode() }
    }
}

/// A validator's index, with its signatures under the two messages of a `SigningRequest`.
#[derive(Clone, Copy, Debug)]
pub struct SignedAuthority {
    pub node_index: NodeIndex,
    pub signature: Signature,
    pub legacy_signature: Signature,
}

impl View for SignedAuthority {
    type V = SignedAuthorityView;

    open spec fn view(&self) -> SignedAuthorityView {
        SignedAuthorityView {
            node_index: self.node_index.0,
            signature: self.signature@,
            legacy_signature: self.legacy_signature@,
        }
    }
}

/// The model of an optional authority.
pub open spec fn authority_view(authority: Option<SignedAuthority>) -> Option<SignedAuthorityView> {
    match authority {
        Some(authority) => Some(authority@),
        None => None,
    }
}

/// What a handler knows of its own node: only the session, or the node's own statements for it.
#[derive(Debug)]
pub enum SessionInfo<M: Data, A: Multiaddressed<M>> {
    SessionId(SessionId),
    OwnAuthentication(PeerAuthentications<M, A>),
}

impl<M: Data, A: Multiaddressed<M>> View for SessionInfo<M, A> {
    type V = SessionInfoView;

    open spec fn view(&self) -> SessionInfoView {
        match self {
            SessionInfo::SessionId(session_id) => SessionInfoView::SessionId(session_id.0),
            SessionInfo::OwnAuthentication(own) => SessionInfoView::OwnAuthentication(own@),
        }
    }
}

impl<M: Data, A: Multiaddressed<M>> SessionInfo<M, A> {
    fn session_id(&self) -> (session_id: SessionId)
        ensures
            session_id.0 == self@.session_id(),
    {
        match self {
            SessionInfo::SessionId(session_id) => *session_id,
            SessionInfo::OwnAuthentication(peer_authentications) => {
                peer_authentications.session_id()
            },
        }
    }
}

/// Puts the statements of the own node together from the signatures under them.
fn construct_session_info<M: Data, A: Multiaddressed<M>>(
    authority: Option<SignedAuthority>,
    session_id: SessionId,
    address: A,
) -> (info_and_peer: (SessionInfo<M, A>, A::PeerId))
    ensures
        info_and_peer.0@ == initial_info::<M, A>(
            authority_view(authority),
            session_id.0,
            address.encoding(),
        ),
        info_and_peer.1.encoding() == A::peer_of(address.encoding()),
        info_and_peer.0@ == match authority {
            Some(authority) => SessionInfoView::OwnAuthentication(
                PeerAuthenticationsView::Both(
                    (
                        AuthDataView {
                            address: address.encoding(),
                            node_id: authority.node_index.0,
                            session_id: session_id.0,
                        },
                        authority.signature.0@,
                    ),
                    (
                        LegacyAuthDataView {
                            addresses: A::split(address.encoding()),
                            node_id: authority.node_index.0,
                            session_id: session_id.0,
                        },
                        authority.legacy_signature.0@,
                    ),
                ),
            ),
            None => SessionInfoView::SessionId(session_id.0),
        },
{
    let peer_id = address.peer_id();
    match authority {
        Some(authority) => {
            let auth_data = AuthData { address, node_id: authority.node_index, session_id };
            let legacy_auth_data = LegacyAuthData::<M>::from_auth_data(&auth_data);
            let authentications = PeerAuthentications::Both(
                (auth_data, authority.signature),
                (legacy_auth_data, authority.legacy_signature),
            );
            (SessionInfo::OwnAuthentication(authentications), peer_id)
        },
        None => (SessionInfo::SessionId(session_id), peer_id),
    }
}

/// Why a handler could not be updated.
#[derive(Debug)]
pub enum HandlerError {
    /// A handler of a validator cannot become one of another node, nor the other way round.
    TypeChange,
}

/// Handles the authentications of a session, and maintains the mappings between the identities of
/// peers and the indices of nodes in it.
pub struct Handler<M: Data, A: Multiaddressed<M>> {
    /// The peer last heard of under each index.
    peers_by_node: HashMap<usize, A::PeerId>,
    /// What is kept of each peer, in the order in which they were first heard of, none listed twice.
    authentications: Vec<(A::PeerId, PeerAuthentications<M, A>)>,
    session_info: SessionInfo<M, A>,
    own_peer_id: A::PeerId,
    authority_index: Option<NodeIndex>,
    authority_verifier: AuthorityVerifier,
}

/// The model of the kept statements.
pub open spec fn entries<M: Data, A: Multiaddressed<M>>(
    authentications: Seq<(A::PeerId, PeerAuthentications<M, A>)>,
) -> Entries {
    authentications.map_values(
        |entry: (A::PeerId, PeerAuthentications<M, A>)| (entry.0.encoding(), entry.1@),
    )
}

impl<M: Data, A: Multiaddressed<M>> View for Handler<M, A> {
    type V = HandlerView;

    closed spec fn view(&self) -> HandlerView {
        HandlerView {
            peers: self.peers_by_node@.map_values(|peer_id: A::PeerId| peer_id.encoding()),
            authentications: entries(self.authentications@),
            session_info: self.session_info@,
            own_peer_id: self.own_peer_id.encoding(),
            index: match self.authority_index {
                Some(index) => Some(index.0),
                None => None,
            },
            authorities: self.authority_verifier@,
        }
    }
}

impl<M: Data, A: Multiaddressed<M>> Handler<M, A> {
    /// What holds of every handler.
    pub open spec fn wf(&self) -> bool {
        self@.wf::<M, A>()
    }

    /// Creates a new session handler. It will be a validator session handler if an authority is
    /// provided.
    pub fn new(
        authority: Option<SignedAuthority>,
        authority_verifier: AuthorityVerifier,
        session_id: SessionId,
        address: A,
    ) -> (handler: Handler<M, A>)
        ensures
            handler@ == HandlerView::initial::<M, A>(
                authority_view(authority),
                authority_verifier@,
                session_id.0,
                address.encoding(),
            ),
            handler.wf(),
            handler@.verified(),
            handler@.peers == Map::<usize, Seq<u8>>::empty(),
            handler@.authentications == Seq::<(Seq<u8>, PeerAuthenticationsView)>::empty(),
            handler@.session_info == match authority {
                Some(authority) => SessionInfoView::OwnAuthentication(
                    PeerAuthenticationsView::Both(
                        (
                            AuthDataView {
                                address: address.encoding(),
                                node_id: authority.node_index.0,
                                session_id: session_id.0,
                            },
                            authority.signature.0@,
                        ),
                        (
                            LegacyAuthDataView {
                                addresses: A::split(address.encoding()),
                                node_id: authority.node_index.0,
                                session_id: session_id.0,
                            },
                            authority.legacy_signature.0@,
                        ),
                    ),
                ),
                None => SessionInfoView::SessionId(session_id.0),
            },
            handler@.own_peer_id == A::peer_of(address.encoding()),
            handler@.index == match authority {
                Some(authority) => Some(authority.node_index.0),
                None => None,
            },
            handler@.authorities == authority_verifier@,
    {
        proof {
            authority_verifier.lemma_len();
        }
        let (session_info, own_peer_id) = construct_session_info(authority, session_id, address);
        let handler = Handler {
            peers_by_node: HashMap::new(),
            authentications: Vec::new(),
            session_info,
            own_peer_id,
            authority_index: match authority {
                Some(authority) => Some(authority.node_index),
                None => None,
            },
            authority_verifier,
        };
        assert(handler@.peers =~= Map::empty());
        assert(handler@.authentications =~= Seq::empty());
        handler
    }

    fn index(&self) -> (index: Option<NodeIndex>)
        ensures
            match index {
                Some(index) => self@.index == Some(index.0),
                None => self@.index is None,
            },
    {
        self.authority_index
    }

    /// Whether the own node is a validator of the session.
    pub fn is_validator(&self) -> (validator: bool)
        ensures
            validator == self@.index is Some,
    {
        self.authority_index.is_some()
    }

    /// The number of authorities of the session.
    pub fn node_count(&self) -> (count: NodeCount)
        ensures
            count.0 == self@.authorities.len(),
    {
        self.authority_verifier.node_count()
    }

    /// The session.
    pub fn session_id(&self) -> (session_id: SessionId)
        ensures
            session_id.0 == self@.session_id(),
    {
        self.session_info.session_id()
    }

    /// Returns the authentication for the node and session this handler is responsible for.
    pub fn authentication(&self) -> (own: Option<PeerAuthentications<M, A>>)
        ensures
            match own {
                Some(own) => self@.session_info.own() == Some(own@),
                None => self@.session_info.own() is None,
            },
            match own {
                Some(own) => self@.session_info == SessionInfoView::OwnAuthentication(own@),
                None => self@.session_info is SessionId,
            },
    {
        match &self.session_info {
            SessionInfo::SessionId(_) => None,
            SessionInfo::OwnAuthentication(own_authentications) => {
                Some(own_authentications.duplicate())
            },
        }
    }

    /// Where something is kept of a peer.
    fn find(&self, peer_id: &A::PeerId) -> (found: Option<usize>)
        requires
            distinct(self@.authentications),
        ensures
            match found {
                Some(i) => {
                    &&& i < self.authentications@.len()
                    &&& lists(self@.authentications, peer_id.encoding())
                    &&& i == position(self@.authentications, peer_id.encoding())
                },
                None => !lists(self@.authentications, peer_id.encoding()),
            },
    {
        let mut i: usize = 0;
        while i < self.authentications.len()
            invariant
                i <= self.authentications@.len(),
                distinct(self@.authentications),
                forall|j: int|
                    0 <= j < i ==> #[trigger] self@.authentications[j].0 != peer_id.encoding(),
            decreases self.authentications@.len() - i,
        {
            if self.authentications[i].0.same(peer_id) {
                proof {
                    lemma_position(self@.authentications, i as int);
                }
                return Some(i);
            }
            i += 1;
        }
        None
    }

    /// Uses an authentication to update the mappings, if it counts, and returns the address we
    /// should stay connected to if any. Whether its signature is good is told by the caller.
    pub fn apply_authentication(&mut self, authentication: Authentication<A>, good: bool) -> (address:
        Option<A>)
        requires
            old(self).wf(),
        ensures
            final(self)@ == old(self)@.handle_if::<M, A>(
                Received::Current(authentication@),
                good,
            ),
            final(self).wf(),
            old(self)@.verified() && (good ==> old(self)@.signed(Received::Current(authentication@)))
                ==> final(self)@.verified(),
            match address {
                Some(address) => {
                    &&& old(self)@.accepts_if::<M, A>(Received::Current(authentication@), good)
                    &&& address.encoding() == authentication@.0.address
                },
                None => !old(self)@.accepts_if::<M, A>(Received::Current(authentication@), good),
            },
            address is Some <==> {
                &&& authentication.0.session_id.0 == old(self)@.session_id()
                &&& good
                &&& A::peer_of(authentication.0.address.encoding()) != old(self)@.own_peer_id
            },
            match address {
                Some(address) => {
                    &&& address.encoding() == authentication.0.address.encoding()
                    &&& final(self)@.peers == old(self)@.peers.insert(
                        authentication.0.node_id.0,
                        A::peer_of(authentication.0.address.encoding()),
                    )
                },
                None => final(self)@ == old(self)@,
            },
    {
        proof {
            self@.lemma_handle_if::<M, A>(Received::Current(authentication@), good);
        }
        if authentication.0.session().0 != self.session_id().0 || !good {
            return None;
        }
        let address = authentication.0.address();
        let peer_id = address.peer_id();
        if peer_id.same(&self.own_peer_id) {
            return None;
        }
        let found = self.find(&peer_id);
        self.peers_by_node.insert(authentication.0.creator().0, peer_id.duplicate());
        match found {
            Some(i) => {
                self.authentications[i].1.add_authentication(authentication);
            },
            None => {
                self.authentications.push((peer_id, PeerAuthentications::NewOnly(authentication)));
            },
        }
        let ghost expected = old(self)@.handle_if::<M, A>(Received::Current(authentication@), good);
        assert(self@.peers =~= expected.peers);
        assert(self@.authentications =~= expected.authentications);
        Some(address)
    }

    /// Uses a legacy authentication to update the mappings, if it counts, and returns the address
    /// we should stay connected to if any. Whether its signature is good is told by the caller.
    pub fn apply_legacy_authentication(
        &mut self,
        legacy_authentication: LegacyAuthentication<M>,
        good: bool,
    ) -> (address: Option<A>)
        requires
            old(self).wf(),
            legacy_authentication@.0.session_id == old(self)@.session_id()
                ==> legacy_authentication@.0.encodable(),
        ensures
            final(self)@ == old(self)@.handle_if::<M, A>(
                Received::Legacy(legacy_authentication@),
                good,
            ),
            final(self).wf(),
            old(self)@.verified() && (good ==> old(self)@.signed(Received::Legacy(legacy_authentication@)))
                ==> final(self)@.verified(),
            match address {
                Some(address) => {
                    &&& old(self)@.accepts_if::<M, A>(Received::Legacy(legacy_authentication@), good)
                    &&& A::join(legacy_authentication@.0.addresses) == Some(address.encoding())
                },
                None => !old(self)@.accepts_if::<M, A>(
                    Received::Legacy(legacy_authentication@),
                    good,
                ),
            },
            address is Some <==> {
                &&& legacy_authentication.0.session_id.0 == old(self)@.session_id()
                &&& good
                &&& A::join(encodings(legacy_authentication.0.addresses@)) matches Some(stated)
                &&& A::peer_of(stated) != old(self)@.own_peer_id
            },
            match address {
                Some(address) => {
                    &&& A::join(encodings(legacy_authentication.0.addresses@)) == Some(
                        address.encoding(),
                    )
                    &&& final(self)@.peers == old(self)@.peers.insert(
                        legacy_authentication.0.node_id.0,
                        A::peer_of(address.encoding()),
                    )
                },
                None => final(self)@ == old(self)@,
            },
    {
        proof {
            self@.lemma_handle_if::<M, A>(Received::Legacy(legacy_authentication@), good);
        }
        if legacy_authentication.0.session().0 != self.session_id().0 || !good {
            return None;
        }
        let maybe_auth_data: Option<AuthData<A>> = legacy_authentication.0.to_auth_data();
        let address = match maybe_auth_data {
            Some(auth_data) => auth_data.address(),
            None => return None,
        };
        let peer_id = address.peer_id();
        if peer_id.same(&self.own_peer_id) {
            return None;
        }
        let found = self.find(&peer_id);
        self.peers_by_node.insert(legacy_authentication.0.creator().0, peer_id.duplicate());
        match found {
            Some(i) => {
                self.authentications[i].1.add_legacy_authentication(legacy_authentication);
            },
            None => {
                self.authentications.push(
                    (peer_id, PeerAuthentications::LegacyOnly(legacy_authentication)),
                );
            },
        }
        let ghost expected = old(self)@.handle_if::<M, A>(
            Received::Legacy(legacy_authentication@),
            good,
        );
        assert(self@.peers =~= expected.peers);
        assert(self@.authentications =~= expected.authentications);
        Some(address)
    }

    /// Verifies the authentication, uses it to update mappings, and returns the address we
    /// should stay connected to if any.
    pub fn handle_authentication(&mut self, authentication: Authentication<A>) -> (address: Option<A>)
        requires
            old(self).wf(),
        ensures
            final(self)@ == old(self)@.handle::<M, A>(Received::Current(authentication@)),
            final(self).wf(),
            old(self)@.verified() ==> final(self)@.verified(),
            match address {
                Some(address) => {
                    &&& old(self)@.accepts::<M, A>(Received::Current(authentication@))
                    &&& address.encoding() == authentication@.0.address
                },
                None => !old(self)@.accepts::<M, A>(Received::Current(authentication@)),
            },
            address is Some <==> {
                &&& authentication.0.session_id.0 == old(self)@.session_id()
                &&& authentication.0.node_id.0 < old(self)@.authorities.len()
                &&& ed25519_accepts(
                    old(self)@.authorities[authentication.0.node_id.0 as int],
                    (AuthDataView {
                        address: authentication.0.address.encoding(),
                        node_id: authentication.0.node_id.0,
                        session_id: authentication.0.session_id.0,
                    }).encoding(),
                    authentication.1.0@,
                )
                &&& A::peer_of(authentication.0.address.encoding()) != old(self)@.own_peer_id
            },
            match address {
                Some(address) => {
                    &&& address.encoding() == authentication.0.address.encoding()
                    &&& final(self)@.peers == old(self)@.peers.insert(
                        authentication.0.node_id.0,
                        A::peer_of(authentication.0.address.encoding()),
                    )
                },
                None => final(self)@ == old(self)@,
            },
    {
        let ghost received = Received::Current(authentication@);
        proof {
            self@.lemma_handle_if::<M, A>(received, self@.signed(received));
        }
        if authentication.0.session().0 != self.session_id().0 {
            return None;
        }
        if authentication.0.address.peer_id().same(&self.own_peer_id) {
            return None;
        }
        let message = authentication.0.encode();
        let good = self.authority_verifier.verify(
            message.as_slice(),
            &authentication.1,
            authentication.0.creator(),
        );
        self.apply_authentication(authentication, good)
    }

    /// Verifies the legacy authentication, uses it to update mappings, and returns the address we
    /// should stay connected to if any.
    pub fn handle_legacy_authentication(
        &mut self,
        legacy_authentication: LegacyAuthentication<M>,
    ) -> (address: Option<A>)
        requires
            old(self).wf(),
            legacy_authentication@.0.session_id == old(self)@.session_id()
                ==> legacy_authentication@.0.encodable(),
        ensures
            final(self)@ == old(self)@.handle::<M, A>(Received::Legacy(legacy_authentication@)),
            final(self).wf(),
            old(self)@.verified() ==> final(self)@.verified(),
            match address {
                Some(address) => {
                    &&& old(self)@.accepts::<M, A>(Received::Legacy(legacy_authentication@))
                    &&& A::join(legacy_authentication@.0.addresses) == Some(address.encoding())
                },
                None => !old(self)@.accepts::<M, A>(Received::Legacy(legacy_authentication@)),
            },
            address is Some <==> {
                &&& legacy_authentication.0.session_id.0 == old(self)@.session_id()
                &&& legacy_authentication.0.node_id.0 < old(self)@.authorities.len()
                &&& ed25519_accepts(
                    old(self)@.authorities[legacy_authentication.0.node_id.0 as int],
                    (LegacyAuthDataView {
                        addresses: encodings(legacy_authentication.0.addresses@),
                        node_id: legacy_authentication.0.node_id.0,
                        session_id: legacy_authentication.0.session_id.0,
                    }).encoding(),
                    legacy_authentication.1.0@,
                )
                &&& A::join(encodings(legacy_authentication.0.addresses@)) matches Some(stated)
                &&& A::peer_of(stated) != old(self)@.own_peer_id
            },
            match address {
                Some(address) => {
                    &&& A::join(encodings(legacy_authentication.0.addresses@)) == Some(
                        address.encoding(),
                    )
                    &&& final(self)@.peers == old(self)@.peers.insert(
                        legacy_authentication.0.node_id.0,
                        A::peer_of(address.encoding()),
                    )
                },
                None => final(self)@ == old(self)@,
            },
    {
        let ghost received = Received::Legacy(legacy_authentication@);
        proof {
            self@.lemma_handle_if::<M, A>(received, self@.signed(received));
        }
        if legacy_authentication.0.session().0 != self.session_id().0 {
            return None;
        }
        let message = legacy_authentication.0.encode();
        let good = self.authority_verifier.verify(
            message.as_slice(),
            &legacy_authentication.1,
            legacy_authentication.0.creator(),
        );
        self.apply_legacy_authentication(legacy_authentication, good)
    }

    /// Returns the PeerId of the node with the given NodeIndex, if known.
    pub fn peer_id(&self, node_id: &NodeIndex) -> (peer_id: Option<A::PeerId>)
        ensures
            match peer_id {
                Some(peer_id) => {
                    &&& self@.peers.contains_key(node_id.0)
                    &&& self@.peers[node_id.0] == peer_id.encoding()
                },
                None => !self@.peers.contains_key(node_id.0),
            },
    {
        match self.peers_by_node.get(&node_id.0) {
            Some(peer_id) => Some(peer_id.duplicate()),
            None => None,
        }
    }

    /// Returns a vector of indices of nodes for which the handler has no authentication.
    pub fn missing_nodes(&self) -> (missing: Vec<NodeIndex>)
        ensures
            missing@.map_values(|node_id: NodeIndex| node_id.0) == self@.missing_nodes(),
            forall|i: int|
                0 <= i < missing@.len() ==> {
                    let node_id = (#[trigger] missing@[i]).0;
                    &&& node_id < self@.authorities.len()
                    &&& self@.index != Some(node_id)
                    &&& !self@.peers.contains_key(node_id)
                },
            forall|node_id: usize|
                node_id < self@.authorities.len() && self@.index != Some(node_id)
                    && !self@.peers.contains_key(node_id) ==> #[trigger] missing@.contains(
                    NodeIndex(node_id),
                ),
            forall|i: int, j: int|
                0 <= i < j < missing@.len() ==> (#[trigger] missing@[i]).0 < (
                #[trigger] missing@[j]).0,
    {
        let node_count = self.node_count().0;
        let own_index = self.index();
        let ghost all = self@.nodes();
        let ghost is_missing = |node_id: usize| self@.is_missing(node_id);
        let mut missing: Vec<NodeIndex> = Vec::new();
        let mut i: usize = 0;
        assert(all.take(0) =~= Seq::empty());
        reveal_with_fuel(Seq::filter, 1);
        assert(missing@.map_values(|node_id: NodeIndex| node_id.0) =~= all.take(0).filter(is_missing));
        while i < node_count
            invariant
                i <= node_count,
                node_count == self@.authorities.len(),
                all == self@.nodes(),
                is_missing == (|node_id: usize| self@.is_missing(node_id)),
                match own_index {
                    Some(index) => self@.index == Some(index.0),
                    None => self@.index is None,
                },
                missing@.map_values(|node_id: NodeIndex| node_id.0) == all.take(i as int).filter(
                    is_missing,
                ),
            decreases node_count - i,
        {
            let own = match own_index {
                Some(index) => index.0 == i,
                None => false,
            };
            let ghost before = missing@.map_values(|node_id: NodeIndex| node_id.0);
            if !own && !self.peers_by_node.contains_key(&i) {
                missing.push(NodeIndex(i));
                assert(missing@.map_values(|node_id: NodeIndex| node_id.0) =~= before.push(i));
            }
            proof {
                reveal_with_fuel(Seq::filter, 1);
                assert(all.take(i + 1).drop_last() =~= all.take(i as int));
                assert(all.take(i + 1).last() == i);
            }
            i += 1;
        }
        assert(all.take(i as int) =~= all);
        proof {
            self.authority_verifier.lemma_len();
            missing_nodes_are_the_unknown_others(self@);
            let listed = missing@.map_values(|node_id: NodeIndex| node_id.0);
            assert forall|k: int| 0 <= k < missing@.len() implies {
                let node_id = (#[trigger] missing@[k]).0;
                &&& node_id < self@.authorities.len()
                &&& self@.index != Some(node_id)
                &&& !self@.peers.contains_key(node_id)
            } by {
                assert(listed[k] == missing@[k].0);
                assert(self@.missing_nodes().contains(missing@[k].0));
            }
            assert forall|node_id: usize|
                node_id < self@.authorities.len() && self@.index != Some(node_id)
                    && !self@.peers.contains_key(node_id) implies #[trigger] missing@.contains(
                NodeIndex(node_id),
            ) by {
                assert(self@.missing_nodes().contains(node_id));
                let k = choose|k: int| 0 <= k < listed.len() && listed[k] == node_id;
                assert(missing@[k] == NodeIndex(node_id));
            }
            assert forall|j: int, k: int| 0 <= j < k < missing@.len() implies (#[trigger] missing@[j]).0
                < (#[trigger] missing@[k]).0 by {
                assert(listed[j] < listed[k]);
            }
        }
        missing
    }

    /// The addresses of all the peers of which something is kept.
    pub fn addresses(&self) -> (addresses: Vec<A>)
        requires
            self.wf(),
        ensures
            addresses@.len() == self@.authentications.len(),
            forall|i: int|
                0 <= i < addresses@.len() ==> self@.authentications[i].1.address::<M, A>() == Some(
                    (#[trigger] addresses@[i]).encoding(),
                ),
            forall|i: int|
                0 <= i < addresses@.len() ==> match self@.authentications[i].1 {
                    PeerAuthenticationsView::NewOnly((data, _)) => data.address
                        == (#[trigger] addresses@[i]).encoding(),
                    PeerAuthenticationsView::LegacyOnly((legacy, _)) => A::join(legacy.addresses)
                        == Some(addresses@[i].encoding()),
                    PeerAuthenticationsView::Both((data, _), _) => data.address
                        == addresses@[i].encoding(),
                },
    {
        let mut addresses: Vec<A> = Vec::new();
        let mut i: usize = 0;
        while i < self.authentications.len()
            invariant
                i <= self.authentications@.len(),
                self.wf(),
                addresses@.len() == i,
                forall|j: int|
                    0 <= j < i ==> self@.authentications[j].1.address::<M, A>() == Some(
                        (#[trigger] addresses@[j]).encoding(),
                    ),
            decreases self.authentications@.len() - i,
        {
            proof {
                let kept = self@.authentications[i as int].1.statements();
                assert(self@.holds::<M, A>(
                    self@.authentications[i as int].0,
                    self@.authentications[i as int].1.statements()[kept.len() - 1],
                ));
            }
            match self.authentications[i].1.maybe_address() {
                Some(address) => addresses.push(address),
                None => (),
            }
            i += 1;
        }
        addresses
    }

    /// Returns the mapping from the indices of nodes to the identities of peers.
    pub fn peers(&self) -> (peers: HashMap<usize, A::PeerId>)
        ensures
            peers@.map_values(|peer_id: A::PeerId| peer_id.encoding()) == self@.peers,
    {
        let mut peers: HashMap<usize, A::PeerId> = HashMap::new();
        let keys = self.peers_by_node.keys();
        let ghost order = vstd::std_specs::iter::IteratorSpec::remaining(&keys);
        assert(order.unref().to_set() == self.peers_by_node@.dom());
        for node_id in keys_iter: keys
            invariant
                keys_iter.seq() == order,
                order.unref().to_set() == self.peers_by_node@.dom(),
                forall|j: int|
                    0 <= j < keys_iter.index() ==> peers@.contains_key(*#[trigger] keys_iter.seq()[j]),
                forall|key: usize| #[trigger] peers@.contains_key(key) ==> {
                    &&& self.peers_by_node@.contains_key(key)
                    &&& peers@[key].encoding() == self.peers_by_node@[key].encoding()
                },
        {
            match self.peers_by_node.get(node_id) {
                Some(peer_id) => {
                    peers.insert(*node_id, peer_id.duplicate());
                },
                None => (),
            }
        }
        proof {
            assert forall|key: usize| self.peers_by_node@.contains_key(key) implies #[trigger]
            peers@.contains_key(key) by {
                assert(order.unref().to_set().contains(key));
                let j = choose|j: int| 0 <= j < order.unref().len() && order.unref()[j] == key;
                assert(*order[j] == key);
            }
            assert(peers@.map_values(|peer_id: A::PeerId| peer_id.encoding()) =~= self@.peers);
        }
        peers
    }

    /// Decides on an update with the given keychain and own address: what has to be signed for it,
    /// or that it is impossible.
    pub fn update_request(&self, node_index: Option<NodeIndex>, address: &A) -> (request: Result<
        Option<SigningRequest>,
        HandlerError,
    >)
        requires
            node_index is Some && self@.index is Some ==> A::split(address.encoding()).len()
                <= u32::MAX,
        ensures
            match request {
                Ok(Some(request)) => {
                    &&& self@.index is Some
                    &&& node_index matches Some(node_index)
                    &&& request.is_for::<M, A>(node_index.0, self@.session_id(), address.encoding())
                    &&& request.message@ == (AuthDataView {
                        address: address.encoding(),
                        node_id: node_index.0,
                        session_id: self@.session_id(),
                    }).encoding()
                    &&& request.legacy_message@ == (LegacyAuthDataView {
                        addresses: A::split(address.encoding()),
                        node_id: node_index.0,
                        session_id: self@.session_id(),
                    }).encoding()
                },
                Ok(None) => self@.index is None && node_index is None,
                Err(HandlerError::TypeChange) => self@.index is Some != node_index is Some,
            },
    {
        if node_index.is_some() != self.is_validator() {
            return Err(HandlerError::TypeChange);
        }
        match node_index {
            Some(node_index) => Ok(
                Some(SigningRequest::new::<M, A>(node_index, self.session_id(), address)),
            ),
            None => Ok(None),
        }
    }

    /// Updates the handler with the given keychain and own address.
    /// Returns an error if that would make a validator of another node, or the other way round.
    /// All authentications will be rechecked, invalid ones purged.
    /// Own authentication will be regenerated.
    /// If successful returns a set of addresses that we should be connected to.
    pub fn update(
        &mut self,
        authority: Option<SignedAuthority>,
        authority_verifier: AuthorityVerifier,
        address: A,
    ) -> (addresses: Result<Vec<A>, HandlerError>)
        requires
            old(self).wf(),
        ensures
            final(self).wf(),
            match addresses {
                Ok(addresses) => {
                    &&& authority is Some == old(self)@.index is Some
                    &&& final(self)@ == old(self)@.update::<M, A>(
                        authority_view(authority),
                        authority_verifier@,
                        address.encoding(),
                    )
                    &&& final(self)@.alike(
                        HandlerView::initial::<M, A>(
                            authority_view(authority),
                            authority_verifier@,
                            old(self)@.session_id(),
                            address.encoding(),
                        ),
                    )
                    &&& final(self)@.verified()
                    &&& addresses@.len() == final(self)@.authentications.len()
                    &&& forall|i: int|
                        0 <= i < addresses@.len() ==> final(self)@.authentications[i].1.address::<
                            M,
                            A,
                        >() == Some((#[trigger] addresses@[i]).encoding())
                    &&& forall|i: int|
                        0 <= i < addresses@.len() ==> match final(self)@.authentications[i].1 {
                            PeerAuthenticationsView::NewOnly((data, _)) => data.address
                                == (#[trigger] addresses@[i]).encoding(),
                            PeerAuthenticationsView::LegacyOnly((legacy, _)) => A::join(legacy.addresses)
                                == Some(addresses@[i].encoding()),
                            PeerAuthenticationsView::Both((data, _), _) => data.address
                                == addresses@[i].encoding(),
                        }
                    &&& final(self)@.session_info == match authority {
                        Some(authority) => SessionInfoView::OwnAuthentication(
                            PeerAuthenticationsView::Both(
                                (
                                    AuthDataView {
                                        address: address.encoding(),
                                        node_id: authority.node_index.0,
                                        session_id: old(self)@.session_id(),
                                    },
                                    authority.signature.0@,
                                ),
                                (
                                    LegacyAuthDataView {
                                        addresses: A::split(address.encoding()),
                                        node_id: authority.node_index.0,
                                        session_id: old(self)@.session_id(),
                                    },
                                    authority.legacy_signature.0@,
                                ),
                            ),
                        ),
                        None => SessionInfoView::SessionId(old(self)@.session_id()),
                    }
                    &&& final(self)@.own_peer_id == A::peer_of(address.encoding())
                    &&& final(self)@.index == match authority {
                        Some(authority) => Some(authority.node_index.0),
                        None => None,
                    }
                    &&& final(self)@.authorities == authority_verifier@
                },
                Err(HandlerError::TypeChange) => {
                    &&& authority is Some != old(self)@.index is Some
                    &&& *final(self) == *old(self)
                },
            },
    {
        if authority.is_none() != self.authority_index.is_none() {
            return Err(HandlerError::TypeChange);
        }
        let session_id = self.session_id();
        let mut previous = Handler::new(authority, authority_verifier, session_id, address);
        std::mem::swap(self, &mut previous);
        let ghost kept = old(self)@.authentications;
        let ghost fresh = self@;
        assert(kept.take(0) =~= Seq::empty());
        let mut i: usize = 0;
        while i < previous.authentications.len()
            invariant
                i <= previous.authentications@.len(),
                previous.wf(),
                previous@.authentications == kept,
                self.wf(),
                self@.verified(),
                self@ == fresh.handle_all::<M, A>(stored(kept.take(i as int))),
            decreases previous.authentications@.len() - i,
        {
            let ghost before = stored(kept.take(i as int));
            let ghost statements = kept[i as int].1.statements();
            proof {
                assert(kept.take(i + 1).drop_last() =~= kept.take(i as int));
                assert(stored(kept.take(i + 1)) == before + statements);
                assert(previous@.holds::<M, A>(kept[i as int].0, kept[i as int].1.statements()[0]));
                fresh.lemma_handle_all_push::<M, A>(before, statements[0]);
            }
            match previous.authentications[i].1.duplicate() {
                PeerAuthentications::NewOnly(authentication) => {
                    self.handle_authentication(authentication);
                    assert(before + statements =~= before.push(statements[0]));
                },
                PeerAuthentications::LegacyOnly(legacy_authentication) => {
                    self.handle_legacy_authentication(legacy_authentication);
                    assert(before + statements =~= before.push(statements[0]));
                },
                PeerAuthentications::Both(authentication, legacy_authentication) => {
                    self.handle_legacy_authentication(legacy_authentication);
                    self.handle_authentication(authentication);
                    assert(before + statements =~= before.push(statements[0]).push(statements[1]));
                    proof {
                        fresh.lemma_handle_all_push::<M, A>(
                            before.push(statements[0]),
                            statements[1],
                        );
                    }
                },
            }
            i += 1;
        }
        assert(kept.take(i as int) =~= kept);
        proof {
            fresh.lemma_handle_all_alike::<M, A>(stored(kept));
        }
        Ok(self.addresses())
    }
}

} // verus!
