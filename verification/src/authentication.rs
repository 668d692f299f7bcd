//! The statements by which nodes tell each other where they can be reached, and what is kept of
//! them for one peer.

use crate::crypto::Signature;
use crate::network::{duplicate_all, encodings, AddressingInformation, Data, Multiaddressed};
use crate::scale::{
    compact, concat, encode_compact, encode_u32, encode_u64, le_bytes, list_bytes,
};
use crate::types::{NodeIndex, SessionId};
use vstd::prelude::*;

verus! {

/// What a node states of itself: its address, in one session, under one index.
#[derive(Debug)]
pub struct AuthData<A: AddressingInformation> {
    pub address: A,
    pub node_id: NodeIndex,
    pub session_id: SessionId,
}

/// The model of `AuthData`, with the address encoded.
#[verifier::ext_equal]
pub struct AuthDataView {
    pub address: Seq<u8>,
    pub node_id: usize,
    pub session_id: u32,
}

impl AuthDataView {
    /// The message that the node signs.
    pub open spec fn encoding(self) -> Seq<u8> {
        self.address + le_bytes(self.node_id as nat, 8) + le_bytes(self.session_id as nat, 4)
    }
}

impl<A: AddressingInformation> View for AuthData<A> {
    type V = AuthDataView;

    open spec fn view(&self) -> AuthDataView {
        AuthDataView {
            address: self.address.encoding(),
            node_id: self.node_id.0,
            session_id: self.session_id.0,
        }
    }
}

impl<A: AddressingInformation> AuthData<A> {
    /// The session that the statement is for.
    pub fn session(&self) -> (session_id: SessionId)
        ensures
            session_id.0 == self@.session_id,
            session_id.0 == self.session_id.0,
    {
        self.session_id
    }

    /// The index of the node that makes the statement.
    pub fn creator(&self) -> (node_id: NodeIndex)
        ensures
            node_id.0 == self@.node_id,
            node_id.0 == self.node_id.0,
    {
        self.node_id
    }

    /// The stated address.
    pub fn address(&self) -> (address: A)
        ensures
            address.encoding() == self@.address,
            address.encoding() == self.address.encoding(),
    {
        self.address.duplicate()
    }

    /// The message that the node signs.
    pub fn encode(&self) -> (bytes: Vec<u8>)
        ensures
            bytes@ == self@.encoding(),
            bytes@ == (AuthDataView {
                address: self.address.encoding(),
                node_id: self.node_id.0,
                session_id: self.session_id.0,
            }).encoding(),
    {
        let mut bytes = self.address.encode();
        let mut node_id = encode_u64(self.node_id.0 as u64);
        let mut session_id = encode_u32(self.session_id.0);
        bytes.append(&mut node_id);
        bytes.append(&mut session_id);
        bytes
    }

    /// Makes another copy of the statement.
    pub fn duplicate(&self) -> (copy: AuthData<A>)
        ensures
            copy@ == self@,
            copy.address.encoding() == self.address.encoding(),
            copy.node_id == self.node_id,
            copy.session_id == self.session_id,
    {
        AuthData {
            address: self.address.duplicate(),
            node_id: self.node_id,
            session_id: self.session_id,
        }
    }
}

/// A statement with the signature of the node that makes it.
pub type Authentication<A> = (AuthData<A>, Signature);

/// The model of `Authentication`.
pub type AuthenticationView = (AuthDataView, Seq<u8>);

/// What a legacy node states of itself: a list of multiaddresses in place of one address.
#[derive(Debug)]
pub struct LegacyAuthData<M: Data> {
    pub addresses: Vec<M>,
    pub node_id: NodeIndex,
    pub session_id: SessionId,
}

/// The model of `LegacyAuthData`, with the multiaddresses encoded.
#[verifier::ext_equal]
pub struct LegacyAuthDataView {
    pub addresses: Seq<Seq<u8>>,
    pub node_id: usize,
    pub session_id: u32,
}

impl LegacyAuthDataView {
    /// The message that the node signs.
    pub open spec fn encoding(self) -> Seq<u8> {
        list_bytes(self.addresses) + le_bytes(self.node_id as nat, 8) + le_bytes(
            self.session_id as nat,
            4,
        )
    }

    /// Whether the list is short enough to have an encoding.
    pub open spec fn encodable(self) -> bool {
        self.addresses.len() <= u32::MAX
    }
}

impl<M: Data> View for LegacyAuthData<M> {
    type V = LegacyAuthDataView;

    open spec fn view(&self) -> LegacyAuthDataView {
        LegacyAuthDataView {
            addresses: encodings(self.addresses@),
            node_id: self.node_id.0,
            session_id: self.session_id.0,
        }
    }
}

impl<M: Data> LegacyAuthData<M> {
    /// The session that the statement is for.
    pub fn session(&self) -> (session_id: SessionId)
        ensures
            session_id.0 == self@.session_id,
            session_id.0 == self.session_id.0,
    {
        self.session_id
    }

    /// The index of the node that makes the statement.
    pub fn creator(&self) -> (node_id: NodeIndex)
        ensures
            node_id.0 == self@.node_id,
            node_id.0 == self.node_id.0,
    {
        self.node_id
    }

    /// The message that the node signs.
    pub fn encode(&self) -> (bytes: Vec<u8>)
        requires
            self@.encodable(),
        ensures
            bytes@ == self@.encoding(),
            bytes@ == (LegacyAuthDataView {
                addresses: encodings(self.addresses@),
                node_id: self.node_id.0,
                session_id: self.session_id.0,
            }).encoding(),
    {
        let ghost items = encodings(self.addresses@);
        let mut bytes = encode_compact(self.addresses.len() as u32);
        let mut i: usize = 0;
        assert(items.take(0) =~= Seq::empty());
        while i < self.addresses.len()
            invariant
                i <= self.addresses.len(),
                items == encodings(self.addresses@),
                items.len() <= u32::MAX,
                bytes@ == compact(items.len() as u32) + concat(items.take(i as int)),
            decreases self.addresses.len() - i,
        {
            let mut item = self.addresses[i].encode();
            bytes.append(&mut item);
            assert(items.take(i + 1).drop_last() =~= items.take(i as int));
            assert(items.take(i + 1).last() == self.addresses@[i as int].encoding());
            i += 1;
        }
        assert(items.take(i as int) =~= items);
        let mut node_id = encode_u64(self.node_id.0 as u64);
        let mut session_id = encode_u32(self.session_id.0);
        bytes.append(&mut node_id);
        bytes.append(&mut session_id);
        bytes
    }

    /// Makes another copy of the statement.
    pub fn duplicate(&self) -> (copy: LegacyAuthData<M>)
        ensures
            copy@ == self@,
            encodings(copy.addresses@) == encodings(self.addresses@),
            copy.node_id == self.node_id,
            copy.session_id == self.session_id,
    {
        LegacyAuthData {
            addresses: duplicate_all(&self.addresses),
            node_id: self.node_id,
            session_id: self.session_id,
        }
    }

    /// The legacy form of a statement.
    pub fn from_auth_data<A: Multiaddressed<M>>(auth_data: &AuthData<A>) -> (legacy: LegacyAuthData<
        M,
    >)
        ensures
            legacy@ == legacy_form::<M, A>(auth_data@),
            encodings(legacy.addresses@) == A::split(auth_data.address.encoding()),
            legacy.node_id == auth_data.node_id,
            legacy.session_id == auth_data.session_id,
    {
        LegacyAuthData {
            addresses: auth_data.address.to_multiaddresses(),
            node_id: auth_data.node_id,
            session_id: auth_data.session_id,
        }
    }

    /// The statement that a legacy one stands for, if its multiaddresses stand for an address.
    pub fn to_auth_data<A: Multiaddressed<M>>(&self) -> (auth_data: Option<AuthData<A>>)
        ensures
            match auth_data {
                Some(auth_data) => current_form::<M, A>(self@) == Some(auth_data@),
                None => current_form::<M, A>(self@) is None,
            },
            match auth_data {
                Some(auth_data) => {
                    &&& A::join(encodings(self.addresses@)) == Some(auth_data.address.encoding())
                    &&& auth_data.node_id == self.node_id
                    &&& auth_data.session_id == self.session_id
                },
                None => A::join(encodings(self.addresses@)) is None,
            },
    {
        match A::from_multiaddresses(&self.addresses) {
            Some(address) => Some(
                AuthData { address, node_id: self.node_id, session_id: self.session_id },
            ),
            None => None,
        }
    }
}

/// The legacy form of a statement: the same node and session, the address written as a list.
pub open spec fn legacy_form<M: Data, A: Multiaddressed<M>>(
    auth_data: AuthDataView,
) -> LegacyAuthDataView {
    LegacyAuthDataView {
        addresses: A::split(auth_data.address),
        node_id: auth_data.node_id,
        session_id: auth_data.session_id,
    }
}

/// The statement that a legacy one stands for: the same node and session, the address recovered
/// from the list.
pub open spec fn current_form<M: Data, A: Multiaddressed<M>>(
    legacy: LegacyAuthDataView,
) -> Option<AuthDataView> {
    match A::join(legacy.addresses) {
        Some(address) => Some(
            AuthDataView { address, node_id: legacy.node_id, session_id: legacy.session_id },
        ),
        None => None,
    }
}

/// A legacy statement with the signature of the node that makes it.
pub type LegacyAuthentication<M> = (LegacyAuthData<M>, Signature);

/// The model of `LegacyAuthentication`.
pub type LegacyAuthenticationView = (LegacyAuthDataView, Seq<u8>);

/// A signed statement of either kind, as the model sees it.
#[verifier::ext_equal]
pub enum Received {
    Current(AuthenticationView),
    Legacy(LegacyAuthenticationView),
}

impl Received {
    /// The session that the statement is for.
    pub open spec fn session_id(self) -> u32 {
        match self {
            Received::Current((data, _)) => data.session_id,
            Received::Legacy((data, _)) => data.session_id,
        }
    }

    /// The index of the node that makes the statement.
    pub open spec fn node_id(self) -> usize {
        match self {
            Received::Current((data, _)) => data.node_id,
            Received::Legacy((data, _)) => data.node_id,
        }
    }

    /// The message under the signature.
    pub open spec fn message(self) -> Seq<u8> {
        match self {
            Received::Current((data, _)) => data.encoding(),
            Received::Legacy((data, _)) => data.encoding(),
        }
    }

    /// The signature.
    pub open spec fn signature(self) -> Seq<u8> {
        match self {
            Received::Current((_, signature)) => signature,
            Received::Legacy((_, signature)) => signature,
        }
    }

    /// Whether the statement has an encoding.
    pub open spec fn encodable(self) -> bool {
        match self {
            Received::Current(_) => true,
            Received::Legacy((data, _)) => data.encodable(),
        }
    }

    /// The address that the statement is about, if there is one.
    pub open spec fn address<M: Data, A: Multiaddressed<M>>(self) -> Option<Seq<u8>> {
        match self {
            Received::Current((data, _)) => Some(data.address),
            Received::Legacy((data, _)) => A::join(data.addresses),
        }
    }

    /// Whether the statement is about an address of the given peer.
    pub open spec fn is_about<M: Data, A: Multiaddressed<M>>(self, peer: Seq<u8>) -> bool {
        self.address::<M, A>() matches Some(address) && A::peer_of(address) == peer
    }
}

/// What is kept of one peer: the last statement of each kind, and always at least one.
#[derive(Debug)]
pub enum PeerAuthentications<M: Data, A: Multiaddressed<M>> {
    NewOnly(Authentication<A>),
    LegacyOnly(LegacyAuthentication<M>),
    Both(Authentication<A>, LegacyAuthentication<M>),
}

/// The model of `PeerAuthentications`.
#[verifier::ext_equal]
pub enum PeerAuthenticationsView {
    NewOnly(AuthenticationView),
    LegacyOnly(LegacyAuthenticationView),
    Both(AuthenticationView, LegacyAuthenticationView),
}

impl PeerAuthenticationsView {
    /// A first statement.
    pub open spec fn first(received: Received) -> PeerAuthenticationsView {
        match received {
            Received::Current(current) => PeerAuthenticationsView::NewOnly(current),
            Received::Legacy(legacy) => PeerAuthenticationsView::LegacyOnly(legacy),
        }
    }

    /// One more statement, which takes the place of the one of its kind.
    pub open spec fn with(self, received: Received) -> PeerAuthenticationsView {
        match (received, self) {
            (Received::Current(current), PeerAuthenticationsView::NewOnly(_)) =>
                PeerAuthenticationsView::NewOnly(current),
            (Received::Current(current), PeerAuthenticationsView::LegacyOnly(legacy)) =>
                PeerAuthenticationsView::Both(current, legacy),
            (Received::Current(current), PeerAuthenticationsView::Both(_, legacy)) =>
                PeerAuthenticationsView::Both(current, legacy),
            (Received::Legacy(legacy), PeerAuthenticationsView::NewOnly(current)) =>
                PeerAuthenticationsView::Both(current, legacy),
            (Received::Legacy(legacy), PeerAuthenticationsView::LegacyOnly(_)) =>
                PeerAuthenticationsView::LegacyOnly(legacy),
            (Received::Legacy(legacy), PeerAuthenticationsView::Both(current, _)) =>
                PeerAuthenticationsView::Both(current, legacy),
        }
    }

    /// The kept statements, a legacy one before a current one.
    pub open spec fn statements(self) -> Seq<Received> {
        match self {
            PeerAuthenticationsView::NewOnly(current) => seq![Received::Current(current)],
            PeerAuthenticationsView::LegacyOnly(legacy) => seq![Received::Legacy(legacy)],
            PeerAuthenticationsView::Both(current, legacy) => seq![
                Received::Legacy(legacy),
                Received::Current(current),
            ],
        }
    }

    /// The session of the kept statements, that of the current one where there are two.
    pub open spec fn session_id(self) -> u32 {
        self.statements().last().session_id()
    }

    /// The address of the kept statements, that of the current one where there are two.
    pub open spec fn address<M: Data, A: Multiaddressed<M>>(self) -> Option<Seq<u8>> {
        self.statements().last().address::<M, A>()
    }
}

impl<M: Data, A: Multiaddressed<M>> View for PeerAuthentications<M, A> {
    type V = PeerAuthenticationsView;

    open spec fn view(&self) -> PeerAuthenticationsView {
        match self {
            PeerAuthentications::NewOnly(current) => PeerAuthenticationsView::NewOnly(current@),
            PeerAuthentications::LegacyOnly(legacy) => PeerAuthenticationsView::LegacyOnly(legacy@),
            PeerAuthentications::Both(current, legacy) => PeerAuthenticationsView::Both(
                current@,
                legacy@,
            ),
        }
    }
}

impl<M: Data, A: Multiaddressed<M>> PeerAuthentications<M, A> {
    /// The session of the kept statements.
    pub fn session_id(&self) -> (session_id: SessionId)
        ensures
            session_id.0 == self@.session_id(),
            session_id.0 == match self {
                PeerAuthentications::NewOnly((data, _)) => data.session_id.0,
                PeerAuthentications::LegacyOnly((legacy, _)) => legacy.session_id.0,
                PeerAuthentications::Both((data, _), _) => data.session_id.0,
            },
    {
        match self {
            PeerAuthentications::NewOnly((data, _)) => data.session(),
            PeerAuthentications::LegacyOnly((data, _)) => data.session(),
            PeerAuthentications::Both((data, _), _) => data.session(),
        }
    }

    /// The address of the peer, if one can be told from the kept statements.
    pub fn maybe_address(&self) -> (address: Option<A>)
        ensures
            match address {
                Some(address) => self@.address::<M, A>() == Some(address.encoding()),
                None => self@.address::<M, A>() is None,
            },
            match self {
                PeerAuthentications::NewOnly((data, _)) => address matches Some(address)
                    && address.encoding() == data.address.encoding(),
                PeerAuthentications::LegacyOnly((legacy, _)) => match address {
                    Some(address) => A::join(encodings(legacy.addresses@)) == Some(
                        address.encoding(),
                    ),
                    None => A::join(encodings(legacy.addresses@)) is None,
                },
                PeerAuthentications::Both((data, _), _) => address matches Some(address)
                    && address.encoding() == data.address.encoding(),
            },
    {
        match self {
            PeerAuthentications::NewOnly((data, _)) => Some(data.address()),
            PeerAuthentications::LegacyOnly((data, _)) => A::from_multiaddresses(&data.addresses),
            PeerAuthentications::Both((data, _), _) => Some(data.address()),
        }
    }

    /// Keeps a statement in place of the last current one, if there was one.
    pub fn add_authentication(&mut self, authentication: Authentication<A>)
        ensures
            final(self)@ == old(self)@.with(Received::Current(authentication@)),
            final(self)@ == match old(self)@ {
                PeerAuthenticationsView::NewOnly(_) => PeerAuthenticationsView::NewOnly(
                    authentication@,
                ),
                PeerAuthenticationsView::LegacyOnly(legacy) => PeerAuthenticationsView::Both(
                    authentication@,
                    legacy,
                ),
                PeerAuthenticationsView::Both(_, legacy) => PeerAuthenticationsView::Both(
                    authentication@,
                    legacy,
                ),
            },
    {
        match self {
            PeerAuthentications::NewOnly(current) => {
                *current = authentication;
            },
            PeerAuthentications::LegacyOnly(legacy) => {
                let legacy = (legacy.0.duplicate(), legacy.1);
                *self = PeerAuthentications::Both(authentication, legacy);
            },
            PeerAuthentications::Both(current, _) => {
                *current = authentication;
            },
        }
    }

    /// Keeps a legacy statement in place of the last legacy one, if there was one.
    pub fn add_legacy_authentication(&mut self, legacy_authentication: LegacyAuthentication<M>)
        ensures
            final(self)@ == old(self)@.with(Received::Legacy(legacy_authentication@)),
            final(self)@ == match old(self)@ {
                PeerAuthenticationsView::NewOnly(current) => PeerAuthenticationsView::Both(
                    current,
                    legacy_authentication@,
                ),
                PeerAuthenticationsView::LegacyOnly(_) => PeerAuthenticationsView::LegacyOnly(
                    legacy_authentication@,
                ),
                PeerAuthenticationsView::Both(current, _) => PeerAuthenticationsView::Both(
                    current,
                    legacy_authentication@,
                ),
            },
    {
        match self {
            PeerAuthentications::NewOnly(current) => {
                let current = (current.0.duplicate(), current.1);
                *self = PeerAuthentications::Both(current, legacy_authentication);
            },
            PeerAuthentications::LegacyOnly(legacy) => {
                *legacy = legacy_authentication;
            },
            PeerAuthentications::Both(_, legacy) => {
                *legacy = legacy_authentication;
            },
        }
    }

    /// Makes another copy of the kept statements.
    pub fn duplicate(&self) -> (copy: PeerAuthentications<M, A>)
        ensures
            copy@ == self@,
    {
        match self {
            PeerAuthentications::NewOnly((data, signature)) => PeerAuthentications::NewOnly(
                (data.duplicate(), *signature),
            ),
            PeerAuthentications::LegacyOnly((data, signature)) => PeerAuthentications::LegacyOnly(
                (data.duplicate(), *signature),
            ),
            PeerAuthentications::Both((data, signature), (legacy_data, legacy_signature)) =>
                PeerAuthentications::Both(
                (data.duplicate(), *signature),
                (legacy_data.duplicate(), *legacy_signature),
            ),
        }
    }
}

} // verus!
