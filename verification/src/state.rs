//! The model of a session handler: what it knows, and how that changes.

use crate::authentication::{
    legacy_form, AuthDataView, PeerAuthenticationsView, Received,
};
use crate::crypto::verifies;
use crate::network::{Data, Multiaddressed};
use vstd::prelude::*;

verus! {

/// What is kept of each peer, in the order in which the peers were first heard of. Peers are given
/// by the encoding of their identity.
pub type Entries = Seq<(Seq<u8>, PeerAuthenticationsView)>;

/// Whether anything is kept of a peer.
pub open spec fn lists(entries: Entries, peer: Seq<u8>) -> bool {
    exists|i: int| 0 <= i < entries.len() && #[trigger] entries[i].0 == peer
}

/// Where the peer stands in the list.
pub open spec fn position(entries: Entries, peer: Seq<u8>) -> int {
    choose|i: int| 0 <= i < entries.len() && #[trigger] entries[i].0 == peer
}

/// Whether no peer is listed twice.
pub open spec fn distinct(entries: Entries) -> bool {
    forall|i: int, j: int|
        0 <= i < entries.len() && 0 <= j < entries.len() && #[trigger] entries[i].0
            == #[trigger] entries[j].0 ==> i == j
}

/// One more statement kept of a peer.
pub open spec fn keep(entries: Entries, peer: Seq<u8>, received: Received) -> Entries {
    if lists(entries, peer) {
        let i = position(entries, peer);
        entries.update(i, (peer, entries[i].1.with(received)))
    } else {
        entries.push((peer, PeerAuthenticationsView::first(received)))
    }
}

/// All the statements kept, peer by peer.
pub open spec fn stored(entries: Entries) -> Seq<Received>
    decreases entries.len(),
{
    if entries.len() == 0 {
        Seq::empty()
    } else {
        stored(entries.drop_last()) + entries.last().1.statements()
    }
}

/// What a validator brings along: its index, and its signatures under its own two statements.
#[verifier::ext_equal]
pub struct SignedAuthorityView {
    pub node_index: usize,
    pub signature: Seq<u8>,
    pub legacy_signature: Seq<u8>,
}

/// What a handler knows of its own node: only the session, or the node's own statements for it.
#[verifier::ext_equal]
pub enum SessionInfoView {
    SessionId(u32),
    OwnAuthentication(PeerAuthenticationsView),
}

impl SessionInfoView {
    /// The session.
    pub open spec fn session_id(self) -> u32 {
        match self {
            SessionInfoView::SessionId(session_id) => session_id,
            SessionInfoView::OwnAuthentication(own) => own.session_id(),
        }
    }

    /// The node's own statements, if it makes any.
    pub open spec fn own(self) -> Option<PeerAuthenticationsView> {
        match self {
            SessionInfoView::SessionId(_) => None,
            SessionInfoView::OwnAuthentication(own) => Some(own),
        }
    }
}

/// The two statements that a node makes of itself, with the given signatures.
pub open spec fn own_statements<M: Data, A: Multiaddressed<M>>(
    authority: SignedAuthorityView,
    session_id: u32,
    address: Seq<u8>,
) -> PeerAuthenticationsView {
    let data = AuthDataView { address, node_id: authority.node_index, session_id };
    PeerAuthenticationsView::Both(
        (data, authority.signature),
        (legacy_form::<M, A>(data), authority.legacy_signature),
    )
}

/// What a handler knows of its own node at the start: a validator has statements to make, any
/// other node has none.
pub open spec fn initial_info<M: Data, A: Multiaddressed<M>>(
    authority: Option<SignedAuthorityView>,
    session_id: u32,
    address: Seq<u8>,
) -> SessionInfoView {
    match authority {
        Some(authority) => SessionInfoView::OwnAuthentication(
            own_statements::<M, A>(authority, session_id, address),
        ),
        None => SessionInfoView::SessionId(session_id),
    }
}

/// The model of a session handler.
#[verifier::ext_equal]
pub struct HandlerView {
    /// The peer last heard of under each index.
    pub peers: Map<usize, Seq<u8>>,
    /// What is kept of each peer.
    pub authentications: Entries,
    /// What is known of the own node.
    pub session_info: SessionInfoView,
    /// The identity of the own node.
    pub own_peer_id: Seq<u8>,
    /// The index of the own node, if it is a validator.
    pub index: Option<usize>,
    /// The keys of the authorities, by index.
    pub authorities: Seq<Seq<u8>>,
}

impl HandlerView {
    /// A handler that has not heard of any peer.
    pub open spec fn initial<M: Data, A: Multiaddressed<M>>(
        authority: Option<SignedAuthorityView>,
        authorities: Seq<Seq<u8>>,
        session_id: u32,
        address: Seq<u8>,
    ) -> HandlerView {
        HandlerView {
            peers: Map::empty(),
            authentications: Seq::empty(),
            session_info: initial_info::<M, A>(authority, session_id, address),
            own_peer_id: A::peer_of(address),
            index: match authority {
                Some(authority) => Some(authority.node_index),
                None => None,
            },
            authorities,
        }
    }

    /// The session.
    pub open spec fn session_id(self) -> u32 {
        self.session_info.session_id()
    }

    /// All the indices of nodes of the session, in order.
    pub open spec fn nodes(self) -> Seq<usize> {
        Seq::new(self.authorities.len(), |i: int| i as usize)
    }

    /// Whether a node is another one, of which nothing was heard.
    pub open spec fn is_missing(self, node_id: usize) -> bool {
        self.index != Some(node_id) && !self.peers.contains_key(node_id)
    }

    /// The indices of all the missing nodes, in order.
    pub open spec fn missing_nodes(self) -> Seq<usize> {
        self.nodes().filter(|node_id: usize| self.is_missing(node_id))
    }

    /// Whether the signature of a statement is one of the authority that makes it.
    pub open spec fn signed(self, received: Received) -> bool {
        verifies(self.authorities, received.message(), received.signature(), received.node_id())
    }

    /// Whether a statement counts, if its signature is good as told: it has to be for this
    /// session, well signed, and about an address of another peer.
    pub open spec fn accepts_if<M: Data, A: Multiaddressed<M>>(
        self,
        received: Received,
        good: bool,
    ) -> bool {
        &&& received.session_id() == self.session_id()
        &&& good
        &&& received.address::<M, A>() matches Some(address)
        &&& A::peer_of(address) != self.own_peer_id
    }

    /// Whether a statement counts.
    pub open spec fn accepts<M: Data, A: Multiaddressed<M>>(self, received: Received) -> bool {
        self.accepts_if::<M, A>(received, self.signed(received))
    }

    /// The handler after a statement, if its signature is good as told. One that does not count
    /// changes nothing.
    pub open spec fn handle_if<M: Data, A: Multiaddressed<M>>(
        self,
        received: Received,
        good: bool,
    ) -> HandlerView {
        if self.accepts_if::<M, A>(received, good) {
            let peer = A::peer_of(received.address::<M, A>()->0);
            HandlerView {
                peers: self.peers.insert(received.node_id(), peer),
                authentications: keep(self.authentications, peer, received),
                ..self
            }
        } else {
            self
        }
    }

    /// The handler after a statement.
    pub open spec fn handle<M: Data, A: Multiaddressed<M>>(self, received: Received) -> HandlerView {
        self.handle_if::<M, A>(received, self.signed(received))
    }

    /// The handler after some statements, one by one.
    pub open spec fn handle_all<M: Data, A: Multiaddressed<M>>(
        self,
        received: Seq<Received>,
    ) -> HandlerView
        decreases received.len(),
    {
        if received.len() == 0 {
            self
        } else {
            self.handle_all::<M, A>(received.drop_last()).handle::<M, A>(received.last())
        }
    }

    /// The handler after an update: one that starts anew in the same session, and handles what was
    /// kept so far once more.
    pub open spec fn update<M: Data, A: Multiaddressed<M>>(
        self,
        authority: Option<SignedAuthorityView>,
        authorities: Seq<Seq<u8>>,
        address: Seq<u8>,
    ) -> HandlerView {
        HandlerView::initial::<M, A>(
            authority,
            authorities,
            self.session_id(),
            address,
        ).handle_all::<M, A>(stored(self.authentications))
    }

    /// Whether two handlers differ at most in what they know of peers, so that they check
    /// statements alike.
    pub open spec fn alike(self, other: HandlerView) -> bool {
        &&& self.session_info == other.session_info
        &&& self.own_peer_id == other.own_peer_id
        &&& self.index == other.index
        &&& self.authorities == other.authorities
    }

    /// What is left of the statements kept of a peer when each is checked once more, if anything.
    pub open spec fn recheck<M: Data, A: Multiaddressed<M>>(
        self,
        kept: PeerAuthenticationsView,
    ) -> Option<PeerAuthenticationsView> {
        match kept {
            PeerAuthenticationsView::NewOnly(current) => if self.accepts::<M, A>(
                Received::Current(current),
            ) {
                Some(kept)
            } else {
                None
            },
            PeerAuthenticationsView::LegacyOnly(legacy) => if self.accepts::<M, A>(
                Received::Legacy(legacy),
            ) {
                Some(kept)
            } else {
                None
            },
            PeerAuthenticationsView::Both(current, legacy) => match (
                self.accepts::<M, A>(Received::Current(current)),
                self.accepts::<M, A>(Received::Legacy(legacy)),
            ) {
                (true, true) => Some(kept),
                (true, false) => Some(PeerAuthenticationsView::NewOnly(current)),
                (false, true) => Some(PeerAuthenticationsView::LegacyOnly(legacy)),
                (false, false) => None,
            },
        }
    }

    /// What is left of an entry when each statement in it is checked once more, if anything.
    pub open spec fn recheck_entry<M: Data, A: Multiaddressed<M>>(
        self,
        entry: (Seq<u8>, PeerAuthenticationsView),
    ) -> Option<(Seq<u8>, PeerAuthenticationsView)> {
        match self.recheck::<M, A>(entry.1) {
            Some(left) => Some((entry.0, left)),
            None => None,
        }
    }

    /// Whether a kept statement is in its place: for this session, short enough to be encoded,
    /// listed under the peer that it is about, which is not the own node, and the index that made it
    /// is one of those heard of.
    pub open spec fn holds<M: Data, A: Multiaddressed<M>>(
        self,
        peer: Seq<u8>,
        received: Received,
    ) -> bool {
        &&& received.session_id() == self.session_id()
        &&& received.is_about::<M, A>(peer)
        &&& received.encodable()
        &&& peer != self.own_peer_id
        &&& self.peers.contains_key(received.node_id())
    }

    /// What the own node states is about itself, and it states something if and only if it is a
    /// validator.
    pub open spec fn own_wf<M: Data, A: Multiaddressed<M>>(self) -> bool {
        match (self.index, self.session_info.own()) {
            (Some(index), Some(own)) => {
                &&& own matches PeerAuthenticationsView::Both((data, _), (legacy, _))
                &&& data.node_id == index
                &&& A::peer_of(data.address) == self.own_peer_id
                &&& legacy == legacy_form::<M, A>(data)
            },
            (None, None) => true,
            _ => false,
        }
    }

    /// What holds of every handler: there are not more authorities than indices, no peer is listed
    /// twice, every kept statement is in its place, and something is kept of every peer that stands
    /// under some index.
    pub open spec fn wf<M: Data, A: Multiaddressed<M>>(self) -> bool {
        &&& self.own_wf::<M, A>()
        &&& self.authorities.len() <= usize::MAX
        &&& distinct(self.authentications)
        &&& forall|i: int, j: int|
            0 <= i < self.authentications.len() && 0 <= j
                < self.authentications[i].1.statements().len() ==> self.holds::<M, A>(
                self.authentications[i].0,
                #[trigger] self.authentications[i].1.statements()[j],
            )
        &&& forall|node_id: usize| #[trigger]
            self.peers.contains_key(node_id) ==> lists(self.authentications, self.peers[node_id])
    }

    /// Whether every kept statement is well signed, and every index heard of is one of an
    /// authority.
    pub open spec fn verified(self) -> bool {
        &&& forall|i: int, j: int|
            0 <= i < self.authentications.len() && 0 <= j
                < self.authentications[i].1.statements().len() ==> self.signed(
                #[trigger] self.authentications[i].1.statements()[j],
            )
        &&& forall|node_id: usize| #[trigger]
            self.peers.contains_key(node_id) ==> node_id < self.authorities.len()
    }
}

/// A listed peer stands where `position` says, and nowhere else.
pub proof fn lemma_position(entries: Entries, i: int)
    requires
        distinct(entries),
        0 <= i < entries.len(),
    ensures
        lists(entries, entries[i].0),
        position(entries, entries[i].0) == i,
{
    assert(entries[i].0 == entries[i].0);
}

/// Keeping one more statement of a peer lists that peer, unlists none, and changes what is kept of
/// no other.
pub proof fn lemma_keep(entries: Entries, peer: Seq<u8>, received: Received)
    requires
        distinct(entries),
    ensures
        distinct(keep(entries, peer, received)),
        forall|other: Seq<u8>| #[trigger]
            lists(keep(entries, peer, received), other) <==> other == peer || lists(entries, other),
        forall|i: int, j: int|
            0 <= i < keep(entries, peer, received).len() && 0 <= j < keep(
                entries,
                peer,
                received,
            )[i].1.statements().len() ==> {
                let kept = #[trigger] keep(entries, peer, received)[i].1.statements()[j];
                ||| keep(entries, peer, received)[i].0 == peer && kept == received
                ||| i < entries.len() && keep(entries, peer, received)[i].0 == entries[i].0
                    && exists|k: int|
                    0 <= k < entries[i].1.statements().len() && #[trigger] entries[i].1.statements()[k]
                        == kept
            },
{
    let after = keep(entries, peer, received);
    if lists(entries, peer) {
        let p = position(entries, peer);
        assert forall|i: int| 0 <= i < entries.len() implies #[trigger] after[i].0 == entries[i].0 by {
        }
        assert forall|other: Seq<u8>| #[trigger] lists(after, other) <==> lists(entries, other) by {
            if lists(entries, other) {
                let q = position(entries, other);
                assert(after[q].0 == other);
            }
        }
        assert forall|i: int, j: int|
            0 <= i < after.len() && 0 <= j < after[i].1.statements().len() implies {
            let kept = #[trigger] after[i].1.statements()[j];
            ||| after[i].0 == peer && kept == received
            ||| i < entries.len() && after[i].0 == entries[i].0 && exists|k: int|
                0 <= k < entries[i].1.statements().len() && #[trigger] entries[i].1.statements()[k]
                    == kept
        } by {
            let kept = after[i].1.statements()[j];
            if i == p {
                let before = entries[i].1.statements();
                if kept != received {
                    assert(before[0] == kept || before[before.len() - 1] == kept);
                }
            } else {
                assert(entries[i].1.statements()[j] == kept);
            }
        }
    } else {
        let n = entries.len() as int;
        assert(after[n].0 == peer);
        assert forall|i: int| 0 <= i < n implies #[trigger] after[i] == entries[i] by {
        }
        assert forall|other: Seq<u8>| #[trigger]
            lists(after, other) <==> other == peer || lists(entries, other) by {
            if lists(entries, other) {
                let q = position(entries, other);
                assert(after[q].0 == other);
            }
            if lists(after, other) && other != peer {
                let q = position(after, other);
                assert(entries[q].0 == other);
            }
        }
        assert forall|i: int, j: int|
            0 <= i < after.len() && 0 <= j < after[i].1.statements().len() implies {
            let kept = #[trigger] after[i].1.statements()[j];
            ||| after[i].0 == peer && kept == received
            ||| i < entries.len() && after[i].0 == entries[i].0 && exists|k: int|
                0 <= k < entries[i].1.statements().len() && #[trigger] entries[i].1.statements()[k]
                    == kept
        } by {
            if i < n {
                assert(entries[i].1.statements()[j] == after[i].1.statements()[j]);
            }
        }
    }
}

impl HandlerView {
    /// The last of some statements is handled after the others.
    pub proof fn lemma_handle_all_push<M: Data, A: Multiaddressed<M>>(
        self,
        received: Seq<Received>,
        last: Received,
    )
        ensures
            self.handle_all::<M, A>(received.push(last)) == self.handle_all::<M, A>(
                received,
            ).handle::<M, A>(last),
    {
        assert(received.push(last).drop_last() =~= received);
    }

    /// Statements do not change how statements are checked.
    pub proof fn lemma_handle_all_alike<M: Data, A: Multiaddressed<M>>(self, received: Seq<Received>)
        ensures
            self.alike(self.handle_all::<M, A>(received)),
        decreases received.len(),
    {
        if received.len() > 0 {
            self.lemma_handle_all_alike::<M, A>(received.drop_last());
        }
    }

    /// A statement leaves a handler in order.
    pub proof fn lemma_handle_if<M: Data, A: Multiaddressed<M>>(self, received: Received, good: bool)
        requires
            self.wf::<M, A>(),
            received.session_id() == self.session_id() ==> received.encodable(),
        ensures
            self.handle_if::<M, A>(received, good).wf::<M, A>(),
            self.verified() && (good ==> self.signed(received)) ==> self.handle_if::<M, A>(
                received,
                good,
            ).verified(),
    {
        if self.accepts_if::<M, A>(received, good) {
            let after = self.handle_if::<M, A>(received, good);
            let peer = A::peer_of(received.address::<M, A>()->0);
            lemma_keep(self.authentications, peer, received);
            assert forall|i: int, j: int|
                0 <= i < after.authentications.len() && 0 <= j
                    < after.authentications[i].1.statements().len() implies after.holds::<M, A>(
                after.authentications[i].0,
                #[trigger] after.authentications[i].1.statements()[j],
            ) && (self.verified() && self.signed(received) ==> after.signed(
                after.authentications[i].1.statements()[j],
            )) by {
                let kept = after.authentications[i].1.statements()[j];
                if !(after.authentications[i].0 == peer && kept == received) {
                    let k = choose|k: int|
                        0 <= k < self.authentications[i].1.statements().len()
                            && #[trigger] self.authentications[i].1.statements()[k] == kept;
                    assert(self.holds::<M, A>(
                        self.authentications[i].0,
                        self.authentications[i].1.statements()[k],
                    ));
                }
            }
            assert forall|node_id: usize| #[trigger] after.peers.contains_key(node_id) implies lists(
                after.authentications,
                after.peers[node_id],
            ) by {
                if node_id != received.node_id() {
                    assert(self.peers.contains_key(node_id));
                }
            }
        }
    }
}

} // verus!
