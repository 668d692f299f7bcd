//! Laws that tie the model to what the values hold: which bytes, numbers and statements it speaks
//! of.

use crate::authentication::{
    AuthData, AuthDataView, AuthenticationView, LegacyAuthData, LegacyAuthDataView,
    LegacyAuthenticationView, PeerAuthentications, PeerAuthenticationsView, Received,
};
use crate::crypto::{ed25519_accepts, verifies, AuthorityId, Signature};
use crate::laws::handling::keeps;
use crate::laws::update::vouches;
use crate::network::{encodings, AddressingInformation, Data, Multiaddressed};
use crate::session::{authority_view, SessionInfo, SignedAuthority};
use crate::state::{
    distinct, initial_info, lists, own_statements, stored, Entries, HandlerView, SessionInfoView,
    SignedAuthorityView,
};
use vstd::prelude::*;

verus! {

/// A list is encoded item by item, in its order.
pub proof fn lists_are_encoded_item_by_item<M: Data>(items: Seq<M>)
    ensures
        encodings(items).len() == items.len(),
        forall|i: int|
            0 <= i < items.len() ==> #[trigger] encodings(items)[i] == items[i].encoding(),
{
}

/// A key and a signature are known by all their bytes.
pub proof fn keys_and_signatures_are_their_bytes(key: AuthorityId, signature: Signature)
    ensures
        key@ == key.0@,
        signature@ == signature.0@,
{
}

/// The model of a statement has its encoded address, its node and its session.
pub proof fn statement_is_seen_as_it_is<A: AddressingInformation>(data: AuthData<A>)
    ensures
        data@.address == data.address.encoding(),
        data@.node_id == data.node_id.0,
        data@.session_id == data.session_id.0,
{
}

/// The model of a legacy statement has each of its multiaddresses, encoded and in their order, its
/// node and its session.
pub proof fn legacy_statement_is_seen_as_it_is<M: Data>(data: LegacyAuthData<M>)
    ensures
        data@.addresses.len() == data.addresses@.len(),
        forall|i: int|
            0 <= i < data.addresses@.len() ==> #[trigger] data@.addresses[i]
                == data.addresses@[i].encoding(),
        data@.node_id == data.node_id.0,
        data@.session_id == data.session_id.0,
{
}

/// The model of what is kept of a peer has the same statements, of the same kinds, with their
/// signatures.
pub proof fn kept_statements_are_seen_as_they_are<M: Data, A: Multiaddressed<M>>(
    kept: PeerAuthentications<M, A>,
)
    ensures
        kept matches PeerAuthentications::NewOnly((data, signature))
            ==> kept@ == PeerAuthenticationsView::NewOnly((data@, signature.0@)),
        kept matches PeerAuthentications::LegacyOnly((legacy, signature))
            ==> kept@ == PeerAuthenticationsView::LegacyOnly((legacy@, signature.0@)),
        kept matches PeerAuthentications::Both((data, signature), (legacy, legacy_signature))
            ==> kept@ == PeerAuthenticationsView::Both(
            (data@, signature.0@),
            (legacy@, legacy_signature.0@),
        ),
{
}

/// The model of what is known of the own node has the same session, or the same statements.
pub proof fn session_info_is_seen_as_it_is<M: Data, A: Multiaddressed<M>>(info: SessionInfo<M, A>)
    ensures
        info matches SessionInfo::SessionId(session_id)
            ==> info@ == SessionInfoView::SessionId(session_id.0),
        info matches SessionInfo::OwnAuthentication(own)
            ==> info@ == SessionInfoView::OwnAuthentication(own@),
{
}

/// The model of an authority has its index and both its signatures; no authority stays none.
pub proof fn authority_is_seen_as_it_is(authority: SignedAuthority)
    ensures
        authority@.node_index == authority.node_index.0,
        authority@.signature == authority.signature.0@,
        authority@.legacy_signature == authority.legacy_signature.0@,
        authority_view(Some(authority)) == Some(authority@),
        authority_view(None) is None,
{
}

/// A signed statement is for the session, of the node and about the address in it, and what is
/// signed is the message of that very statement. It always has an encoding.
pub proof fn current_statement_is_what_it_says<M: Data, A: Multiaddressed<M>>(
    data: AuthDataView,
    signature: Seq<u8>,
    peer: Seq<u8>,
)
    ensures
        ({
            let statement = Received::Current((data, signature));
            &&& statement.session_id() == data.session_id
            &&& statement.node_id() == data.node_id
            &&& statement.message() == data.encoding()
            &&& statement.signature() == signature
            &&& statement.encodable()
            &&& statement.address::<M, A>() == Some(data.address)
            &&& statement.is_about::<M, A>(peer) <==> A::peer_of(data.address) == peer
        }),
{
}

/// A signed legacy statement is for the session and of the node in it, about the address that its
/// multiaddresses stand for, if they stand for one, and what is signed is the message of that very
/// statement. It has an encoding if its list has a length that can be encoded.
pub proof fn legacy_statement_is_what_it_says<M: Data, A: Multiaddressed<M>>(
    legacy: LegacyAuthDataView,
    signature: Seq<u8>,
    peer: Seq<u8>,
)
    ensures
        ({
            let statement = Received::Legacy((legacy, signature));
            &&& statement.session_id() == legacy.session_id
            &&& statement.node_id() == legacy.node_id
            &&& statement.message() == legacy.encoding()
            &&& statement.signature() == signature
            &&& statement.encodable() <==> legacy.addresses.len() <= u32::MAX
            &&& statement.address::<M, A>() == A::join(legacy.addresses)
            &&& statement.is_about::<M, A>(peer) <==> (A::join(legacy.addresses) matches Some(address)
                && A::peer_of(address) == peer)
        }),
{
}

/// One statement of each kind can be kept of a peer. The first one is kept alone; a later one takes
/// the place of the one of its kind, if there is one, and leaves the other.
pub proof fn one_statement_of_each_kind_is_kept(
    current: AuthenticationView,
    legacy: LegacyAuthenticationView,
    new_current: AuthenticationView,
    new_legacy: LegacyAuthenticationView,
)
    ensures
        PeerAuthenticationsView::first(Received::Current(current)) == PeerAuthenticationsView::NewOnly(
            current,
        ),
        PeerAuthenticationsView::first(Received::Legacy(legacy))
            == PeerAuthenticationsView::LegacyOnly(legacy),
        PeerAuthenticationsView::NewOnly(current).with(Received::Current(new_current))
            == PeerAuthenticationsView::NewOnly(new_current),
        PeerAuthenticationsView::LegacyOnly(legacy).with(Received::Current(new_current))
            == PeerAuthenticationsView::Both(new_current, legacy),
        PeerAuthenticationsView::Both(current, legacy).with(Received::Current(new_current))
            == PeerAuthenticationsView::Both(new_current, legacy),
        PeerAuthenticationsView::NewOnly(current).with(Received::Legacy(new_legacy))
            == PeerAuthenticationsView::Both(current, new_legacy),
        PeerAuthenticationsView::LegacyOnly(legacy).with(Received::Legacy(new_legacy))
            == PeerAuthenticationsView::LegacyOnly(new_legacy),
        PeerAuthenticationsView::Both(current, legacy).with(Received::Legacy(new_legacy))
            == PeerAuthenticationsView::Both(current, new_legacy),
{
}

/// A kept current statement is among the statements of the peer, and decides on its session and
/// address, whatever a legacy one beside it says; only without a current statement does the legacy
/// one decide, and its address is then the one that its multiaddresses stand for.
pub proof fn current_statement_decides<M: Data, A: Multiaddressed<M>>(
    current: AuthenticationView,
    legacy: LegacyAuthenticationView,
)
    ensures
        ({
            let kept = PeerAuthenticationsView::NewOnly(current);
            &&& kept.statements() == seq![Received::Current(current)]
            &&& kept.session_id() == current.0.session_id
            &&& kept.address::<M, A>() == Some(current.0.address)
        }),
        ({
            let kept = PeerAuthenticationsView::Both(current, legacy);
            &&& kept.statements() == seq![Received::Legacy(legacy), Received::Current(current)]
            &&& kept.session_id() == current.0.session_id
            &&& kept.address::<M, A>() == Some(current.0.address)
        }),
        ({
            let kept = PeerAuthenticationsView::LegacyOnly(legacy);
            &&& kept.statements() == seq![Received::Legacy(legacy)]
            &&& kept.session_id() == legacy.0.session_id
            &&& kept.address::<M, A>() == A::join(legacy.0.addresses)
        }),
{
}

/// A node that makes no statements knows its session; one that makes some is in the session that
/// its current statement is for.
pub proof fn session_is_the_stated_one(handler: HandlerView)
    ensures
        handler.session_id() == handler.session_info.session_id(),
        handler.session_info matches SessionInfoView::SessionId(session_id) ==> {
            &&& handler.session_id() == session_id
            &&& handler.session_info.own() is None
        },
        handler.session_info matches SessionInfoView::OwnAuthentication(own) ==> {
            &&& handler.session_info.own() == Some(own)
            &&& own matches PeerAuthenticationsView::NewOnly((data, _)) ==> handler.session_id()
                == data.session_id
            &&& own matches PeerAuthenticationsView::LegacyOnly((legacy, _)) ==> handler.session_id()
                == legacy.session_id
            &&& own matches PeerAuthenticationsView::Both((data, _), _) ==> handler.session_id()
                == data.session_id
        },
{
}

/// A validator states of itself, in both forms, its own address, under its own index and for the
/// session, each form with the signature under it. Any other node states nothing.
pub proof fn own_statements_are_about_the_own_node<M: Data, A: Multiaddressed<M>>(
    authority: SignedAuthorityView,
    session_id: u32,
    address: Seq<u8>,
)
    ensures
        own_statements::<M, A>(authority, session_id, address) == PeerAuthenticationsView::Both(
            (
                AuthDataView { address, node_id: authority.node_index, session_id },
                authority.signature,
            ),
            (
                LegacyAuthDataView {
                    addresses: A::split(address),
                    node_id: authority.node_index,
                    session_id,
                },
                authority.legacy_signature,
            ),
        ),
        initial_info::<M, A>(Some(authority), session_id, address)
            == SessionInfoView::OwnAuthentication(
            own_statements::<M, A>(authority, session_id, address),
        ),
        initial_info::<M, A>(None, session_id, address) == SessionInfoView::SessionId(session_id),
{
}

/// A new handler has the index and the keys that it was given, is in the given session under the
/// given address, and has heard of nobody.
pub proof fn new_handler_is_as_given<M: Data, A: Multiaddressed<M>>(
    authority: SignedAuthorityView,
    authorities: Seq<Seq<u8>>,
    session_id: u32,
    address: Seq<u8>,
)
    ensures
        HandlerView::initial::<M, A>(Some(authority), authorities, session_id, address) == (
        HandlerView {
            peers: Map::empty(),
            authentications: Seq::empty(),
            session_info: SessionInfoView::OwnAuthentication(
                PeerAuthenticationsView::Both(
                    (
                        AuthDataView { address, node_id: authority.node_index, session_id },
                        authority.signature,
                    ),
                    (
                        LegacyAuthDataView {
                            addresses: A::split(address),
                            node_id: authority.node_index,
                            session_id,
                        },
                        authority.legacy_signature,
                    ),
                ),
            ),
            own_peer_id: A::peer_of(address),
            index: Some(authority.node_index),
            authorities,
        }),
        HandlerView::initial::<M, A>(None, authorities, session_id, address) == (HandlerView {
            peers: Map::empty(),
            authentications: Seq::empty(),
            session_info: SessionInfoView::SessionId(session_id),
            own_peer_id: A::peer_of(address),
            index: None,
            authorities,
        }),
{
}

/// A signature is checked with the key that stands at the index of the node in the list of keys,
/// and with no other; where the list does not reach the index, no signature is good.
pub proof fn key_at_the_index_decides(
    authorities: Seq<Seq<u8>>,
    message: Seq<u8>,
    signature: Seq<u8>,
    node_id: usize,
)
    ensures
        node_id < authorities.len() ==> verifies(authorities, message, signature, node_id)
            == ed25519_accepts(authorities[node_id as int], message, signature),
        node_id >= authorities.len() ==> !verifies(authorities, message, signature, node_id),
{
}

/// A peer is listed if one of the entries is under it, a statement is kept under a peer if an
/// entry under the peer has it, and a peer vouches for a node if a statement of the node is kept
/// under it. No peer is listed twice where no two entries are under one peer.
pub proof fn entries_list_what_they_hold(
    entries: Entries,
    peer: Seq<u8>,
    current: AuthenticationView,
    legacy: LegacyAuthenticationView,
    node_id: usize,
)
    ensures
        lists(entries, peer) <==> exists|i: int|
            0 <= i < entries.len() && (#[trigger] entries[i]).0 == peer,
        distinct(entries) <==> forall|i: int, j: int|
            #![trigger entries[i], entries[j]]
            0 <= i < j < entries.len() ==> entries[i].0 != entries[j].0,
        keeps(entries, peer, Received::Current(current)) <==> exists|i: int|
            0 <= i < entries.len() && (#[trigger] entries[i]).0 == peer && match entries[i].1 {
                PeerAuthenticationsView::NewOnly(kept) => kept == current,
                PeerAuthenticationsView::LegacyOnly(_) => false,
                PeerAuthenticationsView::Both(kept, _) => kept == current,
            },
        keeps(entries, peer, Received::Legacy(legacy)) <==> exists|i: int|
            0 <= i < entries.len() && (#[trigger] entries[i]).0 == peer && match entries[i].1 {
                PeerAuthenticationsView::NewOnly(_) => false,
                PeerAuthenticationsView::LegacyOnly(kept) => kept == legacy,
                PeerAuthenticationsView::Both(_, kept) => kept == legacy,
            },
        vouches(entries, peer, node_id) <==> exists|i: int|
            0 <= i < entries.len() && (#[trigger] entries[i]).0 == peer && match entries[i].1 {
                PeerAuthenticationsView::NewOnly((data, _)) => data.node_id == node_id,
                PeerAuthenticationsView::LegacyOnly((data, _)) => data.node_id == node_id,
                PeerAuthenticationsView::Both((data, _), (other, _)) => data.node_id == node_id
                    || other.node_id == node_id,
            },
{
    if lists(entries, peer) {
        let i = choose|i: int| 0 <= i < entries.len() && #[trigger] entries[i].0 == peer;
        assert(entries[i].0 == peer);
    }
    if exists|i: int| 0 <= i < entries.len() && (#[trigger] entries[i]).0 == peer {
        let i = choose|i: int| 0 <= i < entries.len() && (#[trigger] entries[i]).0 == peer;
        assert(entries[i].0 == peer);
    }
    assert forall|i: int, statement: Received| 0 <= i < entries.len() implies (
    #[trigger] entries[i].1.statements().contains(statement) <==> match entries[i].1 {
        PeerAuthenticationsView::NewOnly(kept) => statement == Received::Current(kept),
        PeerAuthenticationsView::LegacyOnly(kept) => statement == Received::Legacy(kept),
        PeerAuthenticationsView::Both(kept, other) => statement == Received::Current(kept)
            || statement == Received::Legacy(other),
    }) by {
        let statements = entries[i].1.statements();
        assert(statements.contains(statements[0]));
        assert(statements.contains(statements[statements.len() - 1]));
    }
    if exists|i: int|
        0 <= i < entries.len() && (#[trigger] entries[i]).0 == peer && match entries[i].1 {
            PeerAuthenticationsView::NewOnly((data, _)) => data.node_id == node_id,
            PeerAuthenticationsView::LegacyOnly((data, _)) => data.node_id == node_id,
            PeerAuthenticationsView::Both((data, _), (other, _)) => data.node_id == node_id
                || other.node_id == node_id,
        } {
        let i = choose|i: int|
            0 <= i < entries.len() && (#[trigger] entries[i]).0 == peer && match entries[i].1 {
                PeerAuthenticationsView::NewOnly((data, _)) => data.node_id == node_id,
                PeerAuthenticationsView::LegacyOnly((data, _)) => data.node_id == node_id,
                PeerAuthenticationsView::Both((data, _), (other, _)) => data.node_id == node_id
                    || other.node_id == node_id,
            };
        let statements = entries[i].1.statements();
        let statement = if statements[0].node_id() == node_id {
            statements[0]
        } else {
            statements[statements.len() - 1]
        };
        assert(entries[i].1.statements().contains(statement));
        assert(keeps(entries, peer, statement));
    }
}

/// What is stored is stored entry by entry, of two statements of one peer the legacy one first.
pub proof fn entries_are_stored_in_order(
    entries: Entries,
    peer: Seq<u8>,
    current: AuthenticationView,
    legacy: LegacyAuthenticationView,
)
    ensures
        stored(Seq::empty()) == Seq::<Received>::empty(),
        stored(entries.push((peer, PeerAuthenticationsView::NewOnly(current)))) == stored(
            entries,
        ).push(Received::Current(current)),
        stored(entries.push((peer, PeerAuthenticationsView::LegacyOnly(legacy)))) == stored(
            entries,
        ).push(Received::Legacy(legacy)),
        stored(entries.push((peer, PeerAuthenticationsView::Both(current, legacy)))) == stored(
            entries,
        ).push(Received::Legacy(legacy)).push(Received::Current(current)),
{
    assert forall|kept: PeerAuthenticationsView| #[trigger]
        stored(entries.push((peer, kept))) == stored(entries) + kept.statements() by {
        assert(entries.push((peer, kept)).drop_last() =~= entries);
    }
}

} // verus!
