//! Laws on the whole effect of a statement and of an update, told from the statement, the keys and
//! the addresses themselves.

use crate::authentication::{
    AuthDataView, AuthenticationView, LegacyAuthDataView, LegacyAuthenticationView,
    PeerAuthenticationsView, Received,
};
use crate::crypto::ed25519_accepts;
use crate::laws::handling::keeps;
use crate::network::{Data, Multiaddressed};
use crate::session::Handler;
use crate::state::{
    lemma_position, lists, position, stored, Entries, HandlerView, SessionInfoView,
    SignedAuthorityView,
};
use vstd::prelude::*;

verus! {

/// A current statement counts if and only if it is for the session of the handler, ed25519 accepts
/// its signature under the key at the index of its node, and the peer behind its address is not the
/// own one. One that does not count changes nothing.
pub proof fn ed25519_decides_on_a_statement<M: Data, A: Multiaddressed<M>>(
    handler: HandlerView,
    address: Seq<u8>,
    node_id: usize,
    session_id: u32,
    signature: Seq<u8>,
)
    ensures
        ({
            let data = AuthDataView { address, node_id, session_id };
            let statement = Received::Current((data, signature));
            let counts = {
                &&& session_id == handler.session_id()
                &&& node_id < handler.authorities.len()
                &&& ed25519_accepts(
                    handler.authorities[node_id as int],
                    data.encoding(),
                    signature,
                )
                &&& A::peer_of(address) != handler.own_peer_id
            };
            &&& handler.signed(statement) <==> node_id < handler.authorities.len()
                && ed25519_accepts(handler.authorities[node_id as int], data.encoding(), signature)
            &&& handler.accepts::<M, A>(statement) <==> counts
            &&& counts ==> handler.handle::<M, A>(statement) == handler.handle_if::<M, A>(
                statement,
                true,
            )
            &&& !counts ==> handler.handle::<M, A>(statement) == handler
        }),
{
}

/// A legacy statement counts if and only if it is for the session of the handler, ed25519 accepts
/// its signature under the key at the index of its node, and its multiaddresses stand for an
/// address of another peer than the own one. One that does not count changes nothing.
pub proof fn ed25519_decides_on_a_legacy_statement<M: Data, A: Multiaddressed<M>>(
    handler: HandlerView,
    addresses: Seq<Seq<u8>>,
    node_id: usize,
    session_id: u32,
    signature: Seq<u8>,
)
    ensures
        ({
            let data = LegacyAuthDataView { addresses, node_id, session_id };
            let statement = Received::Legacy((data, signature));
            let counts = {
                &&& session_id == handler.session_id()
                &&& node_id < handler.authorities.len()
                &&& ed25519_accepts(
                    handler.authorities[node_id as int],
                    data.encoding(),
                    signature,
                )
                &&& A::join(addresses) is Some
                &&& A::peer_of(A::join(addresses)->0) != handler.own_peer_id
            };
            &&& handler.signed(statement) <==> node_id < handler.authorities.len()
                && ed25519_accepts(handler.authorities[node_id as int], data.encoding(), signature)
            &&& handler.accepts::<M, A>(statement) <==> counts
            &&& counts ==> handler.handle::<M, A>(statement) == handler.handle_if::<M, A>(
                statement,
                true,
            )
            &&& !counts ==> handler.handle::<M, A>(statement) == handler
        }),
{
}

/// A current statement whose signature is told to be good or bad counts if and only if it is for
/// the session, told to be good, and about another peer. If it counts, that peer is known under the
/// index of the node, and the statement is kept of it: in place of the last current one, beside a
/// legacy one, or as the only one of a peer that is listed last from then on. Nothing else changes.
pub proof fn statement_is_put_in_its_place<M: Data, A: Multiaddressed<M>>(
    handler: HandlerView,
    current: AuthenticationView,
    good: bool,
)
    requires
        forall|i: int, j: int|
            #![trigger handler.authentications[i], handler.authentications[j]]
            0 <= i < j < handler.authentications.len() ==> handler.authentications[i].0
                != handler.authentications[j].0,
    ensures
        ({
            let statement = Received::Current(current);
            let peer = A::peer_of(current.0.address);
            let before = handler.authentications;
            let after = handler.handle_if::<M, A>(statement, good);
            let counts = {
                &&& current.0.session_id == handler.session_id()
                &&& good
                &&& peer != handler.own_peer_id
            };
            &&& handler.accepts_if::<M, A>(statement, good) <==> counts
            &&& !counts ==> after == handler
            &&& counts ==> {
                &&& after.peers == handler.peers.insert(current.0.node_id, peer)
                &&& after.session_info == handler.session_info
                &&& after.own_peer_id == handler.own_peer_id
                &&& after.index == handler.index
                &&& after.authorities == handler.authorities
                &&& forall|i: int|
                    0 <= i < before.len() && (#[trigger] before[i]).0 != peer
                        ==> after.authentications[i] == before[i]
                &&& forall|i: int|
                    0 <= i < before.len() && (#[trigger] before[i]).0 == peer ==> {
                        &&& after.authentications.len() == before.len()
                        &&& after.authentications[i] == (
                            peer,
                            match before[i].1 {
                                PeerAuthenticationsView::NewOnly(_) =>
                                    PeerAuthenticationsView::NewOnly(current),
                                PeerAuthenticationsView::LegacyOnly(legacy) =>
                                    PeerAuthenticationsView::Both(current, legacy),
                                PeerAuthenticationsView::Both(_, legacy) =>
                                    PeerAuthenticationsView::Both(current, legacy),
                            },
                        )
                    }
                &&& (forall|i: int| 0 <= i < before.len() ==> (#[trigger] before[i]).0 != peer)
                    ==> after.authentications == before.push(
                    (peer, PeerAuthenticationsView::NewOnly(current)),
                )
            }
        }),
{
    let peer = A::peer_of(current.0.address);
    let before = handler.authentications;
    assert forall|i: int| 0 <= i < before.len() && (#[trigger] before[i]).0 == peer implies lists(
        before,
        peer,
    ) && position(before, peer) == i by {
        lemma_position(before, i);
    }
}

/// A legacy statement whose signature is told to be good or bad counts if and only if it is for
/// the session, told to be good, and its multiaddresses stand for an address of another peer. If it
/// counts, that peer is known under the index of the node, and the statement is kept of it: in
/// place of the last legacy one, beside a current one, or as the only one of a peer that is listed
/// last from then on. Nothing else changes.
pub proof fn legacy_statement_is_put_in_its_place<M: Data, A: Multiaddressed<M>>(
    handler: HandlerView,
    legacy: LegacyAuthenticationView,
    good: bool,
)
    requires
        forall|i: int, j: int|
            #![trigger handler.authentications[i], handler.authentications[j]]
            0 <= i < j < handler.authentications.len() ==> handler.authentications[i].0
                != handler.authentications[j].0,
    ensures
        ({
            let statement = Received::Legacy(legacy);
            let peer = A::peer_of(A::join(legacy.0.addresses)->0);
            let before = handler.authentications;
            let after = handler.handle_if::<M, A>(statement, good);
            let counts = {
                &&& legacy.0.session_id == handler.session_id()
                &&& good
                &&& A::join(legacy.0.addresses) is Some
                &&& peer != handler.own_peer_id
            };
            &&& handler.accepts_if::<M, A>(statement, good) <==> counts
            &&& !counts ==> after == handler
            &&& counts ==> {
                &&& after.peers == handler.peers.insert(legacy.0.node_id, peer)
                &&& after.session_info == handler.session_info
                &&& after.own_peer_id == handler.own_peer_id
                &&& after.index == handler.index
                &&& after.authorities == handler.authorities
                &&& forall|i: int|
                    0 <= i < before.len() && (#[trigger] before[i]).0 != peer
                        ==> after.authentications[i] == before[i]
                &&& forall|i: int|
                    0 <= i < before.len() && (#[trigger] before[i]).0 == peer ==> {
                        &&& after.authentications.len() == before.len()
                        &&& after.authentications[i] == (
                            peer,
                            match before[i].1 {
                                PeerAuthenticationsView::NewOnly(current) =>
                                    PeerAuthenticationsView::Both(current, legacy),
                                PeerAuthenticationsView::LegacyOnly(_) =>
                                    PeerAuthenticationsView::LegacyOnly(legacy),
                                PeerAuthenticationsView::Both(current, _) =>
                                    PeerAuthenticationsView::Both(current, legacy),
                            },
                        )
                    }
                &&& (forall|i: int| 0 <= i < before.len() ==> (#[trigger] before[i]).0 != peer)
                    ==> after.authentications == before.push(
                    (peer, PeerAuthenticationsView::LegacyOnly(legacy)),
                )
            }
        }),
{
    let peer = A::peer_of(A::join(legacy.0.addresses)->0);
    let before = handler.authentications;
    assert forall|i: int| 0 <= i < before.len() && (#[trigger] before[i]).0 == peer implies lists(
        before,
        peer,
    ) && position(before, peer) == i by {
        lemma_position(before, i);
    }
}

/// Statements are handled one by one, in their order.
pub proof fn statements_are_handled_in_order<M: Data, A: Multiaddressed<M>>(
    handler: HandlerView,
    statements: Seq<Received>,
    last: Received,
)
    ensures
        handler.handle_all::<M, A>(Seq::empty()) == handler,
        handler.handle_all::<M, A>(statements.push(last)) == handler.handle_all::<M, A>(
            statements,
        ).handle::<M, A>(last),
{
    handler.lemma_handle_all_push::<M, A>(statements, last);
}

/// What a validator states of itself is accepted by another node of the session if and only if
/// ed25519 accepts the signature that it brought along, under the key at the index that it was
/// given, for the message about its address, that index and the session.
pub proof fn others_check_with_the_key_of_the_node<M: Data, A: Multiaddressed<M>>(
    handler: HandlerView,
    authority: SignedAuthorityView,
    authorities: Seq<Seq<u8>>,
    address: Seq<u8>,
)
    requires
        handler.own_peer_id != A::peer_of(address),
        authority.node_index < handler.authorities.len(),
    ensures
        ({
            let session_id = handler.session_id();
            let node_id = authority.node_index;
            let other = HandlerView::initial::<M, A>(
                Some(authority),
                authorities,
                session_id,
                address,
            );
            let message = (AuthDataView { address, node_id, session_id }).encoding();
            let legacy_message = (LegacyAuthDataView {
                addresses: A::split(address),
                node_id,
                session_id,
            }).encoding();
            &&& other.session_info.own() matches Some(
                PeerAuthenticationsView::Both(current, legacy),
            )
            &&& handler.accepts::<M, A>(Received::Current(current)) <==> ed25519_accepts(
                handler.authorities[node_id as int],
                message,
                authority.signature,
            )
            &&& A::join(A::split(address)) == Some(address) ==> (handler.accepts::<M, A>(
                Received::Legacy(legacy),
            ) <==> ed25519_accepts(
                handler.authorities[node_id as int],
                legacy_message,
                authority.legacy_signature,
            ))
        }),
{
}

/// After an update a validator has the index that it was given, makes both its statements under
/// that index, for the old session and about the new address, with the given signatures; another
/// node makes none. The keys and the identity of the own node are the new ones.
pub proof fn update_takes_on_what_is_given<M: Data, A: Multiaddressed<M>>(
    handler: HandlerView,
    authority: SignedAuthorityView,
    authorities: Seq<Seq<u8>>,
    address: Seq<u8>,
)
    ensures
        ({
            let after = handler.update::<M, A>(Some(authority), authorities, address);
            let session_id = handler.session_id();
            let node_id = authority.node_index;
            &&& after.index == Some(node_id)
            &&& after.session_info == SessionInfoView::OwnAuthentication(
                PeerAuthenticationsView::Both(
                    (AuthDataView { address, node_id, session_id }, authority.signature),
                    (
                        LegacyAuthDataView { addresses: A::split(address), node_id, session_id },
                        authority.legacy_signature,
                    ),
                ),
            )
            &&& after.own_peer_id == A::peer_of(address)
            &&& after.authorities == authorities
        }),
        ({
            let after = handler.update::<M, A>(None, authorities, address);
            &&& after.index is None
            &&& after.session_info == SessionInfoView::SessionId(handler.session_id())
            &&& after.own_peer_id == A::peer_of(address)
            &&& after.authorities == authorities
        }),
{
    let statements = stored(handler.authentications);
    HandlerView::initial::<M, A>(
        Some(authority),
        authorities,
        handler.session_id(),
        address,
    ).lemma_handle_all_alike::<M, A>(statements);
    HandlerView::initial::<M, A>(
        None,
        authorities,
        handler.session_id(),
        address,
    ).lemma_handle_all_alike::<M, A>(statements);
}

/// An update hears of the peers anew, in the order in which they are listed: with nobody listed the
/// result is a new handler, and one more peer at the end of the list adds what its statements do,
/// of two statements the legacy one first. What was known under which index before does not matter.
pub proof fn update_hears_of_the_peers_anew<M: Data, A: Multiaddressed<M>>(
    handler: HandlerView,
    entries: Entries,
    peer: Seq<u8>,
    current: AuthenticationView,
    legacy: LegacyAuthenticationView,
    authority: Option<SignedAuthorityView>,
    authorities: Seq<Seq<u8>>,
    address: Seq<u8>,
)
    ensures
        ({
            let none = HandlerView { authentications: Seq::empty(), ..handler };
            none.update::<M, A>(authority, authorities, address) == HandlerView::initial::<M, A>(
                authority,
                authorities,
                handler.session_id(),
                address,
            )
        }),
        ({
            let some = HandlerView { authentications: entries, ..handler };
            let with_current = HandlerView {
                authentications: entries.push((peer, PeerAuthenticationsView::NewOnly(current))),
                ..handler
            };
            let with_legacy = HandlerView {
                authentications: entries.push((peer, PeerAuthenticationsView::LegacyOnly(legacy))),
                ..handler
            };
            let with_both = HandlerView {
                authentications: entries.push((peer, PeerAuthenticationsView::Both(current, legacy))),
                ..handler
            };
            let updated = some.update::<M, A>(authority, authorities, address);
            &&& with_current.update::<M, A>(authority, authorities, address) == updated.handle::<M, A>(
                Received::Current(current),
            )
            &&& with_legacy.update::<M, A>(authority, authorities, address) == updated.handle::<M, A>(
                Received::Legacy(legacy),
            )
            &&& with_both.update::<M, A>(authority, authorities, address) == updated.handle::<M, A>(
                Received::Legacy(legacy),
            ).handle::<M, A>(Received::Current(current))
        }),
{
    let fresh = HandlerView::initial::<M, A>(
        authority,
        authorities,
        handler.session_id(),
        address,
    );
    let statements = stored(entries);
    let one = PeerAuthenticationsView::NewOnly(current);
    let two = PeerAuthenticationsView::LegacyOnly(legacy);
    let both = PeerAuthenticationsView::Both(current, legacy);
    assert(entries.push((peer, one)).drop_last() =~= entries);
    assert(entries.push((peer, two)).drop_last() =~= entries);
    assert(entries.push((peer, both)).drop_last() =~= entries);
    assert(statements + one.statements() =~= statements.push(Received::Current(current)));
    assert(statements + two.statements() =~= statements.push(Received::Legacy(legacy)));
    assert(statements + both.statements() =~= statements.push(Received::Legacy(legacy)).push(
        Received::Current(current),
    ));
    fresh.lemma_handle_all_push::<M, A>(statements, Received::Current(current));
    fresh.lemma_handle_all_push::<M, A>(statements, Received::Legacy(legacy));
    fresh.lemma_handle_all_push::<M, A>(
        statements.push(Received::Legacy(legacy)),
        Received::Current(current),
    );
}

/// Where a current statement is kept of a peer, the address to stay connected to is the one in that
/// statement, whatever a legacy statement beside it lists; only a peer of which no current statement
/// is kept is reached at the address that its legacy statement stands for.
pub proof fn current_statement_gives_the_address<M: Data, A: Multiaddressed<M>>(
    handler: HandlerView,
    i: int,
    current: AuthenticationView,
    legacy: LegacyAuthenticationView,
)
    requires
        forall|i: int, j: int|
            #![trigger handler.authentications[i], handler.authentications[j]]
            0 <= i < j < handler.authentications.len() ==> handler.authentications[i].0
                != handler.authentications[j].0,
        0 <= i < handler.authentications.len(),
    ensures
        ({
            let entries = handler.authentications;
            let (peer, kept) = entries[i];
            &&& keeps(entries, peer, Received::Current(current)) ==> kept.address::<M, A>() == Some(
                current.0.address,
            )
            &&& keeps(entries, peer, Received::Legacy(legacy)) && (forall|other: AuthenticationView|
                !#[trigger] keeps(entries, peer, Received::Current(other))) ==> kept.address::<M, A>()
                == A::join(legacy.0.addresses)
        }),
{
    let entries = handler.authentications;
    let (peer, kept) = entries[i];
    assert forall|statement: Received| #[trigger]
        keeps(entries, peer, statement) <==> kept.statements().contains(statement) by {
        if keeps(entries, peer, statement) {
            let k = choose|k: int|
                0 <= k < entries.len() && (#[trigger] entries[k]).0 == peer
                    && entries[k].1.statements().contains(statement);
            assert(entries[k].0 == entries[i].0);
        }
        if kept.statements().contains(statement) {
            assert(entries[i].0 == peer);
        }
    }
    match kept {
        PeerAuthenticationsView::NewOnly(own) => {
            assert(kept.statements()[0] == Received::Current(own));
            assert(keeps(entries, peer, Received::Current(own)));
        },
        PeerAuthenticationsView::LegacyOnly(_) => {},
        PeerAuthenticationsView::Both(own, _) => {
            assert(kept.statements()[1] == Received::Current(own));
            assert(keeps(entries, peer, Received::Current(own)));
        },
    }
}

/// A handler is verified if and only if every kept statement is one that ed25519 accepts under the
/// key at the index of its node, and every known index is one of an authority.
pub proof fn kept_statements_are_signed(handler: HandlerView)
    ensures
        handler.verified() <==> {
            let keys = handler.authorities;
            let good = |data: AuthDataView, signature: Seq<u8>|
                data.node_id < keys.len() && ed25519_accepts(
                    keys[data.node_id as int],
                    data.encoding(),
                    signature,
                );
            let legacy_good = |data: LegacyAuthDataView, signature: Seq<u8>|
                data.node_id < keys.len() && ed25519_accepts(
                    keys[data.node_id as int],
                    data.encoding(),
                    signature,
                );
            &&& forall|i: int|
                0 <= i < handler.authentications.len() ==> match (
                #[trigger] handler.authentications[i]).1 {
                    PeerAuthenticationsView::NewOnly((data, signature)) => good(data, signature),
                    PeerAuthenticationsView::LegacyOnly((legacy, signature)) => legacy_good(
                        legacy,
                        signature,
                    ),
                    PeerAuthenticationsView::Both((data, signature), (legacy, legacy_signature)) => good(
                        data,
                        signature,
                    ) && legacy_good(legacy, legacy_signature),
                }
            &&& forall|node_id: usize| #[trigger]
                handler.peers.contains_key(node_id) ==> node_id < handler.authorities.len()
        },
{
    if handler.verified() {
        assert forall|i: int| 0 <= i < handler.authentications.len() implies handler.signed(
            (#[trigger] handler.authentications[i]).1.statements()[0],
        ) && handler.signed(handler.authentications[i].1.statements().last()) by {
            let statements = handler.authentications[i].1.statements();
            assert(handler.signed(handler.authentications[i].1.statements()[0]));
            assert(handler.signed(handler.authentications[i].1.statements()[statements.len() - 1]));
        }
    }
}

/// A handler makes statements of itself just where it has an index, under that index and about the
/// own peer; no peer is listed twice, and every known peer is listed.
pub proof fn handlers_are_in_order<M: Data, A: Multiaddressed<M>>(handler: HandlerView)
    requires
        handler.wf::<M, A>(),
    ensures
        match handler.session_info {
            SessionInfoView::SessionId(_) => handler.index is None,
            SessionInfoView::OwnAuthentication(own) => {
                &&& own matches PeerAuthenticationsView::Both((data, _), (legacy, _))
                &&& handler.index == Some(data.node_id)
                &&& A::peer_of(data.address) == handler.own_peer_id
                &&& legacy.addresses == A::split(data.address)
                &&& legacy.node_id == data.node_id
                &&& legacy.session_id == data.session_id
            },
        },
        handler.authorities.len() <= usize::MAX,
        forall|i: int, j: int|
            #![trigger handler.authentications[i], handler.authentications[j]]
            0 <= i < j < handler.authentications.len() ==> handler.authentications[i].0
                != handler.authentications[j].0,
        forall|node_id: usize| #[trigger]
            handler.peers.contains_key(node_id) ==> exists|k: int|
                0 <= k < handler.authentications.len() && (#[trigger] handler.authentications[k]).0
                    == handler.peers[node_id],
{
    let entries = handler.authentications;
    assert forall|node_id: usize| #[trigger] handler.peers.contains_key(node_id) implies exists|k: int|
        0 <= k < entries.len() && (#[trigger] entries[k]).0 == handler.peers[node_id] by {
        let k = position(entries, handler.peers[node_id]);
        assert(entries[k].0 == handler.peers[node_id]);
    }
}

/// Every kept statement is for the session, under the index of a known node, about the peer that it
/// is listed under, which is not the own one, and has an encoding.
pub proof fn kept_statements_are_in_order<M: Data, A: Multiaddressed<M>>(
    handler: HandlerView,
    i: int,
)
    requires
        handler.wf::<M, A>(),
        0 <= i < handler.authentications.len(),
    ensures
        handler.authentications[i].0 != handler.own_peer_id,
        match handler.authentications[i].1 {
            PeerAuthenticationsView::LegacyOnly(_) => true,
            PeerAuthenticationsView::NewOnly((data, _)) => {
                &&& data.session_id == handler.session_id()
                &&& A::peer_of(data.address) == handler.authentications[i].0
                &&& handler.peers.contains_key(data.node_id)
            },
            PeerAuthenticationsView::Both((data, _), _) => {
                &&& data.session_id == handler.session_id()
                &&& A::peer_of(data.address) == handler.authentications[i].0
                &&& handler.peers.contains_key(data.node_id)
            },
        },
        match handler.authentications[i].1 {
            PeerAuthenticationsView::NewOnly(_) => true,
            PeerAuthenticationsView::LegacyOnly((legacy, _)) => {
                &&& legacy.session_id == handler.session_id()
                &&& A::join(legacy.addresses) is Some
                &&& A::peer_of(A::join(legacy.addresses)->0) == handler.authentications[i].0
                &&& handler.peers.contains_key(legacy.node_id)
                &&& legacy.addresses.len() <= u32::MAX
            },
            PeerAuthenticationsView::Both(_, (legacy, _)) => {
                &&& legacy.session_id == handler.session_id()
                &&& A::join(legacy.addresses) is Some
                &&& A::peer_of(A::join(legacy.addresses)->0) == handler.authentications[i].0
                &&& handler.peers.contains_key(legacy.node_id)
                &&& legacy.addresses.len() <= u32::MAX
            },
        },
{
    let (peer, kept) = handler.authentications[i];
    let n = kept.statements().len();
    assert(handler.holds::<M, A>(peer, handler.authentications[i].1.statements()[0]));
    assert(handler.holds::<M, A>(peer, handler.authentications[i].1.statements()[n - 1]));
}

/// A handler is in order as soon as it makes statements of itself just where it has an index, under
/// that index and about the own peer; no peer is listed twice; every kept statement is for the
/// session, under the index of a known node, about the peer that it is listed under, which is not
/// the own one, and has an encoding; and of every known peer something is kept. No more is asked.
pub proof fn no_more_is_asked_of_handlers<M: Data, A: Multiaddressed<M>>(handler: HandlerView)
    requires
        match handler.session_info {
            SessionInfoView::SessionId(_) => handler.index is None,
            SessionInfoView::OwnAuthentication(own) => {
                &&& own matches PeerAuthenticationsView::Both((data, _), (legacy, _))
                &&& handler.index == Some(data.node_id)
                &&& A::peer_of(data.address) == handler.own_peer_id
                &&& legacy.addresses == A::split(data.address)
                &&& legacy.node_id == data.node_id
                &&& legacy.session_id == data.session_id
            },
        },
        handler.authorities.len() <= usize::MAX,
        forall|i: int, j: int|
            #![trigger handler.authentications[i], handler.authentications[j]]
            0 <= i < j < handler.authentications.len() ==> handler.authentications[i].0
                != handler.authentications[j].0,
        forall|i: int|
            0 <= i < handler.authentications.len() ==> (#[trigger] handler.authentications[i]).0
                != handler.own_peer_id,
        forall|i: int|
            0 <= i < handler.authentications.len() ==> match (
            #[trigger] handler.authentications[i]).1 {
                PeerAuthenticationsView::LegacyOnly(_) => true,
                PeerAuthenticationsView::NewOnly((data, _)) => {
                    &&& data.session_id == handler.session_id()
                    &&& A::peer_of(data.address) == handler.authentications[i].0
                    &&& handler.peers.contains_key(data.node_id)
                },
                PeerAuthenticationsView::Both((data, _), _) => {
                    &&& data.session_id == handler.session_id()
                    &&& A::peer_of(data.address) == handler.authentications[i].0
                    &&& handler.peers.contains_key(data.node_id)
                },
            },
        forall|i: int|
            0 <= i < handler.authentications.len() ==> match (
            #[trigger] handler.authentications[i]).1 {
                PeerAuthenticationsView::NewOnly(_) => true,
                PeerAuthenticationsView::LegacyOnly((legacy, _)) => {
                    &&& legacy.session_id == handler.session_id()
                    &&& A::join(legacy.addresses) is Some
                    &&& A::peer_of(A::join(legacy.addresses)->0) == handler.authentications[i].0
                    &&& handler.peers.contains_key(legacy.node_id)
                    &&& legacy.addresses.len() <= u32::MAX
                },
                PeerAuthenticationsView::Both(_, (legacy, _)) => {
                    &&& legacy.session_id == handler.session_id()
                    &&& A::join(legacy.addresses) is Some
                    &&& A::peer_of(A::join(legacy.addresses)->0) == handler.authentications[i].0
                    &&& handler.peers.contains_key(legacy.node_id)
                    &&& legacy.addresses.len() <= u32::MAX
                },
            },
        forall|node_id: usize| #[trigger]
            handler.peers.contains_key(node_id) ==> exists|k: int|
                0 <= k < handler.authentications.len() && (#[trigger] handler.authentications[k]).0
                    == handler.peers[node_id],
    ensures
        handler.wf::<M, A>(),
{
    let entries = handler.authentications;
    assert forall|i: int, j: int|
        0 <= i < entries.len() && 0 <= j < entries[i].1.statements().len() implies handler.holds::<
        M,
        A,
    >(entries[i].0, #[trigger] entries[i].1.statements()[j]) by {
        let entry = entries[i];
    }
    assert forall|node_id: usize| #[trigger] handler.peers.contains_key(node_id) implies lists(
        entries,
        handler.peers[node_id],
    ) by {
        let k = choose|k: int|
            0 <= k < entries.len() && (#[trigger] entries[k]).0 == handler.peers[node_id];
        assert(entries[k].0 == handler.peers[node_id]);
    }
}

/// What holds of the model of a handler is what holds of the handler.
pub proof fn handlers_are_as_their_models<M: Data, A: Multiaddressed<M>>(handler: Handler<M, A>)
    ensures
        handler.wf() <==> handler@.wf::<M, A>(),
{
}

} // verus!
