//! Laws on statements, known nodes and missing ones.

use crate::authentication::{legacy_form, PeerAuthenticationsView, Received};
use crate::network::{Data, Multiaddressed};
use crate::state::{
    keep, lemma_keep, lemma_position, lists, position, Entries, HandlerView, SignedAuthorityView,
};
use vstd::prelude::*;

verus! {

/// A statement for another session, one that is not signed by the authority that it names, and one
/// about the own node or about no address, changes nothing.
pub proof fn unsound_statements_change_nothing<M: Data, A: Multiaddressed<M>>(
    handler: HandlerView,
    received: Received,
)
    requires
        ({
            ||| received.session_id() != handler.session_id()
            ||| !handler.signed(received)
            ||| received.is_about::<M, A>(handler.own_peer_id)
            ||| received.address::<M, A>() is None
        }),
    ensures
        !handler.accepts::<M, A>(received),
        handler.handle::<M, A>(received) == handler,
{
}

/// Nothing but sound statements counts: what is accepted is for this session, signed by the
/// authority that it names, and about another peer, which is then known under that index.
pub proof fn accepted_statements_are_sound<M: Data, A: Multiaddressed<M>>(
    handler: HandlerView,
    received: Received,
)
    requires
        handler.wf::<M, A>(),
        handler.accepts::<M, A>(received),
    ensures
        received.session_id() == handler.session_id(),
        received.node_id() < handler.authorities.len(),
        handler.signed(received),
        !received.is_about::<M, A>(handler.own_peer_id),
        ({
            let after = handler.handle::<M, A>(received);
            &&& after.peers.contains_key(received.node_id())
            &&& received.is_about::<M, A>(after.peers[received.node_id()])
            &&& keeps(after.authentications, after.peers[received.node_id()], received)
        }),
{
    let after = handler.handle::<M, A>(received);
    let peer = after.peers[received.node_id()];
    lemma_keeps_kept(handler.authentications, peer, received);
}

/// Whether a statement is kept under a peer.
pub open spec fn keeps(entries: Entries, peer: Seq<u8>, statement: Received) -> bool {
    exists|i: int|
        0 <= i < entries.len() && (#[trigger] entries[i]).0 == peer && entries[i].1.statements().contains(
            statement,
        )
}

/// A statement is kept where it is put.
proof fn lemma_keeps_kept(entries: Entries, peer: Seq<u8>, received: Received)
    ensures
        keeps(keep(entries, peer, received), peer, received),
{
    let after = keep(entries, peer, received);
    let i = if lists(entries, peer) {
        position(entries, peer)
    } else {
        entries.len() as int
    };
    let statements = after[i].1.statements();
    assert(after[i].0 == peer);
    assert(statements[0] == received || statements[statements.len() - 1] == received);
}

/// A statement takes the place of none but the one of its kind of the same peer.
pub proof fn statement_replaces_only_its_like<M: Data, A: Multiaddressed<M>>(
    handler: HandlerView,
    received: Received,
    peer: Seq<u8>,
    kept: Received,
)
    requires
        handler.wf::<M, A>(),
        keeps(handler.authentications, peer, kept),
        !received.is_about::<M, A>(peer) || (received is Current) != (kept is Current),
    ensures
        keeps(handler.handle::<M, A>(received).authentications, peer, kept),
{
    let before = handler.authentications;
    let after = handler.handle::<M, A>(received).authentications;
    let i = choose|i: int|
        0 <= i < before.len() && (#[trigger] before[i]).0 == peer && before[i].1.statements().contains(
            kept,
        );
    if handler.accepts::<M, A>(received) {
        let about = A::peer_of(received.address::<M, A>()->0);
        if about == peer {
            lemma_position(before, i);
            let old_statements = before[i].1.statements();
            let statements = after[i].1.statements();
            assert(kept == old_statements[0] || kept == old_statements[old_statements.len() - 1]);
            assert(statements[0] == kept || statements[1] == kept);
        } else {
            assert(after[i] == before[i]);
        }
    }
    assert(after[i].0 == peer);
}

/// The same statement once more changes nothing.
pub proof fn repeated_statement_changes_nothing<M: Data, A: Multiaddressed<M>>(
    handler: HandlerView,
    received: Received,
)
    requires
        handler.wf::<M, A>(),
    ensures
        handler.handle::<M, A>(received).handle::<M, A>(received) == handler.handle::<M, A>(received),
{
    if handler.accepts::<M, A>(received) {
        let peer = A::peer_of(received.address::<M, A>()->0);
        let once = handler.handle::<M, A>(received);
        let twice = once.handle::<M, A>(received);
        lemma_keep(handler.authentications, peer, received);
        let i = position(once.authentications, peer);
        assert(lists(once.authentications, peer));
        let p = if lists(handler.authentications, peer) {
            position(handler.authentications, peer)
        } else {
            handler.authentications.len() as int
        };
        assert(once.authentications[p].0 == peer);
        assert(i == p);
        assert(twice.authentications =~= once.authentications);
        assert(twice.peers =~= once.peers);
    }
}

/// A current and a legacy statement about one peer have the same effect in either order.
pub proof fn both_kinds_in_either_order<M: Data, A: Multiaddressed<M>>(
    handler: HandlerView,
    current: Received,
    legacy: Received,
    peer: Seq<u8>,
)
    requires
        handler.wf::<M, A>(),
        current is Current,
        legacy is Legacy,
        current.is_about::<M, A>(peer),
        legacy.is_about::<M, A>(peer),
    ensures
        handler.handle::<M, A>(current).handle::<M, A>(legacy) == handler.handle::<M, A>(
            legacy,
        ).handle::<M, A>(current),
{
    if handler.accepts::<M, A>(current) && handler.accepts::<M, A>(legacy) {
        let a1 = handler.handle::<M, A>(current);
        let b1 = handler.handle::<M, A>(legacy);
        let a2 = a1.handle::<M, A>(legacy);
        let b2 = b1.handle::<M, A>(current);
        lemma_keep(handler.authentications, peer, current);
        lemma_keep(handler.authentications, peer, legacy);
        let p = if lists(handler.authentications, peer) {
            position(handler.authentications, peer)
        } else {
            handler.authentications.len() as int
        };
        assert(a1.authentications[p].0 == peer);
        assert(b1.authentications[p].0 == peer);
        lemma_position(a1.authentications, p);
        lemma_position(b1.authentications, p);
        assert(a2.authentications =~= b2.authentications);
        assert(a2.peers =~= b2.peers);
    }
}

/// A handler never takes its own node for a peer: it is under no index, and nothing is kept of it.
pub proof fn own_node_is_no_peer<M: Data, A: Multiaddressed<M>>(handler: HandlerView)
    requires
        handler.wf::<M, A>(),
    ensures
        !lists(handler.authentications, handler.own_peer_id),
        forall|node_id: usize| #[trigger]
            handler.peers.contains_key(node_id) ==> handler.peers[node_id] != handler.own_peer_id,
{
    if lists(handler.authentications, handler.own_peer_id) {
        let i = position(handler.authentications, handler.own_peer_id);
        assert(handler.holds::<M, A>(
            handler.authentications[i].0,
            handler.authentications[i].1.statements()[0],
        ));
    }
}

/// A node is a validator if and only if it has statements of its own to make; these are for the
/// session and under the index of the node, and about its own address.
pub proof fn validators_make_statements<M: Data, A: Multiaddressed<M>>(handler: HandlerView)
    requires
        handler.wf::<M, A>(),
    ensures
        handler.index is Some <==> handler.session_info.own() is Some,
        handler.session_info.own() matches Some(own) ==> {
            &&& own matches PeerAuthenticationsView::Both((data, _), (legacy, _))
            &&& handler.index == Some(data.node_id)
            &&& data.session_id == handler.session_id()
            &&& A::peer_of(data.address) == handler.own_peer_id
            &&& legacy == legacy_form::<M, A>(data)
        },
{
}

/// A handler ignores the current statement of its own node. It ignores the legacy one too, if the
/// multiaddresses of the own address are not taken for an address of another peer.
pub proof fn own_statements_are_ignored<M: Data, A: Multiaddressed<M>>(handler: HandlerView)
    requires
        handler.wf::<M, A>(),
        handler.session_info.own() is Some,
    ensures
        handler.session_info.own() matches Some(PeerAuthenticationsView::Both(current, legacy)) && {
            &&& !handler.accepts::<M, A>(Received::Current(current))
            &&& handler.handle::<M, A>(Received::Current(current)) == handler
            &&& (A::join(A::split(current.0.address)) matches Some(address) ==> A::peer_of(address)
                == A::peer_of(current.0.address)) ==> {
                &&& !handler.accepts::<M, A>(Received::Legacy(legacy))
                &&& handler.handle::<M, A>(Received::Legacy(legacy)) == handler
            }
        },
{
}

/// The current statement of another node of the session counts if it is well signed: afterwards
/// the node is known, and no longer missing.
pub proof fn current_statement_of_another_counts<M: Data, A: Multiaddressed<M>>(
    handler: HandlerView,
    other: HandlerView,
)
    requires
        handler.wf::<M, A>(),
        other.wf::<M, A>(),
        handler.session_id() == other.session_id(),
        handler.own_peer_id != other.own_peer_id,
        other.session_info.own() is Some,
        handler.signed(other.session_info.own()->0.statements()[1]),
    ensures
        ({
            let statement = other.session_info.own()->0.statements()[1];
            let after = handler.handle::<M, A>(statement);
            &&& statement is Current
            &&& handler.accepts::<M, A>(statement)
            &&& after.peers.contains_key(other.index->0)
            &&& after.peers[other.index->0] == other.own_peer_id
            &&& !after.missing_nodes().contains(other.index->0)
            &&& keeps(after.authentications, other.own_peer_id, statement)
        }),
{
    let statement = other.session_info.own()->0.statements()[1];
    let after = handler.handle::<M, A>(statement);
    lemma_keeps_kept(handler.authentications, other.own_peer_id, statement);
    missing_nodes_are_the_unknown_others(after);
}

/// The legacy statement of another node of the session counts if it is well signed, and if the
/// multiaddresses in it are taken for an address of that node: afterwards the node is known, and no
/// longer missing.
pub proof fn legacy_statement_of_another_counts<M: Data, A: Multiaddressed<M>>(
    handler: HandlerView,
    other: HandlerView,
)
    requires
        handler.wf::<M, A>(),
        other.wf::<M, A>(),
        handler.session_id() == other.session_id(),
        handler.own_peer_id != other.own_peer_id,
        other.session_info.own() is Some,
        handler.signed(other.session_info.own()->0.statements()[0]),
        other.session_info.own()->0.statements()[0].is_about::<M, A>(other.own_peer_id),
    ensures
        ({
            let statement = other.session_info.own()->0.statements()[0];
            let after = handler.handle::<M, A>(statement);
            &&& statement is Legacy
            &&& handler.accepts::<M, A>(statement)
            &&& after.peers.contains_key(other.index->0)
            &&& after.peers[other.index->0] == other.own_peer_id
            &&& !after.missing_nodes().contains(other.index->0)
            &&& keeps(after.authentications, other.own_peer_id, statement)
        }),
{
    let statement = other.session_info.own()->0.statements()[0];
    let after = handler.handle::<M, A>(statement);
    lemma_keeps_kept(handler.authentications, other.own_peer_id, statement);
    missing_nodes_are_the_unknown_others(after);
}

/// What the missing ones are among the first `n` nodes.
proof fn lemma_missing_below(handler: HandlerView, n: int)
    requires
        handler.authorities.len() <= usize::MAX,
        0 <= n <= handler.authorities.len(),
    ensures
        ({
            let missing = handler.nodes().take(n).filter(|node_id: usize| handler.is_missing(node_id));
            &&& forall|i: int|
                0 <= i < missing.len() ==> #[trigger] missing[i] < n && handler.is_missing(missing[i])
            &&& forall|node_id: usize|
                node_id < n && handler.is_missing(node_id) ==> #[trigger] missing.contains(node_id)
            &&& forall|i: int, j: int|
                0 <= i < j < missing.len() ==> #[trigger] missing[i] < #[trigger] missing[j]
        }),
    decreases n,
{
    reveal(Seq::filter);
    let is_missing = |node_id: usize| handler.is_missing(node_id);
    if n > 0 {
        lemma_missing_below(handler, n - 1);
        let rest = handler.nodes().take(n - 1).filter(is_missing);
        let missing = handler.nodes().take(n).filter(is_missing);
        assert(handler.nodes().take(n).drop_last() =~= handler.nodes().take(n - 1));
        assert(handler.nodes().take(n).last() == (n - 1) as usize);
        assert forall|node_id: usize|
            node_id < n && handler.is_missing(node_id) implies #[trigger] missing.contains(node_id) by {
            if node_id < n - 1 {
                assert(rest.contains(node_id));
                let i = choose|i: int| 0 <= i < rest.len() && rest[i] == node_id;
                assert(missing[i] == node_id);
            } else {
                assert(missing[missing.len() - 1] == node_id);
            }
        }
    }
}

/// Every node of the session is the own one, a known one or a missing one; the missing ones are
/// listed in ascending order, each once.
pub proof fn missing_nodes_are_the_unknown_others(handler: HandlerView)
    requires
        handler.authorities.len() <= usize::MAX,
    ensures
        forall|node_id: usize| #[trigger]
            handler.missing_nodes().contains(node_id) <==> node_id < handler.authorities.len()
                && handler.index != Some(node_id) && !handler.peers.contains_key(node_id),
        forall|i: int, j: int|
            0 <= i < j < handler.missing_nodes().len() ==> #[trigger] handler.missing_nodes()[i]
                < #[trigger] handler.missing_nodes()[j],
{
    lemma_missing_below(handler, handler.authorities.len() as int);
    assert(handler.nodes().take(handler.authorities.len() as int) =~= handler.nodes());
}

/// At the start all the other nodes are missing.
pub proof fn all_others_are_missing_at_first<M: Data, A: Multiaddressed<M>>(
    authority: Option<SignedAuthorityView>,
    authorities: Seq<Seq<u8>>,
    session_id: u32,
    address: Seq<u8>,
    node_id: usize,
)
    requires
        authorities.len() <= usize::MAX,
    ensures
        ({
            let handler = HandlerView::initial::<M, A>(authority, authorities, session_id, address);
            handler.missing_nodes().contains(node_id) <==> node_id < authorities.len()
                && handler.index != Some(node_id)
        }),
{
    let handler = HandlerView::initial::<M, A>(authority, authorities, session_id, address);
    missing_nodes_are_the_unknown_others(handler);
}

/// An accepted statement takes the node that made it off the missing ones, and no other; and no
/// node is forgotten over a statement.
pub proof fn statement_takes_its_node_off<M: Data, A: Multiaddressed<M>>(
    handler: HandlerView,
    received: Received,
    node_id: usize,
)
    requires
        handler.wf::<M, A>(),
    ensures
        ({
            let after = handler.handle::<M, A>(received);
            &&& after.missing_nodes().contains(node_id) <==> handler.missing_nodes().contains(node_id)
                && !(handler.accepts::<M, A>(received) && node_id == received.node_id())
            &&& handler.peers.contains_key(node_id) ==> after.peers.contains_key(node_id)
        }),
{
    missing_nodes_are_the_unknown_others(handler);
    missing_nodes_are_the_unknown_others(handler.handle::<M, A>(received));
}

/// What is kept of any two peers leads to different peers, and never to the own node: the
/// addresses to stay connected to are as many peers.
pub proof fn addresses_lead_to_different_peers<M: Data, A: Multiaddressed<M>>(
    handler: HandlerView,
    i: int,
    j: int,
)
    requires
        handler.wf::<M, A>(),
        0 <= i < handler.authentications.len(),
        0 <= j < handler.authentications.len(),
    ensures
        handler.authentications[i].1.address::<M, A>() matches Some(one)
            && handler.authentications[j].1.address::<M, A>() matches Some(another) && {
            &&& A::peer_of(one) == handler.authentications[i].0
            &&& i != j ==> A::peer_of(one) != A::peer_of(another)
            &&& A::peer_of(one) != handler.own_peer_id
        },
{
    let a = handler.authentications[i].1.statements();
    let b = handler.authentications[j].1.statements();
    assert(handler.holds::<M, A>(
        handler.authentications[i].0,
        handler.authentications[i].1.statements()[a.len() - 1],
    ));
    assert(handler.holds::<M, A>(
        handler.authentications[j].0,
        handler.authentications[j].1.statements()[b.len() - 1],
    ));
}

} // verus!
