//! Laws on updates.

use crate::authentication::{PeerAuthenticationsView, Received};
use crate::laws::handling::keeps;
use crate::network::{Data, Multiaddressed};
use crate::state::{
    distinct, lists, own_statements, position, stored, Entries, HandlerView, SignedAuthorityView,
};
use vstd::prelude::*;

verus! {

/// Whether every kept statement is about the peer that it is listed under.
pub open spec fn sorted_by_peer<M: Data, A: Multiaddressed<M>>(entries: Entries) -> bool {
    forall|i: int, j: int|
        0 <= i < entries.len() && 0 <= j < entries[i].1.statements().len() ==> (
        #[trigger] entries[i].1.statements()[j]).is_about::<M, A>(entries[i].0)
}

/// What is left of the kept statements when each is checked once more.
pub open spec fn survivors<M: Data, A: Multiaddressed<M>>(
    handler: HandlerView,
    entries: Entries,
) -> Entries {
    entries.filter_map(
        |entry: (Seq<u8>, PeerAuthenticationsView)| handler.recheck_entry::<M, A>(entry),
    )
}

/// What is left of the first entries, and the last entry.
proof fn lemma_survivors_last<M: Data, A: Multiaddressed<M>>(handler: HandlerView, entries: Entries)
    requires
        entries.len() > 0,
    ensures
        survivors::<M, A>(handler, entries) == match handler.recheck_entry::<M, A>(entries.last()) {
            Some(entry) => survivors::<M, A>(handler, entries.drop_last()).push(entry),
            None => survivors::<M, A>(handler, entries.drop_last()),
        },
{
    reveal(Seq::filter_map);
    let rest = survivors::<M, A>(handler, entries.drop_last());
    match handler.recheck_entry::<M, A>(entries.last()) {
        Some(entry) => {
            assert(rest + seq![entry] =~= rest.push(entry));
        },
        None => {},
    }
}

/// Only peers that were listed are left.
proof fn lemma_survivors_lists<M: Data, A: Multiaddressed<M>>(
    handler: HandlerView,
    entries: Entries,
    peer: Seq<u8>,
)
    requires
        lists(survivors::<M, A>(handler, entries), peer),
    ensures
        lists(entries, peer),
    decreases entries.len(),
{
    if entries.len() == 0 {
        reveal(Seq::filter_map);
    } else {
        lemma_survivors_last::<M, A>(handler, entries);
        let after = survivors::<M, A>(handler, entries);
        let rest = survivors::<M, A>(handler, entries.drop_last());
        let i = position(after, peer);
        if i < rest.len() {
            assert(rest[i].0 == peer);
            lemma_survivors_lists::<M, A>(handler, entries.drop_last(), peer);
            let k = position(entries.drop_last(), peer);
            assert(entries[k].0 == peer);
        } else {
            assert(entries[entries.len() - 1].0 == peer);
        }
    }
}

/// Handling the kept statements once more leaves exactly those that still count.
proof fn lemma_replay<M: Data, A: Multiaddressed<M>>(fresh: HandlerView, entries: Entries)
    requires
        fresh.authentications == Entries::empty(),
        distinct(entries),
        sorted_by_peer::<M, A>(entries),
    ensures
        fresh.handle_all::<M, A>(stored(entries)).authentications == survivors::<M, A>(fresh, entries),
    decreases entries.len(),
{
    if entries.len() == 0 {
        reveal(Seq::filter_map);
    } else {
        let first = entries.drop_last();
        let peer = entries.last().0;
        let statements = entries.last().1.statements();
        assert forall|i: int, j: int|
            0 <= i < first.len() && 0 <= j < first[i].1.statements().len() implies (
        #[trigger] first[i].1.statements()[j]).is_about::<M, A>(first[i].0) by {
            assert(entries[i].1.statements()[j].is_about::<M, A>(entries[i].0));
        }
        lemma_replay::<M, A>(fresh, first);
        lemma_survivors_last::<M, A>(fresh, entries);
        let before = fresh.handle_all::<M, A>(stored(first));
        fresh.lemma_handle_all_alike::<M, A>(stored(first));
        let rest = survivors::<M, A>(fresh, first);
        assert(!lists(rest, peer)) by {
            if lists(rest, peer) {
                lemma_survivors_lists::<M, A>(fresh, first, peer);
                let k = position(first, peer);
                assert(entries[k].0 == entries[entries.len() - 1].0);
            }
        }
        assert(entries[entries.len() - 1].1.statements()[0].is_about::<M, A>(peer));
        fresh.lemma_handle_all_push::<M, A>(stored(first), statements[0]);
        let once = before.handle::<M, A>(statements[0]);
        match entries.last().1 {
            PeerAuthenticationsView::Both(current, legacy) => {
                assert(entries[entries.len() - 1].1.statements()[1].is_about::<M, A>(peer));
                assert(stored(entries) =~= stored(first).push(statements[0]).push(statements[1]));
                fresh.lemma_handle_all_push::<M, A>(
                    stored(first).push(statements[0]),
                    statements[1],
                );
                if fresh.accepts::<M, A>(statements[0]) {
                    assert(once.authentications[rest.len() as int].0 == peer);
                    assert(lists(once.authentications, peer));
                    let k = position(once.authentications, peer);
                    assert(k == rest.len()) by {
                        if k < rest.len() {
                            assert(rest[k].0 == peer);
                        }
                    }
                }
                assert(fresh.handle_all::<M, A>(stored(entries)).authentications =~= survivors::<M, A>(
                    fresh,
                    entries,
                ));
            },
            _ => {
                assert(stored(entries) =~= stored(first).push(statements[0]));
            },
        }
    }
}

/// A statement is left under a peer if it was kept there and still counts.
proof fn lemma_survivors_keeps<M: Data, A: Multiaddressed<M>>(
    handler: HandlerView,
    entries: Entries,
    peer: Seq<u8>,
    statement: Received,
)
    ensures
        keeps(survivors::<M, A>(handler, entries), peer, statement) <==> keeps(entries, peer, statement)
            && handler.accepts::<M, A>(statement),
    decreases entries.len(),
{
    if entries.len() == 0 {
        reveal(Seq::filter_map);
    } else {
        let first = entries.drop_last();
        let last = entries.last();
        lemma_survivors_keeps::<M, A>(handler, first, peer, statement);
        lemma_survivors_last::<M, A>(handler, entries);
        let rest = survivors::<M, A>(handler, first);
        let after = survivors::<M, A>(handler, entries);
        assert(keeps(entries, peer, statement) <==> keeps(first, peer, statement) || (last.0 == peer
            && last.1.statements().contains(statement))) by {
            lemma_keeps_push(first, last, peer, statement);
            assert(first.push(last) =~= entries);
        }
        match handler.recheck_entry::<M, A>(last) {
            Some(entry) => {
                lemma_keeps_push(rest, entry, peer, statement);
                lemma_recheck_contains::<M, A>(handler, last.1, statement);
            },
            None => {
                lemma_recheck_contains::<M, A>(handler, last.1, statement);
            },
        }
    }
}

/// What is kept in a list with one more entry.
proof fn lemma_keeps_push(
    entries: Entries,
    last: (Seq<u8>, PeerAuthenticationsView),
    peer: Seq<u8>,
    statement: Received,
)
    ensures
        keeps(entries.push(last), peer, statement) <==> keeps(entries, peer, statement) || (last.0
            == peer && last.1.statements().contains(statement)),
{
    let all = entries.push(last);
    if keeps(entries, peer, statement) {
        let i = choose|i: int|
            0 <= i < entries.len() && (#[trigger] entries[i]).0 == peer
                && entries[i].1.statements().contains(statement);
        assert(all[i] == entries[i]);
    }
    if last.0 == peer && last.1.statements().contains(statement) {
        assert(all[entries.len() as int] == last);
    }
    if keeps(all, peer, statement) {
        let i = choose|i: int|
            0 <= i < all.len() && (#[trigger] all[i]).0 == peer && all[i].1.statements().contains(
                statement,
            );
        if i < entries.len() {
            assert(entries[i] == all[i]);
        }
    }
}

/// Checking the statements kept of a peer leaves those that count.
proof fn lemma_recheck_contains<M: Data, A: Multiaddressed<M>>(
    handler: HandlerView,
    kept: PeerAuthenticationsView,
    statement: Received,
)
    ensures
        (handler.recheck::<M, A>(kept) matches Some(left) && left.statements().contains(statement))
            <==> kept.statements().contains(statement) && handler.accepts::<M, A>(statement),
{
    let accepts = |received: Received| handler.accepts::<M, A>(received);
    lemma_recheck_filters::<M, A>(handler, kept);
    let filtered = kept.statements().filter(accepts);
    broadcast use vstd::seq_lib::group_filter_ensures;
    if kept.statements().contains(statement) && handler.accepts::<M, A>(statement) {
        let i = choose|i: int|
            0 <= i < kept.statements().len() && kept.statements()[i] == statement;
        assert(filtered.contains(kept.statements()[i]));
    }
    if filtered.contains(statement) {
        kept.statements().lemma_filter_contains_rev(accepts, statement);
        let i = choose|i: int| 0 <= i < filtered.len() && filtered[i] == statement;
        assert(accepts(filtered[i]));
    }
}

/// Checking the statements kept of a peer leaves those that count, in their order.
proof fn lemma_recheck_filters<M: Data, A: Multiaddressed<M>>(
    handler: HandlerView,
    kept: PeerAuthenticationsView,
)
    ensures
        kept.statements().filter(|received: Received| handler.accepts::<M, A>(received)) == match handler.recheck::<M, A>(kept) {
            Some(left) => left.statements(),
            None => Seq::empty(),
        },
{
    reveal_with_fuel(Seq::filter, 3);
    let accepts = |received: Received| handler.accepts::<M, A>(received);
    let statements = kept.statements();
    let filtered = statements.filter(accepts);
    let expected = match handler.recheck::<M, A>(kept) {
        Some(left) => left.statements(),
        None => Seq::empty(),
    };
    assert(filtered =~= expected);
}

/// A handler in order has its statements sorted by peer.
proof fn lemma_wf_sorted<M: Data, A: Multiaddressed<M>>(handler: HandlerView)
    requires
        handler.wf::<M, A>(),
    ensures
        sorted_by_peer::<M, A>(handler.authentications),
{
    assert forall|i: int, j: int|
        0 <= i < handler.authentications.len() && 0 <= j
            < handler.authentications[i].1.statements().len() implies (
    #[trigger] handler.authentications[i].1.statements()[j]).is_about::<M, A>(
        handler.authentications[i].0,
    ) by {
        assert(handler.holds::<M, A>(
            handler.authentications[i].0,
            handler.authentications[i].1.statements()[j],
        ));
    }
}

/// An update starts anew: the session stays, the own statements are made again from the new
/// signatures and the new address, and the keys are the new ones.
pub proof fn update_regenerates_own_statements<M: Data, A: Multiaddressed<M>>(
    handler: HandlerView,
    authority: Option<SignedAuthorityView>,
    authorities: Seq<Seq<u8>>,
    address: Seq<u8>,
)
    ensures
        ({
            let after = handler.update::<M, A>(authority, authorities, address);
            &&& after.session_id() == handler.session_id()
            &&& after.session_info.own() == match authority {
                Some(authority) => Some(
                    own_statements::<M, A>(authority, handler.session_id(), address),
                ),
                None => None,
            }
            &&& after.index is Some == authority is Some
            &&& after.own_peer_id == A::peer_of(address)
            &&& after.authorities == authorities
        }),
{
    let fresh = HandlerView::initial::<M, A>(
        authority,
        authorities,
        handler.session_id(),
        address,
    );
    fresh.lemma_handle_all_alike::<M, A>(stored(handler.authentications));
}

/// An update rechecks all the kept statements and purges the invalid ones: a statement is kept
/// under a peer afterwards if and only if it was before and the updated handler accepts it. The
/// peers that are left stay in their order.
pub proof fn update_purges_what_no_longer_counts<M: Data, A: Multiaddressed<M>>(
    handler: HandlerView,
    authority: Option<SignedAuthorityView>,
    authorities: Seq<Seq<u8>>,
    address: Seq<u8>,
)
    requires
        handler.wf::<M, A>(),
    ensures
        ({
            let after = handler.update::<M, A>(authority, authorities, address);
            &&& after.authentications == survivors::<M, A>(after, handler.authentications)
            &&& forall|peer: Seq<u8>, statement: Received| #[trigger]
                keeps(after.authentications, peer, statement) <==> keeps(
                    handler.authentications,
                    peer,
                    statement,
                ) && after.accepts::<M, A>(statement)
        }),
{
    let fresh = HandlerView::initial::<M, A>(
        authority,
        authorities,
        handler.session_id(),
        address,
    );
    let after = handler.update::<M, A>(authority, authorities, address);
    lemma_wf_sorted::<M, A>(handler);
    lemma_replay::<M, A>(fresh, handler.authentications);
    fresh.lemma_handle_all_alike::<M, A>(stored(handler.authentications));
    lemma_survivors_alike::<M, A>(fresh, after, handler.authentications);
    assert forall|peer: Seq<u8>, statement: Received| #[trigger]
        keeps(after.authentications, peer, statement) <==> keeps(
            handler.authentications,
            peer,
            statement,
        ) && after.accepts::<M, A>(statement) by {
        lemma_survivors_keeps::<M, A>(after, handler.authentications, peer, statement);
    }
}

/// Handlers that check statements alike leave the same.
proof fn lemma_survivors_alike<M: Data, A: Multiaddressed<M>>(
    one: HandlerView,
    another: HandlerView,
    entries: Entries,
)
    requires
        one.alike(another),
    ensures
        survivors::<M, A>(one, entries) == survivors::<M, A>(another, entries),
    decreases entries.len(),
{
    if entries.len() == 0 {
        reveal(Seq::filter_map);
    } else {
        lemma_survivors_alike::<M, A>(one, another, entries.drop_last());
        lemma_survivors_last::<M, A>(one, entries);
        lemma_survivors_last::<M, A>(another, entries);
    }
}

/// Whether some statement of the node with the given index is kept under the peer.
pub open spec fn vouches(entries: Entries, peer: Seq<u8>, node_id: usize) -> bool {
    exists|statement: Received| #[trigger]
        keeps(entries, peer, statement) && statement.node_id() == node_id
}

/// The statements kept are the ones that are stored under some peer.
proof fn lemma_stored_keeps(entries: Entries, statement: Received)
    ensures
        stored(entries).contains(statement) <==> exists|peer: Seq<u8>| #[trigger]
            keeps(entries, peer, statement),
    decreases entries.len(),
{
    if entries.len() > 0 {
        let first = entries.drop_last();
        let last = entries.last();
        lemma_stored_keeps(first, statement);
        assert(first.push(last) =~= entries);
        assert forall|peer: Seq<u8>| #[trigger]
            keeps(entries, peer, statement) <==> keeps(first, peer, statement) || (last.0 == peer
                && last.1.statements().contains(statement)) by {
            lemma_keeps_push(first, last, peer, statement);
        }
        let a = stored(first);
        let b = last.1.statements();
        if a.contains(statement) {
            let i = a.index_of(statement);
            assert((a + b)[i] == statement);
            let peer = choose|peer: Seq<u8>| #[trigger] keeps(first, peer, statement);
            assert(keeps(entries, peer, statement));
        }
        if b.contains(statement) {
            let i = b.index_of(statement);
            assert((a + b)[a.len() + i] == statement);
            assert(keeps(entries, last.0, statement));
        }
        if (a + b).contains(statement) {
            let i = (a + b).index_of(statement);
            if i < a.len() {
                assert(a[i] == statement);
            } else {
                assert(b[i - a.len()] == statement);
            }
        }
        if exists|peer: Seq<u8>| #[trigger] keeps(entries, peer, statement) {
            let peer = choose|peer: Seq<u8>| #[trigger] keeps(entries, peer, statement);
            if keeps(first, peer, statement) {
                assert(a.contains(statement));
            }
        }
    } else {
        if exists|peer: Seq<u8>| #[trigger] keeps(entries, peer, statement) {
            let peer = choose|peer: Seq<u8>| #[trigger] keeps(entries, peer, statement);
        }
    }
}

/// The nodes known after some statements are those whose statements count.
proof fn lemma_handle_all_peers<M: Data, A: Multiaddressed<M>>(
    handler: HandlerView,
    received: Seq<Received>,
    node_id: usize,
)
    requires
        handler.peers == Map::<usize, Seq<u8>>::empty(),
    ensures
        ({
            let after = handler.handle_all::<M, A>(received);
            &&& after.peers.contains_key(node_id) ==> exists|i: int|
                0 <= i < received.len() && handler.accepts::<M, A>(#[trigger] received[i])
                    && received[i].node_id() == node_id && received[i].is_about::<M, A>(
                    after.peers[node_id],
                )
            &&& forall|i: int|
                0 <= i < received.len() && handler.accepts::<M, A>(#[trigger] received[i])
                    && received[i].node_id() == node_id ==> after.peers.contains_key(node_id)
        }),
    decreases received.len(),
{
    if received.len() > 0 {
        let first = received.drop_last();
        lemma_handle_all_peers::<M, A>(handler, first, node_id);
        handler.lemma_handle_all_alike::<M, A>(first);
        let before = handler.handle_all::<M, A>(first);
        let after = handler.handle_all::<M, A>(received);
        let last = received.last();
        assert(received[received.len() - 1] == last);
        if after.peers.contains_key(node_id) && !(handler.accepts::<M, A>(last) && last.node_id()
            == node_id) {
            assert(before.peers.contains_key(node_id));
            let i = choose|i: int|
                0 <= i < first.len() && handler.accepts::<M, A>(#[trigger] first[i])
                    && first[i].node_id() == node_id && first[i].is_about::<M, A>(
                    before.peers[node_id],
                );
            assert(received[i] == first[i]);
        }
        assert forall|i: int|
            0 <= i < received.len() && handler.accepts::<M, A>(#[trigger] received[i])
                && received[i].node_id() == node_id implies after.peers.contains_key(node_id) by {
            if i < first.len() {
                assert(first[i] == received[i]);
            }
        }
    }
}

/// After an update the known nodes are exactly those of which a statement is still kept, each
/// under a peer that such a statement is kept of.
pub proof fn update_knows_the_nodes_that_are_left<M: Data, A: Multiaddressed<M>>(
    handler: HandlerView,
    authority: Option<SignedAuthorityView>,
    authorities: Seq<Seq<u8>>,
    address: Seq<u8>,
    node_id: usize,
)
    requires
        handler.wf::<M, A>(),
    ensures
        ({
            let after = handler.update::<M, A>(authority, authorities, address);
            &&& after.peers.contains_key(node_id) <==> exists|peer: Seq<u8>| #[trigger]
                vouches(after.authentications, peer, node_id)
            &&& after.peers.contains_key(node_id) ==> vouches(
                after.authentications,
                after.peers[node_id],
                node_id,
            )
        }),
{
    let fresh = HandlerView::initial::<M, A>(
        authority,
        authorities,
        handler.session_id(),
        address,
    );
    let after = handler.update::<M, A>(authority, authorities, address);
    let all = stored(handler.authentications);
    update_purges_what_no_longer_counts::<M, A>(handler, authority, authorities, address);
    fresh.lemma_handle_all_alike::<M, A>(all);
    lemma_handle_all_peers::<M, A>(fresh, all, node_id);
    lemma_wf_sorted::<M, A>(handler);
    if after.peers.contains_key(node_id) {
        let i = choose|i: int|
            0 <= i < all.len() && fresh.accepts::<M, A>(#[trigger] all[i]) && all[i].node_id()
                == node_id && all[i].is_about::<M, A>(after.peers[node_id]);
        assert(all.contains(all[i]));
        lemma_stored_keeps(handler.authentications, all[i]);
        let peer = choose|peer: Seq<u8>| #[trigger] keeps(handler.authentications, peer, all[i]);
        let k = choose|k: int|
            0 <= k < handler.authentications.len() && (#[trigger] handler.authentications[k]).0
                == peer && handler.authentications[k].1.statements().contains(all[i]);
        let l = handler.authentications[k].1.statements().index_of(all[i]);
        assert(handler.authentications[k].1.statements()[l].is_about::<M, A>(
            handler.authentications[k].0,
        ));
        assert(peer == after.peers[node_id]);
        assert(keeps(after.authentications, peer, all[i]));
        assert(vouches(after.authentications, peer, node_id));
    }
    if exists|peer: Seq<u8>| #[trigger] vouches(after.authentications, peer, node_id) {
        let peer = choose|peer: Seq<u8>| #[trigger] vouches(after.authentications, peer, node_id);
        let statement = choose|statement: Received| #[trigger]
            keeps(after.authentications, peer, statement) && statement.node_id() == node_id;
        assert(keeps(handler.authentications, peer, statement));
        lemma_stored_keeps(handler.authentications, statement);
        let i = all.index_of(statement);
        assert(fresh.accepts::<M, A>(all[i]));
    }
}

/// The order in which the peers are listed decides neither what an update keeps nor which nodes
/// are known after it.
pub proof fn update_does_not_depend_on_the_order<M: Data, A: Multiaddressed<M>>(
    one: HandlerView,
    another: HandlerView,
    authority: Option<SignedAuthorityView>,
    authorities: Seq<Seq<u8>>,
    address: Seq<u8>,
)
    requires
        one.wf::<M, A>(),
        another.wf::<M, A>(),
        one.session_id() == another.session_id(),
        forall|peer: Seq<u8>, statement: Received| #[trigger]
            keeps(one.authentications, peer, statement) <==> #[trigger] keeps(
                another.authentications,
                peer,
                statement,
            ),
    ensures
        ({
            let a = one.update::<M, A>(authority, authorities, address);
            let b = another.update::<M, A>(authority, authorities, address);
            &&& forall|peer: Seq<u8>, statement: Received| #[trigger]
                keeps(a.authentications, peer, statement) <==> #[trigger] keeps(
                    b.authentications,
                    peer,
                    statement,
                )
            &&& a.peers.dom() == b.peers.dom()
        }),
{
    let a = one.update::<M, A>(authority, authorities, address);
    let b = another.update::<M, A>(authority, authorities, address);
    update_purges_what_no_longer_counts::<M, A>(one, authority, authorities, address);
    update_purges_what_no_longer_counts::<M, A>(another, authority, authorities, address);
    let fresh = HandlerView::initial::<M, A>(authority, authorities, one.session_id(), address);
    fresh.lemma_handle_all_alike::<M, A>(stored(one.authentications));
    fresh.lemma_handle_all_alike::<M, A>(stored(another.authentications));
    assert forall|peer: Seq<u8>, statement: Received| #[trigger]
        keeps(a.authentications, peer, statement) <==> #[trigger] keeps(
            b.authentications,
            peer,
            statement,
        ) by {
        assert(keeps(one.authentications, peer, statement) <==> keeps(
            another.authentications,
            peer,
            statement,
        ));
    }
    assert forall|node_id: usize| a.peers.contains_key(node_id) <==> b.peers.contains_key(
        node_id,
    ) by {
        update_knows_the_nodes_that_are_left::<M, A>(one, authority, authorities, address, node_id);
        update_knows_the_nodes_that_are_left::<M, A>(
            another,
            authority,
            authorities,
            address,
            node_id,
        );
        if a.peers.contains_key(node_id) {
            let peer = a.peers[node_id];
            let statement = choose|statement: Received| #[trigger]
                keeps(a.authentications, peer, statement) && statement.node_id() == node_id;
            assert(keeps(b.authentications, peer, statement));
            assert(vouches(b.authentications, peer, node_id));
        }
        if b.peers.contains_key(node_id) {
            let peer = b.peers[node_id];
            let statement = choose|statement: Received| #[trigger]
                keeps(b.authentications, peer, statement) && statement.node_id() == node_id;
            assert(keeps(a.authentications, peer, statement));
            assert(vouches(a.authentications, peer, node_id));
        }
    }
    assert(a.peers.dom() =~= b.peers.dom());
}

/// What is left is stored in the order in which it was.
proof fn lemma_stored_survivors<M: Data, A: Multiaddressed<M>>(handler: HandlerView, entries: Entries)
    ensures
        stored(survivors::<M, A>(handler, entries)) == stored(entries).filter(
            |received: Received| handler.accepts::<M, A>(received),
        ),
    decreases entries.len(),
{
    let accepts = |received: Received| handler.accepts::<M, A>(received);
    reveal(Seq::filter);
    if entries.len() == 0 {
        reveal(Seq::filter_map);
        assert(stored(survivors::<M, A>(handler, entries)) =~= stored(entries).filter(accepts));
    } else {
        let first = entries.drop_last();
        let last = entries.last();
        lemma_stored_survivors::<M, A>(handler, first);
        lemma_survivors_last::<M, A>(handler, entries);
        lemma_recheck_filters::<M, A>(handler, last.1);
        Seq::filter_distributes_over_add(stored(first), last.1.statements(), accepts);
        let rest = survivors::<M, A>(handler, first);
        match handler.recheck_entry::<M, A>(last) {
            Some(entry) => {
                assert(rest.push(entry).drop_last() =~= rest);
            },
            None => {
                assert(stored(rest) + Seq::<Received>::empty() =~= stored(rest));
            },
        }
    }
}

/// Statements that do not count make no difference.
proof fn lemma_handle_all_filtered<M: Data, A: Multiaddressed<M>>(
    handler: HandlerView,
    received: Seq<Received>,
)
    ensures
        handler.handle_all::<M, A>(
            received.filter(|received: Received| handler.accepts::<M, A>(received)),
        ) == handler.handle_all::<M, A>(received),
    decreases received.len(),
{
    let accepts = |received: Received| handler.accepts::<M, A>(received);
    reveal(Seq::filter);
    if received.len() > 0 {
        let first = received.drop_last();
        lemma_handle_all_filtered::<M, A>(handler, first);
        handler.lemma_handle_all_alike::<M, A>(first);
        handler.lemma_handle_all_push::<M, A>(first.filter(accepts), received.last());
    }
}

/// The same update once more changes nothing.
pub proof fn repeated_update_changes_nothing<M: Data, A: Multiaddressed<M>>(
    handler: HandlerView,
    authority: Option<SignedAuthorityView>,
    authorities: Seq<Seq<u8>>,
    address: Seq<u8>,
)
    requires
        handler.wf::<M, A>(),
    ensures
        handler.update::<M, A>(authority, authorities, address).update::<M, A>(
            authority,
            authorities,
            address,
        ) == handler.update::<M, A>(authority, authorities, address),
{
    let fresh = HandlerView::initial::<M, A>(
        authority,
        authorities,
        handler.session_id(),
        address,
    );
    let after = handler.update::<M, A>(authority, authorities, address);
    lemma_wf_sorted::<M, A>(handler);
    lemma_replay::<M, A>(fresh, handler.authentications);
    fresh.lemma_handle_all_alike::<M, A>(stored(handler.authentications));
    lemma_stored_survivors::<M, A>(fresh, handler.authentications);
    lemma_handle_all_filtered::<M, A>(fresh, stored(handler.authentications));
}

} // verus!
