//! Laws on the messages that are signed.

use crate::authentication::{current_form, legacy_form, AuthDataView, LegacyAuthDataView};
use crate::network::{Data, Multiaddressed};
use crate::scale::{
    compact, concat, items_stand_in_order, le_bytes, lemma_compact_prefix, lemma_concat_injective,
    lemma_le_bytes_injective, lemma_powers, list_bytes, numbers_are_read_back, self_delimiting,
};
use crate::session::SigningRequest;
use crate::state::{own_statements, SignedAuthorityView};
use vstd::prelude::*;

verus! {

/// The messages that a validator is asked to sign are those under the signatures of its own
/// statements.
pub proof fn requested_messages_are_the_signed_ones<M: Data, A: Multiaddressed<M>>(
    request: SigningRequest,
    authority: SignedAuthorityView,
    session_id: u32,
    address: Seq<u8>,
)
    requires
        request.is_for::<M, A>(authority.node_index, session_id, address),
    ensures
        ({
            let own = own_statements::<M, A>(authority, session_id, address).statements();
            &&& own[0].message() == request.legacy_message@
            &&& own[0].signature() == authority.legacy_signature
            &&& own[1].message() == request.message@
            &&& own[1].signature() == authority.signature
        }),
{
}

/// Two messages that end in an index and a session are the same only if they begin the same and
/// end in the same index and session.
proof fn lemma_tail(a: Seq<u8>, b: Seq<u8>, node_a: usize, node_b: usize, session_a: u32, session_b: u32)
    requires
        a + le_bytes(node_a as nat, 8) + le_bytes(session_a as nat, 4) == b + le_bytes(
            node_b as nat,
            8,
        ) + le_bytes(session_b as nat, 4),
    ensures
        a == b,
        node_a == node_b,
        session_a == session_b,
{
    lemma_powers();
    lemma_le_bytes_injective(node_a as nat, node_b as nat, 8);
    lemma_le_bytes_injective(session_a as nat, session_b as nat, 4);
    let x = a + le_bytes(node_a as nat, 8) + le_bytes(session_a as nat, 4);
    let y = b + le_bytes(node_b as nat, 8) + le_bytes(session_b as nat, 4);
    assert(x.len() == a.len() + 12 && y.len() == b.len() + 12);
    let n = a.len() as int;
    assert(a =~= x.take(n));
    assert(b =~= y.take(n));
    assert(le_bytes(node_a as nat, 8) =~= x.subrange(n, n + 8));
    assert(le_bytes(node_b as nat, 8) =~= y.subrange(n, n + 8));
    assert(le_bytes(session_a as nat, 4) =~= x.skip(n + 8));
    assert(le_bytes(session_b as nat, 4) =~= y.skip(n + 8));
}

/// The message under the signature tells the whole statement: no two statements of the current
/// kind are signed as the same message.
pub proof fn message_tells_the_statement(a: AuthDataView, b: AuthDataView)
    requires
        a.encoding() == b.encoding(),
    ensures
        a == b,
{
    lemma_tail(a.address, b.address, a.node_id, b.node_id, a.session_id, b.session_id);
}

/// The message under the signature tells the node, the session and the number of multiaddresses of
/// a legacy statement; where multiaddresses are encoded so that none is the beginning of another,
/// it tells the whole statement.
pub proof fn message_tells_the_legacy_statement(a: LegacyAuthDataView, b: LegacyAuthDataView)
    requires
        a.encodable(),
        b.encodable(),
        a.encoding() == b.encoding(),
    ensures
        a.node_id == b.node_id,
        a.session_id == b.session_id,
        a.addresses.len() == b.addresses.len(),
        self_delimiting(a.addresses, b.addresses) ==> a == b,
{
    lemma_tail(
        list_bytes(a.addresses),
        list_bytes(b.addresses),
        a.node_id,
        b.node_id,
        a.session_id,
        b.session_id,
    );
    lemma_compact_prefix(
        a.addresses.len() as u32,
        b.addresses.len() as u32,
        concat(a.addresses),
        concat(b.addresses),
    );
    if self_delimiting(a.addresses, b.addresses) {
        lemma_concat_injective(a.addresses, b.addresses);
    }
}

/// Where an address can be recovered from its multiaddresses, a statement can be recovered from its
/// legacy form.
pub proof fn legacy_form_can_be_undone<M: Data, A: Multiaddressed<M>>(data: AuthDataView)
    requires
        A::join(A::split(data.address)) == Some(data.address),
    ensures
        current_form::<M, A>(legacy_form::<M, A>(data)) == Some(data),
{
}

/// The message of a current statement can be read: it ends in twelve bytes, of which the first
/// eight are the little-endian index of the node and the last four the little-endian session, and
/// before them stands the encoded address.
pub proof fn statement_can_be_read(data: AuthDataView)
    ensures
        ({
            let m = data.encoding();
            let k = data.address.len() as int;
            &&& m.len() == k + 12
            &&& m.take(k) == data.address
            &&& m[k] + 0x100 * m[k + 1] + 0x1_0000 * m[k + 2] + 0x100_0000 * m[k + 3] + 0x1_0000_0000
                * m[k + 4] + 0x100_0000_0000 * m[k + 5] + 0x1_0000_0000_0000 * m[k + 6]
                + 0x100_0000_0000_0000 * m[k + 7] == data.node_id
            &&& m[k + 8] + 0x100 * m[k + 9] + 0x1_0000 * m[k + 10] + 0x100_0000 * m[k + 11]
                == data.session_id
        }),
{
    numbers_are_read_back(data.node_id as nat);
    numbers_are_read_back(data.session_id as nat);
    assert(data.encoding().take(data.address.len() as int) =~= data.address);
}

/// The message of a legacy statement can be read: it starts with the compact number of
/// multiaddresses, then come their encodings in the order in which they are listed, each right
/// behind those before it, then the eight little-endian bytes of the index of the node, then the
/// four of the session.
pub proof fn legacy_statement_can_be_read(data: LegacyAuthDataView)
    requires
        data.addresses.len() <= u32::MAX,
    ensures
        ({
            let m = data.encoding();
            let head = compact(data.addresses.len() as u32);
            let k = (head.len() + data.addresses.flatten().len()) as int;
            &&& m.len() == k + 12
            &&& m.take(head.len() as int) == head
            &&& forall|i: int|
                0 <= i < data.addresses.len() ==> {
                    let from = (head.len() + data.addresses.take(i).flatten().len()) as int;
                    &&& from + data.addresses[i].len() <= k
                    &&& m.subrange(from, from + data.addresses[i].len())
                        == #[trigger] data.addresses[i]
                }
            &&& m[k] + 0x100 * m[k + 1] + 0x1_0000 * m[k + 2] + 0x100_0000 * m[k + 3] + 0x1_0000_0000
                * m[k + 4] + 0x100_0000_0000 * m[k + 5] + 0x1_0000_0000_0000 * m[k + 6]
                + 0x100_0000_0000_0000 * m[k + 7] == data.node_id
            &&& m[k + 8] + 0x100 * m[k + 9] + 0x1_0000 * m[k + 10] + 0x100_0000 * m[k + 11]
                == data.session_id
        }),
{
    numbers_are_read_back(data.node_id as nat);
    numbers_are_read_back(data.session_id as nat);
    items_stand_in_order(data.addresses);
    let m = data.encoding();
    let head = compact(data.addresses.len() as u32);
    let items = concat(data.addresses);
    assert(m.take(head.len() as int) =~= head);
    assert forall|i: int| 0 <= i < data.addresses.len() implies {
        let from = (head.len() + data.addresses.take(i).flatten().len()) as int;
        &&& from + data.addresses[i].len() <= head.len() + items.len()
        &&& m.subrange(from, from + data.addresses[i].len()) == #[trigger] data.addresses[i]
    } by {
        let start = data.addresses.take(i).flatten().len() as int;
        let from = head.len() + start;
        assert(m.subrange(from, from + data.addresses[i].len()) =~= items.subrange(
            start,
            start + data.addresses[i].len(),
        ));
    }
}

/// A validator with index `n` is asked to sign the statement of node `n`, for the given session
/// and about the given address, in both forms.
pub proof fn request_names_the_node<M: Data, A: Multiaddressed<M>>(
    request: SigningRequest,
    node_id: usize,
    session_id: u32,
    address: Seq<u8>,
)
    ensures
        request.is_for::<M, A>(node_id, session_id, address) <==> {
            &&& request.message@ == (AuthDataView { address, node_id, session_id }).encoding()
            &&& request.legacy_message@ == (LegacyAuthDataView {
                addresses: A::split(address),
                node_id,
                session_id,
            }).encoding()
        },
{
}

/// The index and the session can be read in the messages that a validator is asked to sign: in
/// each they are the last twelve bytes, little-endian, eight of the index and four of the session.
/// The first message starts with the address, the legacy one with the number of multiaddresses.
pub proof fn request_can_be_read<M: Data, A: Multiaddressed<M>>(
    request: SigningRequest,
    node_id: usize,
    session_id: u32,
    address: Seq<u8>,
)
    requires
        request.is_for::<M, A>(node_id, session_id, address),
        A::split(address).len() <= u32::MAX,
    ensures
        ({
            let m = request.message@;
            let k = m.len() - 12;
            &&& k == address.len()
            &&& m.take(k) == address
            &&& m[k] + 0x100 * m[k + 1] + 0x1_0000 * m[k + 2] + 0x100_0000 * m[k + 3] + 0x1_0000_0000
                * m[k + 4] + 0x100_0000_0000 * m[k + 5] + 0x1_0000_0000_0000 * m[k + 6]
                + 0x100_0000_0000_0000 * m[k + 7] == node_id
            &&& m[k + 8] + 0x100 * m[k + 9] + 0x1_0000 * m[k + 10] + 0x100_0000 * m[k + 11]
                == session_id
        }),
        ({
            let m = request.legacy_message@;
            let k = m.len() - 12;
            let head = compact(A::split(address).len() as u32);
            &&& k == head.len() + A::split(address).flatten().len()
            &&& m.take(k) == head + A::split(address).flatten()
            &&& m[k] + 0x100 * m[k + 1] + 0x1_0000 * m[k + 2] + 0x100_0000 * m[k + 3] + 0x1_0000_0000
                * m[k + 4] + 0x100_0000_0000 * m[k + 5] + 0x1_0000_0000_0000 * m[k + 6]
                + 0x100_0000_0000_0000 * m[k + 7] == node_id
            &&& m[k + 8] + 0x100 * m[k + 9] + 0x1_0000 * m[k + 10] + 0x100_0000 * m[k + 11]
                == session_id
        }),
{
    let legacy = LegacyAuthDataView { addresses: A::split(address), node_id, session_id };
    statement_can_be_read(AuthDataView { address, node_id, session_id });
    legacy_statement_can_be_read(legacy);
    items_stand_in_order(legacy.addresses);
    let m = request.legacy_message@;
    assert(m.take(m.len() - 12) =~= compact(legacy.addresses.len() as u32) + concat(legacy.addresses));
}

/// The legacy form of a statement is about the same node and session, and lists the
/// multiaddresses of its address; a legacy statement stands for one about the same node and
/// session, and about the address that its multiaddresses stand for, if they stand for one.
pub proof fn forms_keep_node_and_session<M: Data, A: Multiaddressed<M>>(
    data: AuthDataView,
    legacy: LegacyAuthDataView,
)
    ensures
        legacy_form::<M, A>(data).node_id == data.node_id,
        legacy_form::<M, A>(data).session_id == data.session_id,
        legacy_form::<M, A>(data).addresses == A::split(data.address),
        current_form::<M, A>(legacy) is Some <==> A::join(legacy.addresses) is Some,
        current_form::<M, A>(legacy) matches Some(stands_for) ==> {
            &&& stands_for.node_id == legacy.node_id
            &&& stands_for.session_id == legacy.session_id
            &&& A::join(legacy.addresses) == Some(stands_for.address)
        },
        legacy.encodable() <==> legacy.addresses.len() <= u32::MAX,
{
}

} // verus!
