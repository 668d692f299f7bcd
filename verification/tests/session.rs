use parity_scale_codec::Encode;
use session_handler::authentication::{
    Authentication, LegacyAuthData, LegacyAuthentication, PeerAuthentications,
};
use session_handler::crypto::{AuthorityId, AuthorityVerifier, Signature};
use session_handler::network::{AddressingInformation, Data, Multiaddressed, PeerId};
use session_handler::session::{Handler, HandlerError, SignedAuthority, SigningRequest};
use session_handler::types::{NodeCount, NodeIndex, SessionId};
use sp_runtime::app_crypto::{ed25519, Pair};

const NUM_NODES: usize = 7;

#[derive(Clone, Debug, PartialEq, Eq)]
struct MockPeerId([u8; 32]);

impl Data for MockPeerId {
    fn encode(&self) -> Vec<u8> {
        self.0.encode()
    }

    fn duplicate(&self) -> MockPeerId {
        self.clone()
    }
}

impl PeerId for MockPeerId {
    fn same(&self, other: &MockPeerId) -> bool {
        self == other
    }
}

#[derive(Clone, Debug, PartialEq, Eq)]
struct MockMultiaddress {
    peer_id: [u8; 32],
    address: String,
}

impl Data for MockMultiaddress {
    fn encode(&self) -> Vec<u8> {
        (self.peer_id, self.address.clone()).encode()
    }

    fn duplicate(&self) -> MockMultiaddress {
        self.clone()
    }
}

#[derive(Clone, Debug, PartialEq, Eq)]
struct MockAddress {
    peer_id: [u8; 32],
    addresses: Vec<String>,
}

impl Data for MockAddress {
    fn encode(&self) -> Vec<u8> {
        (self.peer_id, self.addresses.clone()).encode()
    }

    fn duplicate(&self) -> MockAddress {
        self.clone()
    }
}

impl AddressingInformation for MockAddress {
    type PeerId = MockPeerId;

    fn peer_id(&self) -> MockPeerId {
        MockPeerId(self.peer_id)
    }
}

impl Multiaddressed<MockMultiaddress> for MockAddress {
    fn to_multiaddresses(&self) -> Vec<MockMultiaddress> {
        self.addresses
            .iter()
            .map(|address| MockMultiaddress {
                peer_id: self.peer_id,
                address: address.clone(),
            })
            .collect()
    }

    fn from_multiaddresses(multiaddresses: &Vec<MockMultiaddress>) -> Option<MockAddress> {
        let peer_id = multiaddresses.first()?.peer_id;
        if multiaddresses.iter().any(|m| m.peer_id != peer_id) {
            return None;
        }
        Some(MockAddress {
            peer_id,
            addresses: multiaddresses.iter().map(|m| m.address.clone()).collect(),
        })
    }
}

type MockHandler = Handler<MockMultiaddress, MockAddress>;
type IndexAndPen = (NodeIndex, ed25519::Pair);

fn random_address() -> MockAddress {
    MockAddress {
        peer_id: ed25519::Pair::generate().0.public().0,
        addresses: vec![String::from("one"), String::from("two")],
    }
}

fn crypto_basics(num_nodes: usize) -> (Vec<IndexAndPen>, AuthorityVerifier) {
    let pens: Vec<IndexAndPen> = (0..num_nodes)
        .map(|i| (NodeIndex(i), ed25519::Pair::generate().0))
        .collect();
    let verifier = verifier_of(&pens);
    (pens, verifier)
}

fn verifier_of(pens: &[IndexAndPen]) -> AuthorityVerifier {
    AuthorityVerifier::new(
        pens.iter()
            .map(|(_, pen)| AuthorityId(pen.public().0))
            .collect(),
    )
}

fn sign(pen: &ed25519::Pair, message: &[u8]) -> Signature {
    Signature(pen.sign(message).0)
}

fn signed_authority(
    index_and_pen: &IndexAndPen,
    session_id: SessionId,
    address: &MockAddress,
) -> SignedAuthority {
    let (node_index, pen) = index_and_pen;
    let request = SigningRequest::new::<MockMultiaddress, MockAddress>(
        *node_index,
        session_id,
        address,
    );
    SignedAuthority {
        node_index: *node_index,
        signature: sign(pen, &request.message),
        legacy_signature: sign(pen, &request.legacy_message),
    }
}

fn new_handler(
    index_and_pen: Option<&IndexAndPen>,
    verifier: AuthorityVerifier,
    session_id: SessionId,
    address: MockAddress,
) -> MockHandler {
    let authority = index_and_pen.map(|i| signed_authority(i, session_id, &address));
    Handler::new(authority, verifier, session_id, address)
}

fn authentication(handler: &MockHandler) -> Authentication<MockAddress> {
    match handler.authentication() {
        Some(PeerAuthentications::Both(authentication, _)) => authentication,
        _ => panic!("a validator has both authentications"),
    }
}

fn legacy_authentication(handler: &MockHandler) -> LegacyAuthentication<MockMultiaddress> {
    match handler.authentication() {
        Some(PeerAuthentications::Both(_, legacy_authentication)) => legacy_authentication,
        _ => panic!("a validator has both authentications"),
    }
}

/// Makes the statements of a node again, with another index, session or address.
fn authentications_of(
    index_and_pen: &IndexAndPen,
    session_id: SessionId,
    address: &MockAddress,
) -> (
    Authentication<MockAddress>,
    LegacyAuthentication<MockMultiaddress>,
) {
    let handler = new_handler(
        Some(index_and_pen),
        AuthorityVerifier::new(vec![]),
        session_id,
        address.clone(),
    );
    (authentication(&handler), legacy_authentication(&handler))
}

fn indices(range: std::ops::Range<usize>) -> Vec<NodeIndex> {
    range.map(NodeIndex).collect()
}

#[test]
fn identifies_whether_node_is_authority_in_current_session() {
    let mut crypto_basics = crypto_basics(NUM_NODES);
    let no_authority_handler = new_handler(
        None,
        crypto_basics.1.clone(),
        SessionId(43),
        random_address(),
    );
    let authority_handler = new_handler(
        Some(&crypto_basics.0.pop().unwrap()),
        crypto_basics.1,
        SessionId(43),
        random_address(),
    );
    assert!(!no_authority_handler.is_validator());
    assert!(authority_handler.is_validator());
}

#[test]
fn non_validator_handler_returns_none_for_authentication() {
    let crypto_basics = crypto_basics(NUM_NODES);
    assert!(
        new_handler(None, crypto_basics.1, SessionId(43), random_address())
            .authentication()
            .is_none()
    );
}

#[test]
fn fails_to_update_from_validator_to_non_validator() {
    let mut crypto_basics = crypto_basics(NUM_NODES);
    let address = random_address();
    let mut handler0 = new_handler(
        Some(&crypto_basics.0.pop().unwrap()),
        crypto_basics.1.clone(),
        SessionId(43),
        address.clone(),
    );
    assert!(matches!(
        handler0.update(None, crypto_basics.1.clone(), address),
        Err(HandlerError::TypeChange)
    ));
}

#[test]
fn fails_to_update_from_non_validator_to_validator() {
    let mut crypto_basics = crypto_basics(NUM_NODES);
    let address = random_address();
    let mut handler0 = new_handler(
        None,
        crypto_basics.1.clone(),
        SessionId(43),
        address.clone(),
    );
    let authority = signed_authority(
        &crypto_basics.0.pop().unwrap(),
        handler0.session_id(),
        &address,
    );
    assert!(matches!(
        handler0.update(Some(authority), crypto_basics.1.clone(), address),
        Err(HandlerError::TypeChange)
    ));
}

#[test]
fn does_not_keep_own_peer_id_or_authentication() {
    let mut crypto_basics = crypto_basics(NUM_NODES);
    let handler0 = new_handler(
        Some(&crypto_basics.0.pop().unwrap()),
        crypto_basics.1,
        SessionId(43),
        random_address(),
    );
    assert!(handler0.peer_id(&NodeIndex(0)).is_none());
}

#[test]
fn misses_all_other_nodes_initially() {
    let mut crypto_basics = crypto_basics(NUM_NODES);
    let handler0 = new_handler(
        Some(&crypto_basics.0.pop().unwrap()),
        crypto_basics.1,
        SessionId(43),
        random_address(),
    );
    let missing_nodes = handler0.missing_nodes();
    let expected_missing: Vec<_> = (0..NUM_NODES - 1).map(NodeIndex).collect();
    assert_eq!(missing_nodes, expected_missing);
    assert!(handler0.peer_id(&NodeIndex(1)).is_none());
}

#[test]
fn accepts_correct_authentication() {
    let crypto_basics = crypto_basics(NUM_NODES);
    let mut handler0 = new_handler(
        Some(&crypto_basics.0[0]),
        crypto_basics.1.clone(),
        SessionId(43),
        random_address(),
    );
    let address = random_address();
    let handler1 = new_handler(
        Some(&crypto_basics.0[1]),
        crypto_basics.1.clone(),
        SessionId(43),
        address.clone(),
    );
    assert!(handler0
        .handle_authentication(authentication(&handler1))
        .is_some());
    assert!(handler0
        .handle_legacy_authentication(legacy_authentication(&handler1))
        .is_some());
    let missing_nodes = handler0.missing_nodes();
    let expected_missing: Vec<_> = (2..NUM_NODES).map(NodeIndex).collect();
    assert_eq!(missing_nodes, expected_missing);
    let peer_id1 = address.peer_id();
    assert_eq!(handler0.peer_id(&NodeIndex(1)), Some(peer_id1));
}

#[test]
fn non_validator_accepts_correct_authentication() {
    let crypto_basics = crypto_basics(NUM_NODES);
    let mut handler0 = new_handler(
        None,
        crypto_basics.1.clone(),
        SessionId(43),
        random_address(),
    );
    let address = random_address();
    let handler1 = new_handler(
        Some(&crypto_basics.0[1]),
        crypto_basics.1.clone(),
        SessionId(43),
        address.clone(),
    );
    assert!(handler0
        .handle_authentication(authentication(&handler1))
        .is_some());
    assert!(handler0
        .handle_legacy_authentication(legacy_authentication(&handler1))
        .is_some());
    let missing_nodes = handler0.missing_nodes();
    let mut expected_missing: Vec<_> = (0..NUM_NODES).map(NodeIndex).collect();
    expected_missing.remove(1);
    assert_eq!(missing_nodes, expected_missing);
    let peer_id1 = address.peer_id();
    assert_eq!(handler0.peer_id(&NodeIndex(1)), Some(peer_id1));
}

#[test]
fn ignores_badly_signed_authentication() {
    let crypto_basics = crypto_basics(NUM_NODES);
    let mut handler0 = new_handler(
        Some(&crypto_basics.0[0]),
        crypto_basics.1.clone(),
        SessionId(43),
        random_address(),
    );
    let handler1 = new_handler(
        Some(&crypto_basics.0[1]),
        crypto_basics.1.clone(),
        SessionId(43),
        random_address(),
    );
    let mut bad_authentication = authentication(&handler1);
    bad_authentication.1 = authentication(&handler0).1;
    assert!(handler0.handle_authentication(bad_authentication).is_none());
    let missing_nodes = handler0.missing_nodes();
    let expected_missing: Vec<_> = (1..NUM_NODES).map(NodeIndex).collect();
    assert_eq!(missing_nodes, expected_missing);
}

#[test]
fn ignores_wrong_session_authentication() {
    let crypto_basics = crypto_basics(NUM_NODES);
    let mut handler0 = new_handler(
        Some(&crypto_basics.0[0]),
        crypto_basics.1.clone(),
        SessionId(43),
        random_address(),
    );
    let handler1 = new_handler(
        Some(&crypto_basics.0[1]),
        crypto_basics.1.clone(),
        SessionId(44),
        random_address(),
    );
    assert!(handler0
        .handle_authentication(authentication(&handler1))
        .is_none());
    assert!(handler0
        .handle_legacy_authentication(legacy_authentication(&handler1))
        .is_none());
    let missing_nodes = handler0.missing_nodes();
    let expected_missing: Vec<_> = (1..NUM_NODES).map(NodeIndex).collect();
    assert_eq!(missing_nodes, expected_missing);
}

#[test]
fn ignores_own_authentication() {
    let crypto_basics = crypto_basics(NUM_NODES);
    let mut handler0 = new_handler(
        Some(&crypto_basics.0[0]),
        crypto_basics.1.clone(),
        SessionId(43),
        random_address(),
    );
    let own = authentication(&handler0);
    let own_legacy = legacy_authentication(&handler0);
    assert!(handler0.handle_authentication(own).is_none());
    assert!(handler0.handle_legacy_authentication(own_legacy).is_none());
    let missing_nodes = handler0.missing_nodes();
    let expected_missing: Vec<_> = (1..NUM_NODES).map(NodeIndex).collect();
    assert_eq!(missing_nodes, expected_missing);
}

#[test]
fn invalidates_obsolete_authentication() {
    let old_crypto_basics = crypto_basics(NUM_NODES);
    let mut handler0 = new_handler(
        Some(&old_crypto_basics.0[0]),
        old_crypto_basics.1.clone(),
        SessionId(43),
        random_address(),
    );
    let handler1 = new_handler(
        Some(&old_crypto_basics.0[1]),
        old_crypto_basics.1.clone(),
        SessionId(43),
        random_address(),
    );
    assert!(handler0
        .handle_authentication(authentication(&handler1))
        .is_some());
    assert!(handler0
        .handle_legacy_authentication(legacy_authentication(&handler1))
        .is_some());
    let new_crypto_basics = crypto_basics(NUM_NODES);
    let new_address = random_address();
    let authority = signed_authority(
        &new_crypto_basics.0[0],
        handler0.session_id(),
        &new_address,
    );
    handler0
        .update(Some(authority), new_crypto_basics.1.clone(), new_address)
        .unwrap();
    let missing_nodes = handler0.missing_nodes();
    let expected_missing: Vec<_> = (1..NUM_NODES).map(NodeIndex).collect();
    assert_eq!(missing_nodes, expected_missing);
    assert!(handler0.peer_id(&NodeIndex(1)).is_none());
}

#[test]
fn a_new_handler_tells_what_it_was_given() {
    let (pens, verifier) = crypto_basics(NUM_NODES);
    let address = random_address();
    let handler = new_handler(Some(&pens[3]), verifier, SessionId(43), address.clone());
    assert_eq!(handler.session_id(), SessionId(43));
    assert_eq!(handler.node_count(), NodeCount(NUM_NODES));
    assert!(handler.peers().is_empty());
    assert!(handler.addresses().is_empty());
    let (auth_data, _) = authentication(&handler);
    assert_eq!(auth_data.address(), address);
    assert_eq!(auth_data.creator(), NodeIndex(3));
    assert_eq!(auth_data.session(), SessionId(43));
    let (legacy_auth_data, _) = legacy_authentication(&handler);
    assert_eq!(legacy_auth_data.addresses, address.to_multiaddresses());
    assert_eq!(legacy_auth_data.creator(), NodeIndex(3));
    assert_eq!(legacy_auth_data.session(), SessionId(43));
    assert_eq!(handler.authentication().unwrap().session_id(), SessionId(43));
    let plain = new_handler(None, AuthorityVerifier::new(vec![]), SessionId(5), address);
    assert_eq!(plain.session_id(), SessionId(5));
    assert_eq!(plain.node_count(), NodeCount(0));
    assert!(plain.missing_nodes().is_empty());
}

#[test]
fn accepted_statements_give_the_address_back() {
    let (pens, verifier) = crypto_basics(NUM_NODES);
    let mut handler = new_handler(Some(&pens[0]), verifier, SessionId(43), random_address());
    let address = random_address();
    let (current, legacy) = authentications_of(&pens[1], SessionId(43), &address);
    assert_eq!(handler.handle_authentication(current), Some(address.clone()));
    assert_eq!(handler.handle_legacy_authentication(legacy), Some(address.clone()));
    assert_eq!(handler.addresses(), vec![address.clone()]);
    let peers = handler.peers();
    assert_eq!(peers.len(), 1);
    assert_eq!(peers.get(&1), Some(&address.peer_id()));
}

#[test]
fn legacy_statements_alone_suffice() {
    let (pens, verifier) = crypto_basics(NUM_NODES);
    let mut handler = new_handler(Some(&pens[0]), verifier, SessionId(43), random_address());
    let address = random_address();
    let (_, legacy) = authentications_of(&pens[6], SessionId(43), &address);
    assert_eq!(handler.handle_legacy_authentication(legacy), Some(address.clone()));
    assert_eq!(handler.missing_nodes(), indices(1..6));
    assert_eq!(handler.peer_id(&NodeIndex(6)), Some(address.peer_id()));
    assert_eq!(handler.addresses(), vec![address]);
}

#[test]
fn ignores_badly_signed_legacy_authentication() {
    let (pens, verifier) = crypto_basics(NUM_NODES);
    let mut handler = new_handler(Some(&pens[0]), verifier, SessionId(43), random_address());
    let (current, mut legacy) = authentications_of(&pens[1], SessionId(43), &random_address());
    legacy.1 = current.1;
    assert!(handler.handle_legacy_authentication(legacy).is_none());
    assert_eq!(handler.missing_nodes(), indices(1..NUM_NODES));
}

#[test]
fn ignores_a_statement_changed_after_signing() {
    let (pens, verifier) = crypto_basics(NUM_NODES);
    let mut handler = new_handler(None, verifier, SessionId(43), random_address());
    let (mut current, mut legacy) = authentications_of(&pens[1], SessionId(44), &random_address());
    current.0.session_id = SessionId(43);
    legacy.0.session_id = SessionId(43);
    assert!(handler.handle_authentication(current).is_none());
    assert!(handler.handle_legacy_authentication(legacy).is_none());
    let (mut current, mut legacy) = authentications_of(&pens[1], SessionId(43), &random_address());
    current.0.node_id = NodeIndex(2);
    legacy.0.node_id = NodeIndex(2);
    assert!(handler.handle_authentication(current).is_none());
    assert!(handler.handle_legacy_authentication(legacy).is_none());
    let (mut current, mut legacy) = authentications_of(&pens[1], SessionId(43), &random_address());
    current.0.address = random_address();
    legacy.0.addresses.pop();
    assert!(handler.handle_authentication(current).is_none());
    assert!(handler.handle_legacy_authentication(legacy).is_none());
    assert_eq!(handler.missing_nodes(), indices(0..NUM_NODES));
}

#[test]
fn ignores_nodes_that_are_no_authorities() {
    let (pens, _) = crypto_basics(NUM_NODES + 1);
    let verifier = verifier_of(&pens[..NUM_NODES]);
    let mut handler = new_handler(None, verifier, SessionId(43), random_address());
    let (current, legacy) = authentications_of(&pens[NUM_NODES], SessionId(43), &random_address());
    assert!(handler.handle_authentication(current).is_none());
    assert!(handler.handle_legacy_authentication(legacy).is_none());
    assert_eq!(handler.missing_nodes(), indices(0..NUM_NODES));
}

#[test]
fn ignores_legacy_statements_about_no_address() {
    let (pens, verifier) = crypto_basics(NUM_NODES);
    let mut handler = new_handler(Some(&pens[0]), verifier, SessionId(43), random_address());
    let mut addresses = random_address().to_multiaddresses();
    addresses.append(&mut random_address().to_multiaddresses());
    for addresses in vec![vec![], addresses] {
        let legacy_auth_data = LegacyAuthData {
            addresses,
            node_id: NodeIndex(1),
            session_id: SessionId(43),
        };
        assert!(legacy_auth_data.to_auth_data::<MockAddress>().is_none());
        let signature = sign(&pens[1].1, &legacy_auth_data.encode());
        assert!(handler
            .handle_legacy_authentication((legacy_auth_data, signature))
            .is_none());
    }
    assert_eq!(handler.missing_nodes(), indices(1..NUM_NODES));
}

#[test]
fn a_told_signature_decides() {
    let (pens, verifier) = crypto_basics(NUM_NODES);
    let mut handler = new_handler(Some(&pens[0]), verifier, SessionId(43), random_address());
    let address = random_address();
    let (current, legacy) = authentications_of(&pens[1], SessionId(43), &address);
    assert!(handler.apply_authentication(current, false).is_none());
    assert!(handler.apply_legacy_authentication(legacy, false).is_none());
    assert_eq!(handler.missing_nodes(), indices(1..NUM_NODES));
    let (mut current, mut legacy) = authentications_of(&pens[1], SessionId(43), &address);
    current.1 = Signature([0; 64]);
    legacy.1 = Signature([0; 64]);
    assert_eq!(handler.apply_authentication(current, true), Some(address.clone()));
    assert_eq!(handler.apply_legacy_authentication(legacy, true), Some(address));
    assert_eq!(handler.missing_nodes(), indices(2..NUM_NODES));
    let (current, legacy) = authentications_of(&pens[2], SessionId(44), &random_address());
    assert!(handler.apply_authentication(current, true).is_none());
    assert!(handler.apply_legacy_authentication(legacy, true).is_none());
    let own = authentication(&handler);
    let own_legacy = legacy_authentication(&handler);
    assert!(handler.apply_authentication(own, true).is_none());
    assert!(handler.apply_legacy_authentication(own_legacy, true).is_none());
    assert_eq!(handler.missing_nodes(), indices(2..NUM_NODES));
}

#[test]
fn a_repeated_statement_changes_nothing() {
    let (pens, verifier) = crypto_basics(NUM_NODES);
    let mut handler = new_handler(None, verifier, SessionId(43), random_address());
    let address = random_address();
    for _ in 0..2 {
        let (current, legacy) = authentications_of(&pens[1], SessionId(43), &address);
        assert_eq!(handler.handle_authentication(current), Some(address.clone()));
        assert_eq!(handler.handle_legacy_authentication(legacy), Some(address.clone()));
        assert_eq!(handler.addresses(), vec![address.clone()]);
        assert_eq!(handler.peers().len(), 1);
    }
}

#[test]
fn a_later_statement_replaces_the_one_of_its_kind() {
    let (pens, verifier) = crypto_basics(NUM_NODES);
    let mut handler = new_handler(None, verifier.clone(), SessionId(43), random_address());
    let address = random_address();
    let moved = MockAddress {
        peer_id: address.peer_id,
        addresses: vec![String::from("three")],
    };
    let (current, legacy) = authentications_of(&pens[1], SessionId(43), &address);
    let (moved_current, moved_legacy) = authentications_of(&pens[1], SessionId(43), &moved);
    assert!(handler.handle_legacy_authentication(legacy).is_some());
    assert_eq!(handler.addresses(), vec![address.clone()]);
    assert!(handler.handle_legacy_authentication(moved_legacy).is_some());
    assert_eq!(handler.addresses(), vec![moved.clone()]);
    assert!(handler.handle_authentication(current).is_some());
    assert_eq!(handler.addresses(), vec![address.clone()]);
    assert!(handler.handle_authentication(moved_current).is_some());
    assert_eq!(handler.addresses(), vec![moved.clone()]);
    let (_, legacy) = authentications_of(&pens[1], SessionId(43), &address);
    assert!(handler.handle_legacy_authentication(legacy).is_some());
    assert_eq!(handler.addresses(), vec![moved.clone()]);
    assert_eq!(handler.update(None, verifier, random_address()).unwrap(), vec![moved]);
}

#[test]
fn the_last_peer_of_a_node_counts() {
    let (pens, verifier) = crypto_basics(NUM_NODES);
    let mut handler = new_handler(None, verifier, SessionId(43), random_address());
    let first = random_address();
    let second = random_address();
    let (current, _) = authentications_of(&pens[1], SessionId(43), &first);
    assert!(handler.handle_authentication(current).is_some());
    let (current, _) = authentications_of(&pens[1], SessionId(43), &second);
    assert!(handler.handle_authentication(current).is_some());
    assert_eq!(handler.peer_id(&NodeIndex(1)), Some(second.peer_id()));
    assert_eq!(handler.addresses(), vec![first, second]);
}

#[test]
fn one_peer_can_stand_for_several_nodes() {
    let (pens, verifier) = crypto_basics(NUM_NODES);
    let mut handler = new_handler(None, verifier, SessionId(43), random_address());
    let address = random_address();
    let (current, _) = authentications_of(&pens[1], SessionId(43), &address);
    let (_, legacy) = authentications_of(&pens[4], SessionId(43), &address);
    assert!(handler.handle_authentication(current).is_some());
    assert!(handler.handle_legacy_authentication(legacy).is_some());
    assert_eq!(handler.peer_id(&NodeIndex(1)), Some(address.peer_id()));
    assert_eq!(handler.peer_id(&NodeIndex(4)), Some(address.peer_id()));
    assert_eq!(handler.addresses(), vec![address]);
}

#[test]
fn the_last_missing_node_is_listed() {
    let (pens, verifier) = crypto_basics(NUM_NODES);
    let mut plain = new_handler(None, verifier.clone(), SessionId(43), random_address());
    let mut validator = new_handler(Some(&pens[0]), verifier, SessionId(43), random_address());
    for pen in &pens[..NUM_NODES - 1] {
        let (current, _) = authentications_of(pen, SessionId(43), &random_address());
        assert!(plain.handle_authentication(current).is_some());
        let (current, _) = authentications_of(pen, SessionId(43), &random_address());
        assert!(validator.handle_authentication(current).is_some());
    }
    assert_eq!(plain.missing_nodes(), indices(NUM_NODES - 1..NUM_NODES));
    assert_eq!(validator.missing_nodes(), indices(NUM_NODES - 1..NUM_NODES));
    let (current, legacy) = authentications_of(&pens[NUM_NODES - 1], SessionId(43), &random_address());
    assert!(plain.handle_authentication(current).is_some());
    assert!(validator.handle_legacy_authentication(legacy).is_some());
    assert!(plain.missing_nodes().is_empty());
    assert!(validator.missing_nodes().is_empty());
}

#[test]
fn a_refused_update_changes_nothing() {
    let (pens, verifier) = crypto_basics(NUM_NODES);
    let own_address = random_address();
    let mut handler = new_handler(
        Some(&pens[0]),
        verifier,
        SessionId(43),
        own_address.clone(),
    );
    let address = random_address();
    let (current, _) = authentications_of(&pens[1], SessionId(43), &address);
    assert!(handler.handle_authentication(current).is_some());
    assert!(handler
        .update(None, AuthorityVerifier::new(vec![]), random_address())
        .is_err());
    assert!(handler.is_validator());
    assert_eq!(handler.node_count(), NodeCount(NUM_NODES));
    assert_eq!(handler.missing_nodes(), indices(2..NUM_NODES));
    assert_eq!(handler.peer_id(&NodeIndex(1)), Some(address.peer_id()));
    assert_eq!(authentication(&handler).0.address(), own_address);
}

#[test]
fn an_update_purges_only_what_no_longer_counts() {
    let (mut pens, verifier) = crypto_basics(NUM_NODES);
    let mut handler = new_handler(Some(&pens[0]), verifier, SessionId(43), random_address());
    let addresses: Vec<MockAddress> = (0..NUM_NODES).map(|_| random_address()).collect();
    for i in 1..NUM_NODES {
        let (current, legacy) = authentications_of(&pens[i], SessionId(43), &addresses[i]);
        if i != 5 {
            assert!(handler.handle_authentication(current).is_some());
        }
        if i != 6 {
            assert!(handler.handle_legacy_authentication(legacy).is_some());
        }
    }
    assert!(handler.missing_nodes().is_empty());
    pens[2].1 = ed25519::Pair::generate().0;
    pens[4].1 = ed25519::Pair::generate().0;
    let own_address = random_address();
    let authority = signed_authority(&pens[0], SessionId(43), &own_address);
    for _ in 0..2 {
        let left = handler
            .update(Some(authority), verifier_of(&pens), own_address.clone())
            .unwrap();
        let expected: Vec<MockAddress> = [1, 3, 5, 6].iter().map(|i| addresses[*i].clone()).collect();
        assert_eq!(left, expected);
        assert_eq!(handler.missing_nodes(), vec![NodeIndex(2), NodeIndex(4)]);
        assert_eq!(handler.session_id(), SessionId(43));
        let own = authentication(&handler);
        assert_eq!(own.0.address(), own_address);
        assert_eq!(own.1, authority.signature);
        assert_eq!(legacy_authentication(&handler).1, authority.legacy_signature);
    }
}

#[test]
fn an_update_purges_statements_about_the_new_own_address() {
    let (pens, verifier) = crypto_basics(NUM_NODES);
    let mut handler = new_handler(None, verifier.clone(), SessionId(43), random_address());
    let address = random_address();
    let (current, legacy) = authentications_of(&pens[1], SessionId(43), &address);
    assert!(handler.handle_authentication(current).is_some());
    assert!(handler.handle_legacy_authentication(legacy).is_some());
    assert!(handler.update(None, verifier, address).unwrap().is_empty());
    assert_eq!(handler.missing_nodes(), indices(0..NUM_NODES));
}

#[test]
fn an_update_keeps_the_kind_that_still_counts() {
    let (mut pens, verifier) = crypto_basics(NUM_NODES);
    let mut handler = new_handler(None, verifier, SessionId(43), random_address());
    let address = random_address();
    let (current, _) = authentications_of(&pens[1], SessionId(43), &address);
    let (_, legacy) = authentications_of(&pens[2], SessionId(43), &address);
    assert!(handler.handle_authentication(current).is_some());
    assert!(handler.handle_legacy_authentication(legacy).is_some());
    pens[1].1 = ed25519::Pair::generate().0;
    let left = handler
        .update(None, verifier_of(&pens), random_address())
        .unwrap();
    assert_eq!(left, vec![address.clone()]);
    assert!(handler.peer_id(&NodeIndex(1)).is_none());
    assert_eq!(handler.peer_id(&NodeIndex(2)), Some(address.peer_id()));
    pens[2].1 = ed25519::Pair::generate().0;
    let left = handler
        .update(None, verifier_of(&pens), random_address())
        .unwrap();
    assert!(left.is_empty());
}

#[test]
fn an_update_request_is_what_has_to_be_signed() {
    let (pens, verifier) = crypto_basics(NUM_NODES);
    let address = random_address();
    let validator = new_handler(
        Some(&pens[0]),
        verifier.clone(),
        SessionId(43),
        random_address(),
    );
    let request = validator
        .update_request(Some(NodeIndex(2)), &address)
        .unwrap()
        .unwrap();
    let expected = SigningRequest::new::<MockMultiaddress, MockAddress>(
        NodeIndex(2),
        SessionId(43),
        &address,
    );
    assert_eq!(request.message, expected.message);
    assert_eq!(request.legacy_message, expected.legacy_message);
    assert!(matches!(
        validator.update_request(None, &address),
        Err(HandlerError::TypeChange)
    ));
    let plain = new_handler(None, verifier, SessionId(43), random_address());
    assert!(plain.update_request(None, &address).unwrap().is_none());
    assert!(matches!(
        plain.update_request(Some(NodeIndex(2)), &address),
        Err(HandlerError::TypeChange)
    ));
}

#[test]
fn both_kinds_count_in_either_order() {
    let (pens, verifier) = crypto_basics(NUM_NODES);
    let address = random_address();
    let mut one = new_handler(None, verifier.clone(), SessionId(43), random_address());
    let mut another = new_handler(None, verifier, SessionId(43), random_address());
    let (current, legacy) = authentications_of(&pens[1], SessionId(43), &address);
    assert!(one.handle_authentication(current).is_some());
    assert!(one.handle_legacy_authentication(legacy).is_some());
    let (current, legacy) = authentications_of(&pens[1], SessionId(43), &address);
    assert!(another.handle_legacy_authentication(legacy).is_some());
    assert!(another.handle_authentication(current).is_some());
    assert_eq!(one.addresses(), another.addresses());
    assert_eq!(one.peers(), another.peers());
    assert_eq!(one.missing_nodes(), another.missing_nodes());
}

#[test]
fn an_update_does_not_depend_on_the_order_of_peers() {
    let (mut pens, verifier) = crypto_basics(NUM_NODES);
    let own_address = random_address();
    let addresses: Vec<MockAddress> = (0..NUM_NODES).map(|_| random_address()).collect();
    let mut one = new_handler(None, verifier.clone(), SessionId(43), own_address.clone());
    let mut another = new_handler(None, verifier, SessionId(43), own_address.clone());
    for i in 0..NUM_NODES {
        let j = NUM_NODES - 1 - i;
        let (current, _) = authentications_of(&pens[i], SessionId(43), &addresses[i]);
        assert!(one.handle_authentication(current).is_some());
        let (current, _) = authentications_of(&pens[j], SessionId(43), &addresses[j]);
        assert!(another.handle_authentication(current).is_some());
    }
    pens[3].1 = ed25519::Pair::generate().0;
    let left = one
        .update(None, verifier_of(&pens), own_address.clone())
        .unwrap();
    let mut other_left = another
        .update(None, verifier_of(&pens), own_address)
        .unwrap();
    other_left.reverse();
    assert_eq!(left.len(), NUM_NODES - 1);
    assert_eq!(left, other_left);
    assert_eq!(one.peers(), another.peers());
    assert_eq!(one.missing_nodes(), vec![NodeIndex(3)]);
    assert_eq!(another.missing_nodes(), vec![NodeIndex(3)]);
    for (i, address) in left.iter().enumerate() {
        assert!(left[i + 1..].iter().all(|other| other.peer_id() != address.peer_id()));
    }
}
