use parity_scale_codec::Encode;
use session_handler::authentication::{AuthData, LegacyAuthData};
use session_handler::crypto::{AuthorityId, AuthorityVerifier, Signature};
use session_handler::network::{
    AddressingInformation, Data, Multiaddressed, NetworkError, PeerId,
};
use session_handler::session::SigningRequest;
use session_handler::types::{NodeCount, NodeIndex, SessionId};

/// A name stands for a peer, an address and a multiaddress alike.
#[derive(Clone, Debug, PartialEq)]
struct Name(String);

impl Data for Name {
    fn encode(&self) -> Vec<u8> {
        self.0.encode()
    }

    fn duplicate(&self) -> Name {
        self.clone()
    }
}

impl PeerId for Name {
    fn same(&self, other: &Name) -> bool {
        self == other
    }
}

impl AddressingInformation for Name {
    type PeerId = Name;

    fn peer_id(&self) -> Name {
        self.clone()
    }
}

impl Multiaddressed<Name> for Name {
    fn to_multiaddresses(&self) -> Vec<Name> {
        vec![self.clone(), self.clone()]
    }

    fn from_multiaddresses(multiaddresses: &Vec<Name>) -> Option<Name> {
        multiaddresses.first().cloned()
    }
}

fn name(text: &str) -> Name {
    Name(String::from(text))
}

#[test]
fn a_statement_is_encoded_field_by_field() {
    let auth_data = AuthData {
        address: name("ab"),
        node_id: NodeIndex(0x0102),
        session_id: SessionId(0x0a0b0c0d),
    };
    let expected: Vec<u8> = vec![
        8, b'a', b'b', 2, 1, 0, 0, 0, 0, 0, 0, 0x0d, 0x0c, 0x0b, 0x0a,
    ];
    assert_eq!(auth_data.encode(), expected);
    let node_index = aleph_bft_types::NodeIndex(0x0102);
    assert_eq!(expected, ("ab", node_index, 0x0a0b0c0du32).encode());
    assert_eq!(auth_data.duplicate().encode(), expected);
}

#[test]
fn a_legacy_statement_is_encoded_as_a_list() {
    let legacy_auth_data = LegacyAuthData {
        addresses: vec![name("ab"), name("c")],
        node_id: NodeIndex(3),
        session_id: SessionId(43),
    };
    let expected: Vec<u8> = vec![
        8, 8, b'a', b'b', 4, b'c', 3, 0, 0, 0, 0, 0, 0, 0, 43, 0, 0, 0,
    ];
    assert_eq!(legacy_auth_data.encode(), expected);
    assert_eq!(legacy_auth_data.duplicate().encode(), expected);
}

#[test]
fn lists_of_all_lengths_are_encoded_alike() {
    for length in [0usize, 1, 63, 64, 16383, 16384] {
        let addresses: Vec<Name> = (0..length).map(|i| Name(i.to_string())).collect();
        let plain: Vec<String> = addresses.iter().map(|a| a.0.clone()).collect();
        let legacy_auth_data = LegacyAuthData {
            addresses,
            node_id: NodeIndex(usize::MAX),
            session_id: SessionId(u32::MAX),
        };
        assert_eq!(
            legacy_auth_data.encode(),
            (plain, usize::MAX as u64, u32::MAX).encode()
        );
    }
}

#[test]
fn legacy_forms_keep_node_and_session() {
    let auth_data = AuthData {
        address: name("ab"),
        node_id: NodeIndex(3),
        session_id: SessionId(43),
    };
    let legacy_auth_data: LegacyAuthData<Name> = LegacyAuthData::from_auth_data(&auth_data);
    assert_eq!(legacy_auth_data.addresses, vec![name("ab"), name("ab")]);
    assert_eq!(legacy_auth_data.creator(), NodeIndex(3));
    assert_eq!(legacy_auth_data.session(), SessionId(43));
    let back: AuthData<Name> = legacy_auth_data.to_auth_data().unwrap();
    assert_eq!(back.encode(), auth_data.encode());
    let request = SigningRequest::new::<Name, Name>(NodeIndex(3), SessionId(43), &name("ab"));
    assert_eq!(request.message, auth_data.encode());
    assert_eq!(request.legacy_message, legacy_auth_data.encode());
}

#[test]
fn different_statements_are_different_messages() {
    let encode = |address: &str, node_id: usize, session_id: u32| {
        AuthData {
            address: name(address),
            node_id: NodeIndex(node_id),
            session_id: SessionId(session_id),
        }
        .encode()
    };
    let message = encode("ab", 3, 43);
    assert_ne!(message, encode("abc", 3, 43));
    assert_ne!(message, encode("ab", 4, 43));
    assert_ne!(message, encode("ab", 3, 44));
    assert_eq!(message, encode("ab", 3, 43));
    let encode_legacy = |addresses: Vec<Name>| {
        LegacyAuthData {
            addresses,
            node_id: NodeIndex(3),
            session_id: SessionId(43),
        }
        .encode()
    };
    assert_ne!(
        encode_legacy(vec![name("ab"), name("c")]),
        encode_legacy(vec![name("a"), name("bc")])
    );
}

fn hex(text: &str) -> Vec<u8> {
    (0..text.len() / 2)
        .map(|i| u8::from_str_radix(&text[2 * i..2 * i + 2], 16).unwrap())
        .collect()
}

#[test]
fn signatures_are_those_of_ed25519() {
    let public = hex("3d4017c3e843895a92b70aa74d1b7ebc9c982ccf2ec4968cc0cd55f12af4660c");
    let signature = hex(
        "92a009a9f0d4cab8720e820b5f642540a2b27b5416503f8fb3762223ebdb69da\
         085ac1e43e15996e458f3613d0f11d8c387b2eaeb4302aeeb00d291612bb0c00",
    );
    let public = AuthorityId(public.try_into().unwrap());
    let mut signature = Signature(signature.try_into().unwrap());
    let verifier = AuthorityVerifier::new(vec![AuthorityId([7; 32]), public]);
    assert_eq!(verifier.node_count(), NodeCount(2));
    assert!(verifier.verify(&[0x72], &signature, NodeIndex(1)));
    assert!(verifier.clone().verify(&[0x72], &signature, NodeIndex(1)));
    assert!(!verifier.verify(&[0x73], &signature, NodeIndex(1)));
    assert!(!verifier.verify(&[0x72], &signature, NodeIndex(0)));
    assert!(!verifier.verify(&[0x72], &signature, NodeIndex(2)));
    signature.0[0] ^= 1;
    assert!(!verifier.verify(&[0x72], &signature, NodeIndex(1)));
}

#[test]
fn errors_can_be_shown() {
    assert_eq!(format!("{:?}", NetworkError::SendFail), "SendFail");
}
