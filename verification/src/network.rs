//! What the library asks of the network that carries its messages.

use vstd::prelude::*;

verus! {

/// Why a message was not sent.
#[derive(Debug)]
pub enum NetworkError {
    SendFail,
}

/// Data that can be sent over the network. A value is known by its encoding: two values with the
/// same encoding are the same to the library.
///
/// The functions of the model, here and in the traits below, are for implementors to define; what
/// the library proves holds however they do.
pub trait Data: Sized {
    /// The bytes that the value is encoded to.
    closed spec fn encoding(&self) -> Seq<u8> {
        arbitrary()
    }

    /// Encodes the value.
    fn encode(&self) -> (bytes: Vec<u8>)
        ensures
            bytes@ == self.encoding(),
    ;

    /// Makes another copy of the value.
    fn duplicate(&self) -> (copy: Self)
        ensures
            copy.encoding() == self.encoding(),
    ;
}

/// The identity of a peer in the network.
pub trait PeerId: Data {
    /// Whether both are the identity of one peer.
    fn same(&self, other: &Self) -> (same: bool)
        ensures
            same == (self.encoding() == other.encoding()),
    ;
}

/// All the information needed to address a peer.
pub trait AddressingInformation: Data {
    /// How the addressed peers are identified.
    type PeerId: PeerId;

    /// The encoding of the identity of the peer behind an address, the address being encoded too.
    closed spec fn peer_of(address: Seq<u8>) -> Seq<u8> {
        arbitrary()
    }

    /// The identity of the peer behind the address.
    fn peer_id(&self) -> (peer_id: Self::PeerId)
        ensures
            peer_id.encoding() == Self::peer_of(self.encoding()),
    ;
}

/// The encodings of the items, one by one.
pub open spec fn encodings<M: Data>(items: Seq<M>) -> Seq<Seq<u8>> {
    items.map_values(|item: M| item.encoding())
}

/// Addressing information that can be written as a list of multiaddresses of type `M`, which is
/// how legacy peers exchange it, and that can be recovered from some such lists.
pub trait Multiaddressed<M: Data>: AddressingInformation {
    /// The encodings of the multiaddresses that stand for an encoded address.
    closed spec fn split(address: Seq<u8>) -> Seq<Seq<u8>> {
        arbitrary()
    }

    /// The encoding of the address that a list of encoded multiaddresses stands for, if it stands
    /// for one.
    closed spec fn join(multiaddresses: Seq<Seq<u8>>) -> Option<Seq<u8>> {
        arbitrary()
    }

    /// Writes the address as a list of multiaddresses.
    fn to_multiaddresses(&self) -> (multiaddresses: Vec<M>)
        ensures
            encodings(multiaddresses@) == Self::split(self.encoding()),
    ;

    /// Recovers an address from a list of multiaddresses, if there is one.
    fn from_multiaddresses(multiaddresses: &Vec<M>) -> (address: Option<Self>)
        ensures
            match address {
                Some(address) => Self::join(encodings(multiaddresses@)) == Some(address.encoding()),
                None => Self::join(encodings(multiaddresses@)) is None,
            },
    ;
}

/// Copies a list item by item.
pub(crate) fn duplicate_all<M: Data>(items: &Vec<M>) -> (copies: Vec<M>)
    ensures
        encodings(copies@) == encodings(items@),
{
    let mut copies: Vec<M> = Vec::new();
    let mut i: usize = 0;
    while i < items.len()
        invariant
            i <= items.len(),
            copies.len() == i,
            forall|j: int| 0 <= j < i ==> (#[trigger] copies@[j]).encoding() == items@[j].encoding(),
        decreases items.len() - i,
    {
        copies.push(items[i].duplicate());
        i += 1;
    }
    assert(encodings(copies@) =~= encodings(items@));
    copies
}

} // verus!
