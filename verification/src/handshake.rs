//! The handshake: the 68 bytes that each side sends first on a new
//! connection.
use crate::error::Error;
use crate::order::bytes_equal;
use crate::wire::append_bytes;
use vstd::prelude::*;
use vstd::slice::{slice_subrange, slice_to_vec};

verus! {

/// The number of bytes of a handshake.
pub const HANDSHAKE_SIZE: usize = 68;

/// The handshake, field by field as it goes over the wire.
pub struct Handshake {
    /// The length of the protocol name: 19.
    pub protocol_length: u8,
    /// The protocol name: `BitTorrent protocol`.
    pub protocol: [u8; 19],
    pub reserved_bytes: [u8; 8],
    /// The hash that names the torrent.
    pub info_hash: [u8; 20],
    pub peer_id: [u8; 20],
}

/// The name of the protocol, `BitTorrent protocol`, in ASCII.
pub open spec fn protocol_name() -> Seq<u8> {
    seq![
        66u8,
        105,
        116,
        84,
        111,
        114,
        114,
        101,
        110,
        116,
        32,
        112,
        114,
        111,
        116,
        111,
        99,
        111,
        108,
    ]
}

/// The identity under which this client shakes hands:
/// `00112233445566778899` in ASCII.
pub open spec fn client_id() -> Seq<u8> {
    seq![48u8, 48, 49, 49, 50, 50, 51, 51, 52, 52, 53, 53, 54, 54, 55, 55, 56, 56, 57, 57]
}

/// The 28 bytes that every handshake starts with: the length of the protocol
/// name, the name, and eight reserved bytes that are zero.
pub open spec fn handshake_prefix() -> Seq<u8> {
    seq![19u8] + protocol_name() + seq![0u8, 0, 0, 0, 0, 0, 0, 0]
}

/// The handshake that a client with the identity `peer_id` sends for the
/// torrent `info_hash`.
pub open spec fn handshake_bytes(info_hash: Seq<u8>, peer_id: Seq<u8>) -> Seq<u8> {
    handshake_prefix() + info_hash + peer_id
}

/// The identity of the peer whose handshake `reply` answers ours for
/// `info_hash`, or `None` where the reply is short, names another protocol or
/// names another torrent.
pub open spec fn reply_peer(reply: Seq<u8>, info_hash: Seq<u8>) -> Option<Seq<u8>> {
    if reply.len() >= 68 && reply[0] == 19 && reply.subrange(1, 20) == protocol_name()
        && reply.subrange(28, 48) == info_hash {
        Some(reply.subrange(48, 68))
    } else {
        None
    }
}

/// The name of the protocol as the handshake holds it.
fn protocol() -> (name: [u8; 19])
    ensures
        name@ == protocol_name(),
{
    let name: [u8; 19] = [
        66,
        105,
        116,
        84,
        111,
        114,
        114,
        101,
        110,
        116,
        32,
        112,
        114,
        111,
        116,
        111,
        99,
        111,
        108,
    ];
    assert(name@ =~= protocol_name());
    name
}

impl Handshake {
    /// The bytes of the handshake, in the order of the wire.
    pub open spec fn bytes(&self) -> Seq<u8> {
        seq![self.protocol_length] + self.protocol@ + self.reserved_bytes@ + self.info_hash@
            + self.peer_id@
    }

    /// The handshake that this client sends for the torrent `info_hash`.
    pub fn new(info_hash: [u8; 20]) -> (handshake: Self)
        ensures
            handshake.protocol_length == 19,
            handshake.protocol@ == protocol_name(),
            handshake.reserved_bytes@ == seq![0u8, 0, 0, 0, 0, 0, 0, 0],
            handshake.info_hash == info_hash,
            handshake.peer_id@ == client_id(),
            handshake.bytes() == handshake_bytes(info_hash@, client_id()),
    {
        let protocol = protocol();
        let reserved_bytes: [u8; 8] = [0, 0, 0, 0, 0, 0, 0, 0];
        let peer_id: [u8; 20] = [
            48,
            48,
            49,
            49,
            50,
            50,
            51,
            51,
            52,
            52,
            53,
            53,
            54,
            54,
            55,
            55,
            56,
            56,
            57,
            57,
        ];
        assert(reserved_bytes@ =~= seq![0u8, 0, 0, 0, 0, 0, 0, 0]);
        assert(peer_id@ =~= client_id());
        let handshake = Self { protocol_length: 19, protocol, reserved_bytes, info_hash, peer_id };
        assert(handshake.bytes() =~= handshake_bytes(info_hash@, client_id()));
        handshake
    }

    /// The 68 bytes of the handshake as they go over the wire: the length of
    /// the protocol name, the name, the reserved bytes, the hash, the
    /// identity. The handshake itself stays as it is.
    pub fn as_bytes_mut(&mut self) -> (bytes: Vec<u8>)
        ensures
            *final(self) == *old(self),
            bytes@ == old(self).bytes(),
            bytes.len() == 68,
    {
        let mut bytes: Vec<u8> = Vec::new();
        bytes.push(self.protocol_length);
        append_bytes(&mut bytes, self.protocol.as_slice());
        append_bytes(&mut bytes, self.reserved_bytes.as_slice());
        append_bytes(&mut bytes, self.info_hash.as_slice());
        append_bytes(&mut bytes, self.peer_id.as_slice());
        assert(bytes@ =~= self.bytes());
        bytes
    }
}

/// The handshake that this client sends for the torrent `info_hash`: exactly
/// 68 bytes, of which the first 28 are the same for every torrent.
pub fn handshake_request(info_hash: [u8; 20]) -> (bytes: Vec<u8>)
    ensures
        bytes@ == handshake_bytes(info_hash@, client_id()),
        bytes.len() == 68,
        bytes@.subrange(0, 28) == handshake_prefix(),
        bytes@.subrange(28, 48) == info_hash@,
{
    let mut handshake = Handshake::new(info_hash);
    let bytes = handshake.as_bytes_mut();
    assert(bytes@.subrange(0, 28) =~= handshake_prefix());
    assert(bytes@.subrange(28, 48) =~= info_hash@);
    bytes
}

/// Reads the handshake with which a peer answers ours for the torrent
/// `info_hash`, and gives the identity of the peer: the last 20 of the 68
/// bytes.
///
/// The call fails with `HandshakeFailed`, and only then, where the reply has
/// fewer than 68 bytes, does not start with the length and the name of the
/// protocol, or names another torrent. The reserved bytes and the identity may
/// be anything.
pub fn check_reply(reply: &[u8], info_hash: &[u8]) -> (res: Result<Vec<u8>, Error>)
    ensures
        match res {
            Ok(peer_id) => reply_peer(reply@, info_hash@) == Some(peer_id@) && peer_id.len()
                == 20,
            Err(e) => e == Error::HandshakeFailed && reply_peer(reply@, info_hash@) is None,
        },
{
    if reply.len() < 68 || reply[0] != 19 {
        return Err(Error::HandshakeFailed);
    }
    let protocol = protocol();
    if !bytes_equal(slice_subrange(reply, 1, 20), protocol.as_slice()) {
        return Err(Error::HandshakeFailed);
    }
    if !bytes_equal(slice_subrange(reply, 28, 48), info_hash) {
        return Err(Error::HandshakeFailed);
    }
    Ok(slice_to_vec(slice_subrange(reply, 48, 68)))
}

} // verus!
