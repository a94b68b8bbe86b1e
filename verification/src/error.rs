use vstd::prelude::*;

verus! {

/// Everything that can go wrong while handling a torrent.
///
/// Every failure is fatal for the operation that met it; nothing is retried.
#[derive(Clone, Copy, Debug, PartialEq, Eq, Structural)]
pub enum Error {
    /// The input is not a bencoded value.
    MalformedBencode,
    /// A metainfo field is missing, has the wrong type or an impossible value.
    MetainfoInvalid,
    /// The tracker could not be asked, or its answer is not a peer list.
    TrackerError,
    /// The peer's handshake is short, or names another protocol or torrent.
    HandshakeFailed,
    /// The peer sent a message that the protocol does not allow at that point.
    PeerProtocolError,
    /// A downloaded piece does not hash to the value in the metainfo.
    PieceHashMismatch,
    /// A local file could not be read or written.
    IoError,
}

} // verus!
