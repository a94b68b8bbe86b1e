//! Downloading pieces from one peer: which step comes next, and what each
//! answer of the peer leads to.
//!
//! The download does no input or output of its own. It says what is to be
//! done next, is told what came of it, and hands out each piece once the
//! piece is complete and has the digest that the metainfo asks for.
use crate::digest::{sha1, sha1_digest};
use crate::error::Error;
use crate::handshake::{check_reply, client_id, handshake_bytes, handshake_request, reply_peer};
use crate::message::{Message, MessageId, MessageView};
use crate::order::bytes_equal;
use crate::peer::{piece_in, request_bytes, Piece, Request};
use crate::torrent::{InfoView, TorrentFileInfo};
use crate::wire::append_bytes;
use vstd::prelude::*;
use vstd::slice::slice_subrange;

verus! {

/// The number of bytes of a block, the unit in which pieces are asked for: 16
/// KiB. The last block of a piece may be shorter.
pub const BLOCK_SIZE: u32 = 16384;

/// How far the exchange with the peer has come.
#[derive(Clone, Copy, Debug, PartialEq, Eq, Structural)]
pub enum PeerState {
    /// The connection stands; nothing has been sent.
    Connected,
    /// The handshakes have been exchanged.
    Handshaken,
    /// The peer has said which pieces it has.
    Idle,
    /// The peer knows that we are interested and has not unchoked us yet.
    Waiting,
    /// The peer takes requests.
    Ready,
    /// The download is over, done or failed.
    Closed,
}

/// What is to be done next.
#[derive(Debug)]
pub enum Action {
    /// Send these 68 bytes, read 68 bytes and hand them to
    /// `handshake_received`.
    Handshake(Vec<u8>),
    /// Read the next message and hand it to `received`.
    Receive,
    /// Send this message and call `sent`.
    Send(Message),
    /// A piece is complete: fetch it with `take_piece`.
    Deliver,
    /// Nothing more: the download is over.
    Stop,
}

/// What is to be done next, as mathematics.
pub enum ActionView {
    Handshake(Seq<u8>),
    Receive,
    Send(MessageView),
    Deliver,
    Stop,
}

impl View for Action {
    type V = ActionView;

    open spec fn view(&self) -> ActionView {
        match self {
            Action::Handshake(bytes) => ActionView::Handshake(bytes@),
            Action::Receive => ActionView::Receive,
            Action::Send(message) => ActionView::Send(message@),
            Action::Deliver => ActionView::Deliver,
            Action::Stop => ActionView::Stop,
        }
    }
}

/// The download of a run of pieces from one peer.
pub struct Download {
    info: TorrentFileInfo,
    hash: [u8; 20],
    state: PeerState,
    index: usize,
    end: usize,
    buffer: Vec<u8>,
    requested: bool,
}

/// A download as mathematics.
pub struct DownloadView {
    pub info: InfoView,
    pub state: PeerState,
    /// The piece that is being downloaded.
    pub index: nat,
    /// The piece at which the download ends: the one behind the last piece
    /// that is wanted.
    pub end: nat,
    /// The bytes of the piece that have arrived.
    pub received: Seq<u8>,
    /// Whether a block has been asked for and not arrived yet.
    pub requested: bool,
}

/// Whether the pieces from `first` on, `count` of them, can be downloaded
/// with the metainfo `info`: the metainfo is valid and has as many digests as
/// the file has pieces, the pieces are there, and sizes and indices fit the 32
/// bits that they have on the wire.
pub open spec fn can_download(info: InfoView, first: nat, count: nat) -> bool {
    &&& info.valid()
    &&& info.consistent()
    &&& info.piece_length <= u32::MAX
    &&& info.piece_count() <= u32::MAX
    &&& count >= 1
    &&& first + count <= info.piece_count()
}

impl DownloadView {
    /// The size of the piece that is being downloaded.
    pub open spec fn size(self) -> int {
        self.info.piece_size(self.index as int)
    }

    /// Whether the piece that is being downloaded has arrived in full.
    pub open spec fn complete(self) -> bool {
        self.received.len() == self.size()
    }

    /// The size of the block that is asked for next: 16 KiB, or what is left
    /// of the piece.
    pub open spec fn block_len(self) -> int {
        if self.size() - self.received.len() >= BLOCK_SIZE {
            BLOCK_SIZE as int
        } else {
            self.size() - self.received.len()
        }
    }

    /// The download after it has failed or ended: closed, with what had
    /// arrived of the piece thrown away.
    pub open spec fn closed(self) -> DownloadView {
        DownloadView { state: PeerState::Closed, received: Seq::empty(), requested: false, ..self }
    }

    /// The request for the next block.
    pub open spec fn next_request(self) -> MessageView {
        MessageView {
            message_id: MessageId::Request,
            payload: request_bytes(
                self.index as u32,
                self.received.len() as u32,
                self.block_len() as u32,
            ),
        }
    }

    /// What is to be done next.
    ///
    /// A complete piece is delivered before anything else. Otherwise the
    /// state decides: the handshake comes first, then the wait for the
    /// bitfield, the message that we are interested, the wait for the
    /// unchoke, and then request after request, each followed by the wait for
    /// its block.
    pub open spec fn action(self) -> ActionView {
        match self.state {
            PeerState::Connected => ActionView::Handshake(
                handshake_bytes(self.info.info_hash(), client_id()),
            ),
            PeerState::Handshaken => ActionView::Receive,
            PeerState::Idle => ActionView::Send(
                MessageView { message_id: MessageId::Interested, payload: Seq::empty() },
            ),
            PeerState::Waiting => if self.complete() {
                ActionView::Deliver
            } else {
                ActionView::Receive
            },
            PeerState::Ready => if self.complete() {
                ActionView::Deliver
            } else if self.requested {
                ActionView::Receive
            } else {
                ActionView::Send(self.next_request())
            },
            PeerState::Closed => ActionView::Stop,
        }
    }

    /// The download after the peer has answered our handshake with `reply`,
    /// and the identity of the peer.
    ///
    /// A reply that is short or names another protocol or torrent fails the
    /// handshake; a reply at any other time than right after the connection
    /// is against the protocol. Either closes the download.
    pub open spec fn on_handshake(self, reply: Seq<u8>) -> (DownloadView, Result<Seq<u8>, Error>) {
        if self.state == PeerState::Connected {
            match reply_peer(reply, self.info.info_hash()) {
                Some(peer_id) => (
                    DownloadView { state: PeerState::Handshaken, ..self },
                    Ok(peer_id),
                ),
                None => (self.closed(), Err(Error::HandshakeFailed)),
            }
        } else {
            (self.closed(), Err(Error::PeerProtocolError))
        }
    }

    /// The download after the message that `action` asked for has been sent.
    pub open spec fn on_sent(self) -> DownloadView {
        if self.state == PeerState::Idle {
            DownloadView { state: PeerState::Waiting, ..self }
        } else if self.state == PeerState::Ready && !self.complete() {
            DownloadView { requested: true, ..self }
        } else {
            self
        }
    }

    /// The download after the block of a `Piece` message has arrived while
    /// the peer takes requests.
    ///
    /// The block has to be the one that was asked for: of this piece, at the
    /// place where the bytes that have arrived end, and of the size that was
    /// asked for. Anything else is against the protocol. The block that
    /// completes the piece has to give the piece the digest that the metainfo
    /// asks for.
    pub open spec fn on_block(self, payload: Seq<u8>) -> (DownloadView, Result<(), Error>) {
        match piece_in(payload) {
            Some(piece) => if self.requested && piece.index == self.index && piece.begin
                == self.received.len() && piece.block.len() == self.block_len() {
                let whole = self.received + piece.block;
                if whole.len() == self.size() && sha1_digest(whole) != self.info.piece_hash(
                    self.index as int,
                ) {
                    (self.closed(), Err(Error::PieceHashMismatch))
                } else {
                    (DownloadView { received: whole, requested: false, ..self }, Ok(()))
                }
            } else {
                (self.closed(), Err(Error::PeerProtocolError))
            },
            None => (self.closed(), Err(Error::PeerProtocolError)),
        }
    }

    /// The download after `message` has arrived.
    ///
    /// After the handshake only a bitfield is in order, and while we wait to
    /// be unchoked only the unchoke. While the peer takes requests, `Have` and
    /// `Bitfield` are passed over, `Choke` sends us back to waiting, and
    /// `Piece` has to bring the block that was asked for. Everything else is
    /// against the protocol and closes the download.
    pub open spec fn on_message(self, message: MessageView) -> (DownloadView, Result<(), Error>) {
        match self.state {
            PeerState::Handshaken => if message.message_id == MessageId::Bitfield {
                (DownloadView { state: PeerState::Idle, ..self }, Ok(()))
            } else {
                (self.closed(), Err(Error::PeerProtocolError))
            },
            PeerState::Waiting => if message.message_id == MessageId::Unchoke {
                (DownloadView { state: PeerState::Ready, ..self }, Ok(()))
            } else {
                (self.closed(), Err(Error::PeerProtocolError))
            },
            PeerState::Ready => match message.message_id {
                MessageId::Have | MessageId::Bitfield => (self, Ok(())),
                MessageId::Choke => (
                    DownloadView { state: PeerState::Waiting, requested: false, ..self },
                    Ok(()),
                ),
                MessageId::Piece => self.on_block(message.payload),
                _ => (self.closed(), Err(Error::PeerProtocolError)),
            },
            _ => (self.closed(), Err(Error::PeerProtocolError)),
        }
    }

    /// The download after a complete piece has been fetched: on to the next
    /// piece, or closed after the last one.
    pub open spec fn on_take(self) -> DownloadView {
        if !self.complete() {
            self
        } else if self.index + 1 < self.end {
            DownloadView { index: self.index + 1, received: Seq::empty(), ..self }
        } else {
            self.closed()
        }
    }
}

/// A message that fails closes the download, and a closed download stays
/// closed: there every message fails, nothing is left to do, and nothing is
/// handed out.
pub proof fn lemma_closed_is_final(download: DownloadView, message: MessageView)
    ensures
        download.on_message(message).1 is Err ==> download.on_message(message).0.state
            == PeerState::Closed,
        download.state == PeerState::Closed ==> download.on_message(message).1 is Err,
        download.state == PeerState::Closed ==> download.on_sent() == download,
        download.state == PeerState::Closed ==> download.action() == ActionView::Stop,
{
}

/// In a metainfo with as many digests as pieces, every piece has a size above
/// zero and not above the piece length.
pub proof fn lemma_piece_sizes(info: InfoView, i: int)
    requires
        info.valid(),
        info.consistent(),
        0 <= i < info.piece_count(),
    ensures
        0 < info.piece_size(i) <= info.piece_length,
{
}

impl View for Download {
    type V = DownloadView;

    closed spec fn view(&self) -> DownloadView {
        DownloadView {
            info: self.info@,
            state: self.state,
            index: self.index as nat,
            end: self.end as nat,
            received: self.buffer@,
            requested: self.requested,
        }
    }
}

impl Download {
    #[verifier::type_invariant]
    spec fn inv(self) -> bool {
        &&& self.info@.valid()
        &&& self.info@.consistent()
        &&& self.info@.piece_length <= u32::MAX
        &&& self.info@.piece_count() <= u32::MAX
        &&& self.hash@ == self.info@.info_hash()
        &&& self.index < self.end <= self.info@.piece_count()
        &&& self.buffer@.len() <= self.info@.piece_size(self.index as int)
        &&& self.buffer@.len() == self.info@.piece_size(self.index as int) ==> sha1_digest(
            self.buffer@,
        ) == self.info@.piece_hash(self.index as int)
        &&& self.requested ==> self.state == PeerState::Ready && self.buffer@.len()
            < self.info@.piece_size(self.index as int)
    }

    /// A download of the pieces from `first` on, `count` of them, over a
    /// connection on which nothing has been sent yet.
    ///
    /// The call fails with `MetainfoInvalid`, and only then, where the
    /// metainfo is not valid or has not as many digests as its file has
    /// pieces, a piece is asked for that the file has not, or a size or an
    /// index does not fit in 32 bits.
    pub fn new(info: TorrentFileInfo, first: usize, count: usize) -> (res: Result<Self, Error>)
        ensures
            match res {
                Ok(download) => can_download(info@, first as nat, count as nat) && download@ == (
                DownloadView {
                    info: info@,
                    state: PeerState::Connected,
                    index: first as nat,
                    end: (first + count) as nat,
                    received: Seq::empty(),
                    requested: false,
                }),
                Err(e) => e == Error::MetainfoInvalid && !can_download(
                    info@,
                    first as nat,
                    count as nat,
                ),
            },
    {
        if !info.is_valid() || !info.is_consistent() || info.piece_length > 0xffff_ffff {
            return Err(Error::MetainfoInvalid);
        }
        let pieces = info.piece_count();
        if pieces > 0xffff_ffff || count == 0 || first >= pieces || count > pieces - first {
            return Err(Error::MetainfoInvalid);
        }
        let hash = info.info_hash();
        proof {
            lemma_piece_sizes(info@, first as int);
        }
        Ok(
            Download {
                info,
                hash,
                state: PeerState::Connected,
                index: first,
                end: first + count,
                buffer: Vec::new(),
                requested: false,
            },
        )
    }

    /// How far the exchange with the peer has come.
    pub fn state(&self) -> (state: PeerState)
        ensures
            state == self@.state,
    {
        self.state
    }

    /// The piece that is being downloaded.
    pub fn index(&self) -> (index: usize)
        ensures
            index == self@.index,
    {
        self.index
    }

    /// The size of the piece that is being downloaded.
    fn size(&self) -> (size: usize)
        ensures
            size == self@.size(),
            0 < size <= u32::MAX,
            self.buffer@.len() <= size,
    {
        proof {
            use_type_invariant(self);
            lemma_piece_sizes(self.info@, self.index as int);
        }
        self.info.piece_size(self.index) as usize
    }

    /// The size of the block that is asked for next: a whole block, or what
    /// is left of the piece.
    fn block_len(&self) -> (len: u32)
        ensures
            len == self@.block_len(),
    {
        let left = self.size() - self.buffer.len();
        if left >= BLOCK_SIZE as usize {
            BLOCK_SIZE
        } else {
            left as u32
        }
    }

    /// What is to be done next.
    pub fn action(&self) -> (action: Action)
        ensures
            action@ == self@.action(),
    {
        proof {
            use_type_invariant(self);
        }
        let size = self.size();
        match self.state {
            PeerState::Connected => Action::Handshake(handshake_request(self.hash)),
            PeerState::Handshaken => Action::Receive,
            PeerState::Idle => Action::Send(
                Message { message_id: MessageId::Interested, payload: Vec::new() },
            ),
            PeerState::Waiting => if self.buffer.len() == size {
                Action::Deliver
            } else {
                Action::Receive
            },
            PeerState::Ready => if self.buffer.len() == size {
                Action::Deliver
            } else if self.requested {
                Action::Receive
            } else {
                let mut request = Request::new(
                    self.index as u32,
                    self.buffer.len() as u32,
                    self.block_len(),
                );
                Action::Send(
                    Message { message_id: MessageId::Request, payload: request.as_bytes_mut() },
                )
            },
            PeerState::Closed => Action::Stop,
        }
    }

    /// Closes the download and throws away what had arrived of the piece.
    fn close(&mut self)
        ensures
            final(self)@ == old(self)@.closed(),
    {
        proof {
            use_type_invariant(&*self);
            lemma_piece_sizes(self.info@, self.index as int);
        }
        self.requested = false;
        let mut empty: Vec<u8> = Vec::new();
        std::mem::swap(&mut self.buffer, &mut empty);
        self.state = PeerState::Closed;
    }

    /// Takes the handshake with which the peer has answered ours, and gives
    /// the identity of the peer.
    ///
    /// The call fails with `HandshakeFailed` where the reply is short or names
    /// another protocol or torrent, and with `PeerProtocolError` where no
    /// handshake is in order. A failure closes the download.
    pub fn handshake_received(&mut self, reply: &[u8]) -> (res: Result<Vec<u8>, Error>)
        ensures
            final(self)@ == old(self)@.on_handshake(reply@).0,
            match res {
                Ok(peer_id) => old(self)@.on_handshake(reply@).1 == Ok::<Seq<u8>, Error>(
                    peer_id@,
                ),
                Err(e) => old(self)@.on_handshake(reply@).1 == Err::<Seq<u8>, Error>(e),
            },
    {
        proof {
            use_type_invariant(&*self);
        }
        if self.state != PeerState::Connected {
            self.close();
            return Err(Error::PeerProtocolError);
        }
        match check_reply(reply, self.hash.as_slice()) {
            Ok(peer_id) => {
                self.state = PeerState::Handshaken;
                Ok(peer_id)
            },
            Err(e) => {
                self.close();
                Err(e)
            },
        }
    }

    /// Is told that the message that `action` asked for has been sent.
    pub fn sent(&mut self)
        ensures
            final(self)@ == old(self)@.on_sent(),
    {
        proof {
            use_type_invariant(&*self);
        }
        let size = self.size();
        if self.state == PeerState::Idle {
            self.state = PeerState::Waiting;
        } else if self.state == PeerState::Ready && self.buffer.len() != size {
            self.requested = true;
        }
    }

    /// Takes the block of a `Piece` message.
    fn block_received(&mut self, payload: &[u8]) -> (res: Result<(), Error>)
        requires
            old(self)@.state == PeerState::Ready,
        ensures
            final(self)@ == old(self)@.on_block(payload@).0,
            res == old(self)@.on_block(payload@).1,
    {
        proof {
            use_type_invariant(&*self);
        }
        let size = self.size();
        let piece = match Piece::ref_from_bytes(payload) {
            Some(piece) => piece,
            None => {
                self.close();
                return Err(Error::PeerProtocolError);
            },
        };
        if !self.requested {
            self.close();
            return Err(Error::PeerProtocolError);
        }
        let length = self.block_len() as usize;
        let block = piece.block();
        if piece.index() as usize != self.index || piece.begin() as usize != self.buffer.len()
            || block.len() != length {
            self.close();
            return Err(Error::PeerProtocolError);
        }
        self.requested = false;
        let mut whole: Vec<u8> = Vec::new();
        std::mem::swap(&mut self.buffer, &mut whole);
        append_bytes(&mut whole, block);
        if whole.len() == size {
            let digest = sha1(whole.as_slice());
            assert(self.index < self.info.pieces.len() / 20);
            let expected = slice_subrange(
                self.info.pieces.as_slice(),
                20 * self.index,
                20 * self.index + 20,
            );
            if !bytes_equal(digest.as_slice(), expected) {
                self.state = PeerState::Closed;
                assert(self@ == old(self)@.closed());
                return Err(Error::PieceHashMismatch);
            }
        }
        std::mem::swap(&mut self.buffer, &mut whole);
        Ok(())
    }

    /// Takes a message of the peer.
    ///
    /// The call fails with `PeerProtocolError` where the message is not in
    /// order at this point or brings another block than the one that was
    /// asked for, and with `PieceHashMismatch` where the block completes a
    /// piece that has not the digest of the metainfo. A failure closes the
    /// download.
    pub fn received(&mut self, message: &Message) -> (res: Result<(), Error>)
        ensures
            final(self)@ == old(self)@.on_message(message@).0,
            res == old(self)@.on_message(message@).1,
    {
        proof {
            use_type_invariant(&*self);
        }
        match self.state {
            PeerState::Handshaken => {
                if message.message_id == MessageId::Bitfield {
                    self.state = PeerState::Idle;
                    Ok(())
                } else {
                    self.close();
                    Err(Error::PeerProtocolError)
                }
            },
            PeerState::Waiting => {
                if message.message_id == MessageId::Unchoke {
                    self.state = PeerState::Ready;
                    Ok(())
                } else {
                    self.close();
                    Err(Error::PeerProtocolError)
                }
            },
            PeerState::Ready => {
                match message.message_id {
                    MessageId::Have | MessageId::Bitfield => Ok(()),
                    MessageId::Choke => {
                        self.requested = false;
                        self.state = PeerState::Waiting;
                        Ok(())
                    },
                    MessageId::Piece => self.block_received(message.payload.as_slice()),
                    _ => {
                        self.close();
                        Err(Error::PeerProtocolError)
                    },
                }
            },
            _ => {
                self.close();
                Err(Error::PeerProtocolError)
            },
        }
    }

    /// Hands out the piece that is complete, and goes on to the next piece or
    /// closes the download after the last one. `None`, and nothing changed,
    /// where no piece is complete.
    ///
    /// A piece that is handed out has the size and the SHA-1 digest that the
    /// metainfo gives for it.
    pub fn take_piece(&mut self) -> (res: Option<Vec<u8>>)
        ensures
            final(self)@ == old(self)@.on_take(),
            match res {
                Some(piece) => old(self)@.complete() && piece@ == old(self)@.received
                    && piece@.len() == old(self)@.info.piece_size(old(self)@.index as int)
                    && sha1_digest(piece@) == old(self)@.info.piece_hash(old(self)@.index as int),
                None => !old(self)@.complete(),
            },
    {
        proof {
            use_type_invariant(&*self);
        }
        let size = self.size();
        if self.buffer.len() != size {
            return None;
        }
        let mut piece: Vec<u8> = Vec::new();
        if self.index + 1 < self.end {
            proof {
                lemma_piece_sizes(self.info@, self.index + 1);
            }
            std::mem::swap(&mut self.buffer, &mut piece);
            self.index = self.index + 1;
        } else {
            std::mem::swap(&mut self.buffer, &mut piece);
            self.state = PeerState::Closed;
        }
        Some(piece)
    }
}

} // verus!
