//! The messages that peers exchange after the handshake, and their frames.
use crate::buffer::{buffer_with_capacity, contents, put, put_u32, put_u8};
use crate::error::Error;
use crate::wire::{be_bytes, be_value, from_be, lemma_be_value_of_bytes};
use vstd::prelude::*;
use vstd::slice::{slice_subrange, slice_to_vec};

verus! {

/// The kind of a message, which goes over the wire as one byte.
#[derive(Clone, Copy, Debug, PartialEq, Eq, Structural)]
pub enum MessageId {
    Choke,
    Unchoke,
    Interested,
    NotInterested,
    Have,
    Bitfield,
    Request,
    Piece,
    Cancel,
}

/// A message: its kind and the bytes that come with it.
#[derive(Debug)]
pub struct Message {
    pub message_id: MessageId,
    pub payload: Vec<u8>,
}

/// A message as mathematics.
pub struct MessageView {
    pub message_id: MessageId,
    pub payload: Seq<u8>,
}

impl View for Message {
    type V = MessageView;

    open spec fn view(&self) -> MessageView {
        MessageView { message_id: self.message_id, payload: self.payload@ }
    }
}

/// The byte that stands for a kind of message.
pub open spec fn id_byte(id: MessageId) -> u8 {
    match id {
        MessageId::Choke => 0,
        MessageId::Unchoke => 1,
        MessageId::Interested => 2,
        MessageId::NotInterested => 3,
        MessageId::Have => 4,
        MessageId::Bitfield => 5,
        MessageId::Request => 6,
        MessageId::Piece => 7,
        MessageId::Cancel => 8,
    }
}

/// The kind of message that a byte stands for, if it stands for one.
pub open spec fn id_of(byte: u8) -> Option<MessageId> {
    if byte == 0 {
        Some(MessageId::Choke)
    } else if byte == 1 {
        Some(MessageId::Unchoke)
    } else if byte == 2 {
        Some(MessageId::Interested)
    } else if byte == 3 {
        Some(MessageId::NotInterested)
    } else if byte == 4 {
        Some(MessageId::Have)
    } else if byte == 5 {
        Some(MessageId::Bitfield)
    } else if byte == 6 {
        Some(MessageId::Request)
    } else if byte == 7 {
        Some(MessageId::Piece)
    } else if byte == 8 {
        Some(MessageId::Cancel)
    } else {
        None
    }
}

/// The body of a frame: the byte of the kind, then the payload.
pub open spec fn body_of(message: MessageView) -> Seq<u8> {
    seq![id_byte(message.message_id)] + message.payload
}

/// The frame of a message: the length of the body in four bytes, most
/// significant first, then the body.
pub open spec fn frame_of(message: MessageView) -> Seq<u8> {
    be_bytes((1 + message.payload.len()) as u32) + body_of(message)
}

/// What the four bytes at the start of a frame announce.
#[derive(Clone, Copy, Debug, PartialEq, Eq, Structural)]
pub enum Header {
    /// A frame without a body, which only keeps the connection alive and is
    /// passed over.
    KeepAlive,
    /// A body of this many bytes.
    Body(u32),
}

/// What four bytes at the start of a frame announce: a length of zero is a
/// keep-alive.
pub open spec fn header_of(bytes: Seq<u8>) -> Header {
    if be_value(bytes) == 0 {
        Header::KeepAlive
    } else {
        Header::Body(be_value(bytes) as u32)
    }
}

/// The message that the body of a frame holds, if it holds one: the body is
/// not empty and starts with the byte of a kind.
pub open spec fn message_in(body: Seq<u8>) -> Option<MessageView> {
    if body.len() >= 1 && id_of(body[0]) is Some {
        Some(
            MessageView {
                message_id: id_of(body[0])->0,
                payload: body.subrange(1, body.len() as int),
            },
        )
    } else {
        None
    }
}

/// Whether a payload of `len` bytes fits in a frame: the length of the body
/// fits in 32 bits and the frame in memory.
pub open spec fn payload_fits(len: nat) -> bool {
    len + 1 <= u32::MAX && len + 5 <= isize::MAX
}

/// A message that is framed and read again is the same message.
pub proof fn lemma_frame_read(message: MessageView)
    requires
        payload_fits(message.payload.len()),
    ensures
        frame_of(message).len() == 5 + message.payload.len(),
        header_of(frame_of(message).subrange(0, 4)) == Header::Body(
            (1 + message.payload.len()) as u32,
        ),
        message_in(frame_of(message).subrange(4, frame_of(message).len() as int)) == Some(message),
{
    let frame = frame_of(message);
    let n = (1 + message.payload.len()) as u32;
    lemma_be_value_of_bytes(n);
    assert(frame.subrange(0, 4) =~= be_bytes(n));
    let body = frame.subrange(4, frame.len() as int);
    assert(body =~= body_of(message));
    assert(body.subrange(1, body.len() as int) =~= message.payload);
}

impl MessageId {
    /// The kind of message that `value` stands for; `PeerProtocolError` where
    /// it stands for none.
    pub fn from_byte(value: u8) -> (res: Result<MessageId, Error>)
        ensures
            match res {
                Ok(id) => id_of(value) == Some(id),
                Err(e) => e == Error::PeerProtocolError && id_of(value) is None,
            },
    {
        match value {
            0 => Ok(MessageId::Choke),
            1 => Ok(MessageId::Unchoke),
            2 => Ok(MessageId::Interested),
            3 => Ok(MessageId::NotInterested),
            4 => Ok(MessageId::Have),
            5 => Ok(MessageId::Bitfield),
            6 => Ok(MessageId::Request),
            7 => Ok(MessageId::Piece),
            8 => Ok(MessageId::Cancel),
            _ => Err(Error::PeerProtocolError),
        }
    }

    /// The byte that stands for this kind of message.
    pub fn byte(self) -> (value: u8)
        ensures
            value == id_byte(self),
            id_of(value) == Some(self),
    {
        match self {
            MessageId::Choke => 0,
            MessageId::Unchoke => 1,
            MessageId::Interested => 2,
            MessageId::NotInterested => 3,
            MessageId::Have => 4,
            MessageId::Bitfield => 5,
            MessageId::Request => 6,
            MessageId::Piece => 7,
            MessageId::Cancel => 8,
        }
    }
}

/// The frame of `message`, ready to be sent in one write.
///
/// The call fails with `PeerProtocolError`, and only then, where the payload
/// is too long for a frame.
pub fn frame_message(message: &Message) -> (res: Result<Vec<u8>, Error>)
    ensures
        match res {
            Ok(frame) => payload_fits(message.payload@.len()) && frame@ == frame_of(message@),
            Err(e) => e == Error::PeerProtocolError && !payload_fits(message.payload@.len()),
        },
{
    let len = message.payload.len();
    if len > 0xffff_fffe || len > isize::MAX as usize - 5 {
        return Err(Error::PeerProtocolError);
    }
    let mut buf = buffer_with_capacity(4 + 1 + len);
    put_u32(&mut buf, 1 + len as u32);
    put_u8(&mut buf, message.message_id.byte());
    put(&mut buf, message.payload.as_slice());
    let frame = contents(&buf);
    assert(frame@ =~= frame_of(message@));
    Ok(frame)
}

/// Reads the four bytes that every frame starts with: a keep-alive, or the
/// length of the body that follows.
pub fn read_header(header: &[u8; 4]) -> (res: Header)
    ensures
        res == header_of(header@),
{
    let length = from_be(header);
    if length == 0 {
        Header::KeepAlive
    } else {
        Header::Body(length)
    }
}

/// The message in the body of a frame.
///
/// The call fails with `PeerProtocolError`, and only then, where the body is
/// empty or starts with a byte that stands for no kind of message.
pub fn read_body(body: &[u8]) -> (res: Result<Message, Error>)
    ensures
        match res {
            Ok(message) => message_in(body@) == Some(message@),
            Err(e) => e == Error::PeerProtocolError && message_in(body@) is None,
        },
{
    if body.len() == 0 {
        return Err(Error::PeerProtocolError);
    }
    match MessageId::from_byte(body[0]) {
        Ok(message_id) => Ok(
            Message { message_id, payload: slice_to_vec(slice_subrange(body, 1, body.len())) },
        ),
        Err(e) => Err(e),
    }
}

/// Hands `message` on if it is of the kind `message_id`, and fails with
/// `PeerProtocolError` if it is of another kind.
pub fn expect(message: Message, message_id: MessageId) -> (res: Result<Message, Error>)
    ensures
        match res {
            Ok(same) => same == message && message.message_id == message_id,
            Err(e) => e == Error::PeerProtocolError && message.message_id != message_id,
        },
{
    if message.message_id == message_id {
        Ok(message)
    } else {
        Err(Error::PeerProtocolError)
    }
}

/// The message of the kind `message_id` in the body of a frame.
///
/// The call fails with `PeerProtocolError`, and only then, where the body
/// holds no message or a message of another kind.
pub fn wait_message(body: &[u8], message_id: MessageId) -> (res: Result<Message, Error>)
    ensures
        match res {
            Ok(message) => message_in(body@) == Some(message@) && message.message_id
                == message_id,
            Err(e) => e == Error::PeerProtocolError && (message_in(body@) matches Some(m)
                ==> m.message_id != message_id),
        },
{
    match read_body(body) {
        Ok(message) => expect(message, message_id),
        Err(e) => Err(e),
    }
}

} // verus!
