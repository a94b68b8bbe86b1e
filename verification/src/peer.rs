//! Requests for blocks and the pieces of blocks that answer them.
pub use crate::message::wait_message;
use crate::wire::{append_bytes, be_bytes, be_value, from_be, lemma_be_value_of_bytes, to_be};
use vstd::prelude::*;
use vstd::slice::slice_subrange;

verus! {

/// The payload of a `Request` message: which block of which piece is asked
/// for. Each field holds its number in four bytes, most significant first.
pub struct Request {
    pub index: [u8; 4],
    pub begin: [u8; 4],
    pub length: [u8; 4],
}

impl Request {
    /// The twelve bytes of the request, in the order of the wire.
    pub open spec fn bytes(&self) -> Seq<u8> {
        self.index@ + self.begin@ + self.length@
    }

    /// The request for `length` bytes from the byte `begin` on of the piece
    /// `index`.
    pub fn new(index: u32, begin: u32, length: u32) -> (request: Self)
        ensures
            request.index@ == be_bytes(index),
            request.begin@ == be_bytes(begin),
            request.length@ == be_bytes(length),
            request.bytes() == request_bytes(index, begin, length),
            be_value(request.index@) == index,
            be_value(request.begin@) == begin,
            be_value(request.length@) == length,
    {
        proof {
            lemma_be_value_of_bytes(index);
            lemma_be_value_of_bytes(begin);
            lemma_be_value_of_bytes(length);
        }
        Self { index: to_be(index), begin: to_be(begin), length: to_be(length) }
    }

    /// The piece that is asked for.
    pub fn index(&self) -> (index: u32)
        ensures
            index == be_value(self.index@),
    {
        from_be(&self.index)
    }

    /// The byte of the piece at which the block starts.
    pub fn begin(&self) -> (begin: u32)
        ensures
            begin == be_value(self.begin@),
    {
        from_be(&self.begin)
    }

    /// The number of bytes that are asked for.
    pub fn length(&self) -> (length: u32)
        ensures
            length == be_value(self.length@),
    {
        from_be(&self.length)
    }

    /// The twelve bytes of the request as they go over the wire: the index,
    /// the begin, the length. The request itself stays as it is.
    pub fn as_bytes_mut(&mut self) -> (bytes: Vec<u8>)
        ensures
            *final(self) == *old(self),
            bytes@ == old(self).bytes(),
            bytes.len() == 12,
    {
        let mut bytes: Vec<u8> = Vec::new();
        append_bytes(&mut bytes, self.index.as_slice());
        append_bytes(&mut bytes, self.begin.as_slice());
        append_bytes(&mut bytes, self.length.as_slice());
        assert(bytes@ =~= self.bytes());
        bytes
    }
}

/// The payload of a request for `length` bytes from `begin` on of the piece
/// `index`.
pub open spec fn request_bytes(index: u32, begin: u32, length: u32) -> Seq<u8> {
    be_bytes(index) + be_bytes(begin) + be_bytes(length)
}

/// The payload of a `Piece` message: a block of a piece, and where it
/// belongs.
pub struct Piece<'a> {
    index: [u8; 4],
    begin: [u8; 4],
    block: &'a [u8],
}

/// The payload of a `Piece` message as mathematics.
pub struct PieceView {
    /// The piece that the block belongs to.
    pub index: nat,
    /// The byte of the piece at which the block starts.
    pub begin: nat,
    pub block: Seq<u8>,
}

/// What the payload `data` of a `Piece` message says, or `None` where it is
/// shorter than the eight bytes of index and begin.
pub open spec fn piece_in(data: Seq<u8>) -> Option<PieceView> {
    if data.len() >= 8 {
        Some(
            PieceView {
                index: be_value(data.subrange(0, 4)),
                begin: be_value(data.subrange(4, 8)),
                block: data.subrange(8, data.len() as int),
            },
        )
    } else {
        None
    }
}

impl<'a> View for Piece<'a> {
    type V = PieceView;

    closed spec fn view(&self) -> PieceView {
        PieceView {
            index: be_value(self.index@),
            begin: be_value(self.begin@),
            block: self.block@,
        }
    }
}

impl<'a> Piece<'a> {
    /// The piece that the block belongs to.
    pub fn index(&self) -> (index: u32)
        ensures
            index == self@.index,
    {
        from_be(&self.index)
    }

    /// The byte of the piece at which the block starts.
    pub fn begin(&self) -> (begin: u32)
        ensures
            begin == self@.begin,
    {
        from_be(&self.begin)
    }

    /// The bytes of the block.
    pub fn block(&self) -> (block: &[u8])
        ensures
            block@ == self@.block,
    {
        self.block
    }

    /// Reads the payload of a `Piece` message: four bytes of index, four of
    /// begin, and the block. `None`, and only then, where the payload has
    /// fewer than eight bytes.
    pub fn ref_from_bytes(data: &'a [u8]) -> (res: Option<Self>)
        ensures
            match res {
                Some(piece) => piece_in(data@) == Some(piece@),
                None => piece_in(data@) is None,
            },
    {
        if data.len() < 8 {
            return None;
        }
        let index: [u8; 4] = [data[0], data[1], data[2], data[3]];
        let begin: [u8; 4] = [data[4], data[5], data[6], data[7]];
        assert(index@ =~= data@.subrange(0, 4));
        assert(begin@ =~= data@.subrange(4, 8));
        Some(Piece { index, begin, block: slice_subrange(data, 8, data.len()) })
    }
}

} // verus!
