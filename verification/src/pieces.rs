//! The pieces of a torrent: how many there are, how large each is, which
//! digest each has to have, and what follows for the whole file.
use crate::digest::{hex_encode, hex_lower, sha1, sha1_digest};
use crate::error::Error;
use crate::order::bytes_equal;
use crate::torrent::{InfoView, TorrentFileInfo};
use vstd::prelude::*;
use vstd::slice::{slice_subrange, slice_to_vec};

verus! {

/// The sizes of the first `n` pieces, added up.
pub open spec fn sizes_sum(info: InfoView, n: nat) -> int
    decreases n,
{
    if n == 0 {
        0
    } else {
        sizes_sum(info, (n - 1) as nat) + info.piece_size(n - 1)
    }
}

/// The first `n` of `parts`, one after the other.
pub open spec fn joined(parts: Seq<Seq<u8>>, n: nat) -> Seq<u8>
    decreases n,
{
    if n == 0 || n > parts.len() {
        Seq::empty()
    } else {
        joined(parts, (n - 1) as nat) + parts[n - 1]
    }
}

/// The SHA-1 digests of the first `n` of `parts`, one after the other.
pub open spec fn joined_digests(parts: Seq<Seq<u8>>, n: nat) -> Seq<u8>
    decreases n,
{
    if n == 0 || n > parts.len() {
        Seq::empty()
    } else {
        joined_digests(parts, (n - 1) as nat) + sha1_digest(parts[n - 1])
    }
}

/// The hexadecimal text of chunk `i` of `pieces`: 20 bytes, or what is left
/// at the end.
pub open spec fn chunk_text(pieces: Seq<u8>, i: int) -> Seq<char> {
    hex_lower(
        pieces.subrange(
            20 * i,
            if 20 * i + 20 <= pieces.len() {
                20 * i + 20
            } else {
                pieces.len() as int
            },
        ),
    )
}

/// A valid metainfo has 20 bytes of digest for each piece.
pub proof fn lemma_piece_count(info: InfoView)
    requires
        info.valid(),
    ensures
        info.piece_count() * 20 == info.pieces.len(),
{
}

/// The pieces before the last one have the piece length each.
pub proof fn lemma_sizes_before_last(info: InfoView, n: nat)
    requires
        n < info.piece_count(),
    ensures
        sizes_sum(info, n) == n * info.piece_length,
    decreases n,
{
    let size: int = info.piece_length as int;
    if n > 0 {
        let m: int = n - 1;
        lemma_sizes_before_last(info, m as nat);
        assert(m * size + size == (m + 1) * size) by (nonlinear_arith);
    } else {
        assert(0 * size == 0) by (nonlinear_arith);
    }
}

/// The sizes of all the pieces add up to the length of the file, wherever
/// there is a piece at all.
pub proof fn lemma_sizes_sum(info: InfoView)
    requires
        info.piece_count() >= 1,
    ensures
        sizes_sum(info, info.piece_count()) == info.length,
{
    lemma_sizes_before_last(info, (info.piece_count() - 1) as nat);
}

/// Parts that have the sizes of the first `n` pieces are together as long as
/// these sizes added up, and parts that have the digests of these pieces have
/// together the first `n` digests of the metainfo.
pub proof fn lemma_joined(info: InfoView, parts: Seq<Seq<u8>>, n: nat)
    requires
        n <= info.piece_count(),
        n <= parts.len(),
        forall|i: int|
            0 <= i < n ==> (#[trigger] parts[i]).len() == info.piece_size(i) && sha1_digest(
                parts[i],
            ) == info.piece_hash(i),
    ensures
        joined(parts, n).len() == sizes_sum(info, n),
        joined_digests(parts, n) == info.pieces.subrange(0, 20 * n as int),
    decreases n,
{
    if n == 0 {
        assert(joined_digests(parts, n) =~= info.pieces.subrange(0, 20 * n as int));
    } else {
        lemma_joined(info, parts, (n - 1) as nat);
        assert(parts[n - 1].len() == info.piece_size(n - 1));
        assert(joined_digests(parts, n) =~= info.pieces.subrange(0, 20 * n as int));
    }
}

/// A file whose pieces have the sizes and the digests that the metainfo asks
/// for is as long as the metainfo says, and the digests of its pieces, one
/// after the other, are the digests of the metainfo.
pub proof fn lemma_download_complete(info: InfoView, parts: Seq<Seq<u8>>)
    requires
        info.valid(),
        info.piece_count() >= 1,
        parts.len() == info.piece_count(),
        forall|i: int|
            0 <= i < parts.len() ==> (#[trigger] parts[i]).len() == info.piece_size(i)
                && sha1_digest(parts[i]) == info.piece_hash(i),
    ensures
        joined(parts, parts.len()).len() == info.length,
        joined_digests(parts, parts.len()) == info.pieces,
{
    lemma_joined(info, parts, parts.len());
    lemma_sizes_sum(info);
    assert(info.pieces.subrange(0, 20 * parts.len() as int) =~= info.pieces);
}

/// The product of a count and a size, which fits in 128 bits.
fn times(count: usize, size: u64) -> (product: u128)
    ensures
        product == count * size,
{
    assert(count * size <= 0xffff_ffff_ffff_ffff * 0xffff_ffff_ffff_ffff) by (nonlinear_arith)
        requires
            0 <= count <= 0xffff_ffff_ffff_ffff,
            0 <= size <= 0xffff_ffff_ffff_ffff,
    ;
    count as u128 * size as u128
}

impl TorrentFileInfo {
    /// The number of pieces: one for each 20-byte digest.
    pub fn piece_count(&self) -> (count: usize)
        ensures
            count == self@.piece_count(),
            self@.valid() ==> count * 20 == self.pieces.len(),
    {
        self.pieces.len() / 20
    }

    /// The digest that piece `i` has to have.
    pub fn piece_hash(&self, i: usize) -> (hash: Vec<u8>)
        requires
            i < self@.piece_count(),
        ensures
            hash@ == self@.piece_hash(i as int),
            hash.len() == 20,
    {
        assert(i < self.pieces.len() / 20);
        slice_to_vec(slice_subrange(self.pieces.as_slice(), 20 * i, 20 * i + 20))
    }

    /// Whether the metainfo has as many digests as its file has pieces.
    pub fn is_consistent(&self) -> (yes: bool)
        ensures
            yes == self@.consistent(),
    {
        let count = self.pieces.len() / 20;
        if count == 0 {
            return false;
        }
        let before: u128 = times(count - 1, self.piece_length);
        before < self.length as u128 && self.length as u128 - before <= self.piece_length as u128
    }

    /// The size of piece `i`: the piece length, but for the last piece what is
    /// left of the file.
    pub fn piece_size(&self, i: usize) -> (size: u64)
        requires
            i < self@.piece_count(),
            0 <= self@.piece_size(i as int),
        ensures
            size == self@.piece_size(i as int),
    {
        let count = self.pieces.len() / 20;
        if i + 1 < count {
            self.piece_length
        } else {
            let before: u128 = times(count - 1, self.piece_length);
            (self.length as u128 - before) as u64
        }
    }

    /// The digests of the pieces as hexadecimal text, one text for each
    /// digest.
    pub fn hash_pieces(&self) -> (hashes: Vec<String>)
        ensures
            hashes.len() == (self.pieces.len() + 19) / 20,
            forall|i: int|
                0 <= i < hashes.len() ==> (#[trigger] hashes[i])@ == chunk_text(self.pieces@, i),
    {
        let mut hashes: Vec<String> = Vec::new();
        let total = self.pieces.len();
        let mut start: usize = 0;
        while start < total
            invariant
                total == self.pieces.len(),
                start % 20 == 0,
                start < total + 20,
                hashes.len() == start / 20,
                forall|i: int|
                    0 <= i < hashes.len() ==> (#[trigger] hashes[i])@ == chunk_text(
                        self.pieces@,
                        i,
                    ),
            decreases total + 20 - start,
        {
            let end: usize = if total - start >= 20 {
                start + 20
            } else {
                total
            };
            let text = hex_encode(slice_subrange(self.pieces.as_slice(), start, end));
            hashes.push(text);
            if total - start >= 20 {
                start = start + 20;
            } else {
                return hashes;
            }
        }
        hashes
    }

    /// Checks a downloaded piece against the metainfo: `PieceHashMismatch`
    /// unless the SHA-1 digest of `data` is the digest of piece `i`.
    pub fn verify_piece(&self, i: usize, data: &[u8]) -> (res: Result<(), Error>)
        requires
            i < self@.piece_count(),
        ensures
            res is Ok <==> sha1_digest(data@) == self@.piece_hash(i as int),
            res is Err ==> res == Err::<(), Error>(Error::PieceHashMismatch),
    {
        let digest = sha1(data);
        assert(i < self.pieces.len() / 20);
        let expected = slice_subrange(self.pieces.as_slice(), 20 * i, 20 * i + 20);
        if bytes_equal(digest.as_slice(), expected) {
            Ok(())
        } else {
            Err(Error::PieceHashMismatch)
        }
    }
}

} // verus!
