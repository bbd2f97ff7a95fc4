//! Digests of file regions.

use vstd::prelude::*;

use crate::order::{
    bytes_at_most, byte_order, compare_bytes, lemma_byte_order, lemma_lex_antisymmetric,
    lemma_lex_reflexive, lemma_lex_total, lemma_lex_transitive, same_rank, Ranked,
};

verus! {

/// An incremental BLAKE3 hasher.
#[verifier::external_type_specification]
#[verifier::external_body]
pub struct ExHasher(blake3::Hasher);

/// The bytes that a hasher has absorbed.
pub uninterp spec fn hasher_input(hasher: blake3::Hasher) -> Seq<u8>;

/// Whether a hasher computes the plain hash, not a keyed or derived one nor
/// the hash of a subtree.
pub uninterp spec fn is_plain_hasher(hasher: blake3::Hasher) -> bool;

/// The BLAKE3 hash of some bytes.
pub uninterp spec fn blake3_hash(input: Seq<u8>) -> Seq<u8>;

/// `Hasher::new`. Trusted: the hasher computes the plain hash and has absorbed
/// nothing.
pub assume_specification[ blake3::Hasher::new ]() -> (hasher: blake3::Hasher)
    ensures
        hasher_input(hasher) == Seq::<u8>::empty(),
        is_plain_hasher(hasher),
;

/// Calls `Hasher::update`. Trusted: the chunk is appended to what the hasher
/// has absorbed. The count of absorbed bytes must fit 64 bits.
#[verifier::external_body]
fn absorb(hasher: &mut blake3::Hasher, chunk: &[u8])
    requires
        is_plain_hasher(*old(hasher)),
        hasher_input(*old(hasher)).len() + chunk@.len() <= u64::MAX,
    ensures
        hasher_input(*final(hasher)) == hasher_input(*old(hasher)) + chunk@,
        is_plain_hasher(*final(hasher)),
{
    hasher.update(chunk);
}

/// Calls `Hasher::finalize`. Trusted: the result depends on the absorbed bytes
/// alone, not on how they were cut into chunks.
#[verifier::external_body]
fn conclude(hasher: &blake3::Hasher) -> (digest: Digest)
    requires
        is_plain_hasher(*hasher),
    ensures
        digest@ == blake3_hash(hasher_input(*hasher)),
{
    Digest { bytes: *hasher.finalize().as_bytes() }
}

/// The hash of a region of a file.
#[derive(Clone, Copy, Debug)]
pub struct Digest {
    pub bytes: [u8; 32],
}

impl View for Digest {
    type V = Seq<u8>;

    open spec fn view(&self) -> Seq<u8> {
        self.bytes@
    }
}

impl Ranked for Digest {
    open spec fn at_most(self, other: Digest) -> bool {
        bytes_at_most(self@, other@)
    }

    proof fn lemma_total(a: Digest, b: Digest) {
        lemma_byte_order();
        lemma_lex_total(a@, b@, byte_order());
    }

    proof fn lemma_transitive(a: Digest, b: Digest, c: Digest) {
        lemma_byte_order();
        lemma_lex_transitive(a@, b@, c@, byte_order());
    }

    fn is_at_most(&self, other: &Digest) -> (r: bool) {
        compare_bytes(self.bytes.as_slice(), other.bytes.as_slice())
    }
}

/// Digests have the same rank where their bytes are equal.
pub proof fn lemma_same_digest(a: Digest, b: Digest)
    ensures
        same_rank(a, b) <==> a@ == b@,
{
    lemma_byte_order();
    if same_rank(a, b) {
        lemma_lex_antisymmetric(a@, b@, byte_order());
    }
    if a@ == b@ {
        lemma_lex_reflexive(a@, byte_order());
    }
}

/// The bytes of `contents` from `offset` on, at most `len` of them; none where
/// the offset is past the end.
pub open spec fn region(contents: Seq<u8>, offset: int, len: int) -> Seq<u8> {
    if offset >= contents.len() {
        Seq::empty()
    } else if len >= contents.len() - offset {
        contents.skip(offset)
    } else {
        contents.subrange(offset, offset + len)
    }
}

/// Hashes the first bytes of a stream, up to a limit, as the stream is read
/// piece by piece.
pub struct RegionHasher {
    hasher: blake3::Hasher,
    left: u64,
}

impl RegionHasher {
    /// The bytes hashed so far.
    pub closed spec fn input(&self) -> Seq<u8> {
        hasher_input(self.hasher)
    }

    /// How many more bytes will be hashed at most.
    pub closed spec fn left(&self) -> u64 {
        self.left
    }

    /// The hasher computes the plain hash, and what it may absorb in all is
    /// within its limit.
    pub closed spec fn valid(&self) -> bool {
        is_plain_hasher(self.hasher) && hasher_input(self.hasher).len() + self.left <= u64::MAX
    }

    /// Hash at most `len` bytes; `u64::MAX` stands for all that there are.
    pub fn new(len: u64) -> (r: RegionHasher)
        ensures
            r.valid(),
            r.input() == Seq::<u8>::empty(),
            r.left() == len,
    {
        RegionHasher { hasher: blake3::Hasher::new(), left: len }
    }

    /// How many bytes to read next into a buffer of this size; none when the
    /// limit is reached.
    pub fn wanted(&self, capacity: usize) -> (r: usize)
        ensures
            r == if capacity <= self.left() {
                capacity as int
            } else {
                self.left() as int
            },
    {
        if self.left < capacity as u64 {
            self.left as usize
        } else {
            capacity
        }
    }

    /// Hash the next piece of the stream, up to the limit.
    pub fn feed(&mut self, piece: &[u8])
        requires
            old(self).valid(),
        ensures
            final(self).valid(),
            final(self).input() == old(self).input() + region(piece@, 0, old(self).left() as int),
            final(self).left() == old(self).left() - region(
                piece@,
                0,
                old(self).left() as int,
            ).len(),
    {
        let take = self.wanted(piece.len());
        let (head, _tail) = piece.split_at(take);
        assert(head@ == region(piece@, 0, self.left as int));
        absorb(&mut self.hasher, head);
        self.left = self.left - take as u64;
    }

    /// The hash of what was fed.
    pub fn finish(&self) -> (digest: Digest)
        requires
            self.valid(),
        ensures
            digest@ == blake3_hash(self.input()),
    {
        conclude(&self.hasher)
    }
}

/// Hash `len` bytes of `contents` starting at `offset`, or as many as there
/// are.
pub fn hash_region(contents: &[u8], offset: u64, len: u64) -> (digest: Digest)
    ensures
        digest@ == blake3_hash(region(contents@, offset as int, len as int)),
{
    let mut hasher = RegionHasher::new(len);
    if offset < contents.len() as u64 {
        let (_head, rest) = contents.split_at(offset as usize);
        hasher.feed(rest);
        assert(hasher.input() == region(contents@, offset as int, len as int));
    }
    hasher.finish()
}

/// What a hasher with this limit has hashed once it was fed the pieces in turn.
pub open spec fn fed(pieces: Seq<Seq<u8>>, limit: int) -> Seq<u8>
    decreases pieces.len(),
{
    if pieces.len() == 0 {
        Seq::empty()
    } else {
        let before = fed(pieces.drop_last(), limit);
        before + region(pieces.last(), 0, limit - before.len())
    }
}

/// How a stream is cut into pieces does not matter: what is hashed is the
/// stream's first bytes, up to the limit.
pub proof fn law_pieces_do_not_matter(pieces: Seq<Seq<u8>>, limit: int)
    requires
        0 <= limit,
    ensures
        fed(pieces, limit) == region(pieces.flatten(), 0, limit),
    decreases pieces.len(),
{
    if pieces.len() > 0 {
        let rest = pieces.drop_last();
        law_pieces_do_not_matter(rest, limit);
        rest.lemma_flatten_push(pieces.last());
        assert(rest.push(pieces.last()) == pieces);
        assert(fed(pieces, limit) == region(rest.flatten() + pieces.last(), 0, limit));
    } else {
        assert(pieces.flatten() == Seq::<u8>::empty());
    }
}

/// Reading from the start without a limit reads everything.
pub proof fn law_whole_region(contents: Seq<u8>, len: int)
    requires
        contents.len() <= len,
    ensures
        region(contents, 0, len) == contents,
{
    assert(region(contents, 0, len) == contents);
}

/// A region is a window on the contents: it holds the bytes from the offset on,
/// as many as asked for or as there are.
pub proof fn law_regions_are_windows(contents: Seq<u8>, offset: int, len: int)
    requires
        0 <= offset,
        0 <= len,
    ensures
        region(contents, offset, len).len() <= len,
        offset + len <= contents.len() ==> region(contents, offset, len).len() == len,
        offset <= contents.len() < offset + len ==> region(contents, offset, len).len() + offset
            == contents.len(),
        offset >= contents.len() ==> region(contents, offset, len).len() == 0,
        forall|i: int|
            0 <= i < region(contents, offset, len).len() ==> #[trigger] region(
                contents,
                offset,
                len,
            )[i] == contents[offset + i],
{
}

} // verus!
