//! Decoder for a compact binary chunk format.
//!
//! A stream is a concatenation of chunks, each framed as
//! `id (2 bytes) | tag (1 byte) | size (2 bytes) | content (size bytes)`,
//! big-endian throughout. [`reader::ChunkReader`] turns bytes into validated
//! chunks; [`graph::PieceManager`] turns chunks into typed pieces.

use vstd::arithmetic::power2::{lemma2_to64, pow2};
use vstd::prelude::*;

pub mod graph;
pub mod reader;

verus! {

/// Address of a chunk within one stream. The value 0 is reserved: no chunk
/// legitimately lives there, and errors that have no chunk to blame carry it.
#[derive(Debug, Hash, PartialEq, Eq, Clone, Copy, Structural)]
pub struct ChunkId(pub u16);

/// Declared length of a chunk's content, in bytes.
#[derive(Debug, PartialEq, Eq, Clone, Copy, Structural)]
pub struct ChunkSize(pub u16);

/// Discriminator that selects how a chunk's content is read.
#[derive(Debug, PartialEq, Eq, Clone, Copy, Structural)]
pub enum Tag {
    EOF,
    Int,
    Uint,
    String,
    Array,
    Mapping,
}

/// One framed unit of the wire format.
///
/// A chunk is well formed when its content is exactly as long as its
/// declared size; see [`Chunk::wf`].
#[derive(Debug, PartialEq, Eq)]
pub struct Chunk {
    pub id: ChunkId,
    pub tag: Tag,
    pub size: ChunkSize,
    pub content: Vec<u8>,
}

/// Mathematical value of a [`Chunk`]: the same fields, with the content as a
/// sequence of bytes.
pub struct ChunkView {
    pub id: ChunkId,
    pub tag: Tag,
    pub size: ChunkSize,
    pub content: Seq<u8>,
}

impl View for Chunk {
    type V = ChunkView;

    open spec fn view(&self) -> ChunkView {
        ChunkView { id: self.id, tag: self.tag, size: self.size, content: self.content@ }
    }
}

impl ChunkView {
    /// The content is as long as the declared size says.
    pub open spec fn wf(self) -> bool {
        self.content.len() == self.size.0
    }
}

impl Chunk {
    /// The content is as long as the declared size says.
    pub open spec fn wf(&self) -> bool {
        self@.wf()
    }
}

/// A size that a tag does not admit, with the offending size.
#[derive(Debug, PartialEq, Eq, Clone, Copy, Structural)]
pub enum TagSizeError {
    IntMustBePowerOfTwo(ChunkSize),
    UintMustBePowerOfTwo(ChunkSize),
    ArrayWithOddCount(ChunkSize),
    MapWithNonQuadCount(ChunkSize),
    EOFWithSize(ChunkSize),
}

/// `n` has exactly one bit set: it is one of 1, 2, 4, ..., 32768.
pub open spec fn is_power_of_two(n: u16) -> bool {
    exists|k: nat| k < 16 && n as int == pow2(k)
}

/// The size rule of each tag.
///
/// Integers are folded into a fixed width, so their size is a power of two;
/// text has any size; an array holds 2-byte entries and a map 4-byte
/// records; the end marker carries nothing.
pub open spec fn size_allowed(tag: Tag, size: u16) -> bool {
    match tag {
        Tag::Int | Tag::Uint => is_power_of_two(size),
        Tag::String => true,
        Tag::Array => size % 2 == 0,
        Tag::Mapping => size % 4 == 0,
        Tag::EOF => size == 0,
    }
}

/// The violation that `size` is for `tag`, if it is one.
pub open spec fn size_violation(tag: Tag, size: ChunkSize) -> Option<TagSizeError> {
    if size_allowed(tag, size.0) {
        None
    } else {
        Some(
            match tag {
                Tag::Int => TagSizeError::IntMustBePowerOfTwo(size),
                Tag::Uint => TagSizeError::UintMustBePowerOfTwo(size),
                Tag::Array => TagSizeError::ArrayWithOddCount(size),
                Tag::Mapping => TagSizeError::MapWithNonQuadCount(size),
                _ => TagSizeError::EOFWithSize(size),
            },
        )
    }
}

/// The sixteen powers of two that fit in 16 bits are exactly the values with
/// a single bit set.
pub proof fn lemma_power_of_two_single_bit(n: u16)
    ensures
        is_power_of_two(n) <==> (n != 0 && n & ((n - 1) as u16) == 0),
{
    lemma2_to64();
    assert((n != 0 && n & ((n - 1) as u16) == 0) <==> (n == 1 || n == 2 || n == 4 || n == 8 || n
        == 16 || n == 32 || n == 64 || n == 128 || n == 256 || n == 512 || n == 1024 || n == 2048
        || n == 4096 || n == 8192 || n == 16384 || n == 32768)) by (bit_vector);
    let listed = n == 1 || n == 2 || n == 4 || n == 8 || n == 16 || n == 32 || n == 64 || n == 128
        || n == 256 || n == 512 || n == 1024 || n == 2048 || n == 4096 || n == 8192 || n == 16384
        || n == 32768;
    if listed {
        let k: nat = if n == 1 {
            0
        } else if n == 2 {
            1
        } else if n == 4 {
            2
        } else if n == 8 {
            3
        } else if n == 16 {
            4
        } else if n == 32 {
            5
        } else if n == 64 {
            6
        } else if n == 128 {
            7
        } else if n == 256 {
            8
        } else if n == 512 {
            9
        } else if n == 1024 {
            10
        } else if n == 2048 {
            11
        } else if n == 4096 {
            12
        } else if n == 8192 {
            13
        } else if n == 16384 {
            14
        } else {
            15
        };
        assert(k < 16 && n as int == pow2(k));
    }
    if is_power_of_two(n) {
        let k = choose|k: nat| k < 16 && n as int == pow2(k);
        assert(k == 0 || k == 1 || k == 2 || k == 3 || k == 4 || k == 5 || k == 6 || k == 7 || k
            == 8 || k == 9 || k == 10 || k == 11 || k == 12 || k == 13 || k == 14 || k == 15);
        assert(listed);
    }
}

impl Tag {
    /// Checks `size` against this tag's size rule.
    pub fn check_valid_size(&self, size: ChunkSize) -> (verdict: Option<TagSizeError>)
        ensures
            verdict == size_violation(*self, size),
            verdict is None <==> size_allowed(*self, size.0),
    {
        let n: u16 = size.0;
        match self {
            Tag::Int => {
                proof {
                    lemma_power_of_two_single_bit(n);
                }
                if n != 0 && n & (n - 1) == 0 {
                    None
                } else {
                    Some(TagSizeError::IntMustBePowerOfTwo(size))
                }
            },
            Tag::Uint => {
                proof {
                    lemma_power_of_two_single_bit(n);
                }
                if n != 0 && n & (n - 1) == 0 {
                    None
                } else {
                    Some(TagSizeError::UintMustBePowerOfTwo(size))
                }
            },
            Tag::String => None,
            Tag::Array => {
                assert(n & 1 == 0 <==> n % 2 == 0) by (bit_vector);
                if n & 1 == 0 {
                    None
                } else {
                    Some(TagSizeError::ArrayWithOddCount(size))
                }
            },
            Tag::Mapping => {
                assert(n & 3 == 0 <==> n % 4 == 0) by (bit_vector);
                if n & 3 == 0 {
                    None
                } else {
                    Some(TagSizeError::MapWithNonQuadCount(size))
                }
            },
            Tag::EOF => {
                if n == 0 {
                    None
                } else {
                    Some(TagSizeError::EOFWithSize(size))
                }
            },
        }
    }
}

/// What went wrong, without the chunk it went wrong in.
#[derive(Debug, PartialEq, Eq, Clone, Copy, Structural)]
pub enum ErrorKind {
    InvalidChunk(reader::ReaderError),
}

/// A failure of the decoder, with the id of the chunk that it is about. The
/// id is 0 where the failure struck before an id was read.
#[derive(Debug, PartialEq, Eq, Clone, Copy, Structural)]
pub struct Error {
    pub kind: ErrorKind,
    pub chunk_id: ChunkId,
}

impl ErrorKind {
    /// Attributes this kind of failure to a chunk.
    pub fn into_error(self, chunk_id: ChunkId) -> (error: Error)
        ensures
            error == (Error { kind: self, chunk_id }),
    {
        Error { kind: self, chunk_id }
    }
}

impl From<reader::ReaderError> for ErrorKind {
    /// A failure of the reader, as a kind of failure of the decoder.
    fn from(e: reader::ReaderError) -> (kind: Self)
        ensures
            kind == ErrorKind::InvalidChunk(e),
    {
        ErrorKind::InvalidChunk(e)
    }
}

impl vstd::std_specs::convert::FromSpecImpl<reader::ReaderError> for ErrorKind {
    open spec fn obeys_from_spec() -> bool {
        true
    }

    open spec fn from_spec(e: reader::ReaderError) -> Self {
        ErrorKind::InvalidChunk(e)
    }
}

} // verus!
