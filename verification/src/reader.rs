//! Framing: from bytes to validated chunks.
//!
//! [`ByteReader`] is a forward-only cursor over a buffer. [`ChunkReader`]
//! reads one chunk after another from it and keeps the ids it has handed
//! out, so that no two chunks of one stream share an id. What a reader
//! returns is stated over [`decode_at`], the format written down as a
//! function of the bytes, the cursor and the ids seen.

use crate::{Chunk, ChunkId, ChunkSize, ChunkView, Error, ErrorKind, Tag, TagSizeError};
use crate::{size_allowed, size_violation};
use std::collections::HashSet;
use vstd::prelude::*;

verus! {

broadcast use vstd::std_specs::hash::group_hash_axioms;

/// The 16-bit value whose big-endian bytes are `high`, `low`.
pub open spec fn be16(high: u8, low: u8) -> u16 {
    (high * 256 + low) as u16
}

/// Joins two bytes, most significant first, into a 16-bit value.
pub fn merge_2be_u8s(high: u8, low: u8) -> (value: u16)
    ensures
        value == be16(high, low),
{
    assert(((high as u16) << 8 | low as u16) == high * 256 + low) by (bit_vector);
    (high as u16) << 8 | low as u16
}

/// Why a chunk could not be read.
#[derive(Debug, PartialEq, Eq, Clone, Copy, Structural)]
pub enum ReaderError {
    /// The bytes ended where a chunk would begin: the stream is over.
    EOF,
    /// One byte was left where the two bytes of an id were due.
    MissingId,
    /// The bytes ended before both bytes of the size.
    MissingSize,
    /// The bytes ended before the tag.
    MissingTag,
    /// The bytes ended before the content was complete.
    MissingContent { needs: u16, got: usize },
    /// The tag byte is that of no tag.
    InvalidTagValue(u8),
    /// The content is not as long as the size says.
    UnmatchedContentLen { said_size: ChunkSize, actual_size: usize },
    /// A chunk of this id was read before.
    IdColision { id: ChunkId },
    /// The size breaks the rule of the tag.
    InvalidSizeForTag(TagSizeError),
}

/// A cursor that moves forward over a buffer of bytes that it owns.
pub struct ByteReader {
    bytes: Vec<u8>,
    counter: usize,
}

impl ByteReader {
    #[verifier::type_invariant]
    spec fn in_bounds(&self) -> bool {
        self.counter <= self.bytes.len()
    }

    /// The whole buffer.
    pub closed spec fn bytes(&self) -> Seq<u8> {
        self.bytes@
    }

    /// Number of bytes that have been read.
    pub closed spec fn pos(&self) -> int {
        if self.counter <= self.bytes.len() {
            self.counter as int
        } else {
            self.bytes.len() as int
        }
    }

    /// The cursor never leaves the buffer.
    pub proof fn lemma_pos_in_bounds(&self)
        ensures
            0 <= self.pos() <= self.bytes().len(),
    {
    }

    /// Number of bytes that are left to read.
    pub open spec fn left(&self) -> int {
        self.bytes().len() - self.pos()
    }

    /// A reader at the start of `bytes`.
    pub fn new(bytes: Vec<u8>) -> (reader: Self)
        ensures
            reader.bytes() == bytes@,
            reader.pos() == 0,
    {
        Self { bytes, counter: 0 }
    }

    /// Whether any byte is left.
    pub fn has_more(&self) -> (more: bool)
        ensures
            more == (self.left() > 0),
    {
        proof {
            use_type_invariant(self);
        }
        self.counter < self.bytes.len()
    }

    /// Reads one byte, if one is left.
    pub fn u8(&mut self) -> (byte: Option<u8>)
        ensures
            final(self).bytes() == old(self).bytes(),
            byte == if old(self).left() > 0 {
                Some(old(self).bytes()[old(self).pos()])
            } else {
                None
            },
            final(self).pos() == if old(self).left() > 0 {
                old(self).pos() + 1
            } else {
                old(self).pos()
            },
    {
        proof {
            use_type_invariant(&*self);
        }
        if self.counter < self.bytes.len() {
            let v: u8 = self.bytes[self.counter];
            self.counter += 1;
            Some(v)
        } else {
            None
        }
    }

    /// Reads a 16-bit big-endian value. Where a byte is missing nothing is
    /// returned, and the byte that was there, if any, has been read.
    pub fn u16(&mut self) -> (value: Option<u16>)
        ensures
            final(self).bytes() == old(self).bytes(),
            value == if old(self).left() >= 2 {
                Some(be16(old(self).bytes()[old(self).pos()], old(self).bytes()[old(self).pos() + 1]))
            } else {
                None
            },
            final(self).pos() == if old(self).left() >= 2 {
                old(self).pos() + 2
            } else {
                old(self).bytes().len() as int
            },
    {
        let high: u8 = match self.u8() {
            Some(b) => b,
            None => {
                return None;
            },
        };
        let low: u8 = match self.u8() {
            Some(b) => b,
            None => {
                return None;
            },
        };
        Some(merge_2be_u8s(high, low))
    }

    /// Reads a 16-bit big-endian value, and says which byte was missing:
    /// `m1` where none was left, `m2` where one was. That one has then been
    /// read.
    pub fn u16_chunked_err<E>(&mut self, m1: E, m2: E) -> (value: Result<u16, E>)
        ensures
            final(self).bytes() == old(self).bytes(),
            value == if old(self).left() >= 2 {
                Ok::<u16, E>(
                    be16(old(self).bytes()[old(self).pos()], old(self).bytes()[old(self).pos() + 1]),
                )
            } else if old(self).left() == 1 {
                Err(m2)
            } else {
                Err(m1)
            },
            final(self).pos() == if old(self).left() >= 2 {
                old(self).pos() + 2
            } else {
                old(self).bytes().len() as int
            },
    {
        let high: u8 = match self.u8() {
            Some(b) => b,
            None => {
                return Err(m1);
            },
        };
        let low: u8 = match self.u8() {
            Some(b) => b,
            None => {
                return Err(m2);
            },
        };
        Ok(merge_2be_u8s(high, low))
    }

    /// Reads `size` bytes. Where fewer are left, all of them are read and
    /// handed back as the error, so that the caller can say how many came.
    pub fn get_n_u8s(&mut self, size: u16) -> (read: Result<Vec<u8>, Vec<u8>>)
        ensures
            final(self).bytes() == old(self).bytes(),
            match read {
                Ok(v) => {
                    &&& size <= old(self).left()
                    &&& v@ == old(self).bytes().subrange(old(self).pos(), old(self).pos() + size)
                    &&& final(self).pos() == old(self).pos() + size
                },
                Err(v) => {
                    &&& size > old(self).left()
                    &&& v@ == old(self).bytes().subrange(
                        old(self).pos(),
                        old(self).bytes().len() as int,
                    )
                    &&& final(self).pos() == old(self).bytes().len()
                },
            },
    {
        proof {
            use_type_invariant(&*self);
        }
        let mut vec: Vec<u8> = Vec::with_capacity(size as usize);
        let mut n: u16 = 0;
        while n < size
            invariant
                n <= size,
                self.bytes() == old(self).bytes(),
                self.pos() == old(self).pos() + n,
                self.pos() <= self.bytes().len(),
                vec@ == self.bytes().subrange(old(self).pos(), self.pos()),
            decreases size - n,
        {
            match self.u8() {
                Some(v) => {
                    vec.push(v);
                    assert(vec@ =~= self.bytes().subrange(old(self).pos(), self.pos()));
                },
                None => {
                    return Err(vec);
                },
            }
            n += 1;
        }
        Ok(vec)
    }
}

/// The tag that a tag byte stands for, if any.
pub open spec fn tag_of_byte(value: u8) -> Option<Tag> {
    if value == 0 {
        Some(Tag::EOF)
    } else if value == 1 {
        Some(Tag::Int)
    } else if value == 2 {
        Some(Tag::Uint)
    } else if value == 3 {
        Some(Tag::String)
    } else if value == 4 {
        Some(Tag::Array)
    } else if value == 5 {
        Some(Tag::Mapping)
    } else {
        None
    }
}

/// The tag of a tag byte, or the failure that names the byte.
pub open spec fn tag_from_byte(value: u8) -> Result<Tag, ReaderError> {
    match tag_of_byte(value) {
        Some(tag) => Ok(tag),
        None => Err(ReaderError::InvalidTagValue(value)),
    }
}

impl TryFrom<u8> for Tag {
    type Error = ReaderError;

    /// The tag that a tag byte stands for.
    fn try_from(value: u8) -> (tag: Result<Self, Self::Error>)
        ensures
            tag == tag_from_byte(value),
    {
        match value {
            0 => Ok(Tag::EOF),
            1 => Ok(Tag::Int),
            2 => Ok(Tag::Uint),
            3 => Ok(Tag::String),
            4 => Ok(Tag::Array),
            5 => Ok(Tag::Mapping),
            n => Err(ReaderError::InvalidTagValue(n)),
        }
    }
}

impl vstd::std_specs::convert::TryFromSpecImpl<u8> for Tag {
    open spec fn obeys_try_from_spec() -> bool {
        true
    }

    open spec fn try_from_spec(value: u8) -> Result<Self, Self::Error> {
        tag_from_byte(value)
    }
}

/// What follows the id of a chunk at `pos`: the tag, the size and the
/// content, or the first thing that is wrong with them; and where the cursor
/// then stands.
///
/// The bytes are read first, the tag byte is judged after them: bytes that
/// end early count as missing, whatever the tag byte holds.
pub open spec fn info_at(bytes: Seq<u8>, pos: int) -> (
    Result<(Tag, ChunkSize, Seq<u8>), ReaderError>,
    int,
) {
    let left = bytes.len() - pos;
    if left < 1 {
        (Err(ReaderError::MissingTag), bytes.len() as int)
    } else if left < 3 {
        (Err(ReaderError::MissingSize), bytes.len() as int)
    } else {
        let size = be16(bytes[pos + 1], bytes[pos + 2]);
        if left - 3 < size {
            (
                Err(ReaderError::MissingContent { needs: size, got: (left - 3) as usize }),
                bytes.len() as int,
            )
        } else {
            match tag_of_byte(bytes[pos]) {
                None => (Err(ReaderError::InvalidTagValue(bytes[pos])), pos + 3 + size),
                Some(tag) => (
                    Ok((tag, ChunkSize(size), bytes.subrange(pos + 3, pos + 3 + size))),
                    pos + 3 + size,
                ),
            }
        }
    }
}

/// The checks that the parts of a chunk pass before they make a chunk, in
/// order: the size keeps the rule of the tag, the content is as long as the size says,
/// and the id has not been seen. With the outcome comes the set of ids seen,
/// which has the new id in it exactly when a chunk was made.
pub open spec fn accept(
    tag: Tag,
    id: ChunkId,
    size: ChunkSize,
    content: Seq<u8>,
    seen: Set<u16>,
) -> (Result<ChunkView, ReaderError>, Set<u16>) {
    if let Some(violation) = size_violation(tag, size) {
        (Err(ReaderError::InvalidSizeForTag(violation)), seen)
    } else if size.0 != content.len() {
        (
            Err(
                ReaderError::UnmatchedContentLen {
                    said_size: size,
                    actual_size: content.len() as usize,
                },
            ),
            seen,
        )
    } else if seen.contains(id.0) {
        (Err(ReaderError::IdColision { id }), seen)
    } else {
        (Ok(ChunkView { id, tag, size, content }), seen.insert(id.0))
    }
}

/// The failure `e`, attributed to the chunk `id`.
pub open spec fn blame(e: ReaderError, id: ChunkId) -> Error {
    Error { kind: ErrorKind::InvalidChunk(e), chunk_id: id }
}

/// What reading one chunk comes to: the chunk or the failure, where the
/// cursor then stands, and the ids then seen.
pub struct Decoded {
    pub result: Result<ChunkView, Error>,
    pub pos: int,
    pub seen: Set<u16>,
}

/// Reads the chunk that starts at `pos` of `bytes`, in a stream of which the
/// ids in `seen` have been read.
///
/// No byte left is the end of the stream, and a single byte is half an id;
/// both are attributed to the id 0. Everything after the id is attributed to
/// that id. A failure leaves the cursor where reading stopped.
pub open spec fn decode_at(bytes: Seq<u8>, pos: int, seen: Set<u16>) -> Decoded {
    let left = bytes.len() - pos;
    if left <= 0 {
        Decoded { result: Err(blame(ReaderError::EOF, ChunkId(0))), pos, seen }
    } else if left == 1 {
        Decoded { result: Err(blame(ReaderError::MissingId, ChunkId(0))), pos: pos + 1, seen }
    } else {
        let id = ChunkId(be16(bytes[pos], bytes[pos + 1]));
        let (info, end) = info_at(bytes, pos + 2);
        match info {
            Err(e) => Decoded { result: Err(blame(e, id)), pos: end, seen },
            Ok((tag, size, content)) => {
                let (accepted, seen_after) = accept(tag, id, size, content, seen);
                match accepted {
                    Ok(chunk) => Decoded { result: Ok(chunk), pos: end, seen: seen_after },
                    Err(e) => Decoded { result: Err(blame(e, id)), pos: end, seen: seen_after },
                }
            },
        }
    }
}

/// The value of a chunk that was read, or the failure.
pub open spec fn read_view<E>(read: Result<Chunk, E>) -> Result<ChunkView, E> {
    match read {
        Ok(chunk) => Ok(chunk@),
        Err(e) => Err(e),
    }
}

/// The tag, size and content of a chunk, before they are checked.
struct ChunkInfo {
    tag: Tag,
    size: ChunkSize,
    content: Vec<u8>,
}

/// Reads the chunks of one stream, one after another.
pub struct ChunkReader {
    reader: ByteReader,
    ids_read: HashSet<u16>,
}

impl ChunkReader {
    /// The bytes of the stream.
    pub closed spec fn bytes(&self) -> Seq<u8> {
        self.reader.bytes()
    }

    /// Number of bytes that have been read.
    pub closed spec fn pos(&self) -> int {
        self.reader.pos()
    }

    /// The ids of the chunks that have been read.
    pub closed spec fn seen(&self) -> Set<u16> {
        self.ids_read@
    }

    /// The cursor never leaves the stream.
    pub proof fn lemma_pos_in_bounds(&self)
        ensures
            0 <= self.pos() <= self.bytes().len(),
    {
        self.reader.lemma_pos_in_bounds();
    }

    /// A reader at the start of the stream `content`, which has seen no id.
    pub fn new(content: Vec<u8>) -> (reader: Self)
        ensures
            reader.bytes() == content@,
            reader.pos() == 0,
            reader.seen() == Set::<u16>::empty(),
    {
        Self { reader: ByteReader::new(content), ids_read: HashSet::new() }
    }

    /// Reads the next chunk, unless the stream is at its end.
    pub fn get_next_chunk(&mut self) -> (next: Option<Result<Chunk, Error>>)
        ensures
            final(self).bytes() == old(self).bytes(),
            old(self).pos() == old(self).bytes().len() ==> next is None && final(self).pos() == old(
                self,
            ).pos() && final(self).seen() == old(self).seen(),
            old(self).pos() < old(self).bytes().len() ==> {
                let decoded = decode_at(old(self).bytes(), old(self).pos(), old(self).seen());
                &&& next matches Some(read) && read_view(read) == decoded.result
                &&& final(self).pos() == decoded.pos
                &&& final(self).seen() == decoded.seen
            },
    {
        if self.reader.has_more() {
            Some(self.get_chunk())
        } else {
            None
        }
    }

    /// Reads one chunk: see [`decode_at`].
    pub fn get_chunk(&mut self) -> (read: Result<Chunk, Error>)
        ensures
            final(self).bytes() == old(self).bytes(),
            read_view(read) == decode_at(old(self).bytes(), old(self).pos(), old(self).seen()).result,
            final(self).pos() == decode_at(old(self).bytes(), old(self).pos(), old(self).seen()).pos,
            final(self).seen() == decode_at(
                old(self).bytes(),
                old(self).pos(),
                old(self).seen(),
            ).seen,
            read matches Ok(chunk) ==> chunk.wf() && size_allowed(chunk.tag, chunk.size.0),
    {
        let id = match self.reader.u16_chunked_err(ReaderError::EOF, ReaderError::MissingId) {
            Ok(v) => ChunkId(v),
            Err(e) => {
                return Err(ErrorKind::from(e).into_error(ChunkId(0)));
            },
        };
        let ChunkInfo { tag, size, content } = match self.get_chunk_info() {
            Ok(info) => info,
            Err(e) => {
                return Err(ErrorKind::from(e).into_error(id));
            },
        };
        match self.read(tag, id, size, content) {
            Ok(chunk) => Ok(chunk),
            Err(e) => Err(ErrorKind::from(e).into_error(id)),
        }
    }

    /// Checks the parts of a chunk and makes the chunk of them: see
    /// [`accept`]. The cursor stays.
    pub fn read(&mut self, tag: Tag, id: ChunkId, size: ChunkSize, content: Vec<u8>) -> (read:
        Result<Chunk, ReaderError>)
        ensures
            final(self).bytes() == old(self).bytes(),
            final(self).pos() == old(self).pos(),
            read_view(read) == accept(tag, id, size, content@, old(self).seen()).0,
            final(self).seen() == accept(tag, id, size, content@, old(self).seen()).1,
            read matches Ok(chunk) ==> chunk.wf() && size_allowed(chunk.tag, chunk.size.0),
    {
        if let Some(kind) = tag.check_valid_size(size) {
            return Err(ReaderError::InvalidSizeForTag(kind));
        }
        if size.0 as usize != content.len() {
            return Err(
                ReaderError::UnmatchedContentLen { said_size: size, actual_size: content.len() },
            );
        }
        if !self.ids_read.insert(id.0) {
            assert(self.seen() =~= old(self).seen());
            return Err(ReaderError::IdColision { id });
        }
        Ok(Chunk { size, tag, id, content })
    }

    /// Reads what follows the id of a chunk: see [`info_at`].
    fn get_chunk_info(&mut self) -> (info: Result<ChunkInfo, ReaderError>)
        ensures
            final(self).bytes() == old(self).bytes(),
            final(self).seen() == old(self).seen(),
            final(self).pos() == info_at(old(self).bytes(), old(self).pos()).1,
            match info {
                Ok(i) => info_at(old(self).bytes(), old(self).pos()).0 == Ok::<
                    (Tag, ChunkSize, Seq<u8>),
                    ReaderError,
                >((i.tag, i.size, i.content@)),
                Err(e) => info_at(old(self).bytes(), old(self).pos()).0 == Err::<
                    (Tag, ChunkSize, Seq<u8>),
                    ReaderError,
                >(e),
            },
    {
        let raw_tag: u8 = match self.reader.u8() {
            Some(b) => b,
            None => {
                return Err(ReaderError::MissingTag);
            },
        };
        let size = match self.reader.u16() {
            Some(v) => ChunkSize(v),
            None => {
                return Err(ReaderError::MissingSize);
            },
        };
        let content = match self.reader.get_n_u8s(size.0) {
            Ok(content) => content,
            Err(got) => {
                return Err(ReaderError::MissingContent { needs: size.0, got: got.len() });
            },
        };
        let tag = Tag::try_from(raw_tag)?;
        Ok(ChunkInfo { tag, size, content })
    }
}

/// Reads a whole stream from `pos` on: its chunks in order, or the first
/// failure. The stream ends where no byte is left at the start of a chunk.
pub open spec fn decode_all(bytes: Seq<u8>, pos: int, seen: Set<u16>) -> Result<
    Seq<ChunkView>,
    Error,
>
    decreases bytes.len() - pos,
{
    if pos >= bytes.len() {
        Ok(Seq::empty())
    } else {
        let decoded = decode_at(bytes, pos, seen);
        match decoded.result {
            Err(e) => Err(e),
            Ok(chunk) => match decode_all(bytes, decoded.pos, decoded.seen) {
                Ok(chunks) => Ok(seq![chunk] + chunks),
                Err(e) => Err(e),
            },
        }
    }
}

/// The chunks of a stream, pulled one at a time. The sequence cannot be
/// started over, and ends where the bytes end at the start of a chunk.
pub struct ChunkIter(ChunkReader);

impl ChunkReader {
    /// The sequence of the chunks that are left to read.
    pub fn into_iter(self) -> (iter: ChunkIter)
        ensures
            iter.bytes() == self.bytes(),
            iter.pos() == self.pos(),
            iter.seen() == self.seen(),
    {
        ChunkIter(self)
    }
}

impl ChunkIter {
    /// The bytes of the stream.
    pub closed spec fn bytes(&self) -> Seq<u8> {
        self.0.bytes()
    }

    /// Number of bytes that have been read.
    pub closed spec fn pos(&self) -> int {
        self.0.pos()
    }

    /// The ids of the chunks that have been read.
    pub closed spec fn seen(&self) -> Set<u16> {
        self.0.seen()
    }

    /// The cursor never leaves the stream.
    pub proof fn lemma_pos_in_bounds(&self)
        ensures
            0 <= self.pos() <= self.bytes().len(),
    {
        self.0.lemma_pos_in_bounds();
    }

    /// Pulls the next chunk, or the failure to read it; nothing at the end
    /// of the stream.
    pub fn next(&mut self) -> (next: Option<Result<Chunk, Error>>)
        ensures
            final(self).bytes() == old(self).bytes(),
            old(self).pos() == old(self).bytes().len() ==> next is None && final(self).pos() == old(
                self,
            ).pos() && final(self).seen() == old(self).seen(),
            old(self).pos() < old(self).bytes().len() ==> {
                let decoded = decode_at(old(self).bytes(), old(self).pos(), old(self).seen());
                &&& next matches Some(read) && read_view(read) == decoded.result
                &&& final(self).pos() == decoded.pos
                &&& final(self).seen() == decoded.seen
            },
    {
        self.0.get_next_chunk()
    }

    /// Pulls all the chunks that are left, up to the first failure.
    pub fn collect(self) -> (all: Result<Vec<Chunk>, Error>)
        ensures
            match all {
                Ok(chunks) => decode_all(self.bytes(), self.pos(), self.seen()) == Ok::<
                    Seq<ChunkView>,
                    Error,
                >(chunks@.map_values(|c: Chunk| c@)),
                Err(e) => decode_all(self.bytes(), self.pos(), self.seen()) == Err::<
                    Seq<ChunkView>,
                    Error,
                >(e),
            },
    {
        let mut iter = self;
        let mut chunks: Vec<Chunk> = Vec::new();
        loop
            invariant
                iter.bytes() == self.bytes(),
                decode_all(self.bytes(), self.pos(), self.seen()) == join(
                    chunks@.map_values(|c: Chunk| c@),
                    decode_all(iter.bytes(), iter.pos(), iter.seen()),
                ),
            decreases iter.bytes().len() - iter.pos(),
        {
            let ghost before = iter;
            let ghost done = chunks@.map_values(|c: Chunk| c@);
            match iter.next() {
                None => {
                    assert(done + Seq::<ChunkView>::empty() =~= done);
                    return Ok(chunks);
                },
                Some(Err(e)) => {
                    return Err(e);
                },
                Some(Ok(chunk)) => {
                    chunks.push(chunk);
                    proof {
                        let rest = decode_all(iter.bytes(), iter.pos(), iter.seen());
                        assert(chunks@.map_values(|c: Chunk| c@) =~= done + seq![chunk@]);
                        if rest is Ok {
                            assert(done + (seq![chunk@] + rest->Ok_0) =~= (done + seq![chunk@])
                                + rest->Ok_0);
                        }
                    }
                },
            }
        }
    }
}

/// Chunks read so far, put in front of what reading the rest gives.
spec fn join(done: Seq<ChunkView>, rest: Result<Seq<ChunkView>, Error>) -> Result<
    Seq<ChunkView>,
    Error,
> {
    match rest {
        Ok(chunks) => Ok(done + chunks),
        Err(e) => Err(e),
    }
}

/// The byte that stands for a tag on the wire.
pub open spec fn byte_of_tag(tag: Tag) -> u8 {
    match tag {
        Tag::EOF => 0,
        Tag::Int => 1,
        Tag::Uint => 2,
        Tag::String => 3,
        Tag::Array => 4,
        Tag::Mapping => 5,
    }
}

/// The more significant byte of a 16-bit value.
pub open spec fn high_byte(value: u16) -> u8 {
    (value / 256) as u8
}

/// The less significant byte of a 16-bit value.
pub open spec fn low_byte(value: u16) -> u8 {
    (value % 256) as u8
}

/// The bytes of a chunk on the wire: id, tag and size, then the content.
pub open spec fn wire(chunk: ChunkView) -> Seq<u8> {
    seq![
        high_byte(chunk.id.0),
        low_byte(chunk.id.0),
        byte_of_tag(chunk.tag),
        high_byte(chunk.size.0),
        low_byte(chunk.size.0),
    ] + chunk.content
}

/// A chunk that a stream can hold: its content is as long as its size says,
/// and its tag admits the size.
pub open spec fn fit_for_wire(chunk: ChunkView) -> bool {
    chunk.wf() && size_allowed(chunk.tag, chunk.size.0)
}

/// Every tag is read back from its byte.
pub proof fn lemma_tag_byte_round_trip(tag: Tag)
    ensures
        tag_of_byte(byte_of_tag(tag)) == Some(tag),
        tag_from_byte(byte_of_tag(tag)) == Ok::<Tag, ReaderError>(tag),
{
}

/// Every 16-bit value is read back from its two bytes.
pub proof fn lemma_be16_round_trip(value: u16)
    ensures
        be16(high_byte(value), low_byte(value)) == value,
{
}

/// What follows the id of a chunk that is fit for the wire is read back as
/// it was written, wherever the chunk stands in a stream.
proof fn lemma_info_at_wire(before: Seq<u8>, chunk: ChunkView, after: Seq<u8>)
    requires
        fit_for_wire(chunk),
    ensures
        ({
            let bytes = before + wire(chunk) + after;
            let pos = before.len() as int;
            &&& bytes.len() - pos >= 5
            &&& be16(bytes[pos], bytes[pos + 1]) == chunk.id.0
            &&& info_at(bytes, pos + 2) == (
                Ok::<(Tag, ChunkSize, Seq<u8>), ReaderError>(
                    (chunk.tag, chunk.size, chunk.content),
                ),
                (before.len() + wire(chunk).len()) as int,
            )
        }),
{
    let bytes = before + wire(chunk) + after;
    let pos = before.len() as int;
    lemma_be16_round_trip(chunk.id.0);
    lemma_be16_round_trip(chunk.size.0);
    lemma_tag_byte_round_trip(chunk.tag);
    assert(bytes[pos] == high_byte(chunk.id.0));
    assert(bytes[pos + 1] == low_byte(chunk.id.0));
    assert(bytes[pos + 2] == byte_of_tag(chunk.tag));
    assert(bytes[pos + 3] == high_byte(chunk.size.0));
    assert(bytes[pos + 4] == low_byte(chunk.size.0));
    assert(bytes.subrange(pos + 5, pos + 5 + chunk.size.0) =~= chunk.content);
}

/// Writing a chunk and reading it back gives the same chunk. Wherever the
/// bytes of a chunk that is fit for the wire stand in a stream, and whatever
/// follows them, reading at their start yields that chunk, leaves the cursor
/// right behind them, and adds the id to those seen, provided that the id
/// was not seen before.
pub proof fn lemma_decode_wire(
    before: Seq<u8>,
    chunk: ChunkView,
    after: Seq<u8>,
    seen: Set<u16>,
)
    requires
        fit_for_wire(chunk),
        !seen.contains(chunk.id.0),
    ensures
        decode_at(before + wire(chunk) + after, before.len() as int, seen) == (Decoded {
            result: Ok(chunk),
            pos: (before.len() + wire(chunk).len()) as int,
            seen: seen.insert(chunk.id.0),
        }),
{
    lemma_info_at_wire(before, chunk, after);
}

/// A chunk whose id was seen is refused, however well it is written. Where
/// the bytes of a chunk that is fit for the wire stand in a stream that has
/// seen its id, reading at their start fails with a collision that names the
/// id, and leaves the cursor right behind them.
pub proof fn lemma_decode_wire_of_seen_id(
    before: Seq<u8>,
    chunk: ChunkView,
    after: Seq<u8>,
    seen: Set<u16>,
)
    requires
        fit_for_wire(chunk),
        seen.contains(chunk.id.0),
    ensures
        decode_at(before + wire(chunk) + after, before.len() as int, seen) == (Decoded {
            result: Err(blame(ReaderError::IdColision { id: chunk.id }, chunk.id)),
            pos: (before.len() + wire(chunk).len()) as int,
            seen,
        }),
{
    lemma_info_at_wire(before, chunk, after);
}

/// A stream that is one chunk reads back as that chunk alone.
pub proof fn lemma_round_trip(chunk: ChunkView)
    requires
        fit_for_wire(chunk),
    ensures
        decode_all(wire(chunk), 0, Set::empty()) == Ok::<Seq<ChunkView>, Error>(seq![chunk]),
{
    let none = Seq::<u8>::empty();
    lemma_decode_wire(none, chunk, none, Set::empty());
    assert(none + wire(chunk) + none =~= wire(chunk));
    let d = decode_at(wire(chunk), 0, Set::empty());
    assert(decode_all(wire(chunk), d.pos, d.seen) == Ok::<Seq<ChunkView>, Error>(Seq::empty()));
    assert(seq![chunk] + Seq::<ChunkView>::empty() =~= seq![chunk]);
}

/// Of two chunks with one id that follow each other in a stream, the first
/// is read and the second is refused as a collision that names the id.
pub proof fn lemma_second_of_one_id_collides(
    first: ChunkView,
    second: ChunkView,
    after: Seq<u8>,
    seen: Set<u16>,
)
    requires
        fit_for_wire(first),
        fit_for_wire(second),
        first.id == second.id,
        !seen.contains(first.id.0),
    ensures
        ({
            let stream = wire(first) + wire(second) + after;
            let one = decode_at(stream, 0, seen);
            let two = decode_at(stream, one.pos, one.seen);
            &&& one.result == Ok::<ChunkView, Error>(first)
            &&& two.result == Err::<ChunkView, Error>(
                blame(ReaderError::IdColision { id: first.id }, first.id),
            )
            &&& two.seen == one.seen
            &&& decode_all(stream, 0, seen) == Err::<Seq<ChunkView>, Error>(
                blame(ReaderError::IdColision { id: first.id }, first.id),
            )
        }),
{
    let stream = wire(first) + wire(second) + after;
    let none = Seq::<u8>::empty();
    lemma_decode_wire(none, first, wire(second) + after, seen);
    assert(none + wire(first) + (wire(second) + after) =~= stream);
    let one = decode_at(stream, 0, seen);
    lemma_decode_wire_of_seen_id(wire(first), second, after, one.seen);
    let two = decode_at(stream, one.pos, one.seen);
    let collision = blame(ReaderError::IdColision { id: first.id }, first.id);
    assert(two.result == Err::<ChunkView, Error>(collision));
    assert(decode_all(stream, one.pos, one.seen) == Err::<Seq<ChunkView>, Error>(collision));
}

/// What is read is fit for the wire, and its id is new. A chunk that
/// reading yields has content as long as its size says and a size that its
/// tag admits; its id was not seen before and is seen afterwards; and the
/// cursor has moved past its five framing bytes and its content.
pub proof fn lemma_decoded_chunk(bytes: Seq<u8>, pos: int, seen: Set<u16>)
    requires
        0 <= pos <= bytes.len(),
        decode_at(bytes, pos, seen).result is Ok,
    ensures
        ({
            let read = decode_at(bytes, pos, seen);
            let chunk = read.result->Ok_0;
            &&& fit_for_wire(chunk)
            &&& !seen.contains(chunk.id.0)
            &&& read.seen == seen.insert(chunk.id.0)
            &&& read.pos == pos + 5 + chunk.content.len()
            &&& read.pos <= bytes.len()
            &&& bytes.subrange(pos, read.pos) == wire(chunk)
        }),
{
    let read = decode_at(bytes, pos, seen);
    let chunk = read.result->Ok_0;
    lemma_be16_round_trip(chunk.id.0);
    lemma_be16_round_trip(chunk.size.0);
    assert(bytes.subrange(pos, read.pos) =~= wire(chunk));
}

/// No two chunks of a stream share an id. The chunks that a whole stream
/// yields are fit for the wire, their ids differ from one another, and none
/// of them was seen before.
pub proof fn lemma_ids_are_distinct(bytes: Seq<u8>, pos: int, seen: Set<u16>)
    requires
        0 <= pos <= bytes.len(),
        decode_all(bytes, pos, seen) is Ok,
    ensures
        ({
            let chunks = decode_all(bytes, pos, seen)->Ok_0;
            &&& forall|i: int| 0 <= i < chunks.len() ==> fit_for_wire(#[trigger] chunks[i])
            &&& forall|i: int| 0 <= i < chunks.len() ==> !seen.contains((#[trigger] chunks[i]).id.0)
            &&& forall|i: int, j: int|
                0 <= i < j < chunks.len() ==> (#[trigger] chunks[i]).id != (#[trigger] chunks[j]).id
        }),
    decreases bytes.len() - pos,
{
    if pos < bytes.len() {
        let read = decode_at(bytes, pos, seen);
        let first = read.result->Ok_0;
        lemma_decoded_chunk(bytes, pos, seen);
        lemma_ids_are_distinct(bytes, read.pos, read.seen);
        let rest = decode_all(bytes, read.pos, read.seen)->Ok_0;
        let chunks = decode_all(bytes, pos, seen)->Ok_0;
        assert(chunks == seq![first] + rest);
        assert forall|i: int| 0 <= i < chunks.len() implies fit_for_wire(#[trigger] chunks[i])
            && !seen.contains(chunks[i].id.0) by {
            if i > 0 {
                assert(chunks[i] == rest[i - 1]);
            }
        }
        assert forall|i: int, j: int| 0 <= i < j < chunks.len() implies (#[trigger] chunks[i]).id
            != (#[trigger] chunks[j]).id by {
            assert(chunks[j] == rest[j - 1]);
            if i > 0 {
                assert(chunks[i] == rest[i - 1]);
            }
        }
    }
}

/// Where a stream is cut decides what reading at the start of a chunk
/// reports. No byte left is the end of the stream; one byte is a missing id;
/// both are attributed to the id 0. After the id, no byte is a missing tag,
/// fewer than two more a missing size, and content cut short is missing
/// content, with the size that was declared and the number of bytes that
/// came.
pub proof fn lemma_truncation(bytes: Seq<u8>, pos: int, seen: Set<u16>)
    requires
        0 <= pos <= bytes.len(),
    ensures
        ({
            let left = bytes.len() - pos;
            let read = decode_at(bytes, pos, seen);
            let id = ChunkId(be16(bytes[pos], bytes[pos + 1]));
            let size = be16(bytes[pos + 3], bytes[pos + 4]);
            &&& left == 0 ==> read.result == Err::<ChunkView, Error>(
                blame(ReaderError::EOF, ChunkId(0)),
            ) && read.pos == pos
            &&& left == 1 ==> read.result == Err::<ChunkView, Error>(
                blame(ReaderError::MissingId, ChunkId(0)),
            )
            &&& left == 2 ==> read.result == Err::<ChunkView, Error>(
                blame(ReaderError::MissingTag, id),
            )
            &&& 3 <= left <= 4 ==> read.result == Err::<ChunkView, Error>(
                blame(ReaderError::MissingSize, id),
            )
            &&& left >= 5 && left - 5 < size ==> read.result == Err::<ChunkView, Error>(
                blame(ReaderError::MissingContent { needs: size, got: (left - 5) as usize }, id),
            )
            &&& left >= 1 && (left < 5 || left - 5 < size) ==> read.pos == bytes.len()
            &&& left < 5 || left - 5 < size ==> read.seen == seen
        }),
{
}

} // verus!
