//! Resolution of decoded chunks into typed pieces.
//!
//! A [`PieceManager`] owns a pool of chunks that have not been turned into
//! pieces yet. Materializing a chunk takes it out of the pool for good, so a
//! chunk yields at most one piece. Composite pieces keep their children as
//! unresolved ids, except that the keys of a map are materialized with it and
//! must turn out to be scalars.

use crate::reader::{be16, merge_2be_u8s};
use crate::{Chunk, ChunkId, ChunkView, Tag};
use std::collections::HashMap;
use std::string::FromUtf8Error;
use vstd::arithmetic::div_mod::{
    lemma_fundamental_div_mod, lemma_fundamental_div_mod_converse, lemma_small_mod,
};
use vstd::prelude::*;
use vstd::utf8::{decode_utf8, valid_utf8};

verus! {

broadcast use vstd::std_specs::hash::group_hash_axioms;

/// The error with which `String::from_utf8` turns down bytes that are not
/// UTF-8. Nothing is known of a value of it but that it exists.
#[verifier::external_type_specification]
#[verifier::external_body]
pub struct ExFromUtf8Error(FromUtf8Error);

/// The resolved value of one chunk.
#[derive(Debug, PartialEq, Eq)]
pub struct Piece {
    pub id: ChunkId,
    pub tag: Tag,
    pub content: PieceContent,
}

/// What a piece holds. The children of an array and the values of a map are
/// the ids of chunks that have not been materialized; the keys of a map are
/// resolved.
#[derive(Debug, PartialEq, Eq)]
pub enum PieceContent {
    PStr(String),
    PInt(i64),
    PUint(u64),
    PArray(Vec<ChunkId>),
    PMap(Vec<(PieceKey, ChunkId)>),
}

/// The scalar contents, which alone can be the key of a map.
#[derive(PartialEq, Eq, Hash, Clone, Debug)]
pub enum PieceKey {
    PStr(String),
    PInt(i64),
    PUint(u64),
}

/// Why a chunk could not be materialized.
#[derive(Debug, PartialEq, Eq)]
pub enum ParseContentError {
    /// The content of a text chunk is not UTF-8.
    StringParse(FromUtf8Error),
    /// The pool holds no chunk of that id: there never was one, or it has
    /// been materialized already.
    ChunkNotFound(ChunkId),
    /// The chunk named as a key of a map is an array or a map.
    PieceCantBeKey { id: ChunkId, tag: Tag },
}

/// Mathematical value of a [`PieceKey`].
pub enum KeyView {
    PStr(Seq<char>),
    PInt(i64),
    PUint(u64),
}

/// Mathematical value of a [`PieceContent`].
pub enum ContentView {
    PStr(Seq<char>),
    PInt(i64),
    PUint(u64),
    PArray(Seq<ChunkId>),
    PMap(Seq<(KeyView, ChunkId)>),
}

/// Mathematical value of a [`Piece`].
pub struct PieceView {
    pub id: ChunkId,
    pub tag: Tag,
    pub content: ContentView,
}

/// Mathematical value of a [`ParseContentError`]: the same cases, without
/// the details of a text failure.
pub enum Failure {
    StringParse,
    ChunkNotFound(ChunkId),
    PieceCantBeKey { id: ChunkId, tag: Tag },
}

impl View for PieceKey {
    type V = KeyView;

    open spec fn view(&self) -> KeyView {
        match self {
            PieceKey::PStr(s) => KeyView::PStr(s@),
            PieceKey::PInt(v) => KeyView::PInt(*v),
            PieceKey::PUint(v) => KeyView::PUint(*v),
        }
    }
}

/// The values of the entries of a map, in order.
pub open spec fn entries_view(entries: Seq<(PieceKey, ChunkId)>) -> Seq<(KeyView, ChunkId)> {
    entries.map_values(|e: (PieceKey, ChunkId)| (e.0@, e.1))
}

impl View for PieceContent {
    type V = ContentView;

    open spec fn view(&self) -> ContentView {
        match self {
            PieceContent::PStr(s) => ContentView::PStr(s@),
            PieceContent::PInt(v) => ContentView::PInt(*v),
            PieceContent::PUint(v) => ContentView::PUint(*v),
            PieceContent::PArray(ids) => ContentView::PArray(ids@),
            PieceContent::PMap(entries) => ContentView::PMap(entries_view(entries@)),
        }
    }
}

impl View for Piece {
    type V = PieceView;

    open spec fn view(&self) -> PieceView {
        PieceView { id: self.id, tag: self.tag, content: self.content@ }
    }
}

impl View for ParseContentError {
    type V = Failure;

    open spec fn view(&self) -> Failure {
        match self {
            ParseContentError::StringParse(_) => Failure::StringParse,
            ParseContentError::ChunkNotFound(id) => Failure::ChunkNotFound(*id),
            ParseContentError::PieceCantBeKey { id, tag } => Failure::PieceCantBeKey {
                id: *id,
                tag: *tag,
            },
        }
    }
}

/// The key that a piece makes: its content if that is a scalar, and a
/// failure that names the piece if it is an array or a map.
pub open spec fn key_of(piece: PieceView) -> Result<KeyView, Failure> {
    match piece.content {
        ContentView::PStr(s) => Ok(KeyView::PStr(s)),
        ContentView::PInt(v) => Ok(KeyView::PInt(v)),
        ContentView::PUint(v) => Ok(KeyView::PUint(v)),
        _ => Err(Failure::PieceCantBeKey { id: piece.id, tag: piece.tag }),
    }
}

impl Piece {
    /// Turns a scalar piece into a key; an array or a map is refused.
    pub fn into_key(self) -> (key: Result<PieceKey, ParseContentError>)
        ensures
            match key {
                Ok(k) => key_of(self@) == Ok::<KeyView, Failure>(k@),
                Err(e) => key_of(self@) == Err::<KeyView, Failure>(e@),
            },
    {
        match self.content {
            PieceContent::PStr(s) => Ok(PieceKey::PStr(s)),
            PieceContent::PInt(v) => Ok(PieceKey::PInt(v)),
            PieceContent::PUint(v) => Ok(PieceKey::PUint(v)),
            PieceContent::PMap(_) => Err(
                ParseContentError::PieceCantBeKey { id: self.id, tag: self.tag },
            ),
            PieceContent::PArray(_) => Err(
                ParseContentError::PieceCantBeKey { id: self.id, tag: self.tag },
            ),
        }
    }
}

/// Number of values of a 64-bit word.
pub open spec fn word_modulus() -> int {
    0x1_0000_0000_0000_0000
}

/// The number that `bytes` spell in base 256, most significant byte first.
pub open spec fn be_value(bytes: Seq<u8>) -> nat
    decreases bytes.len(),
{
    if bytes.len() == 0 {
        0
    } else {
        be_value(bytes.drop_last()) * 256 + bytes.last() as nat
    }
}

/// The unsigned integer that a chunk's content stands for: its big-endian
/// value, of which only the low 64 bits are kept.
pub open spec fn uint_of(bytes: Seq<u8>) -> u64 {
    (be_value(bytes) as int % word_modulus()) as u64
}

/// The signed integer that a chunk's content stands for: the bit pattern of
/// [`uint_of`] read as two's complement. Content shorter than eight bytes is
/// therefore never negative.
pub open spec fn int_of(bytes: Seq<u8>) -> i64 {
    let u = uint_of(bytes);
    if u < 0x8000_0000_0000_0000 {
        u as i64
    } else {
        (u - word_modulus()) as i64
    }
}

/// Number of values that `n` bytes can spell.
pub open spec fn values_of_width(n: nat) -> nat
    decreases n,
{
    if n == 0 {
        1
    } else {
        256 * values_of_width((n - 1) as nat)
    }
}

/// What bytes spell is below the number of values of their width.
pub proof fn lemma_be_value_below_width(bytes: Seq<u8>)
    ensures
        be_value(bytes) < values_of_width(bytes.len()),
    decreases bytes.len(),
{
    if bytes.len() > 0 {
        lemma_be_value_below_width(bytes.drop_last());
    }
}

/// Content that fits the word is read exactly. Up to eight bytes give as an
/// unsigned integer the number that they spell; up to seven bytes give the
/// same number as a signed integer, which is then not negative.
pub proof fn lemma_short_content_is_exact(bytes: Seq<u8>)
    ensures
        bytes.len() <= 8 ==> uint_of(bytes) == be_value(bytes),
        bytes.len() <= 7 ==> int_of(bytes) == be_value(bytes),
{
    lemma_be_value_below_width(bytes);
    reveal_with_fuel(values_of_width, 9);
    if bytes.len() <= 8 {
        assert(values_of_width(bytes.len()) <= word_modulus());
        lemma_small_mod(be_value(bytes), word_modulus() as nat);
    }
    if bytes.len() <= 7 {
        assert(values_of_width(bytes.len()) <= 0x0100_0000_0000_0000);
    }
}

/// One step of the fold: shifting the accumulator by a byte and adding the
/// next byte never overflows, and is multiplication by 256 modulo the word.
proof fn lemma_fold_step(acc: u64, b: u8)
    ensures
        (acc << 8) + b <= u64::MAX,
        (acc << 8) + b == (acc * 256 + b) % word_modulus(),
{
    let low: u64 = acc & 0x00ff_ffff_ffff_ffff;
    assert((acc << 8) <= 0xffff_ffff_ffff_ff00) by (bit_vector);
    assert((acc << 8) == 256 * (acc & 0x00ff_ffff_ffff_ffff)) by (bit_vector);
    assert(acc & 0x00ff_ffff_ffff_ffff == acc % 0x0100_0000_0000_0000) by (bit_vector);
    let q: int = acc as int / 0x0100_0000_0000_0000;
    lemma_fundamental_div_mod(acc as int, 0x0100_0000_0000_0000);
    assert(acc * 256 + b == word_modulus() * q + (256 * low + b));
    lemma_fundamental_div_mod_converse(acc * 256 + b, word_modulus(), q, 256 * low + b);
}

/// Folding is compatible with reduction modulo the word: reducing after
/// every byte gives the same as reducing once at the end.
proof fn lemma_fold_mod(prefix: Seq<u8>, b: u8)
    ensures
        uint_of(prefix.push(b)) == (uint_of(prefix) * 256 + b) % word_modulus(),
{
    let v = be_value(prefix) as int;
    let m = word_modulus();
    assert(prefix.push(b).drop_last() =~= prefix);
    assert(be_value(prefix.push(b)) == v * 256 + b);
    lemma_fundamental_div_mod(v, m);
    let r = v % m;
    let k = (r * 256 + b) / m;
    lemma_fundamental_div_mod(r * 256 + b, m);
    assert(v * 256 + b == m * ((v / m) * 256 + k) + (r * 256 + b) % m) by (nonlinear_arith)
        requires
            v == m * (v / m) + r,
            r * 256 + b == m * k + (r * 256 + b) % m,
    ;
    lemma_fundamental_div_mod_converse(v * 256 + b, m, (v / m) * 256 + k, (r * 256 + b) % m);
}

/// Folds `content` big-endian into an unsigned 64-bit integer.
pub fn make_uint(content: &[u8]) -> (value: u64)
    ensures
        value == uint_of(content@),
{
    let mut acc: u64 = 0;
    let mut i: usize = 0;
    while i < content.len()
        invariant
            i <= content.len(),
            acc == uint_of(content@.take(i as int)),
        decreases content.len() - i,
    {
        let b: u8 = content[i];
        proof {
            lemma_fold_step(acc, b);
            lemma_fold_mod(content@.take(i as int), b);
            assert(content@.take(i as int).push(b) =~= content@.take(i + 1));
        }
        acc = (acc << 8) + (b as u64);
        i += 1;
    }
    assert(content@.take(i as int) =~= content@);
    acc
}

/// Folds `content` big-endian as [`make_uint`] does and reads the resulting
/// bit pattern as a signed integer. No sign extension takes place: content
/// of fewer than eight bytes gives a value that is not negative.
pub fn make_int(content: &[u8]) -> (value: i64)
    ensures
        value == int_of(content@),
{
    let u: u64 = make_uint(content);
    if u < 0x8000_0000_0000_0000 {
        u as i64
    } else {
        ((u - 0x8000_0000_0000_0000) as i64) + i64::MIN
    }
}

/// The id whose two big-endian bytes stand at offset `at` of `content`.
pub open spec fn id_at(content: Seq<u8>, at: int) -> ChunkId {
    ChunkId(be16(content[at], content[at + 1]))
}

/// The ids that the content of an array lists: one for every two bytes. A
/// last odd byte is left aside.
pub open spec fn array_entries(content: Seq<u8>) -> Seq<ChunkId> {
    Seq::new((content.len() / 2) as nat, |i: int| id_at(content, 2 * i))
}

/// Number of four-byte records in the content of a map. Up to three last
/// bytes that fill no record are left aside.
pub open spec fn record_count(content: Seq<u8>) -> nat {
    (content.len() / 4) as nat
}

/// The id of the key in record `record` of the content of a map.
pub open spec fn key_at(content: Seq<u8>, record: int) -> ChunkId {
    id_at(content, 4 * record)
}

/// The id of the value in record `record` of the content of a map.
pub open spec fn value_at(content: Seq<u8>, record: int) -> ChunkId {
    id_at(content, 4 * record + 2)
}

/// The pool that a sequence of chunks makes: each under its own id, a later
/// chunk in the place of an earlier one of the same id.
pub open spec fn pool_of(chunks: Seq<ChunkView>) -> Map<u16, ChunkView>
    decreases chunks.len(),
{
    if chunks.len() == 0 {
        Map::empty()
    } else {
        pool_of(chunks.drop_last()).insert(chunks.last().id.0, chunks.last())
    }
}

/// The piece that a scalar or array chunk makes by itself.
pub open spec fn piece_of(chunk: ChunkView, content: ContentView) -> PieceView {
    PieceView { id: chunk.id, tag: chunk.tag, content }
}

/// Materializes the chunk of the given id: the outcome, and the pool that is
/// left.
///
/// A chunk that the pool lacks is not found. One that it holds leaves the
/// pool before it is converted by [`convert`], whatever comes of that.
pub open spec fn materialize(pool: Map<u16, ChunkView>, id: ChunkId) -> (
    Result<PieceView, Failure>,
    Map<u16, ChunkView>,
)
    decreases pool.dom().len(), 0nat, 0nat,
    when pool.dom().finite()
{
    if pool.contains_key(id.0) {
        convert(pool.remove(id.0), pool[id.0])
    } else {
        (Err(Failure::ChunkNotFound(id)), pool)
    }
}

/// Converts a chunk that is out of the pool into a piece, by its tag: the
/// outcome, and the pool that is left.
///
/// Only a map touches the pool, for its keys. An end marker stands for no
/// value, and is not found.
pub open spec fn convert(pool: Map<u16, ChunkView>, chunk: ChunkView) -> (
    Result<PieceView, Failure>,
    Map<u16, ChunkView>,
)
    decreases pool.dom().len(), 2nat, 0nat,
    when pool.dom().finite()
{
    match chunk.tag {
        Tag::Int => (Ok(piece_of(chunk, ContentView::PInt(int_of(chunk.content)))), pool),
        Tag::Uint => (Ok(piece_of(chunk, ContentView::PUint(uint_of(chunk.content)))), pool),
        Tag::String => if valid_utf8(chunk.content) {
            (Ok(piece_of(chunk, ContentView::PStr(decode_utf8(chunk.content)))), pool)
        } else {
            (Err(Failure::StringParse), pool)
        },
        Tag::Array => (Ok(piece_of(chunk, ContentView::PArray(array_entries(chunk.content)))), pool),
        Tag::Mapping => {
            let (entries, rest) = resolve_entries(pool, chunk.content, 0);
            match entries {
                Ok(es) => (Ok(piece_of(chunk, ContentView::PMap(es))), rest),
                Err(e) => (Err(e), rest),
            }
        },
        Tag::EOF => (Err(Failure::ChunkNotFound(chunk.id)), pool),
    }
}

/// Resolves the records of a map from record `from` on: the entries, or the
/// first failure, and the pool that is left.
///
/// The key of each record is materialized in turn, from the pool that the
/// records before it left, and must make a key; the value stays an id. The
/// first failure ends it. The comparison of the two pools' sizes is there
/// for the definition to be well founded; [`lemma_pool_shrinks`] shows that
/// it always holds.
pub open spec fn resolve_entries(pool: Map<u16, ChunkView>, content: Seq<u8>, from: int) -> (
    Result<Seq<(KeyView, ChunkId)>, Failure>,
    Map<u16, ChunkView>,
)
    decreases pool.dom().len(), 1nat, record_count(content) - from,
    when pool.dom().finite()
{
    if from < 0 || from >= record_count(content) {
        (Ok(Seq::empty()), pool)
    } else {
        let (piece, after_key) = materialize(pool, key_at(content, from));
        match piece {
            Err(e) => (Err(e), after_key),
            Ok(p) => match key_of(p) {
                Err(e) => (Err(e), after_key),
                Ok(key) => if after_key.dom().finite() && after_key.dom().len()
                    <= pool.dom().len() {
                    let (entries, rest) = resolve_entries(after_key, content, from + 1);
                    match entries {
                        Ok(es) => (Ok(seq![(key, value_at(content, from))] + es), rest),
                        Err(e) => (Err(e), rest),
                    }
                } else {
                    (Err(Failure::ChunkNotFound(key_at(content, from))), after_key)
                },
            },
        }
    }
}

/// Materializing only ever takes chunks out of the pool, and the chunk that
/// was asked for is among them if it was there.
pub proof fn lemma_pool_shrinks(pool: Map<u16, ChunkView>, id: ChunkId)
    requires
        pool.dom().finite(),
    ensures
        materialize(pool, id).1.submap_of(pool),
        materialize(pool, id).1.dom().finite(),
        materialize(pool, id).1.dom().len() <= pool.dom().len(),
        !materialize(pool, id).1.contains_key(id.0),
        pool.contains_key(id.0) ==> materialize(pool, id).1.dom().len() < pool.dom().len(),
    decreases pool.dom().len(), 0nat, 0nat,
{
    if pool.contains_key(id.0) {
        lemma_convert_shrinks(pool.remove(id.0), pool[id.0]);
    }
}

/// Converting a chunk only ever takes chunks out of the pool.
pub proof fn lemma_convert_shrinks(pool: Map<u16, ChunkView>, chunk: ChunkView)
    requires
        pool.dom().finite(),
    ensures
        convert(pool, chunk).1.submap_of(pool),
        convert(pool, chunk).1.dom().finite(),
        convert(pool, chunk).1.dom().len() <= pool.dom().len(),
    decreases pool.dom().len(), 2nat, 0nat,
{
    if chunk.tag == Tag::Mapping {
        lemma_entries_shrink(pool, chunk.content, 0);
    }
}

/// Resolving the records of a map only ever takes chunks out of the pool.
pub proof fn lemma_entries_shrink(pool: Map<u16, ChunkView>, content: Seq<u8>, from: int)
    requires
        pool.dom().finite(),
    ensures
        resolve_entries(pool, content, from).1.submap_of(pool),
        resolve_entries(pool, content, from).1.dom().finite(),
        resolve_entries(pool, content, from).1.dom().len() <= pool.dom().len(),
    decreases pool.dom().len(), 1nat, record_count(content) - from,
{
    if 0 <= from < record_count(content) {
        let (piece, after_key) = materialize(pool, key_at(content, from));
        lemma_pool_shrinks(pool, key_at(content, from));
        if piece is Ok && key_of(piece->Ok_0) is Ok {
            lemma_entries_shrink(after_key, content, from + 1);
            let rest = resolve_entries(after_key, content, from + 1).1;
            assert(resolve_entries(pool, content, from).1 == rest);
            assert(rest.submap_of(pool));
        } else {
            assert(resolve_entries(pool, content, from).1 == after_key);
        }
    }
}

/// The value of what a materialization returned.
pub open spec fn outcome_view(outcome: Result<Piece, ParseContentError>) -> Result<
    PieceView,
    Failure,
> {
    match outcome {
        Ok(piece) => Ok(piece@),
        Err(e) => Err(e@),
    }
}

/// The values of a sequence of chunks, in order.
pub open spec fn chunk_views(chunks: Seq<Chunk>) -> Seq<ChunkView> {
    chunks.map_values(|c: Chunk| c@)
}

/// Calls `String::from_utf8`, which turns bytes into text exactly when they
/// are UTF-8, and then yields the characters that they encode.
#[verifier::external_body]
fn string_from_utf8(bytes: Vec<u8>) -> (text: Result<String, FromUtf8Error>)
    ensures
        text is Ok <==> valid_utf8(bytes@),
        text matches Ok(s) ==> s@ == decode_utf8(bytes@),
{
    String::from_utf8(bytes)
}

/// Entries resolved so far, put in front of what resolving the rest gives.
spec fn prepend(
    done: Seq<(KeyView, ChunkId)>,
    rest: (Result<Seq<(KeyView, ChunkId)>, Failure>, Map<u16, ChunkView>),
) -> (Result<Seq<(KeyView, ChunkId)>, Failure>, Map<u16, ChunkView>) {
    match rest.0 {
        Ok(es) => (Ok(done + es), rest.1),
        Err(e) => (Err(e), rest.1),
    }
}

/// The pool of chunks that have not been materialized, each under its id.
pub struct PieceManager {
    chunks: HashMap<u16, Chunk>,
}

impl PieceManager {
    /// The chunks that are still to be materialized, by id.
    pub closed spec fn pool(&self) -> Map<u16, ChunkView> {
        self.chunks@.map_values(|c: Chunk| c@)
    }

    /// The pool of a manager is finite.
    pub proof fn lemma_pool_finite(&self)
        ensures
            self.pool().dom().finite(),
    {
        assert(self.pool().dom() =~= self.chunks@.dom());
    }

    /// A manager of the given chunks. Of two chunks with one id the later
    /// one is kept.
    pub fn new(chunks: Vec<Chunk>) -> (manager: Self)
        ensures
            manager.pool() == pool_of(chunk_views(chunks@)),
    {
        let mut pool: HashMap<u16, Chunk> = HashMap::new();
        let ghost all = chunks@;
        for chunk in it: chunks
            invariant
                it.seq() == all,
                pool@.map_values(|c: Chunk| c@) == pool_of(chunk_views(all.take(it.index()))),
        {
            let ghost before = pool@;
            proof {
                let sofar = chunk_views(all.take(it.index()));
                let more = chunk_views(all.take(it.index() + 1));
                assert(more.drop_last() =~= sofar);
                assert(more.last() == chunk@);
            }
            pool.insert(chunk.id.0, chunk);
            assert(pool@.map_values(|c: Chunk| c@) =~= before.map_values(|c: Chunk| c@).insert(
                chunk.id.0,
                chunk@,
            ));
        }
        assert(all.take(all.len() as int) =~= all);
        PieceManager { chunks: pool }
    }

    /// Materializes the chunk of the given id, which leaves the pool.
    pub fn eval_chunk_id(&mut self, chunk_id: ChunkId) -> (outcome: Result<
        Piece,
        ParseContentError,
    >)
        ensures
            outcome_view(outcome) == materialize(old(self).pool(), chunk_id).0,
            final(self).pool() == materialize(old(self).pool(), chunk_id).1,
        decreases old(self).pool().dom().len(), 0nat,
    {
        proof {
            self.lemma_pool_finite();
        }
        let key: u16 = chunk_id.0;
        match self.chunks.remove(&key) {
            None => {
                assert(self.pool() =~= old(self).pool());
                Err(ParseContentError::ChunkNotFound(chunk_id))
            },
            Some(chunk) => {
                assert(self.pool() =~= old(self).pool().remove(key));
                self.eval_chunk(chunk)
            },
        }
    }

    /// Converts a chunk that is not in the pool into a piece, by its tag.
    /// The keys of a map are materialized from the pool.
    pub fn eval_chunk(&mut self, chunk: Chunk) -> (outcome: Result<Piece, ParseContentError>)
        ensures
            outcome_view(outcome) == convert(old(self).pool(), chunk@).0,
            final(self).pool() == convert(old(self).pool(), chunk@).1,
        decreases old(self).pool().dom().len(), 1nat,
    {
        proof {
            self.lemma_pool_finite();
        }
        let ghost pool0 = self.pool();
        let ghost bytes = chunk.content@;
        let ghost whole = chunk@;
        let Chunk { id, tag, size: _, content } = chunk;
        let pcontent = match tag {
            Tag::Int => PieceContent::PInt(make_int(content.as_slice())),
            Tag::Uint => PieceContent::PUint(make_uint(content.as_slice())),
            Tag::String => {
                match string_from_utf8(content) {
                    Ok(text) => PieceContent::PStr(text),
                    Err(e) => {
                        return Err(ParseContentError::StringParse(e));
                    },
                }
            },
            Tag::Array => {
                let n: usize = content.len() / 2;
                let mut ids: Vec<ChunkId> = Vec::new();
                let mut i: usize = 0;
                while i < n
                    invariant
                        i <= n,
                        n == content.len() / 2,
                        bytes == content@,
                        ids@ =~= Seq::new(i as nat, |j: int| id_at(bytes, 2 * j)),
                    decreases n - i,
                {
                    ids.push(ChunkId(merge_2be_u8s(content[2 * i], content[2 * i + 1])));
                    i += 1;
                }
                PieceContent::PArray(ids)
            },
            Tag::Mapping => {
                let n: usize = content.len() / 4;
                let mut entries: Vec<(PieceKey, ChunkId)> = Vec::new();
                let mut i: usize = 0;
                while i < n
                    invariant
                        i <= n,
                        n == record_count(bytes),
                        bytes == content@,
                        whole == chunk@,
                        whole.content == bytes,
                        whole.tag == Tag::Mapping,
                        pool0 == old(self).pool(),
                        pool0.dom().finite(),
                        self.pool().dom().finite(),
                        self.pool().dom().len() <= pool0.dom().len(),
                        resolve_entries(pool0, bytes, 0) == prepend(
                            entries_view(entries@),
                            resolve_entries(self.pool(), bytes, i as int),
                        ),
                    decreases n - i,
                {
                    let key_id = ChunkId(merge_2be_u8s(content[4 * i], content[4 * i + 1]));
                    let value_id = ChunkId(merge_2be_u8s(content[4 * i + 2], content[4 * i + 3]));
                    let ghost before = self.pool();
                    let ghost done = entries_view(entries@);
                    proof {
                        lemma_pool_shrinks(before, key_id);
                    }
                    assert(key_id == key_at(bytes, i as int));
                    assert(value_id == value_at(bytes, i as int));
                    let piece = match self.eval_chunk_id(key_id) {
                        Ok(piece) => piece,
                        Err(e) => {
                            assert(resolve_entries(before, bytes, i as int) == (
                                Err::<Seq<(KeyView, ChunkId)>, Failure>(e@),
                                self.pool(),
                            ));
                            return Err(e);
                        },
                    };
                    let key = match piece.into_key() {
                        Ok(key) => key,
                        Err(e) => {
                            assert(resolve_entries(before, bytes, i as int) == (
                                Err::<Seq<(KeyView, ChunkId)>, Failure>(e@),
                                self.pool(),
                            ));
                            return Err(e);
                        },
                    };
                    entries.push((key, value_id));
                    proof {
                        let next = resolve_entries(self.pool(), bytes, i + 1);
                        assert(entries_view(entries@) =~= done + seq![(key@, value_id)]);
                        assert(resolve_entries(before, bytes, i as int) == prepend(
                            seq![(key@, value_id)],
                            next,
                        ));
                        if next.0 is Ok {
                            assert(done + (seq![(key@, value_id)] + next.0->Ok_0) =~= (done
                                + seq![(key@, value_id)]) + next.0->Ok_0);
                        }
                    }
                    i += 1;
                }
                assert(entries_view(entries@) + Seq::empty() =~= entries_view(entries@));
                PieceContent::PMap(entries)
            },
            Tag::EOF => {
                return Err(ParseContentError::ChunkNotFound(id));
            },
        };
        Ok(Piece { id, tag, content: pcontent })
    }

    /// Materializes the root of the document, which by convention is the
    /// chunk of id 1.
    pub fn eval_first(&mut self) -> (outcome: Result<Piece, ParseContentError>)
        ensures
            outcome_view(outcome) == materialize(old(self).pool(), ChunkId(1)).0,
            final(self).pool() == materialize(old(self).pool(), ChunkId(1)).1,
    {
        self.eval_chunk_id(ChunkId(1))
    }
}

impl Default for PieceManager {
    /// A manager with an empty pool.
    fn default() -> (manager: Self)
        ensures
            manager.pool() == Map::<u16, ChunkView>::empty(),
    {
        let manager = PieceManager { chunks: HashMap::new() };
        assert(manager.pool() =~= Map::<u16, ChunkView>::empty());
        manager
    }
}

/// A chunk is materialized at most once. Whatever a first request for an id
/// came to, a second request for the same id finds no chunk, and leaves the
/// pool as it is.
pub proof fn lemma_materialized_at_most_once(pool: Map<u16, ChunkView>, id: ChunkId)
    requires
        pool.dom().finite(),
    ensures
        materialize(materialize(pool, id).1, id) == (
            Err::<PieceView, Failure>(Failure::ChunkNotFound(id)),
            materialize(pool, id).1,
        ),
{
    lemma_pool_shrinks(pool, id);
}

/// The key that a scalar chunk makes.
pub open spec fn scalar_key(chunk: ChunkView) -> KeyView {
    match chunk.tag {
        Tag::Int => KeyView::PInt(int_of(chunk.content)),
        Tag::Uint => KeyView::PUint(uint_of(chunk.content)),
        _ => KeyView::PStr(decode_utf8(chunk.content)),
    }
}

/// A chunk is a scalar that can be read: an integer, or text that is UTF-8.
pub open spec fn readable_scalar(chunk: ChunkView) -> bool {
    chunk.tag == Tag::Int || chunk.tag == Tag::Uint || (chunk.tag == Tag::String && valid_utf8(
        chunk.content,
    ))
}

/// A key slot that names an array or a map is refused. Where the chunk
/// named as the key of record `from` is an array, or a map that itself
/// materializes, resolving the records fails, and the failure names that
/// chunk's id and tag.
pub proof fn lemma_composite_key_refused(pool: Map<u16, ChunkView>, content: Seq<u8>, from: int)
    requires
        pool.dom().finite(),
        0 <= from < record_count(content),
        pool.contains_key(key_at(content, from).0),
        pool[key_at(content, from).0].tag == Tag::Array || (pool[key_at(content, from).0].tag
            == Tag::Mapping && materialize(pool, key_at(content, from)).0 is Ok),
    ensures
        resolve_entries(pool, content, from) == (
            Err::<Seq<(KeyView, ChunkId)>, Failure>(
                Failure::PieceCantBeKey {
                    id: pool[key_at(content, from).0].id,
                    tag: pool[key_at(content, from).0].tag,
                },
            ),
            materialize(pool, key_at(content, from)).1,
        ),
{
}

/// A key slot that names a readable scalar is accepted. Where the chunk
/// named as the key of record `from` is an integer or UTF-8 text, that chunk
/// leaves the pool, the record makes an entry of the chunk's value and the
/// record's value id, and the entries of the records after it follow.
pub proof fn lemma_scalar_key_accepted(pool: Map<u16, ChunkView>, content: Seq<u8>, from: int)
    requires
        pool.dom().finite(),
        0 <= from < record_count(content),
        pool.contains_key(key_at(content, from).0),
        readable_scalar(pool[key_at(content, from).0]),
    ensures
        ({
            let key_id = key_at(content, from);
            let entry = (scalar_key(pool[key_id.0]), value_at(content, from));
            let after = resolve_entries(pool.remove(key_id.0), content, from + 1);
            &&& key_of(materialize(pool, key_id).0->Ok_0) == Ok::<KeyView, Failure>(entry.0)
            &&& resolve_entries(pool, content, from).1 == after.1
            &&& resolve_entries(pool, content, from).0 == match after.0 {
                Ok(es) => Ok::<Seq<(KeyView, ChunkId)>, Failure>(seq![entry] + es),
                Err(e) => Err(e),
            }
        }),
{
    let key_id = key_at(content, from);
    lemma_pool_shrinks(pool, key_id);
}

/// The key rule, seen from the map: a map chunk whose first record names an
/// array as its key fails to convert, and the failure names the array.
pub proof fn lemma_map_with_array_key(pool: Map<u16, ChunkView>, chunk: ChunkView)
    requires
        pool.dom().finite(),
        chunk.tag == Tag::Mapping,
        record_count(chunk.content) > 0,
        pool.contains_key(key_at(chunk.content, 0).0),
        pool[key_at(chunk.content, 0).0].tag == Tag::Array,
    ensures
        convert(pool, chunk).0 == Err::<PieceView, Failure>(
            Failure::PieceCantBeKey {
                id: pool[key_at(chunk.content, 0).0].id,
                tag: Tag::Array,
            },
        ),
{
    lemma_composite_key_refused(pool, chunk.content, 0);
}

} // verus!
