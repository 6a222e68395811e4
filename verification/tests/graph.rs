use cfl::graph::{
    make_int, make_uint, ParseContentError, Piece, PieceContent, PieceKey, PieceManager,
};
use cfl::reader::ChunkReader;
use cfl::{Chunk, ChunkId, ChunkSize, Tag};

fn chunk(id: u16, tag: Tag, content: &[u8]) -> Chunk {
    Chunk { id: ChunkId(id), tag, size: ChunkSize(content.len() as u16), content: content.to_vec() }
}

fn piece(id: u16, tag: Tag, content: PieceContent) -> Piece {
    Piece { id: ChunkId(id), tag, content }
}

#[test]
fn uint_of_four_bytes() {
    let mut m = PieceManager::new(vec![chunk(1, Tag::Uint, &[0, 0, 0, 100])]);
    assert_eq!(m.eval_first(), Ok(piece(1, Tag::Uint, PieceContent::PUint(100))));
}

#[test]
fn int_of_four_bytes() {
    let mut m = PieceManager::new(vec![chunk(1, Tag::Int, &[0, 0, 0, 100])]);
    assert_eq!(m.eval_first(), Ok(piece(1, Tag::Int, PieceContent::PInt(100))));
}

#[test]
fn fold_is_big_endian() {
    assert_eq!(make_uint(&[]), 0);
    assert_eq!(make_uint(&[7]), 7);
    assert_eq!(make_uint(&[1, 0]), 256);
    assert_eq!(make_uint(&[0x12, 0x34, 0x56, 0x78]), 0x1234_5678);
    assert_eq!(make_uint(&[1, 2, 3, 4, 5, 6, 7, 8]), 0x0102_0304_0506_0708);
    assert_eq!(make_uint(&[255; 8]), u64::MAX);
}

#[test]
fn fold_keeps_the_low_eight_bytes() {
    assert_eq!(make_uint(&[9, 1, 2, 3, 4, 5, 6, 7, 8]), 0x0102_0304_0506_0708);
    assert_eq!(make_uint(&[1, 0, 0, 0, 0, 0, 0, 0, 0]), 0);
    let mut sixteen = vec![0xaa; 8];
    sixteen.extend([0, 0, 0, 0, 0, 0, 0, 5]);
    assert_eq!(make_uint(&sixteen), 5);
    assert_eq!(make_int(&sixteen), 5);
}

#[test]
fn int_is_not_sign_extended() {
    assert_eq!(make_int(&[]), 0);
    assert_eq!(make_int(&[0xff]), 255);
    assert_eq!(make_int(&[0xff, 0xff]), 65535);
    assert_eq!(make_int(&[0x80, 0, 0, 0]), 0x8000_0000);
    assert_eq!(make_int(&[0xff, 0xff, 0xff, 0xff]), 0xffff_ffff);
}

#[test]
fn int_of_eight_bytes_is_twos_complement() {
    assert_eq!(make_int(&[0x7f, 255, 255, 255, 255, 255, 255, 255]), i64::MAX);
    assert_eq!(make_int(&[0x80, 0, 0, 0, 0, 0, 0, 0]), i64::MIN);
    assert_eq!(make_int(&[255; 8]), -1);
    assert_eq!(make_int(&[255, 255, 255, 255, 255, 255, 255, 0x9c]), -100);
}

#[test]
fn int_and_uint_share_the_bit_pattern() {
    let contents: [&[u8]; 5] =
        [&[1], &[0x80, 0x01], &[255; 8], &[0x80, 0, 0, 0, 0, 0, 0, 1], &[3; 11]];
    for content in contents {
        assert_eq!(make_int(content), make_uint(content) as i64);
    }
}

#[test]
fn string_chunk_decodes_text() {
    let mut m = PieceManager::new(vec![chunk(3, Tag::String, "héllo".as_bytes())]);
    assert_eq!(
        m.eval_chunk_id(ChunkId(3)),
        Ok(piece(3, Tag::String, PieceContent::PStr("héllo".to_string())))
    );
}

#[test]
fn empty_string_chunk() {
    let mut m = PieceManager::default();
    assert_eq!(
        m.eval_chunk(chunk(3, Tag::String, &[])),
        Ok(piece(3, Tag::String, PieceContent::PStr(String::new())))
    );
}

#[test]
fn string_chunk_with_invalid_text() {
    let mut m = PieceManager::new(vec![chunk(3, Tag::String, &[b'a', 0xff, b'b'])]);
    match m.eval_chunk_id(ChunkId(3)) {
        Err(ParseContentError::StringParse(e)) => {
            assert_eq!(e.utf8_error().valid_up_to(), 1);
            assert_eq!(e.into_bytes(), vec![b'a', 0xff, b'b']);
        }
        other => panic!("expected a text failure, got {other:?}"),
    }
    assert_eq!(m.eval_chunk_id(ChunkId(3)), Err(ParseContentError::ChunkNotFound(ChunkId(3))));
}

#[test]
fn array_keeps_ids_unresolved() {
    let mut m = PieceManager::new(vec![
        chunk(1, Tag::Array, &[0, 2, 1, 0, 255, 255]),
        chunk(2, Tag::Uint, &[1]),
    ]);
    assert_eq!(
        m.eval_first(),
        Ok(piece(
            1,
            Tag::Array,
            PieceContent::PArray(vec![ChunkId(2), ChunkId(256), ChunkId(65535)])
        ))
    );
    assert_eq!(m.eval_chunk_id(ChunkId(2)), Ok(piece(2, Tag::Uint, PieceContent::PUint(1))));
}

#[test]
fn empty_array_and_map() {
    let mut m = PieceManager::default();
    assert_eq!(
        m.eval_chunk(chunk(1, Tag::Array, &[])),
        Ok(piece(1, Tag::Array, PieceContent::PArray(vec![])))
    );
    assert_eq!(
        m.eval_chunk(chunk(2, Tag::Mapping, &[])),
        Ok(piece(2, Tag::Mapping, PieceContent::PMap(vec![])))
    );
}

#[test]
fn bytes_that_fill_no_entry_are_left_aside() {
    let mut m = PieceManager::default();
    assert_eq!(
        m.eval_chunk(chunk(1, Tag::Array, &[0, 9, 7])),
        Ok(piece(1, Tag::Array, PieceContent::PArray(vec![ChunkId(9)])))
    );
    assert_eq!(
        m.eval_chunk(chunk(2, Tag::Mapping, &[0, 9, 0])),
        Ok(piece(2, Tag::Mapping, PieceContent::PMap(vec![])))
    );
}

#[test]
fn map_resolves_keys_and_keeps_values() {
    let mut m = PieceManager::new(vec![
        chunk(1, Tag::Mapping, &[0, 2, 0, 5, 0, 3, 0, 6, 0, 4, 0, 7]),
        chunk(2, Tag::String, b"name"),
        chunk(3, Tag::Int, &[255; 8]),
        chunk(4, Tag::Uint, &[1, 0]),
        chunk(5, Tag::Uint, &[1]),
    ]);
    assert_eq!(
        m.eval_first(),
        Ok(piece(
            1,
            Tag::Mapping,
            PieceContent::PMap(vec![
                (PieceKey::PStr("name".to_string()), ChunkId(5)),
                (PieceKey::PInt(-1), ChunkId(6)),
                (PieceKey::PUint(256), ChunkId(7)),
            ])
        ))
    );
    assert_eq!(m.eval_chunk_id(ChunkId(2)), Err(ParseContentError::ChunkNotFound(ChunkId(2))));
    assert_eq!(m.eval_chunk_id(ChunkId(3)), Err(ParseContentError::ChunkNotFound(ChunkId(3))));
    assert_eq!(m.eval_chunk_id(ChunkId(4)), Err(ParseContentError::ChunkNotFound(ChunkId(4))));
    assert_eq!(m.eval_chunk_id(ChunkId(5)), Ok(piece(5, Tag::Uint, PieceContent::PUint(1))));
}

#[test]
fn map_key_cannot_be_an_array() {
    let mut m = PieceManager::new(vec![
        chunk(1, Tag::Mapping, &[0, 2, 0, 3]),
        chunk(2, Tag::Array, &[0, 3]),
        chunk(3, Tag::Uint, &[1]),
    ]);
    assert_eq!(
        m.eval_first(),
        Err(ParseContentError::PieceCantBeKey { id: ChunkId(2), tag: Tag::Array })
    );
    assert_eq!(m.eval_chunk_id(ChunkId(1)), Err(ParseContentError::ChunkNotFound(ChunkId(1))));
    assert_eq!(m.eval_chunk_id(ChunkId(2)), Err(ParseContentError::ChunkNotFound(ChunkId(2))));
    assert_eq!(m.eval_chunk_id(ChunkId(3)), Ok(piece(3, Tag::Uint, PieceContent::PUint(1))));
}

#[test]
fn map_key_cannot_be_a_map() {
    let mut m = PieceManager::new(vec![
        chunk(1, Tag::Mapping, &[0, 2, 0, 3]),
        chunk(2, Tag::Mapping, &[]),
    ]);
    assert_eq!(
        m.eval_first(),
        Err(ParseContentError::PieceCantBeKey { id: ChunkId(2), tag: Tag::Mapping })
    );
}

#[test]
fn failure_inside_a_key_comes_first() {
    let mut m = PieceManager::new(vec![
        chunk(1, Tag::Mapping, &[0, 2, 0, 3]),
        chunk(2, Tag::Mapping, &[0, 9, 0, 3]),
    ]);
    assert_eq!(m.eval_first(), Err(ParseContentError::ChunkNotFound(ChunkId(9))));
}

#[test]
fn map_with_missing_key_chunk() {
    let mut m = PieceManager::new(vec![
        chunk(1, Tag::Mapping, &[0, 2, 0, 3, 0, 8, 0, 3]),
        chunk(2, Tag::Uint, &[1]),
    ]);
    assert_eq!(m.eval_first(), Err(ParseContentError::ChunkNotFound(ChunkId(8))));
    assert_eq!(m.eval_chunk_id(ChunkId(2)), Err(ParseContentError::ChunkNotFound(ChunkId(2))));
}

#[test]
fn map_cannot_use_one_key_chunk_twice() {
    let mut m = PieceManager::new(vec![
        chunk(1, Tag::Mapping, &[0, 2, 0, 3, 0, 2, 0, 4]),
        chunk(2, Tag::Uint, &[1]),
    ]);
    assert_eq!(m.eval_first(), Err(ParseContentError::ChunkNotFound(ChunkId(2))));
}

#[test]
fn map_cannot_be_its_own_key() {
    let mut m = PieceManager::new(vec![chunk(1, Tag::Mapping, &[0, 1, 0, 1])]);
    assert_eq!(m.eval_first(), Err(ParseContentError::ChunkNotFound(ChunkId(1))));
}

#[test]
fn materializing_twice_fails() {
    let mut m = PieceManager::new(vec![chunk(4, Tag::Uint, &[0, 0, 0, 100])]);
    assert_eq!(m.eval_chunk_id(ChunkId(4)), Ok(piece(4, Tag::Uint, PieceContent::PUint(100))));
    assert_eq!(m.eval_chunk_id(ChunkId(4)), Err(ParseContentError::ChunkNotFound(ChunkId(4))));
    assert_eq!(m.eval_chunk_id(ChunkId(5)), Err(ParseContentError::ChunkNotFound(ChunkId(5))));
}

#[test]
fn root_is_chunk_one() {
    let mut m = PieceManager::new(vec![chunk(2, Tag::Uint, &[2]), chunk(1, Tag::Uint, &[1])]);
    assert_eq!(m.eval_first(), Ok(piece(1, Tag::Uint, PieceContent::PUint(1))));
    assert_eq!(m.eval_first(), Err(ParseContentError::ChunkNotFound(ChunkId(1))));
}

#[test]
fn empty_manager_finds_nothing() {
    let mut m = PieceManager::default();
    assert_eq!(m.eval_first(), Err(ParseContentError::ChunkNotFound(ChunkId(1))));
    let mut m = PieceManager::new(vec![]);
    assert_eq!(m.eval_chunk_id(ChunkId(0)), Err(ParseContentError::ChunkNotFound(ChunkId(0))));
}

#[test]
fn later_chunk_of_one_id_is_kept() {
    let mut m = PieceManager::new(vec![chunk(1, Tag::Uint, &[1]), chunk(1, Tag::Uint, &[2])]);
    assert_eq!(m.eval_first(), Ok(piece(1, Tag::Uint, PieceContent::PUint(2))));
    assert_eq!(m.eval_first(), Err(ParseContentError::ChunkNotFound(ChunkId(1))));
}

#[test]
fn end_marker_holds_no_value() {
    let mut m = PieceManager::new(vec![chunk(1, Tag::EOF, &[])]);
    assert_eq!(m.eval_first(), Err(ParseContentError::ChunkNotFound(ChunkId(1))));
}

#[test]
fn scalar_pieces_make_keys() {
    assert_eq!(
        piece(1, Tag::String, PieceContent::PStr("k".to_string())).into_key(),
        Ok(PieceKey::PStr("k".to_string()))
    );
    assert_eq!(piece(1, Tag::Int, PieceContent::PInt(-3)).into_key(), Ok(PieceKey::PInt(-3)));
    assert_eq!(piece(1, Tag::Uint, PieceContent::PUint(3)).into_key(), Ok(PieceKey::PUint(3)));
}

#[test]
fn composite_pieces_make_no_keys() {
    assert_eq!(
        piece(6, Tag::Array, PieceContent::PArray(vec![])).into_key(),
        Err(ParseContentError::PieceCantBeKey { id: ChunkId(6), tag: Tag::Array })
    );
    assert_eq!(
        piece(7, Tag::Mapping, PieceContent::PMap(vec![])).into_key(),
        Err(ParseContentError::PieceCantBeKey { id: ChunkId(7), tag: Tag::Mapping })
    );
}

#[test]
fn end_to_end() {
    let bytes = vec![0, 1, 3, 0, 4, 104, 105, 33, 10];
    let chunks = ChunkReader::new(bytes).into_iter().collect().unwrap();
    assert_eq!(chunks.len(), 1);
    assert_eq!(chunks[0], chunk(1, Tag::String, b"hi!\n"));
    let mut m = PieceManager::new(chunks);
    assert_eq!(
        m.eval_chunk_id(ChunkId(1)),
        Ok(piece(1, Tag::String, PieceContent::PStr("hi!\n".to_string())))
    );
}

#[test]
fn end_to_end_map() {
    let bytes = vec![
        0, 1, 5, 0, 4, 0, 2, 0, 3, // map: key 2, value 3
        0, 2, 3, 0, 1, b'k', // key
        0, 3, 1, 0, 2, 1, 44, // value
    ];
    let chunks = ChunkReader::new(bytes).into_iter().collect().unwrap();
    let mut m = PieceManager::new(chunks);
    assert_eq!(
        m.eval_first(),
        Ok(piece(
            1,
            Tag::Mapping,
            PieceContent::PMap(vec![(PieceKey::PStr("k".to_string()), ChunkId(3))])
        ))
    );
    assert_eq!(m.eval_chunk_id(ChunkId(3)), Ok(piece(3, Tag::Int, PieceContent::PInt(300))));
}
