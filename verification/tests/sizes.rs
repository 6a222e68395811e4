use cfl::reader::ReaderError;
use cfl::{ChunkId, ChunkSize, Error, ErrorKind, Tag, TagSizeError};

#[test]
fn int_accepts_powers_of_two() {
    for n in [1u16, 2, 4, 8] {
        assert_eq!(Tag::Int.check_valid_size(ChunkSize(n)), None);
        assert_eq!(Tag::Uint.check_valid_size(ChunkSize(n)), None);
    }
}

#[test]
fn int_rejects_other_sizes() {
    for n in [0u16, 3, 5, 6, 7] {
        assert_eq!(
            Tag::Int.check_valid_size(ChunkSize(n)),
            Some(TagSizeError::IntMustBePowerOfTwo(ChunkSize(n)))
        );
        assert_eq!(
            Tag::Uint.check_valid_size(ChunkSize(n)),
            Some(TagSizeError::UintMustBePowerOfTwo(ChunkSize(n)))
        );
    }
}

#[test]
fn int_accepts_every_single_bit_and_nothing_else() {
    for n in 0u16..=u16::MAX {
        let accepted = Tag::Int.check_valid_size(ChunkSize(n)).is_none();
        assert_eq!(accepted, n.count_ones() == 1, "size {n}");
        let accepted = Tag::Uint.check_valid_size(ChunkSize(n)).is_none();
        assert_eq!(accepted, n.count_ones() == 1, "size {n}");
    }
}

#[test]
fn int_accepts_the_largest_power() {
    assert_eq!(Tag::Int.check_valid_size(ChunkSize(32768)), None);
    assert_eq!(
        Tag::Int.check_valid_size(ChunkSize(65535)),
        Some(TagSizeError::IntMustBePowerOfTwo(ChunkSize(65535)))
    );
}

#[test]
fn string_accepts_any_size() {
    for n in [0u16, 1, 3, 7, 255, 65535] {
        assert_eq!(Tag::String.check_valid_size(ChunkSize(n)), None);
    }
}

#[test]
fn array_accepts_even_sizes() {
    for n in [0u16, 2, 4, 6, 100, 65534] {
        assert_eq!(Tag::Array.check_valid_size(ChunkSize(n)), None);
    }
}

#[test]
fn array_rejects_odd_sizes() {
    for n in [1u16, 3, 5, 101, 65535] {
        assert_eq!(
            Tag::Array.check_valid_size(ChunkSize(n)),
            Some(TagSizeError::ArrayWithOddCount(ChunkSize(n)))
        );
    }
}

#[test]
fn map_accepts_multiples_of_four() {
    for n in [0u16, 4, 8, 12, 400, 65532] {
        assert_eq!(Tag::Mapping.check_valid_size(ChunkSize(n)), None);
    }
}

#[test]
fn map_rejects_other_sizes() {
    for n in [1u16, 2, 3, 5, 6, 7, 10, 65535] {
        assert_eq!(
            Tag::Mapping.check_valid_size(ChunkSize(n)),
            Some(TagSizeError::MapWithNonQuadCount(ChunkSize(n)))
        );
    }
}

#[test]
fn eof_accepts_only_zero() {
    assert_eq!(Tag::EOF.check_valid_size(ChunkSize(0)), None);
    for n in [1u16, 2, 4, 65535] {
        assert_eq!(
            Tag::EOF.check_valid_size(ChunkSize(n)),
            Some(TagSizeError::EOFWithSize(ChunkSize(n)))
        );
    }
}

#[test]
fn tag_from_byte_knows_six_tags() {
    assert_eq!(Tag::try_from(0u8), Ok(Tag::EOF));
    assert_eq!(Tag::try_from(1u8), Ok(Tag::Int));
    assert_eq!(Tag::try_from(2u8), Ok(Tag::Uint));
    assert_eq!(Tag::try_from(3u8), Ok(Tag::String));
    assert_eq!(Tag::try_from(4u8), Ok(Tag::Array));
    assert_eq!(Tag::try_from(5u8), Ok(Tag::Mapping));
}

#[test]
fn tag_from_byte_refuses_the_rest() {
    for b in 6u8..=255 {
        assert_eq!(Tag::try_from(b), Err(ReaderError::InvalidTagValue(b)));
    }
}

#[test]
fn tag_bytes_follow_declaration_order() {
    assert_eq!(Tag::EOF as u8, 0);
    assert_eq!(Tag::Int as u8, 1);
    assert_eq!(Tag::Uint as u8, 2);
    assert_eq!(Tag::String as u8, 3);
    assert_eq!(Tag::Array as u8, 4);
    assert_eq!(Tag::Mapping as u8, 5);
    for b in 0u8..=5 {
        assert_eq!(Tag::try_from(b).unwrap() as u8, b);
    }
}

#[test]
fn into_error_keeps_kind_and_id() {
    let kind = ErrorKind::InvalidChunk(ReaderError::MissingTag);
    let e = kind.into_error(ChunkId(9));
    assert_eq!(e, Error { kind, chunk_id: ChunkId(9) });
    assert_eq!(e.kind, ErrorKind::InvalidChunk(ReaderError::MissingTag));
    assert_eq!(e.chunk_id, ChunkId(9));
}

#[test]
fn error_kind_from_reader_error() {
    let e = ReaderError::IdColision { id: ChunkId(3) };
    assert_eq!(ErrorKind::from(e), ErrorKind::InvalidChunk(e));
}
