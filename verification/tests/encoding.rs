use storage::ll::blocks::{BlockType, HEADER_BYTES};
use storage::ll::bytes::{bytes_equal, decode_le, digit_le, is_all_ones};
use storage::ll::objects::{
    hash_path, link_from_bytes, link_into_bytes, metadata_bytes, ObjectLocation, ObjectState,
};
use storage::medium::{bytes_for, Geometry, WriteGranularity};
use storage::StorageError;

fn bit_geometry() -> Geometry {
    Geometry { block_size: 256, block_count: 32, granularity: WriteGranularity::Bit }
}

fn word_geometry(width: usize) -> Geometry {
    Geometry { block_size: 256, block_count: 32, granularity: WriteGranularity::Word(width) }
}

#[test]
fn block_type_bytes_are_fixed() {
    assert_eq!(HEADER_BYTES, 4);
    assert_eq!(BlockType::Undefined.into_bytes(), [0xFF, 0xFF, 0xFF, 0xFF]);
    assert_eq!(BlockType::Metadata.into_bytes(), [0x0F, 0xFF, 0xFF, 0xFF]);
    assert_eq!(BlockType::Data.into_bytes(), [0xF0, 0xFF, 0xFF, 0xFF]);
    for kind in [BlockType::Undefined, BlockType::Metadata, BlockType::Data] {
        assert_eq!(BlockType::from_bytes(&kind.into_bytes()), Ok(kind));
    }
}

#[test]
fn unknown_block_header_is_corrupted() {
    assert_eq!(BlockType::from_bytes(&[0x12, 0xFF, 0xFF, 0xFF]), Err(StorageError::Corrupted));
    assert_eq!(BlockType::from_bytes(&[0x0F, 0x00, 0xFF, 0xFF]), Err(StorageError::Corrupted));
    assert_eq!(BlockType::from_bytes(&[0x0F, 0xFF, 0xFF]), Err(StorageError::Corrupted));
}

#[test]
fn state_bits_only_clear() {
    assert_eq!(ObjectState::Free.into_bits(), 0xFF);
    assert_eq!(ObjectState::Allocated.into_bits(), 0xFE);
    assert_eq!(ObjectState::Finalized.into_bits(), 0xFC);
    assert_eq!(ObjectState::Deleted.into_bits(), 0x00);
    let order = [
        ObjectState::Free,
        ObjectState::Allocated,
        ObjectState::Finalized,
        ObjectState::Deleted,
    ];
    for pair in order.windows(2) {
        let (from, to) = (pair[0].into_bits(), pair[1].into_bits());
        assert_eq!(from & to, to);
    }
}

#[test]
fn unknown_state_byte_is_corrupted() {
    assert_eq!(ObjectState::from_bits(0x12), Err(StorageError::Corrupted));
    assert_eq!(ObjectState::from_bits(0xFD), Err(StorageError::Corrupted));
}

#[test]
fn state_words_clear_one_group_per_step() {
    let f = 0xFFu8;
    assert_eq!(ObjectState::Free.into_words(), [f; 12]);
    assert_eq!(ObjectState::Allocated.into_words(), [0, 0, 0, 0, f, f, f, f, f, f, f, f]);
    assert_eq!(ObjectState::Finalized.into_words(), [0, 0, 0, 0, 0, 0, 0, 0, f, f, f, f]);
    assert_eq!(ObjectState::Deleted.into_words(), [0; 12]);
    for state in [
        ObjectState::Free,
        ObjectState::Allocated,
        ObjectState::Finalized,
        ObjectState::Deleted,
    ] {
        assert_eq!(ObjectState::from_words(&state.into_words()), Ok(state));
    }
}

#[test]
fn unknown_state_words_are_corrupted() {
    let f = 0xFFu8;
    assert_eq!(
        ObjectState::from_words(&[0, f, f, f, f, f, f, f, f, f, f, f]),
        Err(StorageError::Corrupted)
    );
    assert_eq!(ObjectState::from_words(&[0, 0, 0, 0]), Err(StorageError::Corrupted));
}

#[test]
fn path_hash_is_fnv1a() {
    assert_eq!(hash_path(b""), 0x811C_9DC5);
    assert_eq!(hash_path(b"a"), 0xE40C_292C);
    assert_eq!(hash_path(b"foobar"), 0xBF9C_F968);
}

#[test]
fn little_endian_digits() {
    assert_eq!(decode_le(&[]), 0);
    assert_eq!(decode_le(&[0x34, 0x12]), 0x1234);
    assert_eq!(decode_le(&[0x78, 0x56, 0x34, 0x12]), 0x1234_5678);
    assert_eq!(digit_le(0x1234_5678, 0), 0x78);
    assert_eq!(digit_le(0x1234_5678, 1), 0x56);
    assert_eq!(digit_le(0x1234_5678, 2), 0x34);
    assert_eq!(digit_le(0x1234_5678, 3), 0x12);
    assert!(is_all_ones(&[0xFF, 0xFF]));
    assert!(!is_all_ones(&[0xFF, 0xFE]));
    assert!(bytes_equal(&[1, 2, 3], &[1, 2, 3]));
    assert!(!bytes_equal(&[1, 2, 3], &[1, 2]));
    assert!(!bytes_equal(&[1, 2, 3], &[1, 2, 4]));
}

#[test]
fn field_widths_follow_the_geometry() {
    assert_eq!(bytes_for(255), 1);
    assert_eq!(bytes_for(256), 2);
    assert_eq!(bytes_for(65535), 2);
    assert_eq!(bytes_for(65536), 3);
    assert_eq!(bytes_for(0x100_0000), 4);
    let g = bit_geometry();
    assert!(g.is_valid());
    assert_eq!(g.object_status_bytes(), 1);
    assert_eq!(g.object_size_bytes(), 2);
    assert_eq!(g.block_count_bytes(), 1);
    assert_eq!(g.object_location_bytes(), 3);
    assert_eq!(g.object_header_bytes(), 3);
    assert_eq!(metadata_bytes(&g), 10);
    let w = word_geometry(4);
    assert!(w.is_valid());
    assert_eq!(w.object_status_bytes(), 12);
    assert_eq!(w.object_header_bytes(), 16);
    let h = word_geometry(2);
    assert_eq!(h.object_header_bytes(), 14);
}

#[test]
fn geometry_limits() {
    let bit = |block_size, block_count| Geometry {
        block_size,
        block_count,
        granularity: WriteGranularity::Bit,
    };
    let word = |block_size, width| Geometry {
        block_size,
        block_count: 4,
        granularity: WriteGranularity::Word(width),
    };
    assert!(!bit(39, 4).is_valid());
    assert!(bit(40, 4).is_valid());
    assert!(bit(63, 1).is_valid());
    assert!(!bit(64, 0).is_valid());
    assert!(bit(0x7FFF_FFFF, 0x7FFF_FFFF).is_valid());
    assert!(!bit(0x8000_0000, 4).is_valid());
    assert!(!bit(64, 0x8000_0000).is_valid());
    assert!(word(41, 1).is_valid());
    assert!(word(66, 2).is_valid());
    assert!(!word(67, 2).is_valid());
    assert!(!word(66, 4).is_valid());
    assert!(word(64, 4).is_valid());
    assert!(!word(64, 3).is_valid());
    assert!(!word(64, 8).is_valid());
    assert!(!word(64, 0).is_valid());
}

#[test]
fn alignment_rounds_to_the_write_unit() {
    let g = bit_geometry();
    assert_eq!(g.align(5), 5);
    assert_eq!(g.floor(5), 5);
    assert!(g.is_aligned(5));
    let w = word_geometry(4);
    assert_eq!(w.align(5), 8);
    assert_eq!(w.align(8), 8);
    assert_eq!(w.floor(5), 4);
    assert!(!w.is_aligned(5));
    assert!(w.is_aligned(8));
    let h = word_geometry(2);
    assert_eq!(h.align(5), 6);
    assert_eq!(h.floor(5), 4);
}

#[test]
fn links_round_trip() {
    let g = bit_geometry();
    let (bytes, count) = link_into_bytes(&g, None);
    assert_eq!(count, 3);
    assert_eq!(&bytes[..count], &[0xFF, 0xFF, 0xFF]);
    assert_eq!(link_from_bytes(&g, &bytes[..count]), None);
    let location = ObjectLocation::new(5, 0x0104);
    let (bytes, count) = link_into_bytes(&g, Some(location));
    assert_eq!(&bytes[..count], &[5, 0x04, 0x01]);
    assert_eq!(link_from_bytes(&g, &bytes[..count]), Some(location));
}
