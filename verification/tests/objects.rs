use storage::ll::blocks::{BlockInfo, BlockType};
use storage::ll::objects::{ObjectLocation, ObjectReader, ObjectState};
use storage::ll::writer::ObjectWriter;
use storage::medium::ram::RamStorage;
use storage::medium::{Geometry, WriteGranularity};

#[test]
fn state_bits_round_trip() {
    for state in [
        ObjectState::Free,
        ObjectState::Allocated,
        ObjectState::Finalized,
        ObjectState::Deleted,
    ] {
        assert_eq!(ObjectState::from_bits(state.into_bits()), Ok(state));
    }
}

#[test]
fn location_round_trip() {
    let g = Geometry { block_size: 256, block_count: 32, granularity: WriteGranularity::Bit };
    let location = ObjectLocation::new(17, 200);
    let (bytes, count) = location.into_bytes(&g);
    assert_eq!(count, 3);
    assert_eq!(&bytes[..count], &[17, 200, 0]);
    assert_eq!(ObjectLocation::from_bytes(&g, &bytes[..count]), Ok(location));
}

#[test]
fn states_tell_what_they_are() {
    for state in [
        ObjectState::Free,
        ObjectState::Allocated,
        ObjectState::Finalized,
        ObjectState::Deleted,
    ] {
        assert_eq!(state.is_free(), state == ObjectState::Free);
        assert_eq!(state.is_allocated(), state == ObjectState::Allocated);
        assert_eq!(state.is_valid(), state == ObjectState::Finalized);
        assert_eq!(state.is_deleted(), state == ObjectState::Deleted);
        assert_eq!(state.is_used(), state != ObjectState::Free);
    }
}

#[test]
fn blocks_tell_their_kind() {
    for kind in [BlockType::Undefined, BlockType::Metadata, BlockType::Data] {
        let info = BlockInfo { kind, used: 4 };
        assert_eq!(info.is_undefined(), kind == BlockType::Undefined);
        assert_eq!(info.is_metadata(), kind == BlockType::Metadata);
        assert_eq!(info.is_data(), kind == BlockType::Data);
    }
}

#[test]
fn reader_reads_in_pieces_and_rewinds() {
    let mut medium = RamStorage::<256, 4>::new();
    let location = ObjectLocation::new(1, 4);
    let mut writer = ObjectWriter::new(location, &mut medium).unwrap();
    writer.allocate(&mut medium).unwrap();
    writer.write(&mut medium, b"0123456789").unwrap();
    writer.finalize(&mut medium).unwrap();

    let mut reader = ObjectReader::new(location, &mut medium).unwrap();
    assert_eq!(reader.len(), 10);
    assert_eq!(reader.remaining(), 10);
    let mut buf = [0u8; 4];
    assert_eq!(reader.read(&mut medium, &mut buf), Ok(4));
    assert_eq!(&buf, b"0123");
    assert_eq!(reader.remaining(), 6);
    assert_eq!(reader.read(&mut medium, &mut buf), Ok(4));
    assert_eq!(&buf, b"4567");
    assert_eq!(reader.read(&mut medium, &mut buf), Ok(2));
    assert_eq!(&buf[..2], b"89");
    assert_eq!(reader.read(&mut medium, &mut buf), Ok(0));
    reader.rewind();
    assert_eq!(reader.remaining(), 10);
    assert_eq!(reader.read(&mut medium, &mut buf), Ok(4));
    assert_eq!(&buf, b"0123");
}
