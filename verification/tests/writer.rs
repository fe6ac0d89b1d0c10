use storage::ll::blocks::{BlockOps, BlockType, HEADER_BYTES};
use storage::ll::objects::{
    ObjectHeader, ObjectIterator, ObjectLocation, ObjectOps, ObjectReader, ObjectState,
};
use storage::ll::writer::ObjectWriter;
use storage::medium::ram::RamStorage;
use storage::medium::{StorageMedium, WriteGranularity};
use storage::StorageError;

fn first_object() -> ObjectLocation {
    ObjectLocation::new(0, HEADER_BYTES)
}

fn read_payload<const S: usize, const C: usize>(
    medium: &mut RamStorage<S, C>,
    location: ObjectLocation,
) -> Result<Vec<u8>, StorageError> {
    let mut reader = ObjectReader::new(location, medium)?;
    let mut out = vec![0u8; reader.len()];
    let n = reader.read(medium, &mut out)?;
    assert_eq!(n, out.len());
    assert_eq!(reader.remaining(), 0);
    Ok(out)
}

#[test]
fn written_object_reads_back() {
    let mut medium = RamStorage::<256, 4>::new();
    let mut writer = ObjectWriter::new(first_object(), &mut medium).unwrap();
    writer.allocate(&mut medium).unwrap();
    writer.write(&mut medium, b"hello ").unwrap();
    writer.write(&mut medium, b"world").unwrap();
    writer.finalize(&mut medium).unwrap();
    assert_eq!(read_payload(&mut medium, first_object()).unwrap(), b"hello world");
    let header = ObjectHeader::read(first_object(), &mut medium).unwrap();
    assert_eq!(header.state, ObjectState::Finalized);
    assert_eq!(header.object_size, 11);
}

#[test]
fn word_granular_writer_stages_the_rest() {
    for width in [1usize, 2, 4] {
        let mut medium = RamStorage::<256, 4>::with_granularity(WriteGranularity::Word(width));
        let mut writer = ObjectWriter::new(first_object(), &mut medium).unwrap();
        writer.allocate(&mut medium).unwrap();
        writer.write(&mut medium, &[1, 2, 3]).unwrap();
        writer.write(&mut medium, &[4, 5]).unwrap();
        writer.write(&mut medium, &[6, 7, 8, 9, 10, 11]).unwrap();
        writer.finalize(&mut medium).unwrap();
        assert_eq!(
            read_payload(&mut medium, first_object()).unwrap(),
            [1, 2, 3, 4, 5, 6, 7, 8, 9, 10, 11]
        );
    }
}

#[test]
fn writing_before_allocating_is_invalid() {
    let mut medium = RamStorage::<256, 4>::new();
    let mut writer = ObjectWriter::new(first_object(), &mut medium).unwrap();
    assert_eq!(writer.write(&mut medium, b"x"), Err(StorageError::InvalidState));
    assert_eq!(writer.finalize(&mut medium), Err(StorageError::InvalidState));
}

#[test]
fn allocating_twice_is_invalid() {
    let mut medium = RamStorage::<256, 4>::new();
    let mut writer = ObjectWriter::new(first_object(), &mut medium).unwrap();
    writer.allocate(&mut medium).unwrap();
    assert_eq!(writer.allocate(&mut medium), Err(StorageError::InvalidState));
}

#[test]
fn abandoned_object_cannot_be_resumed() {
    let mut medium = RamStorage::<256, 4>::new();
    let mut writer = ObjectWriter::new(first_object(), &mut medium).unwrap();
    writer.allocate(&mut medium).unwrap();
    writer.write(&mut medium, b"half").unwrap();
    assert_eq!(
        ObjectWriter::new(first_object(), &mut medium).err(),
        Some(StorageError::InvalidState)
    );
}

#[test]
fn payload_beyond_the_block_is_refused() {
    let mut medium = RamStorage::<64, 4>::new();
    let mut writer = ObjectWriter::new(first_object(), &mut medium).unwrap();
    writer.allocate(&mut medium).unwrap();
    let g = medium.geometry();
    let room = writer.space(&g);
    assert_eq!(room, 64 - 4 - 2);
    let too_much = vec![0u8; room + 1];
    assert_eq!(writer.write(&mut medium, &too_much), Err(StorageError::InsufficientSpace));
    let all = vec![7u8; room];
    writer.write(&mut medium, &all).unwrap();
    assert_eq!(writer.space(&g), 0);
    writer.finalize(&mut medium).unwrap();
    assert_eq!(read_payload(&mut medium, first_object()).unwrap(), all);
}

#[test]
fn reader_refuses_objects_that_are_not_finalized() {
    let mut medium = RamStorage::<256, 4>::new();
    assert_eq!(
        ObjectReader::new(first_object(), &mut medium).err(),
        Some(StorageError::InvalidState)
    );
    let mut writer = ObjectWriter::new(first_object(), &mut medium).unwrap();
    writer.allocate(&mut medium).unwrap();
    writer.write(&mut medium, b"abc").unwrap();
    assert_eq!(
        ObjectReader::new(first_object(), &mut medium).err(),
        Some(StorageError::InvalidState)
    );
}

#[test]
fn unknown_state_is_corruption() {
    let mut medium = RamStorage::<256, 4>::new();
    BlockOps::format_storage(&mut medium, 1).unwrap();
    medium.write(0, HEADER_BYTES, &[0x12]).unwrap();
    assert_eq!(
        ObjectHeader::read(first_object(), &mut medium).err(),
        Some(StorageError::Corrupted)
    );
    assert_eq!(
        ObjectReader::new(first_object(), &mut medium).err(),
        Some(StorageError::Corrupted)
    );
    let mut iter = ObjectIterator::new(0);
    assert_eq!(iter.next(&mut medium).err(), Some(StorageError::Corrupted));
    assert_eq!(BlockOps::scan_block(&mut medium, 0).err(), Some(StorageError::Corrupted));
}

#[test]
fn deleted_object_is_stepped_over() {
    let mut medium = RamStorage::<256, 4>::new();
    let mut writer = ObjectWriter::new(first_object(), &mut medium).unwrap();
    writer.allocate(&mut medium).unwrap();
    writer.write(&mut medium, b"gone").unwrap();
    writer.delete(&mut medium).unwrap();

    let mut iter = ObjectIterator::new(0);
    let info = iter.next(&mut medium).unwrap().unwrap();
    assert_eq!(info.location, first_object());
    assert_eq!(info.header.state, ObjectState::Deleted);
    assert_eq!(info.header.object_size, 4);
    assert_eq!(iter.current_offset(), HEADER_BYTES + 3 + 4);
    assert_eq!(iter.next(&mut medium).unwrap(), None);
    assert_eq!(iter.current_offset(), HEADER_BYTES + 3 + 4);
}

#[test]
fn deleting_a_free_object_changes_nothing() {
    let mut medium = RamStorage::<256, 4>::new();
    let writer = ObjectWriter::new(first_object(), &mut medium).unwrap();
    writer.delete(&mut medium).unwrap();
    let header = ObjectHeader::read(first_object(), &mut medium).unwrap();
    assert_eq!(header.state, ObjectState::Free);
}

#[test]
fn no_object_is_made_free_again() {
    let mut medium = RamStorage::<256, 4>::new();
    assert_eq!(
        ObjectOps::update_state(&mut medium, first_object(), ObjectState::Free),
        Err(StorageError::InvalidState)
    );
    ObjectOps::update_state(&mut medium, first_object(), ObjectState::Allocated).unwrap();
    ObjectOps::set_payload_size(&mut medium, first_object(), 5).unwrap();
    ObjectOps::update_state(&mut medium, first_object(), ObjectState::Finalized).unwrap();
    let header = ObjectHeader::read(first_object(), &mut medium).unwrap();
    assert_eq!(header.state, ObjectState::Finalized);
    assert_eq!(header.object_size, 5);
}

#[test]
fn power_loss_between_size_and_state_leaves_the_object_allocated() {
    let mut medium = RamStorage::<256, 4>::new();
    let mut writer = ObjectWriter::new(first_object(), &mut medium).unwrap();
    writer.allocate(&mut medium).unwrap();
    writer.write(&mut medium, b"payload").unwrap();
    medium.fail_after(1);
    assert_eq!(writer.finalize(&mut medium), Err(StorageError::Io));
    medium.restore_power();

    let header = ObjectHeader::read(first_object(), &mut medium).unwrap();
    assert_eq!(header.state, ObjectState::Allocated);
    assert_eq!(header.object_size, 7);
    assert_eq!(
        ObjectReader::new(first_object(), &mut medium).err(),
        Some(StorageError::InvalidState)
    );
    let mut iter = ObjectIterator::new(0);
    let info = iter.next(&mut medium).unwrap().unwrap();
    assert_eq!(info.header.state, ObjectState::Allocated);
    assert_eq!(iter.current_offset(), HEADER_BYTES + 3 + 7);
}

#[test]
fn scan_reports_kind_and_used_bytes() {
    let mut medium = RamStorage::<256, 4>::new();
    BlockOps::format_storage(&mut medium, 1).unwrap();
    let info = BlockOps::scan_block(&mut medium, 0).unwrap();
    assert_eq!(info.kind, BlockType::Metadata);
    assert_eq!(info.used, HEADER_BYTES);
    let info = BlockOps::scan_block(&mut medium, 1).unwrap();
    assert_eq!(info.kind, BlockType::Undefined);
    assert_eq!(info.used, HEADER_BYTES);

    let mut writer = ObjectWriter::new(first_object(), &mut medium).unwrap();
    writer.allocate(&mut medium).unwrap();
    writer.write(&mut medium, &[9u8; 20]).unwrap();
    writer.finalize(&mut medium).unwrap();
    let info = BlockOps::scan_block(&mut medium, 0).unwrap();
    assert_eq!(info.used, HEADER_BYTES + 3 + 20);
}
