use storage::diag::{bump, Counters};
use storage::medium::ram::RamStorage;
use storage::medium::StorageMedium;
use storage::Storage;

#[test]
fn counts_saturate() {
    assert_eq!(bump(0), 1);
    assert_eq!(bump(41), 42);
    assert_eq!(bump(usize::MAX), usize::MAX);
}

#[test]
fn counters_start_at_zero() {
    let counters = Counters::new(RamStorage::<256, 8>::new());
    assert_eq!(counters.erase_count, 0);
    assert_eq!(counters.read_count, 0);
    assert_eq!(counters.write_count, 0);
}

#[test]
fn every_operation_is_counted() {
    let mut counters = Counters::new(RamStorage::<256, 8>::new());
    let mut buf = [0u8; 4];
    counters.read(0, 0, &mut buf).unwrap();
    counters.read(1, 0, &mut buf).unwrap();
    counters.write(0, 0, &[0x0F]).unwrap();
    counters.erase(0).unwrap();
    counters.erase(1).unwrap();
    counters.erase(2).unwrap();
    assert!(counters.erase(8).is_err());
    assert_eq!(counters.read_count, 2);
    assert_eq!(counters.write_count, 1);
    assert_eq!(counters.erase_count, 4);
    assert_eq!(counters.geometry().block_count, 8);
}

#[test]
fn format_erases_every_block_once() {
    let counters = Counters::new(RamStorage::<256, 8>::new());
    let mut storage = Storage::format_and_mount(counters, 3).unwrap();
    assert_eq!(storage.erase_count(), 8);
    assert_eq!(storage.write_count(), 3);
    let reads = storage.read_count();
    assert!(reads >= 8);
    storage.store("a", b"0123456789").unwrap();
    assert_eq!(storage.erase_count(), 8);
    assert!(storage.write_count() > 3);
    assert!(storage.read("a").is_ok());
    assert!(storage.read_count() > reads);
}

#[test]
fn store_without_room_writes_nothing() {
    let counters = Counters::new(RamStorage::<64, 4>::new());
    let mut storage = Storage::format_and_mount(counters, 1).unwrap();
    storage.store("a", &[1u8; 40]).unwrap();
    let writes = storage.write_count();
    let erases = storage.erase_count();
    assert_eq!(storage.store("b", &[2u8; 400]), Err(storage::StorageError::InsufficientSpace));
    assert_eq!(storage.write_count(), writes);
    assert_eq!(storage.erase_count(), erases);
}

#[test]
fn delete_of_a_missing_file_writes_nothing() {
    let counters = Counters::new(RamStorage::<256, 8>::new());
    let mut storage = Storage::format_and_mount(counters, 2).unwrap();
    storage.store("a", b"abc").unwrap();
    let writes = storage.write_count();
    assert_eq!(storage.delete("b"), Err(storage::StorageError::NotFound));
    assert_eq!(storage.write_count(), writes);
}

#[test]
fn delete_writes_one_state_for_each_object() {
    let counters = Counters::new(RamStorage::<128, 8>::new());
    let mut storage = Storage::format_and_mount(counters, 2).unwrap();
    storage.store("a", &[7u8; 300]).unwrap();
    let writes = storage.write_count();
    let erases = storage.erase_count();
    storage.delete("a").unwrap();
    // The name object, three data objects and the metadata object.
    assert_eq!(storage.write_count(), writes + 5);
    assert_eq!(storage.erase_count(), erases);
}

#[test]
fn collecting_erases_one_block_and_storing_none() {
    let counters = Counters::new(RamStorage::<128, 8>::new());
    let mut storage = Storage::format_and_mount(counters, 2).unwrap();
    let erases = storage.erase_count();
    storage.store("a", &[7u8; 300]).unwrap();
    storage.store("a", &[8u8; 100]).unwrap();
    storage.delete("a").unwrap();
    assert_eq!(storage.erase_count(), erases);
    storage.store("b", &[1u8; 30]).unwrap();
    assert_eq!(storage.collect(2), Ok(true));
    assert_eq!(storage.erase_count(), erases + 1);
    assert_eq!(storage.reclaim(0), Ok(false));
    assert_eq!(storage.erase_count(), erases + 1);
    assert_eq!(storage.collect(8), Ok(false));
    assert_eq!(storage.erase_count(), erases + 1);
}
