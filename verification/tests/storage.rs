use storage::medium::ram::RamStorage;
use storage::medium::WriteGranularity;
use storage::{Reader, Storage, StorageError};

fn read_all<const S: usize, const C: usize>(
    storage: &mut Storage<RamStorage<S, C>>,
    path: &str,
) -> Result<Vec<u8>, StorageError> {
    let mut reader: Reader = storage.read(path)?;
    let mut out = Vec::new();
    let mut buf = [0u8; 16];
    loop {
        let n = reader.read(storage, &mut buf)?;
        if n == 0 {
            return Ok(out);
        }
        out.extend_from_slice(&buf[..n]);
    }
}

fn pattern(len: usize, seed: u8) -> Vec<u8> {
    (0..len).map(|i| (i as u8).wrapping_mul(31).wrapping_add(seed)).collect()
}

#[test]
fn lookup_returns_error_if_file_does_not_exist() {
    let medium = RamStorage::<256, 32>::new();
    let mut storage = Storage::format_and_mount(medium, 3).expect("Failed to mount storage");

    assert!(storage.read("foo").is_err(), "Lookup returned Ok unexpectedly");
}

#[test]
fn delete_returns_error_if_file_does_not_exist() {
    let medium = RamStorage::<256, 32>::new();
    let mut storage = Storage::format_and_mount(medium, 3).expect("Failed to mount storage");

    storage.delete("foo").expect_err("Delete returned Ok unexpectedly");
}

#[test]
fn missing_file_is_not_found() {
    let medium = RamStorage::<256, 32>::new();
    let mut storage = Storage::format_and_mount(medium, 3).unwrap();
    assert_eq!(storage.read("foo").err(), Some(StorageError::NotFound));
    assert_eq!(storage.delete("foo"), Err(StorageError::NotFound));
}

#[test]
fn store_read_delete_store_again() {
    let medium = RamStorage::<256, 32>::new();
    let mut storage = Storage::format_and_mount(medium, 3).unwrap();
    let data = pattern(1000, 7);
    storage.store("meas.0", &data).unwrap();
    let back = read_all(&mut storage, "meas.0").unwrap();
    assert_eq!(back.len(), 1000);
    assert_eq!(back, data);
    storage.delete("meas.0").unwrap();
    assert_eq!(storage.read("meas.0").err(), Some(StorageError::NotFound));
    let again = pattern(1000, 99);
    storage.store("meas.0", &again).unwrap();
    assert_eq!(read_all(&mut storage, "meas.0").unwrap(), again);
}

#[test]
fn store_replaces_content() {
    let medium = RamStorage::<256, 32>::new();
    let mut storage = Storage::format_and_mount(medium, 3).unwrap();
    storage.store("a", &pattern(300, 1)).unwrap();
    storage.store("b", &pattern(10, 2)).unwrap();
    storage.store("a", &pattern(20, 3)).unwrap();
    assert_eq!(read_all(&mut storage, "a").unwrap(), pattern(20, 3));
    assert_eq!(read_all(&mut storage, "b").unwrap(), pattern(10, 2));
}

#[test]
fn empty_file_round_trip() {
    let medium = RamStorage::<256, 32>::new();
    let mut storage = Storage::format_and_mount(medium, 3).unwrap();
    storage.store("empty", &[]).unwrap();
    assert_eq!(read_all(&mut storage, "empty").unwrap(), Vec::<u8>::new());
}

#[test]
fn files_survive_remount() {
    let medium = RamStorage::<256, 32>::new();
    let mut storage = Storage::format_and_mount(medium, 3).unwrap();
    storage.store("keep", &pattern(500, 5)).unwrap();
    let medium = storage.unmount();
    let mut storage = Storage::mount(medium).unwrap();
    assert_eq!(read_all(&mut storage, "keep").unwrap(), pattern(500, 5));
    storage.store("more", &pattern(40, 6)).unwrap();
    assert_eq!(read_all(&mut storage, "more").unwrap(), pattern(40, 6));
    assert_eq!(read_all(&mut storage, "keep").unwrap(), pattern(500, 5));
}

#[test]
fn word_granular_round_trip() {
    for width in [1usize, 2, 4] {
        let medium = RamStorage::<256, 32>::with_granularity(WriteGranularity::Word(width));
        let mut storage = Storage::format_and_mount(medium, 3).unwrap();
        for len in [0usize, 1, 2, 3, 4, 5, 7, 8, 9, 230, 231, 232, 233, 500, 1000] {
            let data = pattern(len, len as u8);
            storage.store("file", &data).unwrap();
            assert_eq!(read_all(&mut storage, "file").unwrap(), data);
        }
        storage.delete("file").unwrap();
        assert_eq!(storage.read("file").err(), Some(StorageError::NotFound));
    }
}

#[test]
fn store_fails_cleanly_when_full() {
    let medium = RamStorage::<64, 4>::new();
    let mut storage = Storage::format_and_mount(medium, 1).unwrap();
    storage.store("small", &pattern(20, 1)).unwrap();
    assert_eq!(storage.store("big", &pattern(400, 2)), Err(StorageError::InsufficientSpace));
    assert_eq!(read_all(&mut storage, "small").unwrap(), pattern(20, 1));
    assert_eq!(storage.read("big").err(), Some(StorageError::NotFound));
}

#[test]
fn format_rejects_too_many_metadata_blocks() {
    let mut medium = RamStorage::<256, 32>::new();
    assert_eq!(
        Storage::format(&mut medium, 33),
        Err(StorageError::InsufficientSpace)
    );
    assert_eq!(Storage::format(&mut medium, 32), Ok(()));
}

#[test]
fn smallest_blocks_hold_files() {
    let mut storage = Storage::format_and_mount(RamStorage::<40, 16>::new(), 2).unwrap();
    let data = pattern(100, 3);
    storage.store("a", &data).unwrap();
    assert_eq!(read_all(&mut storage, "a").unwrap(), data);
    storage.delete("a").unwrap();
    assert_eq!(storage.read("a").err(), Some(StorageError::NotFound));
}

#[test]
fn blocks_of_two_byte_words_need_not_be_multiples_of_four() {
    let medium = RamStorage::<66, 16>::with_granularity(WriteGranularity::Word(2));
    let mut storage = Storage::format_and_mount(medium, 2).unwrap();
    let data = pattern(150, 9);
    storage.store("a", &data).unwrap();
    assert_eq!(read_all(&mut storage, "a").unwrap(), data);
    let mut storage = Storage::mount(storage.unmount()).unwrap();
    assert_eq!(read_all(&mut storage, "a").unwrap(), data);
}
