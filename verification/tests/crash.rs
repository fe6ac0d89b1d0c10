use storage::ll::objects::{ObjectHeader, ObjectLocation, ObjectState};
use storage::medium::ram::RamStorage;
use storage::medium::WriteGranularity;
use storage::{Reader, Storage, StorageError};

type Medium = RamStorage<128, 16>;

fn read_file(storage: &mut Storage<Medium>, path: &str) -> Result<Vec<u8>, StorageError> {
    let mut reader: Reader = storage.read(path)?;
    let mut out = Vec::new();
    let mut buf = [0u8; 32];
    loop {
        let n = reader.read(storage, &mut buf)?;
        if n == 0 {
            return Ok(out);
        }
        out.extend_from_slice(&buf[..n]);
    }
}

fn content(len: usize, seed: u8) -> Vec<u8> {
    (0..len).map(|i| (i as u8).wrapping_mul(13).wrapping_add(seed)).collect()
}

fn prepared(granularity: WriteGranularity) -> Storage<Medium> {
    let medium = Medium::with_granularity(granularity);
    let mut storage = Storage::format_and_mount(medium, 2).unwrap();
    storage.store("keep", &content(150, 1)).unwrap();
    storage.store("file", &content(200, 2)).unwrap();
    storage
}

fn cut_power(storage: Storage<Medium>, writes: usize) -> Storage<Medium> {
    let mut medium = storage.unmount();
    medium.fail_after(writes);
    Storage::mount(medium).unwrap()
}

fn power_cycle(storage: Storage<Medium>) -> Storage<Medium> {
    let mut medium = storage.unmount();
    medium.restore_power();
    Storage::mount(medium).unwrap()
}

#[test]
fn interrupted_store_leaves_old_or_new_content() {
    for granularity in [WriteGranularity::Bit, WriteGranularity::Word(4)] {
        let old = content(200, 2);
        let new = content(170, 3);
        let mut saw_old = false;
        let mut saw_new_after_failure = false;
        let mut writes = 0;
        loop {
            let mut storage = cut_power(prepared(granularity), writes);
            let res = storage.store("file", &new);
            let mut storage = power_cycle(storage);
            let now = read_file(&mut storage, "file").unwrap();
            assert_eq!(read_file(&mut storage, "keep").unwrap(), content(150, 1));
            match res {
                Ok(()) => {
                    assert_eq!(now, new);
                    break;
                }
                Err(e) => {
                    assert_eq!(e, StorageError::Io);
                    assert!(now == old || now == new, "torn file after {writes} writes");
                    saw_old |= now == old;
                    saw_new_after_failure |= now == new;
                }
            }
            writes += 1;
            assert!(writes < 1000);
        }
        assert!(saw_old);
        assert!(saw_new_after_failure);
    }
}

#[test]
fn interrupted_first_store_leaves_nothing_or_the_file() {
    let new = content(90, 5);
    let mut writes = 0;
    loop {
        let mut storage = cut_power(prepared(WriteGranularity::Bit), writes);
        let res = storage.store("fresh", &new);
        let mut storage = power_cycle(storage);
        let now = read_file(&mut storage, "fresh");
        assert_eq!(read_file(&mut storage, "keep").unwrap(), content(150, 1));
        assert_eq!(read_file(&mut storage, "file").unwrap(), content(200, 2));
        match res {
            Ok(()) => {
                assert_eq!(now, Ok(new));
                break;
            }
            Err(e) => {
                assert_eq!(e, StorageError::Io);
                assert!(now == Err(StorageError::NotFound) || now == Ok(new.clone()));
            }
        }
        writes += 1;
        assert!(writes < 1000);
    }
}

#[test]
fn interrupted_delete_leaves_the_file_whole_or_gone() {
    for granularity in [WriteGranularity::Bit, WriteGranularity::Word(2)] {
        let old = content(200, 2);
        let mut writes = 0;
        loop {
            let mut storage = cut_power(prepared(granularity), writes);
            let res = storage.delete("file");
            let mut storage = power_cycle(storage);
            let now = read_file(&mut storage, "file");
            assert_eq!(read_file(&mut storage, "keep").unwrap(), content(150, 1));
            match res {
                Ok(()) => {
                    assert_eq!(now, Err(StorageError::NotFound));
                    break;
                }
                Err(e) => {
                    assert_eq!(e, StorageError::Io);
                    assert!(now == Ok(old.clone()) || now == Err(StorageError::NotFound));
                    if writes == 0 {
                        assert_eq!(now, Ok(old.clone()));
                    } else {
                        assert_eq!(now, Err(StorageError::NotFound));
                    }
                }
            }
            writes += 1;
            assert!(writes < 1000);
        }
    }
}

#[test]
fn unfinished_file_is_not_found_after_remount() {
    let mut storage = cut_power(prepared(WriteGranularity::Bit), 3);
    assert_eq!(storage.store("fresh", &content(40, 9)), Err(StorageError::Io));
    let mut storage = power_cycle(storage);
    assert_eq!(storage.read("fresh").err(), Some(StorageError::NotFound));
    for block in 0..16 {
        assert_eq!(storage.collect(block), Ok(true));
    }
    assert_eq!(storage.read("fresh").err(), Some(StorageError::NotFound));
    assert_eq!(read_file(&mut storage, "keep").unwrap(), content(150, 1));
    assert_eq!(read_file(&mut storage, "file").unwrap(), content(200, 2));
    storage.store("fresh", &content(40, 9)).unwrap();
    assert_eq!(read_file(&mut storage, "fresh").unwrap(), content(40, 9));
}

#[test]
fn interrupted_collect_keeps_every_file() {
    for block in [0usize, 2, 3] {
        let mut writes = 0;
        loop {
            let mut storage = cut_power(prepared(WriteGranularity::Bit), writes);
            let res = storage.collect(block);
            let mut storage = power_cycle(storage);
            assert_eq!(read_file(&mut storage, "keep").unwrap(), content(150, 1));
            assert_eq!(read_file(&mut storage, "file").unwrap(), content(200, 2));
            match res {
                Ok(done) => {
                    assert!(done);
                    break;
                }
                Err(e) => assert_eq!(e, StorageError::Io),
            }
            writes += 1;
            assert!(writes < 1000);
        }
    }
}

#[test]
fn failing_medium_gives_io_errors() {
    let mut storage = cut_power(prepared(WriteGranularity::Bit), 0);
    assert_eq!(storage.store("x", b"abc"), Err(StorageError::Io));
    assert_eq!(storage.delete("file"), Err(StorageError::Io));
    assert_eq!(read_file(&mut storage, "file").unwrap(), content(200, 2));
    let mut medium = storage.unmount();
    assert_eq!(Storage::<Medium>::format(&mut medium, 2), Err(StorageError::Io));
}

#[test]
fn objects_are_deleted_in_order() {
    let name_at = ObjectLocation::new(2, 4);
    let data_at = ObjectLocation::new(2, 4 + 2 + 1);
    let meta_at = ObjectLocation::new(0, 4);
    let deleted = ObjectState::Deleted;
    let finalized = ObjectState::Finalized;
    for (writes, expected) in [
        (0usize, [finalized, finalized, finalized]),
        (1, [deleted, finalized, finalized]),
        (2, [deleted, deleted, finalized]),
        (3, [deleted, deleted, deleted]),
    ] {
        let mut storage = Storage::format_and_mount(Medium::new(), 2).unwrap();
        storage.store("a", &content(10, 1)).unwrap();
        let mut medium = storage.unmount();
        medium.fail_after(writes);
        let mut storage = Storage::mount(medium).unwrap();
        let res = storage.delete("a");
        assert_eq!(res.is_ok(), writes == 3);
        let mut medium = storage.unmount();
        let states =
            [name_at, data_at, meta_at].map(|at| ObjectHeader::read(at, &mut medium).unwrap().state);
        assert_eq!(states, expected, "after {writes} writes");
    }
}
