use storage::medium::ram::RamStorage;
use storage::{Storage, StorageError};

type Medium = RamStorage<128, 16>;

fn names(storage: &mut Storage<Medium>) -> Result<Vec<String>, StorageError> {
    let mut walk = storage.list();
    let mut out = Vec::new();
    while let Some(name) = walk.next(storage)? {
        out.push(String::from_utf8(name).unwrap());
    }
    assert_eq!(walk.next(storage), Ok(None));
    Ok(out)
}

#[test]
fn empty_storage_lists_nothing() {
    let mut storage = Storage::format_and_mount(Medium::new(), 2).unwrap();
    assert_eq!(names(&mut storage).unwrap(), Vec::<String>::new());
}

#[test]
fn every_file_is_listed_once() {
    let mut storage = Storage::format_and_mount(Medium::new(), 2).unwrap();
    storage.store("a", b"first").unwrap();
    storage.store("bb", &[7u8; 300]).unwrap();
    storage.store("ccc", b"").unwrap();
    assert_eq!(names(&mut storage).unwrap(), ["a", "bb", "ccc"]);
}

#[test]
fn replaced_file_is_listed_once_and_deleted_file_not() {
    let mut storage = Storage::format_and_mount(Medium::new(), 2).unwrap();
    storage.store("a", b"first").unwrap();
    storage.store("b", b"second").unwrap();
    storage.store("a", b"third").unwrap();
    assert_eq!(names(&mut storage).unwrap(), ["b", "a"]);
    storage.delete("b").unwrap();
    assert_eq!(names(&mut storage).unwrap(), ["a"]);
    storage.delete("a").unwrap();
    assert_eq!(names(&mut storage).unwrap(), Vec::<String>::new());
}

#[test]
fn listing_after_power_loss_has_no_name_twice() {
    let mut writes = 0;
    loop {
        let mut storage = Storage::format_and_mount(Medium::new(), 2).unwrap();
        storage.store("a", b"first").unwrap();
        storage.store("b", b"second").unwrap();
        let mut medium = storage.unmount();
        medium.fail_after(writes);
        let mut storage = Storage::mount(medium).unwrap();
        let res = storage.store("a", &[1u8; 100]);
        let mut medium = storage.unmount();
        medium.restore_power();
        let mut storage = Storage::mount(medium).unwrap();
        let mut listed = names(&mut storage).unwrap();
        listed.sort();
        assert_eq!(listed, ["a", "b"]);
        if res.is_ok() {
            break;
        }
        writes += 1;
        assert!(writes < 100);
    }
}

#[test]
fn listing_survives_collection() {
    let mut storage = Storage::format_and_mount(Medium::new(), 2).unwrap();
    storage.store("a", b"first").unwrap();
    storage.store("b", &[3u8; 200]).unwrap();
    for block in 0..16 {
        assert_eq!(storage.collect(block), Ok(true));
    }
    let mut listed = names(&mut storage).unwrap();
    listed.sort();
    assert_eq!(listed, ["a", "b"]);
}
