use storage::medium::ram::RamStorage;
use storage::medium::StorageMedium;
use storage::{Reader, Storage, StorageError};

type Medium = RamStorage<128, 8>;

fn read_file(storage: &mut Storage<Medium>, path: &str) -> Result<Vec<u8>, StorageError> {
    let mut reader: Reader = storage.read(path)?;
    let mut out = Vec::new();
    let mut buf = [0u8; 32];
    loop {
        let n = reader.read(storage, &mut buf)?;
        if n == 0 {
            return Ok(out);
        }
        out.extend_from_slice(&buf[..n]);
    }
}

fn content(len: usize, seed: u8) -> Vec<u8> {
    (0..len).map(|i| (i as u8).wrapping_mul(7).wrapping_add(seed)).collect()
}

fn mounted() -> Storage<Medium> {
    Storage::format_and_mount(Medium::new(), 2).unwrap()
}

#[test]
fn block_in_use_is_not_reclaimed() {
    let mut storage = mounted();
    storage.store("a", &content(50, 1)).unwrap();
    assert_eq!(storage.reclaim(0), Ok(false));
    assert_eq!(storage.reclaim(2), Ok(false));
    assert_eq!(read_file(&mut storage, "a").unwrap(), content(50, 1));
}

#[test]
fn unused_blocks_are_reclaimed() {
    let mut storage = mounted();
    storage.store("a", &content(50, 1)).unwrap();
    storage.delete("a").unwrap();
    for block in 0..8 {
        assert_eq!(storage.reclaim(block), Ok(true));
    }
    assert_eq!(storage.reclaim(8), Ok(false));
    assert_eq!(storage.read("a").err(), Some(StorageError::NotFound));
}

#[test]
fn collect_keeps_every_file() {
    let mut storage = Storage::format_and_mount(RamStorage::<128, 16>::new(), 2).unwrap();
    let files = [("a", content(50, 1)), ("b", content(300, 2)), ("c", content(0, 3))];
    for (path, data) in &files {
        storage.store(path, data).unwrap();
    }
    for block in 0..16 {
        assert_eq!(storage.collect(block), Ok(true), "block {block}");
        for (path, data) in &files {
            let mut reader = storage.read(path).unwrap();
            let mut back = vec![0u8; data.len() + 1];
            let mut got = 0;
            loop {
                let n = reader.read(&mut storage, &mut back[got..]).unwrap();
                if n == 0 {
                    break;
                }
                got += n;
            }
            assert_eq!(&back[..got], &data[..]);
        }
    }
    assert_eq!(storage.collect(16), Ok(false));
    let mut storage = Storage::mount(storage.unmount()).unwrap();
    for (path, data) in &files {
        let mut reader = storage.read(path).unwrap();
        let mut back = vec![0u8; data.len() + 1];
        let mut got = 0;
        loop {
            let n = reader.read(&mut storage, &mut back[got..]).unwrap();
            if n == 0 {
                break;
            }
            got += n;
        }
        assert_eq!(&back[..got], &data[..]);
    }
}

#[test]
fn collected_block_is_erased() {
    let mut storage = mounted();
    storage.store("a", &content(50, 1)).unwrap();
    assert_eq!(storage.collect(2), Ok(true));
    let mut medium = storage.unmount();
    let mut block = [0u8; 128];
    medium.read(2, 0, &mut block).unwrap();
    assert!(block.iter().all(|&byte| byte == 0xFF));
}

#[test]
fn reclaimed_blocks_are_used_again() {
    let mut storage = mounted();
    let big = content(250, 4);
    let mut stored = 0;
    loop {
        match storage.store("big", &big) {
            Ok(()) => stored += 1,
            Err(e) => {
                assert_eq!(e, StorageError::InsufficientSpace);
                break;
            }
        }
        assert!(stored < 100);
    }
    assert!(stored >= 1);
    assert_eq!(read_file(&mut storage, "big").unwrap(), big);
    assert_eq!(storage.store("big", &content(250, 5)), Err(StorageError::InsufficientSpace));
    let mut cleared = 0;
    for block in 0..8 {
        if storage.reclaim(block).unwrap() {
            cleared += 1;
        }
    }
    assert!(cleared >= 2);
    assert_eq!(read_file(&mut storage, "big").unwrap(), big);
    storage.store("big", &content(250, 5)).unwrap();
    assert_eq!(read_file(&mut storage, "big").unwrap(), content(250, 5));
}

#[test]
fn collect_without_room_keeps_every_file() {
    let mut storage = mounted();
    let big = content(500, 4);
    storage.store("big", &big).unwrap();
    storage.store("small", b"abc").unwrap();
    for block in 0..8 {
        match storage.collect(block) {
            Ok(_) => {}
            Err(e) => assert_eq!(e, StorageError::InsufficientSpace),
        }
        assert_eq!(read_file(&mut storage, "big").unwrap(), big);
        assert_eq!(read_file(&mut storage, "small").unwrap(), b"abc");
    }
}

#[test]
fn collect_takes_away_what_a_broken_delete_left() {
    let mut storage = mounted();
    storage.store("a", &content(50, 1)).unwrap();
    storage.store("b", &content(60, 2)).unwrap();
    let mut medium = storage.unmount();
    medium.fail_after(1);
    let mut storage = Storage::mount(medium).unwrap();
    assert_eq!(storage.delete("a"), Err(StorageError::Io));
    let mut medium = storage.unmount();
    medium.restore_power();
    let mut storage = Storage::mount(medium).unwrap();
    assert_eq!(storage.read("a").err(), Some(StorageError::NotFound));
    assert_eq!(storage.reclaim(0), Ok(false));
    assert_eq!(storage.collect(0), Ok(true));
    assert_eq!(storage.read("a").err(), Some(StorageError::NotFound));
    assert_eq!(read_file(&mut storage, "b").unwrap(), content(60, 2));
}

#[test]
fn nothing_to_clear_on_a_fresh_medium() {
    let mut storage = mounted();
    assert_eq!(storage.pick_victim(), Ok(None));
    assert_eq!(storage.collect_garbage(), Ok(None));
}

#[test]
fn block_with_fewest_live_bytes_is_cleared_first() {
    let mut storage = mounted();
    storage.store("a", &content(50, 1)).unwrap();
    storage.store("b", &content(300, 2)).unwrap();
    assert_eq!(storage.pick_victim(), Ok(Some(0)));
    storage.delete("b").unwrap();
    // Blocks 3 and 4 held nothing but parts of the deleted file.
    assert_eq!(storage.pick_victim(), Ok(Some(3)));
    assert_eq!(storage.collect_garbage(), Ok(Some(3)));
    assert_eq!(storage.pick_victim(), Ok(Some(4)));
    assert_eq!(storage.collect_garbage(), Ok(Some(4)));
    assert_eq!(read_file(&mut storage, "a").unwrap(), content(50, 1));
    assert_eq!(storage.read("b").err(), Some(StorageError::NotFound));
    // Of what is left, the metadata block holds the fewest live bytes.
    assert_eq!(storage.collect_garbage(), Ok(Some(0)));
    assert_eq!(read_file(&mut storage, "a").unwrap(), content(50, 1));
}

#[test]
fn garbage_collection_keeps_every_file() {
    let mut storage = Storage::format_and_mount(RamStorage::<128, 16>::new(), 2).unwrap();
    for round in 0..6u8 {
        storage.store("log", &content(200, round)).unwrap();
        storage.store("cfg", &content(20, round)).unwrap();
    }
    for _ in 0..12 {
        match storage.collect_garbage() {
            Ok(_) => {}
            Err(e) => assert_eq!(e, StorageError::InsufficientSpace),
        }
        let mut log = storage.read("log").unwrap();
        let mut back = vec![0u8; 201];
        let mut got = 0;
        loop {
            let n = log.read(&mut storage, &mut back[got..]).unwrap();
            if n == 0 {
                break;
            }
            got += n;
        }
        assert_eq!(&back[..got], &content(200, 5)[..]);
    }
    let mut storage = Storage::mount(storage.unmount()).unwrap();
    let mut cfg = storage.read("cfg").unwrap();
    let mut back = [0u8; 32];
    assert_eq!(cfg.read(&mut storage, &mut back), Ok(20));
    assert_eq!(&back[..20], &content(20, 5)[..]);
}
