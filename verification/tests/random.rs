use std::collections::BTreeMap;

use storage::medium::ram::RamStorage;
use storage::medium::WriteGranularity;
use storage::{Storage, StorageError};

type Medium = RamStorage<128, 24>;

struct Rng(u64);

impl Rng {
    fn next(&mut self) -> u64 {
        self.0 = self.0.wrapping_mul(6364136223846793005).wrapping_add(1442695040888963407);
        self.0 >> 33
    }

    fn below(&mut self, limit: u64) -> u64 {
        self.next() % limit
    }
}

fn read_file(storage: &mut Storage<Medium>, path: &str) -> Result<Vec<u8>, StorageError> {
    let mut reader = storage.read(path)?;
    let mut out = Vec::new();
    let mut buf = [0u8; 48];
    loop {
        let n = reader.read(storage, &mut buf)?;
        if n == 0 {
            return Ok(out);
        }
        out.extend_from_slice(&buf[..n]);
    }
}

fn listed(storage: &mut Storage<Medium>) -> Vec<String> {
    let mut walk = storage.list();
    let mut out = Vec::new();
    while let Some(name) = walk.next(storage).unwrap() {
        out.push(String::from_utf8(name).unwrap());
    }
    out.sort();
    out
}

fn check(storage: &mut Storage<Medium>, files: &BTreeMap<String, Vec<u8>>, names: &[&str]) {
    for name in names {
        match files.get(*name) {
            Some(data) => assert_eq!(&read_file(storage, name).unwrap(), data, "{name}"),
            None => assert_eq!(storage.read(name).err(), Some(StorageError::NotFound), "{name}"),
        }
    }
    let expected: Vec<String> = files.keys().cloned().collect();
    assert_eq!(listed(storage), expected);
}

fn run(seed: u64, granularity: WriteGranularity, steps: usize) {
    let names = ["a", "b", "meas.0", "meas.1", "a-longer-name", "c"];
    let mut rng = Rng(seed);
    let mut files: BTreeMap<String, Vec<u8>> = BTreeMap::new();
    let mut storage =
        Storage::format_and_mount(Medium::with_granularity(granularity), 3).unwrap();
    for step in 0..steps {
        let name = names[rng.below(names.len() as u64) as usize];
        let crash = rng.below(4) == 0;
        if crash {
            let mut medium = storage.unmount();
            medium.fail_after(rng.below(12) as usize);
            storage = Storage::mount(medium).unwrap();
        }
        match rng.below(10) {
            0..=4 => {
                let len = rng.below(300) as usize;
                let data: Vec<u8> = (0..len).map(|i| (i as u8) ^ (step as u8)).collect();
                match storage.store(name, &data) {
                    Ok(()) => {
                        files.insert(name.to_string(), data);
                    }
                    Err(StorageError::InsufficientSpace) => {}
                    Err(e) => {
                        assert_eq!(e, StorageError::Io);
                        assert!(crash);
                        let now = read_file(&mut storage, name);
                        if now.as_ref() == Ok(&data) {
                            files.insert(name.to_string(), data);
                        } else {
                            assert_eq!(now.ok(), files.get(name).cloned());
                        }
                    }
                }
            }
            5..=6 => match storage.delete(name) {
                Ok(()) => {
                    assert!(files.remove(name).is_some());
                }
                Err(StorageError::NotFound) => assert!(!files.contains_key(name)),
                Err(e) => {
                    assert_eq!(e, StorageError::Io);
                    assert!(crash);
                    if storage.read(name).err() == Some(StorageError::NotFound) {
                        files.remove(name);
                    }
                }
            },
            7..=8 => match storage.collect_garbage() {
                Ok(_) | Err(StorageError::InsufficientSpace) => {}
                Err(e) => {
                    assert_eq!(e, StorageError::Io);
                    assert!(crash);
                }
            },
            _ => {
                let block = rng.below(24) as usize;
                match storage.collect(block) {
                    Ok(_) | Err(StorageError::InsufficientSpace) => {}
                    Err(e) => {
                        assert_eq!(e, StorageError::Io);
                        assert!(crash);
                    }
                }
            }
        }
        if crash {
            let mut medium = storage.unmount();
            medium.restore_power();
            storage = Storage::mount(medium).unwrap();
        }
        check(&mut storage, &files, &names);
    }
}

#[test]
fn random_operations_on_a_bit_granular_medium() {
    run(1, WriteGranularity::Bit, 400);
    run(2, WriteGranularity::Bit, 400);
}

#[test]
fn random_operations_on_a_word_granular_medium() {
    run(3, WriteGranularity::Word(4), 400);
    run(4, WriteGranularity::Word(2), 400);
}

#[test]
fn random_operations_with_single_byte_words() {
    run(5, WriteGranularity::Word(1), 600);
}
