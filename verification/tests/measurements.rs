use storage::measurements::{
    decimal, decode, digits_of, encode, find_measurement_index, highest_with, index_of,
    is_measurement, load_measurement, name_of, store_measurement, store_writer, FileDataWriter,
    MeasurementWriter, Writer,
};
use storage::medium::ram::RamStorage;
use storage::{Storage, StorageError};

#[test]
fn names_of_measurements_give_their_number() {
    assert_eq!(index_of(b"meas.0"), Some(0));
    assert_eq!(index_of(b"meas.42"), Some(42));
    assert_eq!(index_of(b"meas.007"), Some(7));
    assert_eq!(index_of(b"meas.+5"), Some(5));
    assert_eq!(index_of(b"meas.4294967295"), Some(u32::MAX));
}

#[test]
fn other_names_give_none() {
    assert_eq!(index_of(b""), None);
    assert_eq!(index_of(b"meas"), None);
    assert_eq!(index_of(b"meas."), None);
    assert_eq!(index_of(b"meas.+"), None);
    assert_eq!(index_of(b"meas.x"), None);
    assert_eq!(index_of(b"meas.1a"), None);
    assert_eq!(index_of(b"meas.-1"), None);
    assert_eq!(index_of(b"meas. 1"), None);
    assert_eq!(index_of(b"meas.++1"), None);
    assert_eq!(index_of(b"mea.1"), None);
    assert_eq!(index_of(b"Meas.1"), None);
    assert_eq!(index_of(b"meas.4294967296"), None);
    assert_eq!(index_of(b"meas.99999999999999999999"), None);
}

#[test]
fn names_are_read_as_the_standard_library_reads_them() {
    let names = [
        "meas.0", "meas.1", "meas.10", "meas.+7", "meas.-7", "meas.", "meas.+", "meas.00",
        "meas.4294967295", "meas.4294967296", "meas.42949672950", "meas.1_000", "meas.1 ",
        "meas. 1", "meas.0x10", "meas.12ab", "meas", "measure.1", "x", "", "meas.٣",
    ];
    for name in names {
        let expected = name.strip_prefix("meas.").and_then(|s| s.parse::<u32>().ok());
        assert_eq!(index_of(name.as_bytes()), expected, "{name:?}");
    }
}

#[test]
fn decimal_numbers() {
    assert_eq!(decimal(b"0"), Some(0));
    assert_eq!(decimal(b"123456789"), Some(123_456_789));
    assert_eq!(decimal(b"+0"), Some(0));
    assert_eq!(decimal(b""), None);
    assert_eq!(decimal(b"+"), None);
    assert_eq!(decimal(b"12+"), None);
}

#[test]
fn highest_number_so_far() {
    assert_eq!(highest_with(None, None), None);
    assert_eq!(highest_with(None, Some(3)), Some(3));
    assert_eq!(highest_with(Some(3), None), Some(3));
    assert_eq!(highest_with(Some(3), Some(5)), Some(5));
    assert_eq!(highest_with(Some(5), Some(3)), Some(5));
}

#[test]
fn next_measurement_follows_the_highest() {
    let mut storage = Storage::format_and_mount(RamStorage::<256, 32>::new(), 3).unwrap();
    assert_eq!(find_measurement_index(&mut storage), Ok(0));
    storage.store("config", b"x").unwrap();
    assert_eq!(find_measurement_index(&mut storage), Ok(0));
    storage.store("meas.0", b"first").unwrap();
    assert_eq!(find_measurement_index(&mut storage), Ok(1));
    storage.store("meas.7", b"second").unwrap();
    storage.store("meas.3", b"third").unwrap();
    assert_eq!(find_measurement_index(&mut storage), Ok(8));
    storage.delete("meas.7").unwrap();
    assert_eq!(find_measurement_index(&mut storage), Ok(4));
    storage.store("meas.3", b"again").unwrap();
    assert_eq!(find_measurement_index(&mut storage), Ok(4));
}

#[test]
fn no_number_is_left_behind_the_highest_there_is() {
    let mut storage = Storage::format_and_mount(RamStorage::<256, 32>::new(), 3).unwrap();
    storage.store("meas.4294967294", b"a").unwrap();
    assert_eq!(find_measurement_index(&mut storage), Ok(u32::MAX));
    storage.store("meas.4294967295", b"b").unwrap();
    assert_eq!(find_measurement_index(&mut storage), Err(StorageError::InsufficientSpace));
}

#[test]
fn names_are_written_in_decimal() {
    assert_eq!(digits_of(0), b"0");
    assert_eq!(digits_of(9), b"9");
    assert_eq!(digits_of(10), b"10");
    assert_eq!(digits_of(4_294_967_295), b"4294967295");
    assert_eq!(name_of(0), b"meas.0");
    assert_eq!(name_of(1203), b"meas.1203");
    for index in [0u32, 1, 9, 10, 99, 100, 65_535, 1_000_000, u32::MAX] {
        assert_eq!(name_of(index), format!("meas.{index}").as_bytes());
        assert_eq!(index_of(&name_of(index)), Some(index));
    }
}

#[test]
fn measurement_names_begin_with_the_prefix() {
    assert!(is_measurement(b"meas.0"));
    assert!(is_measurement(b"meas."));
    assert!(is_measurement(b"meas.backup"));
    assert!(!is_measurement(b"meas"));
    assert!(!is_measurement(b"config"));
    assert!(!is_measurement(b""));
}

#[test]
fn measurement_contents_round_trip() {
    assert_eq!(encode(1, &[10, 20, 30]), [1, 10, 20, 30]);
    assert_eq!(encode(0, &[]), [0]);
    assert_eq!(decode(&[1, 10, 20, 30]), Some((1, vec![10, 20, 30])));
    assert_eq!(decode(&[7]), Some((7, vec![])));
    assert_eq!(decode(&[]), None);
}

#[test]
fn measurements_are_stored_under_consecutive_numbers() {
    let mut storage = Storage::format_and_mount(RamStorage::<256, 32>::new(), 3).unwrap();
    assert_eq!(store_measurement(&mut storage, 1, &[1, 2, 3]), Ok(0));
    assert_eq!(store_measurement(&mut storage, 1, &[4, 5]), Ok(1));
    storage.store("meas.9", &[2, 6]).unwrap();
    assert_eq!(store_measurement(&mut storage, 3, &[7u8; 500]), Ok(10));
    assert_eq!(load_measurement(&mut storage, b"meas.0"), Ok((1, vec![1, 2, 3])));
    assert_eq!(load_measurement(&mut storage, b"meas.1"), Ok((1, vec![4, 5])));
    assert_eq!(load_measurement(&mut storage, b"meas.9"), Ok((2, vec![6])));
    assert_eq!(load_measurement(&mut storage, b"meas.10"), Ok((3, vec![7u8; 500])));
    assert_eq!(load_measurement(&mut storage, b"meas.2"), Err(StorageError::NotFound));
    storage.store("meas.2", &[]).unwrap();
    assert_eq!(load_measurement(&mut storage, b"meas.2"), Err(StorageError::Corrupted));
}

#[test]
fn measurement_that_finds_no_room_changes_nothing() {
    let mut storage = Storage::format_and_mount(RamStorage::<64, 4>::new(), 1).unwrap();
    assert_eq!(store_measurement(&mut storage, 1, &[0u8; 40]), Ok(0));
    assert_eq!(
        store_measurement(&mut storage, 1, &[0u8; 400]),
        Err(StorageError::InsufficientSpace)
    );
    assert_eq!(find_measurement_index(&mut storage), Ok(1));
    assert_eq!(load_measurement(&mut storage, b"meas.0"), Ok((1, vec![0u8; 40])));
}

#[test]
fn names_longer_than_the_buffer_are_passed_by() {
    let mut fits = b"meas.".to_vec();
    fits.extend(std::iter::repeat(b'0').take(58));
    fits.push(b'7');
    assert_eq!(fits.len(), 64);
    assert_eq!(index_of(&fits), Some(7));
    assert!(is_measurement(&fits));

    let mut long = b"meas.".to_vec();
    long.extend(std::iter::repeat(b'0').take(59));
    long.push(b'7');
    assert_eq!(long.len(), 65);
    assert_eq!(index_of(&long), None);
    assert!(!is_measurement(&long));

    let mut storage = Storage::format_and_mount(RamStorage::<256, 32>::new(), 3).unwrap();
    storage.store(core::str::from_utf8(&long).unwrap(), b"x").unwrap();
    assert_eq!(find_measurement_index(&mut storage), Ok(0));
    storage.store(core::str::from_utf8(&fits).unwrap(), b"x").unwrap();
    assert_eq!(find_measurement_index(&mut storage), Ok(8));
    assert_eq!(store_measurement(&mut storage, 1, &[1, 2]), Ok(8));
}

#[test]
fn measurement_is_written_in_pieces() {
    let mut writer = Writer::new();
    writer.write_all(b"ab");
    writer.write_all(b"");
    writer.write_all(b"cde");
    assert_eq!(writer.as_slice(), b"abcde");

    let source = MeasurementWriter { version: 3, samples: &[9, 8, 7] };
    assert_eq!(source.estimate_length(), 4);
    let mut writer = Writer::new();
    source.write(&mut writer);
    assert_eq!(writer.as_slice(), [3, 9, 8, 7]);
}

#[test]
fn writer_object_is_stored_like_a_slice() {
    let mut storage = Storage::format_and_mount(RamStorage::<128, 16>::new(), 2).unwrap();
    let samples = [5u8; 300];
    store_writer(&mut storage, b"meas.4", &MeasurementWriter { version: 2, samples: &samples })
        .unwrap();
    assert_eq!(load_measurement(&mut storage, b"meas.4"), Ok((2, samples.to_vec())));
    let huge = vec![1u8; 5000];
    assert_eq!(
        store_writer(&mut storage, b"meas.5", &MeasurementWriter { version: 2, samples: &huge }),
        Err(StorageError::InsufficientSpace)
    );
    assert_eq!(load_measurement(&mut storage, b"meas.5"), Err(StorageError::NotFound));
    assert_eq!(load_measurement(&mut storage, b"meas.4"), Ok((2, samples.to_vec())));
}
