//! The files that hold measurements: each is named by a prefix and a
//! number, and a new measurement gets the number after the highest.

use vstd::prelude::*;

use crate::{max_hops, Storage, StorageError};
use crate::medium::StorageMedium;
use crate::model::steps::{crash_safe, lemma_safe_none};

verus! {

/// The number of bytes of the prefix of a measurement's name.
pub const PREFIX_BYTES: usize = 5;

/// The longest name that is read: the device reads names into a buffer of
/// this size, and passes a file with a longer name by.
pub const MAX_NAME_BYTES: usize = 64;

/// The prefix of the name of a measurement: the bytes of `meas.`.
pub open spec fn prefix() -> Seq<u8> {
    seq![0x6Du8, 0x65u8, 0x61u8, 0x73u8, 0x2Eu8]
}

/// The byte is a decimal digit.
pub open spec fn is_digit(byte: u8) -> bool {
    0x30 <= byte <= 0x39
}

/// The number that a string of decimal digits stands for.
pub open spec fn digits_value(digits: Seq<u8>) -> int
    decreases digits.len(),
{
    if digits.len() == 0 {
        0
    } else {
        digits_value(digits.drop_last()) * 10 + (digits.last() - 0x30)
    }
}

/// Every byte is a decimal digit.
pub open spec fn all_digits(digits: Seq<u8>) -> bool {
    forall|i: int| 0 <= i < digits.len() ==> is_digit(#[trigger] digits[i])
}

/// The number that a string of digits stands for, where there is at least
/// one digit and 32 bits hold the number.
pub open spec fn spec_number(digits: Seq<u8>) -> Option<u32> {
    if digits.len() > 0 && all_digits(digits) && digits_value(digits) <= u32::MAX {
        Some(digits_value(digits) as u32)
    } else {
        None
    }
}

/// The number that the bytes stand for: decimal digits, with a plus sign
/// in front or without.
pub open spec fn spec_decimal(bytes: Seq<u8>) -> Option<u32> {
    if bytes.len() > 0 && bytes[0] == 0x2B {
        spec_number(bytes.skip(1))
    } else {
        spec_number(bytes)
    }
}

/// The name is short enough to be read, and begins with the prefix of the
/// names of measurements.
pub open spec fn spec_is_measurement(name: Seq<u8>) -> bool {
    PREFIX_BYTES <= name.len() <= MAX_NAME_BYTES && name.take(PREFIX_BYTES as int) == prefix()
}

/// The number of the measurement that a file of this name holds; `None`
/// where the name is too long to be read, is not that of a measurement, or
/// gives no number.
pub open spec fn spec_index_of(name: Seq<u8>) -> Option<u32> {
    if spec_is_measurement(name) {
        spec_decimal(name.skip(PREFIX_BYTES as int))
    } else {
        None
    }
}

/// Longer strings of digits stand for numbers that are no smaller.
pub proof fn lemma_digits_grow(digits: Seq<u8>, i: int, j: int)
    requires
        0 <= i <= j <= digits.len(),
        all_digits(digits),
    ensures
        0 <= digits_value(digits.take(i)) <= digits_value(digits.take(j)),
    decreases j,
{
    if j == 0 {
        assert(digits.take(0).len() == 0);
    } else {
        assert(digits.take(j).drop_last() =~= digits.take(j - 1));
        assert(digits.take(j).last() == digits[j - 1]);
        lemma_digits_grow(digits, 0, j - 1);
        if i < j {
            lemma_digits_grow(digits, i, j - 1);
        }
    }
}

/// Reads a decimal number.
pub fn decimal(bytes: &[u8]) -> (res: Option<u32>)
    ensures
        res == spec_decimal(bytes@),
{
    let start: usize = if bytes.len() > 0 && bytes[0] == 0x2B {
        1
    } else {
        0
    };
    let ghost digits = bytes@.skip(start as int);
    proof {
        assert(bytes@.skip(0) =~= bytes@);
        assert(digits.take(0).len() == 0);
    }
    if bytes.len() == start {
        return None;
    }
    let mut value: u32 = 0;
    let mut i: usize = start;
    while i < bytes.len()
        invariant
            start <= i <= bytes@.len(),
            start <= 1,
            digits == bytes@.skip(start as int),
            spec_decimal(bytes@) == spec_number(digits),
            digits.len() == bytes@.len() - start,
            forall|k: int| 0 <= k < i - start ==> is_digit(#[trigger] digits[k]),
            value == digits_value(digits.take(i - start)),
        decreases bytes@.len() - i,
    {
        let byte = bytes[i];
        assert(digits[i - start] == byte);
        if byte < 0x30 || byte > 0x39 {
            assert(!is_digit(digits[i - start]));
            return None;
        }
        let digit = (byte - 0x30) as u32;
        proof {
            assert(digits.take(i - start + 1).drop_last() =~= digits.take(i - start));
            assert(digits.take(i - start + 1).last() == byte);
            assert(digits_value(digits.take(i - start + 1)) == value * 10 + digit);
            if all_digits(digits) {
                lemma_digits_grow(digits, i - start + 1, digits.len() as int);
                assert(digits.take(digits.len() as int) =~= digits);
            }
        }
        if value > (u32::MAX - digit) / 10 {
            return None;
        }
        value = value * 10 + digit;
        i += 1;
    }
    proof {
        assert(digits.take(digits.len() as int) =~= digits);
    }
    Some(value)
}

/// Tells whether a file of this name holds a measurement: whether the
/// name is short enough to be read and begins with the prefix.
pub fn is_measurement(name: &[u8]) -> (res: bool)
    ensures
        res == spec_is_measurement(name@),
{
    if name.len() > MAX_NAME_BYTES {
        return false;
    }
    if name.len() < PREFIX_BYTES || name[0] != 0x6D || name[1] != 0x65 || name[2] != 0x61
        || name[3] != 0x73 || name[4] != 0x2E {
        proof {
            if name@.len() >= PREFIX_BYTES {
                let head = name@.take(PREFIX_BYTES as int);
                assert(head[0] == name@[0] && head[1] == name@[1] && head[2] == name@[2]
                    && head[3] == name@[3] && head[4] == name@[4]);
            }
        }
        return false;
    }
    proof {
        assert(name@.take(PREFIX_BYTES as int) =~= prefix());
    }
    true
}

/// Reads the number of a measurement from the name of its file.
pub fn index_of(name: &[u8]) -> (res: Option<u32>)
    ensures
        res == spec_index_of(name@),
{
    if !is_measurement(name) {
        return None;
    }
    let rest = vstd::slice::slice_subrange(name, PREFIX_BYTES, name.len());
    proof {
        assert(rest@ =~= name@.skip(PREFIX_BYTES as int));
    }
    decimal(rest)
}

/// `next` is the number for the next measurement among files of these
/// names: the number after the highest that a measurement has, or zero
/// where there is no measurement.
pub open spec fn is_next_index(names: Set<Seq<u8>>, next: u32) -> bool {
    &&& forall|name: Seq<u8>|
        names.contains(name) ==> (#[trigger] spec_index_of(name) matches Some(index) ==> index
            < next)
    &&& next == 0 || exists|name: Seq<u8>|
        names.contains(name) && #[trigger] spec_index_of(name) == Some((next - 1) as u32)
}

/// The highest number among the measurements of these names is `highest`;
/// `None` where there is no measurement.
pub open spec fn is_highest(names: Set<Seq<u8>>, highest: Option<u32>) -> bool {
    &&& forall|name: Seq<u8>|
        names.contains(name) ==> (#[trigger] spec_index_of(name) matches Some(index)
            ==> highest matches Some(top) && index <= top)
    &&& highest matches Some(top) ==> exists|name: Seq<u8>|
        names.contains(name) && #[trigger] spec_index_of(name) == Some(top)
}

/// The highest of the numbers seen so far, once a file of the given number
/// was seen too.
pub fn highest_with(highest: Option<u32>, index: Option<u32>) -> (res: Option<u32>)
    ensures
        res == match (highest, index) {
            (Some(top), Some(index)) => Some(if index > top { index } else { top }),
            (None, Some(index)) => Some(index),
            (highest, None) => highest,
        },
{
    match index {
        Some(index) => match highest {
            Some(top) => if index > top {
                Some(index)
            } else {
                Some(top)
            },
            None => Some(index),
        },
        None => highest,
    }
}

/// Finds the number for the next measurement: the number after the highest
/// that a stored measurement has, or zero where none is stored. Where a
/// measurement has the highest number there is, there is no number left.
pub fn find_measurement_index<M: StorageMedium>(storage: &mut Storage<M>) -> (res: Result<
    u32,
    StorageError,
>)
    requires
        old(storage).wf(),
    ensures
        final(storage).unchanged(old(storage)),
        old(storage).consistent() ==> match res {
            Ok(next) => is_next_index(old(storage).files().dom(), next),
            Err(e) => (e == StorageError::InsufficientSpace && is_highest(
                old(storage).files().dom(),
                Some(u32::MAX),
            )) || (e == StorageError::Io && !old(storage).medium().reliable()),
        },
{
    let ghost ok = storage.consistent();
    let ghost m = storage.medium()@;
    let ghost g = storage.medium().spec_geometry();
    let ghost all = storage.files().dom();
    let mut walk = storage.list();
    let mut highest: Option<u32> = None;
    loop
        invariant
            old(storage).wf(),
            storage.unchanged(old(storage)),
            ok == old(storage).consistent(),
            m == old(storage).medium()@,
            g == old(storage).medium().spec_geometry(),
            all == old(storage).files().dom(),
            ok ==> walk.wf(storage) && walk.left(m, g).subset_of(all) && is_highest(
                all.difference(walk.left(m, g)),
                highest,
            ),
        decreases walk.blocks_left(g), walk.bytes_left(g),
    {
        let ghost before = walk;
        let ghost s1 = *storage;
        let found = walk.next(storage);
        proof {
            storage.lemma_unchanged(&s1);
            storage.lemma_unchanged(old(storage));
        }
        match found {
            Ok(Some(name)) => {
                let index = index_of(name.as_slice());
                let ghost seen = all.difference(before.left(m, g));
                let ghost top = highest;
                highest = highest_with(highest, index);
                proof {
                    if ok {
                        assert(all.difference(walk.left(m, g)) =~= seen.insert(name@));
                        if top is Some {
                            let witness = choose|other: Seq<u8>|
                                seen.contains(other) && #[trigger] spec_index_of(other) == top;
                            assert(seen.insert(name@).contains(witness));
                        }
                    }
                }
            },
            Ok(None) => {
                proof {
                    if ok {
                        assert(all.difference(walk.left(m, g)) =~= all);
                    }
                }
                return match highest {
                    Some(top) => if top == u32::MAX {
                        Err(StorageError::InsufficientSpace)
                    } else {
                        proof {
                            if ok {
                                let witness = choose|other: Seq<u8>|
                                    all.contains(other) && #[trigger] spec_index_of(other) == Some(
                                        top,
                                    );
                                assert(spec_index_of(witness) == Some(((top + 1) - 1) as u32));
                            }
                        }
                        Ok(top + 1)
                    },
                    None => Ok(0),
                };
            },
            Err(e) => {
                return Err(e);
            },
        }
    }
}

/// The decimal digits of a number, without leading zeros.
pub open spec fn spec_digits(n: nat) -> Seq<u8>
    decreases n,
{
    if n < 10 {
        seq![(0x30 + n) as u8]
    } else {
        spec_digits(n / 10).push((0x30 + n % 10) as u8)
    }
}

/// The name of the file that holds measurement number `index`.
pub open spec fn spec_name_of(index: u32) -> Seq<u8> {
    prefix() + spec_digits(index as nat)
}

/// The digits of a number stand for the number.
pub proof fn lemma_digits_value(n: nat)
    ensures
        spec_digits(n).len() > 0,
        all_digits(spec_digits(n)),
        digits_value(spec_digits(n)) == n,
    decreases n,
{
    if n < 10 {
        let s = spec_digits(n);
        assert(s.len() == 1);
        assert(s.drop_last().len() == 0);
        assert(digits_value(s.drop_last()) == 0);
    } else {
        lemma_digits_value(n / 10);
        let s = spec_digits(n);
        assert(s.drop_last() =~= spec_digits(n / 10));
    }
}

/// Ten to the power of `k`.
pub open spec fn pow10(k: nat) -> nat
    decreases k,
{
    if k == 0 {
        1
    } else {
        10 * pow10((k - 1) as nat)
    }
}

/// A number below ten to the power of `k` has at most `k` digits.
pub proof fn lemma_digits_len(n: nat, k: nat)
    requires
        k >= 1,
        n < pow10(k),
    ensures
        1 <= spec_digits(n).len() <= k,
    decreases k,
{
    if n >= 10 {
        assert(pow10(1) == 10) by {
            assert(pow10(0) == 1);
        }
        assert(k >= 2);
        lemma_digits_len(n / 10, (k - 1) as nat);
    }
}

/// The name of a measurement is short enough to be read, and gives back
/// the number of the measurement.
pub proof fn lemma_name_round_trip(index: u32)
    ensures
        spec_name_of(index).len() <= PREFIX_BYTES + 10,
        spec_index_of(spec_name_of(index)) == Some(index),
{
    let name = spec_name_of(index);
    let digits = spec_digits(index as nat);
    lemma_digits_value(index as nat);
    assert(pow10(0) == 1);
    assert(pow10(1) == 10);
    assert(pow10(2) == 100);
    assert(pow10(3) == 1_000);
    assert(pow10(4) == 10_000);
    assert(pow10(5) == 100_000);
    assert(pow10(6) == 1_000_000);
    assert(pow10(7) == 10_000_000);
    assert(pow10(8) == 100_000_000);
    assert(pow10(9) == 1_000_000_000);
    assert(pow10(10) == 10_000_000_000);
    lemma_digits_len(index as nat, 10);
    assert(name.take(PREFIX_BYTES as int) =~= prefix());
    assert(name.skip(PREFIX_BYTES as int) =~= digits);
    assert(is_digit(digits[0]));
}

/// Writes a number in decimal digits.
pub fn digits_of(n: u32) -> (out: Vec<u8>)
    ensures
        out@ == spec_digits(n as nat),
    decreases n,
{
    if n < 10 {
        let mut out: Vec<u8> = Vec::new();
        out.push(0x30 + (n as u8));
        assert(out@ =~= spec_digits(n as nat));
        out
    } else {
        let mut out = digits_of(n / 10);
        out.push(0x30 + ((n % 10) as u8));
        out
    }
}

/// Gives the name of the file that holds measurement number `index`.
pub fn name_of(index: u32) -> (name: Vec<u8>)
    ensures
        name@ == spec_name_of(index),
{
    let mut name: Vec<u8> = Vec::new();
    name.push(0x6D);
    name.push(0x65);
    name.push(0x61);
    name.push(0x73);
    name.push(0x2E);
    let mut digits = digits_of(index);
    assert(name@ =~= prefix());
    name.append(&mut digits);
    name
}

/// The contents of the file of a measurement: the version of the format,
/// then the samples.
pub open spec fn spec_encoded(version: u8, samples: Seq<u8>) -> Seq<u8> {
    seq![version] + samples
}

/// Gives the contents of the file of a measurement.
pub fn encode(version: u8, samples: &[u8]) -> (out: Vec<u8>)
    ensures
        out@ == spec_encoded(version, samples@),
{
    let mut out: Vec<u8> = Vec::new();
    out.push(version);
    let mut i: usize = 0;
    while i < samples.len()
        invariant
            i <= samples@.len(),
            out@ == seq![version] + samples@.take(i as int),
        decreases samples@.len() - i,
    {
        out.push(samples[i]);
        assert(out@ =~= seq![version] + samples@.take(i + 1));
        i += 1;
    }
    assert(samples@.take(samples@.len() as int) =~= samples@);
    out
}

/// Takes the contents of the file of a measurement apart: the version of
/// the format, and the samples. An empty file holds no measurement.
pub fn decode(bytes: &[u8]) -> (res: Option<(u8, Vec<u8>)>)
    ensures
        match res {
            Some((version, samples)) => bytes@ == spec_encoded(version, samples@),
            None => bytes@.len() == 0,
        },
{
    if bytes.len() == 0 {
        return None;
    }
    let mut samples: Vec<u8> = Vec::new();
    let mut i: usize = 1;
    while i < bytes.len()
        invariant
            1 <= i <= bytes@.len(),
            samples@ == bytes@.subrange(1, i as int),
        decreases bytes@.len() - i,
    {
        samples.push(bytes[i]);
        assert(samples@ =~= bytes@.subrange(1, i + 1));
        i += 1;
    }
    assert(bytes@ =~= seq![bytes@[0]] + samples@);
    Some((bytes[0], samples))
}

/// What a file is written into, piece by piece. The pieces are gathered
/// before they reach the medium, for a chain of data objects is written
/// from its end.
pub struct Writer {
    buffer: Vec<u8>,
}

impl Writer {
    /// The bytes that were written so far.
    pub closed spec fn view(&self) -> Seq<u8> {
        self.buffer@
    }

    /// A writer that holds nothing yet.
    pub fn new() -> (writer: Self)
        ensures
            writer@ == Seq::<u8>::empty(),
    {
        Writer { buffer: Vec::new() }
    }

    /// Appends `data`.
    pub fn write_all(&mut self, data: &[u8])
        ensures
            final(self)@ == old(self)@ + data@,
    {
        let mut i: usize = 0;
        while i < data.len()
            invariant
                i <= data@.len(),
                self.buffer@ == old(self).buffer@ + data@.take(i as int),
            decreases data@.len() - i,
        {
            self.buffer.push(data[i]);
            assert(self.buffer@ =~= old(self).buffer@ + data@.take(i + 1));
            i += 1;
        }
        assert(data@.take(data@.len() as int) =~= data@);
    }

    /// The bytes that were written.
    pub fn as_slice(&self) -> (bytes: &[u8])
        ensures
            bytes@ == self@,
    {
        self.buffer.as_slice()
    }
}

/// What can write the contents of a file into a writer, in pieces.
pub trait FileDataWriter {
    /// The contents that are written.
    spec fn spec_data(&self) -> Seq<u8>;

    /// The number of bytes that will be written; the largest number there
    /// is where they are more.
    fn estimate_length(&self) -> (n: usize)
        ensures
            n == (if self.spec_data().len() <= usize::MAX {
                self.spec_data().len() as int
            } else {
                usize::MAX as int
            }),
    ;

    /// Writes the contents into `writer`, behind what it holds.
    fn write(&self, writer: &mut Writer)
        ensures
            final(writer)@ == old(writer)@ + self.spec_data(),
    ;
}

/// Writes a measurement: the version of the format, then the samples.
pub struct MeasurementWriter<'a> {
    pub version: u8,
    pub samples: &'a [u8],
}

impl<'a> FileDataWriter for MeasurementWriter<'a> {
    open spec fn spec_data(&self) -> Seq<u8> {
        spec_encoded(self.version, self.samples@)
    }

    fn estimate_length(&self) -> (n: usize) {
        if self.samples.len() == usize::MAX {
            usize::MAX
        } else {
            1 + self.samples.len()
        }
    }

    fn write(&self, writer: &mut Writer) {
        let version = [self.version];
        assert(version@ =~= seq![self.version]);
        writer.write_all(&version);
        writer.write_all(self.samples);
        assert((old(writer)@ + seq![self.version]) + self.samples@ =~= old(writer)@ + (
        seq![self.version] + self.samples@));
    }
}

/// Stores under the name `name` what `source` writes, in place of what
/// was stored there: as `store` does for a slice of bytes, for contents
/// that are produced piece by piece. Where the blocks have no room for as
/// many bytes as `source` is to write, nothing is asked of it.
pub fn store_writer<M: StorageMedium, W: FileDataWriter>(
    storage: &mut Storage<M>,
    name: &[u8],
    source: &W,
) -> (res: Result<(), StorageError>)
    requires
        old(storage).wf(),
    ensures
        final(storage).moved_on(old(storage)),
        res matches Err(e) ==> e == StorageError::InsufficientSpace || e.is_fault(),
        old(storage).consistent() ==> {
            &&& final(storage).consistent()
            &&& crash_safe(
                final(storage).medium().trace(),
                old(storage).medium().trace().len() as int,
                old(storage).medium().spec_geometry(),
                old(storage).files(),
                old(storage).files().insert(name@, source.spec_data()),
            )
            &&& match res {
                Ok(()) => final(storage).files() == old(storage).files().insert(
                    name@,
                    source.spec_data(),
                ) && old(storage).room_for(None, name@, source.spec_data()) == Some(
                    final(storage).blocks(),
                ) && final(storage).stored_once(old(storage), name@, None),
                Err(e) => (e == StorageError::InsufficientSpace && final(storage).unchanged(
                    old(storage),
                ) && old(storage).room_for(None, name@, source.spec_data()) is None) || (e
                    == StorageError::Io && !old(storage).medium().reliable() && (
                final(storage).files() == old(storage).files() || final(storage).files()
                    == old(storage).files().insert(name@, source.spec_data()))),
            }
        },
{
    let length = source.estimate_length();
    if length < usize::MAX {
        let g = storage.geometry();
        if length as u64 > max_hops(&g) || !storage.fits(name.len(), length, None) {
            proof {
                storage.lemma_quiet_none();
                if storage.consistent() {
                    let t0 = storage.medium().trace();
                    assert(t0.take(t0.len() as int) =~= t0);
                    lemma_safe_none(
                        t0,
                        storage.medium().spec_geometry(),
                        storage.files(),
                        storage.files().insert(name@, source.spec_data()),
                    );
                }
            }
            return Err(StorageError::InsufficientSpace);
        }
    }
    let mut writer = Writer::new();
    source.write(&mut writer);
    assert(Seq::<u8>::empty() + source.spec_data() =~= source.spec_data());
    storage.put(name, writer.as_slice(), None)
}

/// The number for the next measurement among files of these names, where
/// there is one.
pub open spec fn spec_next_index(names: Set<Seq<u8>>) -> u32 {
    choose|next: u32| is_next_index(names, next)
}

/// The number for the next measurement is one number only.
pub proof fn lemma_next_index_unique(names: Set<Seq<u8>>, next: u32)
    requires
        is_next_index(names, next),
    ensures
        spec_next_index(names) == next,
        !names.contains(spec_name_of(next)),
{
    let other = spec_next_index(names);
    if other < next {
        let witness = choose|name: Seq<u8>|
            names.contains(name) && #[trigger] spec_index_of(name) == Some((next - 1) as u32);
        assert(spec_index_of(witness) is Some);
    }
    if next < other {
        let witness = choose|name: Seq<u8>|
            names.contains(name) && #[trigger] spec_index_of(name) == Some((other - 1) as u32);
        assert(spec_index_of(witness) is Some);
    }
    lemma_name_round_trip(next);
    if names.contains(spec_name_of(next)) {
        assert(spec_index_of(spec_name_of(next)) is Some);
    }
}

/// Stores a measurement in a file of its own, under the number after the
/// highest that a stored measurement has, and returns the number. No file
/// is replaced. Whenever power is lost, the files are what they were, or
/// what they were and the new measurement, whole.
pub fn store_measurement<M: StorageMedium>(storage: &mut Storage<M>, version: u8, samples: &[u8]) -> (res:
    Result<u32, StorageError>)
    requires
        old(storage).wf(),
    ensures
        final(storage).moved_on(old(storage)),
        old(storage).consistent() ==> {
            &&& final(storage).consistent()
            &&& crash_safe(
                final(storage).medium().trace(),
                old(storage).medium().trace().len() as int,
                old(storage).medium().spec_geometry(),
                old(storage).files(),
                old(storage).files().insert(
                    spec_name_of(spec_next_index(old(storage).files().dom())),
                    spec_encoded(version, samples@),
                ),
            )
            &&& match res {
                Ok(index) => is_next_index(old(storage).files().dom(), index)
                    && !old(storage).files().dom().contains(spec_name_of(index))
                    && final(storage).files() == old(storage).files().insert(
                    spec_name_of(index),
                    spec_encoded(version, samples@),
                ),
                Err(e) => (e == StorageError::InsufficientSpace && final(storage).files() == old(storage).files()
                    && (is_highest(old(storage).files().dom(), Some(u32::MAX)) || old(storage).room_for(
                    None,
                    spec_name_of(spec_next_index(old(storage).files().dom())),
                    spec_encoded(version, samples@),
                ) is None)) || (e == StorageError::Io && !old(storage).medium().reliable() && (
                final(storage).files() == old(storage).files() || final(storage).files() == old(storage).files().insert(
                    spec_name_of(spec_next_index(old(storage).files().dom())),
                    spec_encoded(version, samples@),
                ))),
            }
        },
{
    let ghost ok = storage.consistent();
    let ghost g = storage.medium().spec_geometry();
    let ghost t0 = storage.medium().trace();
    let ghost f0 = storage.files();
    let ghost f1 = f0.insert(
        spec_name_of(spec_next_index(f0.dom())),
        spec_encoded(version, samples@),
    );
    let found = find_measurement_index(storage);
    proof {
        storage.lemma_unchanged(old(storage));
        storage.lemma_quiet_none();
        assert(t0.take(t0.len() as int) =~= t0);
        if ok {
            lemma_safe_none(t0, g, f0, f1);
        }
    }
    let index = match found {
        Ok(index) => index,
        Err(e) => {
            return Err(e);
        },
    };
    proof {
        if ok {
            lemma_next_index_unique(f0.dom(), index);
        }
    }
    let name = name_of(index);
    let ghost s1 = *storage;
    let res = store_writer(storage, name.as_slice(), &MeasurementWriter { version, samples });
    proof {
        storage.lemma_moved_twice(&s1, old(storage));
    }
    match res {
        Ok(()) => Ok(index),
        Err(e) => Err(e),
    }
}

/// Reads the measurement stored under `name`: the version of its format,
/// and its samples. An empty file holds no measurement and is reported as
/// corrupted.
pub fn load_measurement<M: StorageMedium>(storage: &mut Storage<M>, name: &[u8]) -> (res: Result<
    (u8, Vec<u8>),
    StorageError,
>)
    requires
        old(storage).wf(),
    ensures
        final(storage).unchanged(old(storage)),
        old(storage).consistent() ==> match res {
            Ok((version, samples)) => old(storage).files().dom().contains(name@) && old(storage).files()[name@]
                == spec_encoded(version, samples@),
            Err(e) => (e == StorageError::NotFound && !old(storage).files().dom().contains(name@))
                || (e == StorageError::Corrupted && old(storage).files().dom().contains(name@)
                && old(storage).files()[name@].len() == 0) || (e == StorageError::Io && !old(storage).medium().reliable()),
        },
{
    let bytes = match storage.load(name) {
        Ok(bytes) => bytes,
        Err(e) => {
            return Err(e);
        },
    };
    match decode(bytes.as_slice()) {
        Some(measurement) => Ok(measurement),
        None => Err(StorageError::Corrupted),
    }
}

} // verus!
