//! Little-endian numbers of one to four bytes, as the object headers and
//! object locations hold them.

use vstd::prelude::*;

verus! {

/// The byte of `value` at little-endian position `index`.
pub open spec fn le_digit(value: int, index: int) -> u8 {
    if index == 0 {
        (value % 0x100) as u8
    } else if index == 1 {
        ((value / 0x100) % 0x100) as u8
    } else if index == 2 {
        ((value / 0x1_0000) % 0x100) as u8
    } else if index == 3 {
        ((value / 0x100_0000) % 0x100) as u8
    } else {
        0u8
    }
}

/// The first `count` little-endian bytes of `value`.
pub open spec fn le_bytes(value: int, count: int) -> Seq<u8> {
    Seq::new(count as nat, |i: int| le_digit(value, i))
}

/// The number that up to four little-endian bytes stand for.
pub open spec fn le_value(bytes: Seq<u8>) -> int {
    (if bytes.len() > 0 {
        bytes[0] as int
    } else {
        0
    }) + (if bytes.len() > 1 {
        bytes[1] as int * 0x100
    } else {
        0
    }) + (if bytes.len() > 2 {
        bytes[2] as int * 0x1_0000
    } else {
        0
    }) + (if bytes.len() > 3 {
        bytes[3] as int * 0x100_0000
    } else {
        0
    })
}

/// The smallest number that `count` bytes cannot hold.
pub open spec fn le_limit(count: int) -> int {
    if count <= 0 {
        1
    } else if count == 1 {
        0x100
    } else if count == 2 {
        0x1_0000
    } else if count == 3 {
        0x100_0000
    } else {
        0x1_0000_0000
    }
}

/// Every byte of the sequence has all its bits set.
pub open spec fn all_ones(bytes: Seq<u8>) -> bool {
    forall|i: int| 0 <= i < bytes.len() ==> #[trigger] bytes[i] == 0xFFu8
}

/// A number written in enough bytes reads back as itself.
pub proof fn lemma_le_value_of_bytes(value: int, count: int)
    requires
        1 <= count <= 4,
        0 <= value < le_limit(count),
    ensures
        le_value(le_bytes(value, count)) == value,
        le_bytes(value, count).len() == count,
{
    let b = le_bytes(value, count);
    assert(b[0] == le_digit(value, 0));
    if count > 1 {
        assert(b[1] == le_digit(value, 1));
    }
    if count > 2 {
        assert(b[2] == le_digit(value, 2));
    }
    if count > 3 {
        assert(b[3] == le_digit(value, 3));
    }
}

/// The digits of a number that was put together from four bytes are those
/// bytes.
proof fn lemma_digits(b0: u32, b1: u32, b2: u32, b3: u32)
    by (bit_vector)
    requires
        b0 < 0x100,
        b1 < 0x100,
        b2 < 0x100,
        b3 < 0x100,
    ensures
        (b0 + b1 * 0x100 + b2 * 0x1_0000 + b3 * 0x100_0000) % 0x100 == b0,
        ((b0 + b1 * 0x100 + b2 * 0x1_0000 + b3 * 0x100_0000) / 0x100) % 0x100 == b1,
        ((b0 + b1 * 0x100 + b2 * 0x1_0000 + b3 * 0x100_0000) / 0x1_0000) % 0x100 == b2,
        ((b0 + b1 * 0x100 + b2 * 0x1_0000 + b3 * 0x100_0000) / 0x100_0000) % 0x100 == b3,
        b0 + b1 * 0x100 + b2 * 0x1_0000 + b3 * 0x100_0000 <= 0xFFFF_FFFF,
{
}

/// Bytes read as a number write back as themselves, and the number is below
/// the limit of their count.
pub proof fn lemma_le_bytes_of_value(bytes: Seq<u8>)
    requires
        1 <= bytes.len() <= 4,
    ensures
        le_bytes(le_value(bytes), bytes.len() as int) == bytes,
        0 <= le_value(bytes) < le_limit(bytes.len() as int),
{
    let v = le_value(bytes);
    let n = bytes.len() as int;
    let b0: u32 = bytes[0] as u32;
    let b1: u32 = if n > 1 { bytes[1] as u32 } else { 0 };
    let b2: u32 = if n > 2 { bytes[2] as u32 } else { 0 };
    let b3: u32 = if n > 3 { bytes[3] as u32 } else { 0 };
    lemma_digits(b0, b1, b2, b3);
    assert(v == b0 + b1 * 0x100 + b2 * 0x1_0000 + b3 * 0x100_0000);
    assert forall|i: int| 0 <= i < n implies le_digit(v, i) == bytes[i] by {
    }
    assert(le_bytes(v, n) =~= bytes);
}

/// Only the all-ones pattern reads as the largest number of its byte count.
pub proof fn lemma_le_value_all_ones(bytes: Seq<u8>)
    requires
        1 <= bytes.len() <= 4,
    ensures
        all_ones(bytes) <==> le_value(bytes) == le_limit(bytes.len() as int) - 1,
{
    if le_value(bytes) == le_limit(bytes.len() as int) - 1 {
        assert forall|i: int| 0 <= i < bytes.len() implies #[trigger] bytes[i] == 0xFFu8 by {
        }
    }
    if all_ones(bytes) {
        assert(bytes[0] == 0xFFu8);
        if bytes.len() > 1 {
            assert(bytes[1] == 0xFFu8);
        }
        if bytes.len() > 2 {
            assert(bytes[2] == 0xFFu8);
        }
        if bytes.len() > 3 {
            assert(bytes[3] == 0xFFu8);
        }
    }
}

/// Reads up to four little-endian bytes as a number.
pub fn decode_le(bytes: &[u8]) -> (value: u32)
    requires
        bytes@.len() <= 4,
    ensures
        value == le_value(bytes@),
{
    let n = bytes.len();
    let mut value: u32 = 0;
    if n > 0 {
        value = bytes[0] as u32;
    }
    if n > 1 {
        value = value + (bytes[1] as u32) * 0x100;
    }
    if n > 2 {
        value = value + (bytes[2] as u32) * 0x1_0000;
    }
    if n > 3 {
        value = value + (bytes[3] as u32) * 0x100_0000;
    }
    value
}

/// The byte of `value` at little-endian position `index`.
pub fn digit_le(value: usize, index: usize) -> (digit: u8)
    ensures
        digit == le_digit(value as int, index as int),
{
    if index == 0 {
        (value % 0x100) as u8
    } else if index == 1 {
        ((value / 0x100) % 0x100) as u8
    } else if index == 2 {
        ((value / 0x1_0000) % 0x100) as u8
    } else if index == 3 {
        ((value / 0x100_0000) % 0x100) as u8
    } else {
        0u8
    }
}

/// Whether two byte strings hold the same bytes.
pub fn bytes_equal(a: &[u8], b: &[u8]) -> (same: bool)
    ensures
        same == (a@ == b@),
{
    if a.len() != b.len() {
        return false;
    }
    let mut i: usize = 0;
    while i < a.len()
        invariant
            i <= a@.len(),
            a@.len() == b@.len(),
            forall|j: int| 0 <= j < i ==> a@[j] == b@[j],
        decreases a@.len() - i,
    {
        if a[i] != b[i] {
            return false;
        }
        i += 1;
    }
    assert(a@ =~= b@);
    true
}

/// Whether every byte of the string has all its bits set.
pub fn is_all_ones(bytes: &[u8]) -> (ones: bool)
    ensures
        ones == all_ones(bytes@),
{
    let mut i: usize = 0;
    while i < bytes.len()
        invariant
            i <= bytes@.len(),
            forall|j: int| 0 <= j < i ==> bytes@[j] == 0xFFu8,
        decreases bytes@.len() - i,
    {
        if bytes[i] != 0xFF {
            return false;
        }
        i += 1;
    }
    true
}

} // verus!
