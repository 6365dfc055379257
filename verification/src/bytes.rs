//! Numbers as they come in raw bytes.

use vstd::prelude::*;
use crate::float::Float32;

verus! {

/// Why bytes are no numbers: their count is not a multiple of four.
#[derive(Clone, Copy, Debug, PartialEq, Eq, Structural)]
pub struct ByteLengthError {
    pub got: usize,
}

/// The number whose four bytes stand from `4 * i` on, the lowest one first.
pub open spec fn number_at(bytes: Seq<u8>, i: int) -> int {
    bytes[4 * i] + 0x100 * bytes[4 * i + 1] + 0x1_0000 * bytes[4 * i + 2] + 0x100_0000 * bytes[4 * i
        + 3]
}

/// The numbers that `bytes` hold, four bytes each.
pub open spec fn numbers(bytes: Seq<u8>) -> Seq<Float32> {
    Seq::new(bytes.len() / 4, |i: int| Float32 { bits: number_at(bytes, i) as u32 })
}

/// The byte of weight `256^k` of a number.
pub open spec fn byte_of(value: Float32, k: int) -> u8 {
    if k == 0 {
        (value.bits as int % 0x100) as u8
    } else if k == 1 {
        (value.bits as int / 0x100 % 0x100) as u8
    } else if k == 2 {
        (value.bits as int / 0x1_0000 % 0x100) as u8
    } else {
        (value.bits as int / 0x100_0000) as u8
    }
}

/// The bytes of numbers, the lowest byte of each first.
pub open spec fn bytes_of(values: Seq<Float32>) -> Seq<u8> {
    Seq::new(4 * values.len(), |i: int| byte_of(values[i / 4], i % 4))
}

/// The numbers that little-endian bytes hold.
pub fn bytes_to_vec(bytes: &[u8]) -> (r: Result<Vec<Float32>, ByteLengthError>)
    ensures
        bytes@.len() % 4 == 0 ==> (r matches Ok(values) && values@ == numbers(bytes@)),
        bytes@.len() % 4 != 0 ==> r == Err::<Vec<Float32>, ByteLengthError>(
            ByteLengthError { got: bytes@.len() as usize },
        ),
{
    let len: usize = bytes.len();
    if len % 4 != 0 {
        return Err(ByteLengthError { got: len });
    }
    let count: usize = len / 4;
    let mut values: Vec<Float32> = Vec::new();
    let mut i: usize = 0;
    while i < count
        invariant
            i <= count,
            len == bytes@.len(),
            len == 4 * count,
            values@ == numbers(bytes@).take(i as int),
        decreases count - i,
    {
        let at: usize = 4 * i;
        let bits: u32 = (bytes[at] as u32) + 0x100 * (bytes[at + 1] as u32) + 0x1_0000 * (bytes[at
            + 2] as u32) + 0x100_0000 * (bytes[at + 3] as u32);
        values.push(Float32 { bits });
        i += 1;
        assert(values@ =~= numbers(bytes@).take(i as int));
    }
    assert(values@ =~= numbers(bytes@));
    Ok(values)
}

/// Numbers are read back from their bytes as they were.
pub proof fn lemma_bytes_read_back(values: Seq<Float32>)
    ensures
        bytes_of(values).len() % 4 == 0,
        numbers(bytes_of(values)) == values,
{
    let bytes = bytes_of(values);
    assert forall|i: int| 0 <= i < values.len() implies numbers(bytes)[i] == values[i] by {
        assert((4 * i) / 4 == i && (4 * i) % 4 == 0);
        assert((4 * i + 1) / 4 == i && (4 * i + 1) % 4 == 1);
        assert((4 * i + 2) / 4 == i && (4 * i + 2) % 4 == 2);
        assert((4 * i + 3) / 4 == i && (4 * i + 3) % 4 == 3);
        assert(bytes[4 * i] == byte_of(values[i], 0));
        assert(bytes[4 * i + 1] == byte_of(values[i], 1));
        assert(bytes[4 * i + 2] == byte_of(values[i], 2));
        assert(bytes[4 * i + 3] == byte_of(values[i], 3));
        assert(number_at(bytes, i) == values[i].bits);
    }
    assert(numbers(bytes) =~= values);
}

/// Number `i` is made of bytes `4 i` to `4 i + 3`, of which the first has the lowest weight.
pub proof fn lemma_little_endian(bytes: Seq<u8>, i: int)
    requires
        0 <= 4 * i,
        4 * i + 3 < bytes.len(),
    ensures
        numbers(bytes)[i].bits == bytes[4 * i] + 256 * bytes[4 * i + 1] + 65536 * bytes[4 * i + 2]
            + 16777216 * bytes[4 * i + 3],
        numbers(bytes).len() == bytes.len() / 4,
{
}

} // verus!
