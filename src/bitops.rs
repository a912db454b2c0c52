//! Bit and byte helpers for packed records: bits most significant first,
//! and big-endian splitting and joining of 16- and 24-bit numbers.
use vstd::prelude::*;

verus! {

/// The bits of a byte, most significant first.
pub fn bits8(byte: u8) -> (r: [u8; 8])
    ensures
        forall|i: int| 0 <= i < 8 ==> #[trigger] r[i] == (byte >> ((7 - i) as u8)) & 1u8,
{
    let r = [
        byte >> 7u8 & 1u8,
        byte >> 6u8 & 1u8,
        byte >> 5u8 & 1u8,
        byte >> 4u8 & 1u8,
        byte >> 3u8 & 1u8,
        byte >> 2u8 & 1u8,
        byte >> 1u8 & 1u8,
        byte >> 0u8 & 1u8,
    ];
    assert forall|i: int| 0 <= i < 8 implies #[trigger] r[i] == (byte >> ((7 - i) as u8)) & 1u8 by {
        if i == 0 {
        } else if i == 1 {
        } else if i == 2 {
        } else if i == 3 {
        } else if i == 4 {
        } else if i == 5 {
        } else if i == 6 {
        } else {
        }
    }
    r
}

/// The bits of a 16-bit number, most significant first.
pub fn bits16(num: u16) -> (r: [u8; 16])
    ensures
        forall|i: int| 0 <= i < 16 ==> #[trigger] r[i] == (num >> ((15 - i) as u16)) & 1u16,
{
    let mut r: [u8; 16] = [0u8; 16];
    let mut i: usize = 0;
    while i < 16
        invariant
            0 <= i <= 16,
            forall|k: int| 0 <= k < i ==> #[trigger] r[k] == (num >> ((15 - k) as u16)) & 1u16,
        decreases 16 - i,
    {
        let s: u16 = (15 - i) as u16;
        let b: u16 = (num >> s) & 1u16;
        assert(b <= 1) by (bit_vector)
            requires
                b == (num >> s) & 1u16,
        ;
        r[i] = b as u8;
        i = i + 1;
    }
    r
}

/// Splits a 16-bit number into its high and low bytes.
pub fn decomp16(num: u16) -> (r: [u8; 2])
    ensures
        r[0] * 256 + r[1] == num,
{
    [(num / 256) as u8, (num % 256) as u8]
}

/// Splits the low 24 bits of a number into three bytes, high first.
pub fn decomp24(num: u32) -> (r: [u8; 3])
    ensures
        r[0] * 65536 + r[1] * 256 + r[2] == num % 16777216,
{
    [((num / 65536) % 256) as u8, ((num / 256) % 256) as u8, (num % 256) as u8]
}

/// Joins a high and a low byte.
pub fn comp16(num: [u8; 2]) -> (r: u16)
    ensures
        r == num[0] * 256 + num[1],
{
    (num[0] as u16) * 256 + num[1] as u16
}

/// Joins three bytes, high first.
pub fn comp24(num: [u8; 3]) -> (r: u32)
    ensures
        r == num[0] * 65536 + num[1] * 256 + num[2],
{
    (num[0] as u32) * 65536 + (num[1] as u32) * 256 + num[2] as u32
}

} // verus!
