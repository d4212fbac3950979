//! Dates stored as a `u32` of three bit fields: the day in the five lowest
//! bits, the month in the four bits above them, the year in the sixteen bits
//! above those. Encoding and decoding are plain masking; the numbers are not
//! consecutive and nothing checks that the fields name a date of the
//! calendar.

use crate::neat_date::{string_from_ymd, ymd_text};
use vstd::prelude::*;

verus! {

/// The packed form of `year`, `month` and `day`, for a month below 16 and a
/// day below 32: each value in a bit field of its own.
pub open spec fn packed(year: int, month: int, day: int) -> int {
    year * 512 + month * 32 + day
}

/// The year, month and day held in the bit fields of `date`.
pub open spec fn unpacked(date: int) -> (int, int, int) {
    ((date / 512) % 0x1_0000, (date / 32) % 16, date % 32)
}

/// Round trip: fields that fit their bit ranges are read back unchanged.
pub proof fn lemma_unpacked_packed(year: int, month: int, day: int)
    requires
        0 <= year < 0x1_0000,
        0 <= month < 16,
        0 <= day < 32,
    ensures
        0 <= packed(year, month, day) < 0x200_0000,
        unpacked(packed(year, month, day)) == (year, month, day),
{
}

/// Returns a `u32` to represent the given `year`, `month` and `day` in bit
/// fields. See [`ymd_from_u32`] for the reverse operation.
///
/// A month of 16 or more, or a day of 32 or more, spills into the next field:
/// the result is always the bitwise or of the three shifted values.
pub fn u32_from_ymd(year: u16, month: u8, day: u8) -> (date: u32)
    ensures
        date == ((year as u32) << 9) | ((month as u32) << 5) | (day as u32),
        month < 16 && day < 32 ==> date == packed(year as int, month as int, day as int),
{
    let date = ((year as u32) << 9) | ((month as u32) << 5) | day as u32;
    assert(month < 16 && day < 32 ==> ((year as u32) << 9) | ((month as u32) << 5) | (day as u32)
        == year * 512 + month * 32 + day) by (bit_vector);
    date
}

/// Returns the `year`, `month` and `day` held in the bit fields of `date`.
/// Bits above the year field are ignored. See [`u32_from_ymd`] for the
/// reverse operation.
pub fn ymd_from_u32(date: u32) -> (ymd: (u16, u8, u8))
    ensures
        (ymd.0 as int, ymd.1 as int, ymd.2 as int) == unpacked(date as int),
{
    let year: u32 = (date & (0xFFFF << 9)) >> 9;
    let month: u32 = (date & (0xF << 5)) >> 5;
    let day: u32 = date & 0x1F;
    assert((date & (0xFFFFu32 << 9)) >> 9 == (date / 512) % 0x1_0000) by (bit_vector);
    assert((date & (0xFu32 << 5)) >> 5 == (date / 32) % 16) by (bit_vector);
    assert(date & 0x1F == date % 32) by (bit_vector);
    (year as u16, month as u8, day as u8)
}

/// Returns a human readable "YYYY-MM-DD" date from the u32 `date` generated
/// by [`u32_from_ymd`].
pub fn string_from_u32(date: u32) -> (text: String)
    ensures
        ({
            let (year, month, day) = unpacked(date as int);
            text@ == ymd_text(year as nat, month as nat, day as nat)
        }),
{
    let (year, month, day) = ymd_from_u32(date);
    string_from_ymd(year, month, day)
}

} // verus!
