use neat_date_time::packed_date::{string_from_u32, u32_from_ymd, ymd_from_u32};

/// tests dates to `u32` conversion and vice-versa
#[test]
fn packed_naive_date_conversions() {
    let (original_year, original_month, original_day) = (1979, 01, 22);
    let epoch = u32_from_ymd(original_year as u16, original_month as u8, original_day as u8);
    let (reconstructed_year, reconstructed_month, reconstructed_day) = ymd_from_u32(epoch);
    assert_eq!(
        (reconstructed_year, reconstructed_month, reconstructed_day),
        (original_year, original_month, original_day),
        "naive dates <--> u32 conversions failed"
    );
}

#[test]
fn packed_fields_sit_in_their_bit_ranges() {
    assert_eq!(u32_from_ymd(1979, 1, 22), 1979 * 512 + 32 + 22);
    assert_eq!(u32_from_ymd(1979, 1, 22), 1_013_302);
    assert_eq!(u32_from_ymd(0, 0, 0), 0);
    assert_eq!(u32_from_ymd(0, 0, 1), 1);
    assert_eq!(u32_from_ymd(0, 1, 0), 32);
    assert_eq!(u32_from_ymd(1, 0, 0), 512);
    assert_eq!(u32_from_ymd(65535, 15, 31), 0x1FF_FFFF);
    assert_eq!(u32_from_ymd(2022, 7, 6), (2022 << 9) | (7 << 5) | 6);
}

#[test]
fn packed_round_trip_over_all_fitting_fields() {
    for year in [0u16, 1, 255, 256, 1979, 2022, 32767, 32768, 65535] {
        for month in 0..16u8 {
            for day in 0..32u8 {
                assert_eq!(ymd_from_u32(u32_from_ymd(year, month, day)), (year, month, day));
            }
        }
    }
}

#[test]
fn packed_fields_that_do_not_fit_spill_upward() {
    // a month of 16 sets the lowest year bit, a day of 32 the lowest month bit
    assert_eq!(u32_from_ymd(0, 16, 0), 512);
    assert_eq!(ymd_from_u32(u32_from_ymd(0, 16, 0)), (1, 0, 0));
    assert_eq!(u32_from_ymd(0, 0, 32), 32);
    assert_eq!(ymd_from_u32(u32_from_ymd(0, 0, 32)), (0, 1, 0));
    assert_eq!(u32_from_ymd(2, 255, 255), (2 << 9) | (255 << 5) | 255);
    assert_eq!(u32_from_ymd(1, 255, 255), 0x1FFF);
}

#[test]
fn unpacking_reads_each_field_and_ignores_the_high_bits() {
    assert_eq!(ymd_from_u32(0), (0, 0, 0));
    assert_eq!(ymd_from_u32(1_013_302), (1979, 1, 22));
    assert_eq!(ymd_from_u32(0x1FF_FFFF), (65535, 15, 31));
    assert_eq!(ymd_from_u32(u32::MAX), (65535, 15, 31));
    assert_eq!(ymd_from_u32(0x200_0000), (0, 0, 0));
    assert_eq!(ymd_from_u32(0xFE00_0000 | 1_013_302), (1979, 1, 22));
}

#[test]
fn packed_dates_are_written_as_their_fields() {
    assert_eq!(string_from_u32(u32_from_ymd(1979, 1, 22)), "1979-01-22");
    assert_eq!(string_from_u32(u32_from_ymd(2022, 7, 6)), "2022-07-06");
    assert_eq!(string_from_u32(0), "0000-00-00");
    assert_eq!(string_from_u32(u32::MAX), "65535-15-31");
    assert_eq!(string_from_u32(1_013_302), "1979-01-22");
}
