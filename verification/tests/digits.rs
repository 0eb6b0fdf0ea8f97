use radixsort::digit::digit;

fn digits(v: i32) -> [usize; 4] {
    [digit(v, 0), digit(v, 1), digit(v, 2), digit(v, 3)]
}

#[test]
fn digits_of_zero() {
    assert_eq!(digits(0), [0, 0, 0, 0x80]);
}

#[test]
fn digits_of_small_values() {
    assert_eq!(digits(1), [1, 0, 0, 0x80]);
    assert_eq!(digits(256), [0, 1, 0, 0x80]);
    assert_eq!(digits(512), [0, 2, 0, 0x80]);
}

#[test]
fn digits_of_minus_one() {
    assert_eq!(digits(-1), [0xff, 0xff, 0xff, 0x7f]);
}

#[test]
fn digits_of_the_extremes() {
    assert_eq!(digits(i32::MIN), [0, 0, 0, 0]);
    assert_eq!(digits(i32::MAX), [0xff, 0xff, 0xff, 0xff]);
}

#[test]
fn digits_are_the_bytes_with_the_sign_bit_flipped() {
    assert_eq!(digits(0x1234_5678), [0x78, 0x56, 0x34, 0x92]);
    assert_eq!(digits(-0x1234_5678), [0x88, 0xa9, 0xcb, 0x6d]);
}

#[test]
fn digits_are_those_of_the_value_plus_two_to_the_31() {
    for v in [0, 1, -1, 77, -77, 0x00ab_cdef, -0x00ab_cdef, i32::MIN, i32::MAX] {
        let key = (v as i64 + 0x8000_0000) as u64;
        for n in 0..4u32 {
            assert_eq!(digit(v, n) as u64, (key >> (8 * n)) % 256);
        }
    }
}

#[test]
fn top_digit_orders_negative_before_non_negative() {
    assert!(digit(-1, 3) < digit(0, 3));
    assert!(digit(i32::MIN, 3) < digit(-1, 3));
    assert!(digit(0, 3) < digit(i32::MAX, 3));
}
