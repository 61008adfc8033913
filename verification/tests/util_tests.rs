use rustboot::util::{range, to_str_bytes};

#[test]
fn range_visits_each_index_in_order() {
    let visited = range(3, 7, Vec::new(), |mut v: Vec<usize>, i| {
        v.push(i);
        v
    });
    assert_eq!(visited, vec![3, 4, 5, 6]);
}

#[test]
fn range_sums() {
    assert_eq!(range(0, 10, 0usize, |s, i| s + i), 45);
}

#[test]
fn empty_range_calls_nothing() {
    assert_eq!(range(5, 5, 11u32, |_, _| panic!("called")), 11);
    assert_eq!(range(9, 2, 11u32, |_, _| panic!("called")), 11);
}

#[test]
fn adjacent_ranges_make_one() {
    let push = |mut v: Vec<usize>, i: usize| {
        v.push(i);
        v
    };
    let first = range(2, 5, Vec::new(), push);
    let both = range(5, 9, first, push);
    assert_eq!(both, range(2, 9, Vec::new(), push));
}

#[test]
fn to_str_bytes_decimal_and_hex() {
    assert_eq!(to_str_bytes(1234, 10), b"1234".to_vec());
    assert_eq!(to_str_bytes(-1234, 10), b"-1234".to_vec());
    assert_eq!(to_str_bytes(0xBEEF, 16), b"BEEF".to_vec());
    assert_eq!(to_str_bytes(5, 2), b"101".to_vec());
    assert_eq!(to_str_bytes(i32::MAX, 36), b"ZIK0ZJ".to_vec());
    assert_eq!(to_str_bytes(-7, 8), b"-7".to_vec());
}

#[test]
fn to_str_bytes_of_zero_is_empty() {
    assert_eq!(to_str_bytes(0, 10), Vec::<u8>::new());
}

#[test]
fn to_str_bytes_large_digits_wrap_past_the_letters() {
    // Digit 35 is 'Z'; digit 36 is the byte after it; digit 201 wraps to 0.
    assert_eq!(to_str_bytes(36, 37), vec![b'A' + 26]);
    assert_eq!(to_str_bytes(201, 256), vec![0]);
}

#[test]
fn to_str_bytes_of_i32_min_negates_to_itself() {
    // -i32::MIN wraps back to i32::MIN, so every digit is negative and is
    // cut to a byte as such.
    assert_eq!(to_str_bytes(i32::MIN, 10), vec![45, 53, 54, 51, 48, 51, 47, 52, 49, 51, 47]);
    assert_eq!(to_str_bytes(i32::MIN, 16), vec![45, 47, 48, 48, 48, 48, 48, 48, 48]);
    assert_eq!(to_str_bytes(i32::MIN, 0x8000_0000), b"-10".to_vec());
}

#[test]
fn to_str_bytes_radix_beyond_a_byte_cuts_each_digit() {
    // 1000 = 3 * 300 + 100; the digit 100 is a byte past the letters.
    assert_eq!(to_str_bytes(1000, 300), vec![51, 155]);
    assert_eq!(to_str_bytes(-1000, 300), vec![45, 51, 155]);
}

#[test]
fn to_str_bytes_negative_radix_alternates_digit_signs() {
    // 0xFFFF_FFFE is -2 as a signed radix.
    assert_eq!(to_str_bytes(100, 0xFFFF_FFFE), vec![49, 54, 48, 48, 49, 48, 48]);
    // 0xFFFF_FFF6 is -10.
    assert_eq!(to_str_bytes(12345, 0xFFFF_FFF6), vec![49, 53, 51, 51, 53]);
}

#[test]
fn to_str_bytes_of_zero_takes_any_radix() {
    assert_eq!(to_str_bytes(0, 0), Vec::<u8>::new());
    assert_eq!(to_str_bytes(0, 1), Vec::<u8>::new());
}
