use m32_stream::text::{
    chars_of, contains_text, decimal_text, parse_u32, same_text, signed_decimal_text,
    two_digit_text,
};
use m32_stream::wire::{encode_samples, push_be, read_be};

#[test]
fn numbers_are_written_in_decimal() {
    assert_eq!(decimal_text(0), "0");
    assert_eq!(decimal_text(9), "9");
    assert_eq!(decimal_text(10), "10");
    assert_eq!(decimal_text(u64::MAX), "18446744073709551615");
    assert_eq!(signed_decimal_text(-40), "-40");
    assert_eq!(signed_decimal_text(40), "40");
    assert_eq!(signed_decimal_text(i64::MIN), "-9223372036854775808");
    assert_eq!(two_digit_text(3), "03");
    assert_eq!(two_digit_text(32), "32");
    assert_eq!(two_digit_text(100), "100");
}

#[test]
fn numbers_are_read_as_std_reads_them() {
    let texts = [
        "0", "5004", "+7", "007", "4294967295", "4294967296", "99999999999999999999", "", "+", "-1",
        " 1", "1 ", "1a", "++1", "١",
    ];
    for s in texts {
        assert_eq!(parse_u32(s), s.parse::<u32>().ok(), "{s}");
    }
}

#[test]
fn decimal_reads_back() {
    for n in [0u32, 1, 9, 10, 99, 100, 4294967295] {
        assert_eq!(parse_u32(decimal_text(n as u64).as_str()), Some(n));
    }
}

#[test]
fn text_is_found_in_text() {
    assert!(contains_text("a USB device", "USB"));
    assert!(contains_text("USB", "USB"));
    assert!(contains_text("UUSB", "USB"));
    assert!(contains_text("anything", ""));
    assert!(!contains_text("US B", "USB"));
    assert!(!contains_text("US", "USB"));
    assert!(same_text("unit", "unit"));
    assert!(!same_text("unit", "units"));
    assert_eq!(chars_of("채널1"), vec!['채', '널', '1']);
}

#[test]
fn numbers_are_written_highest_byte_first() {
    let mut out = vec![9];
    push_be(&mut out, 0x12345678, 4);
    assert_eq!(out, vec![9, 0x12, 0x34, 0x56, 0x78]);
    let mut low = Vec::new();
    push_be(&mut low, 0x12345678, 2);
    assert_eq!(low, vec![0x56, 0x78]);
}

#[test]
fn numbers_read_back() {
    for n in [0u64, 1, 255, 256, 1721123456790, u64::MAX] {
        let mut out = Vec::new();
        push_be(&mut out, n, 8);
        assert_eq!(out, n.to_be_bytes().to_vec());
        assert_eq!(read_be(&out, 0, 8), n);
    }
    assert_eq!(read_be(&vec![1, 2, 3, 4], 1, 2), 0x0203);
    assert_eq!(read_be(&vec![1, 2, 3, 4], 4, 0), 0);
}

#[test]
fn samples_are_written_lowest_byte_first() {
    let samples = vec![0, 1, -1, 31, i32::MAX, i32::MIN, -1000000];
    let bytes: Vec<u8> = samples.iter().flat_map(|s: &i32| s.to_le_bytes()).collect();
    assert_eq!(encode_samples(&samples), bytes);
}
