use vaporz::measure::du_bytes;

#[test]
fn du_output_is_read_in_kibibytes() {
    assert_eq!(du_bytes(&"12\t/tmp/x\n".to_string()), 12 * 1024);
    assert_eq!(du_bytes(&"  0 .\n".to_string()), 0);
    assert_eq!(du_bytes(&"+3 dir".to_string()), 3 * 1024);
}

#[test]
fn du_output_without_a_number_gives_zero() {
    assert_eq!(du_bytes(&"".to_string()), 0);
    assert_eq!(du_bytes(&"du: cannot access 'x'".to_string()), 0);
    assert_eq!(du_bytes(&"12k x".to_string()), 0);
    assert_eq!(du_bytes(&"+ 5".to_string()), 0);
    assert_eq!(du_bytes(&"-5 x".to_string()), 0);
}

#[test]
fn du_output_too_large_saturates_or_fails() {
    // fits in u64 as kibibytes but not as bytes
    assert_eq!(du_bytes(&"18446744073709551615 x".to_string()), u64::MAX);
    // does not fit u64 at all
    assert_eq!(du_bytes(&"18446744073709551616 x".to_string()), 0);
}
