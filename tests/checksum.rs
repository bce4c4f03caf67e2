use tsilna::checksum::calculate_checksum;

#[test]
fn test_empty_buffer() {
    assert_eq!(calculate_checksum(&[]), 0xFFFF);
}

#[test]
fn test_even_length_buffer() {
    let data = [0x00, 0x01, 0xf2, 0x03];
    assert_eq!(calculate_checksum(&data), 0x0DFB);
}

#[test]
fn test_odd_length_buffer() {
    let data = [0x01, 0x02, 0x03];
    assert_eq!(calculate_checksum(&data), 0xFBFD);
}

#[test]
fn test_carry_handling() {
    let data = [0xFF, 0xFF, 0x00, 0x01];
    assert_eq!(calculate_checksum(&data), 0xFFFE);
}

#[test]
fn test_rfc_example() {
    let data = [0x01, 0x00, 0xf2, 0x03, 0xf4, 0xf5, 0xf6, 0xf7];
    assert_eq!(calculate_checksum(&data), 0x210E);
}

#[test]
fn single_byte_is_high_byte() {
    assert_eq!(calculate_checksum(&[0x12]), !0x1200u16);
    assert_eq!(calculate_checksum(&[0x00]), 0xFFFF);
}

#[test]
fn all_zero_words() {
    assert_eq!(calculate_checksum(&[0x00, 0x00]), 0xFFFF);
}

#[test]
fn appended_checksum_verifies_to_zero() {
    let buffers: Vec<Vec<u8>> = vec![
        vec![],
        vec![0x00, 0x00],
        vec![0x00, 0x01, 0xf2, 0x03],
        vec![0xFF, 0xFF, 0x00, 0x01],
        vec![0x01, 0x00, 0xf2, 0x03, 0xf4, 0xf5, 0xf6, 0xf7],
        vec![0xFF, 0xFF, 0xFF, 0xFF],
    ];
    for b in buffers {
        let c = calculate_checksum(&b);
        let mut framed = b.clone();
        framed.extend_from_slice(&c.to_be_bytes());
        assert_eq!(calculate_checksum(&framed), 0x0000, "buffer {:?}", b);
    }
}

#[test]
fn appended_checksum_after_odd_buffer_is_misaligned() {
    let b = vec![0x01u8];
    let c = calculate_checksum(&b);
    assert_eq!(c, 0xFEFF);
    let mut framed = b.clone();
    framed.extend_from_slice(&c.to_be_bytes());
    assert_eq!(calculate_checksum(&framed), 0xFF00);
}

#[test]
fn repeated_calls_agree_and_leave_input_alone() {
    let data = vec![0x01, 0x00, 0xf2, 0x03, 0xf4, 0xf5, 0xf6, 0xf7];
    let copy = data.clone();
    let first = calculate_checksum(&data);
    let second = calculate_checksum(&data);
    assert_eq!(first, second);
    assert_eq!(data, copy);
}

#[test]
fn swapping_bytes_changes_result() {
    let data = [0x00u8, 0x01, 0xf2, 0x03];
    let swapped = [0x01u8, 0x00, 0xf2, 0x03];
    assert_eq!(calculate_checksum(&swapped), 0x0CFC);
    assert_ne!(calculate_checksum(&data), calculate_checksum(&swapped));
    let swapped_far = [0x03u8, 0x01, 0xf2, 0x00];
    assert_ne!(calculate_checksum(&data), calculate_checksum(&swapped_far));
}

#[test]
fn long_buffer_beyond_accumulator_range() {
    let data = vec![0xFFu8; 200_000];
    assert_eq!(calculate_checksum(&data), 0x0000);
    let odd = vec![0xFFu8; 200_001];
    assert_eq!(calculate_checksum(&odd), 0x00FF);
}
