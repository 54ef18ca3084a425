use raster::ppm::ppm_bytes;

#[test]
fn two_by_two_file() {
    let pixels = vec![0xFF0000u32, 0x00FF00, 0x0000FF, 0x123456];
    let bytes = ppm_bytes(&pixels, 2, 2);
    let mut expected = b"P6\n2 2 255\n".to_vec();
    expected.extend_from_slice(&[255, 0, 0, 0, 255, 0, 0, 0, 255, 0x12, 0x34, 0x56]);
    assert_eq!(bytes, expected);
    assert_eq!(bytes.len(), 11 + 12);
}

#[test]
fn header_with_multi_digit_sizes() {
    let pixels = vec![0u32; 256 * 10];
    let bytes = ppm_bytes(&pixels, 10, 256);
    let header = b"P6\n256 10 255\n";
    assert_eq!(&bytes[..header.len()], &header[..]);
    assert_eq!(bytes.len(), header.len() + 3 * 256 * 10);
}

#[test]
fn high_byte_is_ignored() {
    let pixels = vec![0xAB123456u32];
    let bytes = ppm_bytes(&pixels, 1, 1);
    assert_eq!(bytes, b"P6\n1 1 255\n\x12\x34\x56".to_vec());
}

#[test]
fn empty_buffer_has_header_only() {
    let pixels: Vec<u32> = Vec::new();
    let bytes = ppm_bytes(&pixels, 0, 7);
    assert_eq!(bytes, b"P6\n7 0 255\n".to_vec());
}

#[test]
fn pixels_written_row_major() {
    // width 3, height 2: the second row follows the first
    let pixels = vec![1u32, 2, 3, 4, 5, 6];
    let bytes = ppm_bytes(&pixels, 2, 3);
    let body: Vec<u8> = bytes[b"P6\n3 2 255\n".len()..].to_vec();
    assert_eq!(
        body,
        vec![0, 0, 1, 0, 0, 2, 0, 0, 3, 0, 0, 4, 0, 0, 5, 0, 0, 6]
    );
}
