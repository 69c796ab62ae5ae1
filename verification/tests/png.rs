use slmsttaa::png::{adler32, chunk, crc32, encode_rgb, zlib_stored};

#[test]
fn crc32_matches_the_standard_check_value() {
    assert_eq!(!crc32(0xFFFF_FFFF, b"123456789"), 0xCBF4_3926);
    assert_eq!(!crc32(0xFFFF_FFFF, b"IEND"), 0xAE42_6082);
}

#[test]
fn crc32_can_be_carried_across_a_split() {
    let whole = crc32(0xFFFF_FFFF, b"IHDRbody");
    let split = crc32(crc32(0xFFFF_FFFF, b"IHDR"), b"body");
    assert_eq!(whole, split);
    assert_eq!(crc32(7, b""), 7);
}

#[test]
fn adler32_matches_known_values() {
    assert_eq!(adler32(b"Wikipedia"), 0x11E6_0398);
    assert_eq!(adler32(b""), 1);
    assert_eq!(adler32(&[1, 2, 3]), 0x000D_0007);
}

#[test]
fn adler32_halves_stay_below_the_modulus() {
    let data = vec![0xFFu8; 100_000];
    let sum = adler32(&data);
    assert!(sum & 0xFFFF < 65521);
    assert!(sum >> 16 < 65521);
}

#[test]
fn an_empty_stream_is_one_empty_final_block() {
    assert_eq!(
        zlib_stored(&[]),
        vec![0x78, 0x01, 1, 0, 0, 0xFF, 0xFF, 0, 0, 0, 1]
    );
}

#[test]
fn a_short_stream_is_one_final_block_and_its_checksum() {
    assert_eq!(
        zlib_stored(&[1, 2, 3]),
        vec![0x78, 0x01, 1, 3, 0, 0xFC, 0xFF, 1, 2, 3, 0, 0x0D, 0, 7]
    );
}

#[test]
fn a_long_stream_is_split_into_full_blocks() {
    let data: Vec<u8> = (0..70_000u32).map(|i| (i % 251) as u8).collect();
    let z = zlib_stored(&data);
    assert_eq!(z.len(), 2 + 5 + 65_535 + 5 + 4_465 + 4);
    assert_eq!(&z[2..7], &[0, 0xFF, 0xFF, 0, 0]);
    assert_eq!(&z[7..7 + 65_535], &data[..65_535]);
    let second = 7 + 65_535;
    assert_eq!(&z[second..second + 5], &[1, 0x71, 0x11, 0x8E, 0xEE]);
    assert_eq!(&z[second + 5..second + 5 + 4_465], &data[65_535..]);
    assert_eq!(&z[z.len() - 4..], &adler32(&data).to_be_bytes());
}

#[test]
fn a_block_of_exactly_the_maximum_is_one_block() {
    let data = vec![9u8; 65_535];
    let z = zlib_stored(&data);
    assert_eq!(z.len(), 2 + 5 + 65_535 + 4);
    assert_eq!(&z[2..7], &[1, 0xFF, 0xFF, 0, 0]);
}

#[test]
fn a_chunk_is_length_type_body_and_crc() {
    let mut out = vec![0xAA];
    chunk(&mut out, b"IEND", &[]);
    assert_eq!(out, vec![0xAA, 0, 0, 0, 0, b'I', b'E', b'N', b'D', 0xAE, 0x42, 0x60, 0x82]);
}

#[test]
fn a_one_pixel_image_is_a_complete_png() {
    let png = encode_rgb(1, 1, &[255, 0, 0]);
    assert_eq!(&png[..8], &[0x89, b'P', b'N', b'G', 0x0D, 0x0A, 0x1A, 0x0A]);
    assert_eq!(&png[8..16], &[0, 0, 0, 13, b'I', b'H', b'D', b'R']);
    assert_eq!(&png[16..29], &[0, 0, 0, 1, 0, 0, 0, 1, 8, 2, 0, 0, 0]);
    assert_eq!(png.len(), 8 + 25 + 12 + 15 + 12);
    let idat = 8 + 25;
    assert_eq!(&png[idat..idat + 8], &[0, 0, 0, 15, b'I', b'D', b'A', b'T']);
    assert_eq!(&png[idat + 8..idat + 8 + 11], &[0x78, 0x01, 1, 4, 0, 0xFB, 0xFF, 0, 255, 0, 0]);
    assert_eq!(&png[png.len() - 12..], &[0, 0, 0, 0, b'I', b'E', b'N', b'D', 0xAE, 0x42, 0x60, 0x82]);
}

#[test]
fn each_row_gets_a_filter_byte() {
    let pixels: Vec<u8> = (0..12u8).collect();
    let png = encode_rgb(2, 2, &pixels);
    let idat = 8 + 25;
    let stream = &png[idat + 8..];
    assert_eq!(&stream[2..7], &[1, 14, 0, 0xF1, 0xFF]);
    assert_eq!(&stream[7..21], &[0, 0, 1, 2, 3, 4, 5, 0, 6, 7, 8, 9, 10, 11]);
}
