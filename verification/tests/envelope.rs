use stegano::error::SecretError;
use stegano::image::image_coder::ImageCoder;
use stegano::image::Image;
use stegano::image_secret::{
    decode_file, decode_string, encode_data, encode_file, encode_string, generate_header,
    get_img_capacity, get_secret_info, SecretType, HEADER_LENGTH,
};

fn header(kind: u8, size: u8) -> Vec<u8> {
    let mut h = b"Morkmessage Hider".to_vec();
    h.push(kind);
    h.extend_from_slice(&[0, 0, 0, 0, 0, 0, 0, size]);
    h
}

#[test]
fn header_bytes_are_marker_kind_and_length() {
    assert_eq!(HEADER_LENGTH, 26);
    assert_eq!(generate_header(SecretType::String, 5), header(0, 5));
    assert_eq!(generate_header(SecretType::File, 200), header(1, 200));
    assert_eq!(generate_header(SecretType::NoSecret, 0), header(2, 0));
    let h = generate_header(SecretType::String, 0x0102_0304);
    assert_eq!(&h[18..], &[0, 0, 0, 0, 1, 2, 3, 4]);
}

#[test]
fn secret_type_from_byte() {
    assert_eq!(SecretType::from(0), SecretType::String);
    assert_eq!(SecretType::from(1), SecretType::File);
    assert_eq!(SecretType::from(2), SecretType::NoSecret);
    assert_eq!(SecretType::from(255), SecretType::NoSecret);
    assert_eq!(SecretType::String.to_u8(), 0);
    assert_eq!(SecretType::File.to_u8(), 1);
    assert_eq!(SecretType::NoSecret.to_u8(), 2);
}

#[test]
fn hello_round_trip() {
    let mut img = Image::create_empty_image(10, 10);
    assert_eq!(encode_string(&mut img, "Hello"), Ok(()));
    let info = get_secret_info(&mut img);
    assert_eq!(info.secret_type, SecretType::String);
    assert_eq!(info.secret_size, 5);
    // 31 bytes fit at depth 1 in 100 pixels (37 bytes)
    assert_eq!(info.num_bits, 1);
    assert_eq!(decode_string(&mut img, 5, 1), Ok("Hello".to_string()));
}

#[test]
fn hello_at_the_smallest_depth_that_fits() {
    // 36 pixels carry 13, 27, 40, 54 bytes; the envelope of "Hello" is 31
    let mut img = Image::create_empty_image(6, 6);
    assert_eq!(get_img_capacity(&mut img, 2), Ok(27));
    assert_eq!(get_img_capacity(&mut img, 3), Ok(40));
    assert_eq!(encode_string(&mut img, "Hello"), Ok(()));
    let info = get_secret_info(&mut img);
    assert_eq!(info.num_bits, 3);
    assert_eq!(info.secret_type, SecretType::String);
    assert_eq!(info.secret_size, 5);
    assert_eq!(decode_string(&mut img, info.secret_size as usize, info.num_bits), Ok("Hello".to_string()));
}

#[test]
fn text_that_is_not_ascii_comes_back() {
    let text = "Grüße, 世界! 🦀";
    let mut img = Image::from_pixels(8, 8, vec![0xA5C3_96E1; 64]).unwrap();
    assert_eq!(encode_string(&mut img, text), Ok(()));
    let info = get_secret_info(&mut img);
    assert_eq!(info.secret_type, SecretType::String);
    assert_eq!(info.secret_size as usize, text.len());
    assert_eq!(decode_string(&mut img, text.len(), info.num_bits), Ok(text.to_string()));
}

#[test]
fn empty_text_round_trip() {
    let mut img = Image::create_empty_image(10, 10);
    assert_eq!(encode_string(&mut img, ""), Ok(()));
    let info = get_secret_info(&mut img);
    assert_eq!((info.num_bits, info.secret_type, info.secret_size), (1, SecretType::String, 0));
    assert_eq!(decode_string(&mut img, 0, 1), Ok(String::new()));
}

#[test]
fn image_without_secret() {
    let mut img = Image::create_empty_image(10, 10);
    let info = get_secret_info(&mut img);
    assert_eq!(info.num_bits, 0);
    assert_eq!(info.secret_type, SecretType::NoSecret);
    assert_eq!(info.secret_size, 0);
    let mut tiny = Image::create_empty_image(1, 1);
    let info = get_secret_info(&mut tiny);
    assert_eq!((info.num_bits, info.secret_type, info.secret_size), (0, SecretType::NoSecret, 0));
    let mut white = Image::from_pixels(10, 10, vec![0xFFFF_FFFF; 100]).unwrap();
    assert_eq!(get_secret_info(&mut white).num_bits, 0);
}

#[test]
fn get_secret_info_leaves_the_image_as_it_is() {
    let mut img = Image::from_pixels(10, 10, (0..100u32).map(|i| i.wrapping_mul(0x9E37_79B9)).collect()).unwrap();
    let before = img.get_bytes();
    get_secret_info(&mut img);
    assert_eq!(img.get_bytes(), before);
    encode_string(&mut img, "abc").unwrap();
    let written = img.get_bytes();
    let info = get_secret_info(&mut img);
    decode_string(&mut img, 3, info.num_bits).unwrap();
    assert_eq!(img.get_bytes(), written);
}

#[test]
fn unknown_kind_is_no_secret_but_found() {
    let mut img = Image::create_empty_image(10, 10);
    let mut data = header(7, 9);
    data.extend_from_slice(b"xyz");
    assert_eq!(encode_data(&mut img, &data), Ok(()));
    let info = get_secret_info(&mut img);
    assert_eq!((info.num_bits, info.secret_type, info.secret_size), (1, SecretType::NoSecret, 9));
}

#[test]
fn largest_text_that_fits_and_one_byte_more() {
    // 36 pixels carry 54 bytes at depth 4: 26 of header and 28 of text
    let mut img = Image::from_pixels(6, 6, vec![0x8040_2010; 36]).unwrap();
    let before = img.get_bytes();
    let too_long = "x".repeat(29);
    assert_eq!(encode_string(&mut img, &too_long), Err(SecretError::InsufficientCapacity));
    assert_eq!(img.get_bytes(), before);
    assert_eq!(get_secret_info(&mut img).num_bits, 0);
    let fits = "y".repeat(28);
    assert_eq!(encode_string(&mut img, &fits), Ok(()));
    let info = get_secret_info(&mut img);
    assert_eq!((info.num_bits, info.secret_type, info.secret_size), (4, SecretType::String, 28));
    assert_eq!(decode_string(&mut img, 28, 4), Ok(fits));
}

#[test]
fn data_of_exactly_the_capacity() {
    let mut img = Image::create_empty_image(6, 6);
    assert_eq!(get_img_capacity(&mut img, 4), Ok(54));
    let before = img.get_bytes();
    assert_eq!(encode_data(&mut img, &[0xFFu8; 55]), Err(SecretError::InsufficientCapacity));
    assert_eq!(img.get_bytes(), before);
    assert_eq!(encode_data(&mut img, &[0xFFu8; 54]), Ok(()));
    let mut c = ImageCoder::create();
    c.num_bits(4).unwrap();
    let mut back = [0u8; 54];
    assert_eq!(c.read(&mut img, &mut back), 54);
    assert_eq!(back, [0xFFu8; 54]);
}

#[test]
fn encode_data_picks_the_smallest_depth() {
    // 36 pixels carry 13, 27, 40, 54 bytes
    for (len, depth) in [(0usize, 1usize), (13, 1), (14, 2), (27, 2), (28, 3), (40, 3), (41, 4), (54, 4)] {
        let mut img = Image::create_empty_image(6, 6);
        let data: Vec<u8> = (0..len).map(|i| (i * 29 + 3) as u8 | 1).collect();
        assert_eq!(encode_data(&mut img, &data), Ok(()));
        let mut c = ImageCoder::create();
        c.num_bits(depth).unwrap();
        let mut back = vec![0u8; len];
        assert_eq!(c.read(&mut img, &mut back), len);
        assert_eq!(back, data);
        // no channel holds a bit above the depth
        assert!(img.get_bytes().iter().all(|b| (*b as usize) < (1 << depth)));
    }
}

#[test]
fn text_that_is_not_utf8_is_an_error() {
    let mut img = Image::create_empty_image(10, 10);
    let mut data = header(0, 2);
    data.extend_from_slice(&[0xFF, 0xFE]);
    assert_eq!(encode_data(&mut img, &data), Ok(()));
    let info = get_secret_info(&mut img);
    assert_eq!((info.num_bits, info.secret_type, info.secret_size), (1, SecretType::String, 2));
    assert_eq!(decode_string(&mut img, 2, 1), Err(SecretError::PayloadDecodeError));
}

#[test]
fn decoding_past_the_capacity_reads_zeros() {
    let mut img = Image::create_empty_image(10, 10);
    encode_string(&mut img, "Hello").unwrap();
    // 37 bytes are carried; the text asked for ends at byte 40
    assert_eq!(decode_string(&mut img, 14, 1), Ok("Hello\0\0\0\0\0\0\0\0\0".to_string()));
}

#[test]
fn depth_out_of_range_is_refused() {
    let mut img = Image::create_empty_image(10, 10);
    encode_string(&mut img, "Hello").unwrap();
    assert_eq!(decode_string(&mut img, 5, 0), Err(SecretError::InvalidBitDepth));
    assert_eq!(decode_string(&mut img, 5, 5), Err(SecretError::InvalidBitDepth));
    assert_eq!(get_img_capacity(&mut img, 0), Err(SecretError::InvalidBitDepth));
    assert_eq!(get_img_capacity(&mut img, 5), Err(SecretError::InvalidBitDepth));
    let mut buf = [7u8; 3];
    assert_eq!(decode_file(&mut img, &mut buf, 6), Err(SecretError::InvalidBitDepth));
    assert_eq!(buf, [7u8; 3]);
}

#[test]
fn capacity_table() {
    let mut img = Image::create_empty_image(100, 50);
    assert_eq!(get_img_capacity(&mut img, 1), Ok(1875));
    assert_eq!(get_img_capacity(&mut img, 2), Ok(3750));
    assert_eq!(get_img_capacity(&mut img, 3), Ok(5625));
    assert_eq!(get_img_capacity(&mut img, 4), Ok(7500));
}

#[test]
fn file_round_trip() {
    let contents: Vec<u8> = (0..300u32).map(|i| (i * 7 + 1) as u8).collect();
    let mut img = Image::from_pixels(40, 40, vec![0x7F7F_7F7F; 1600]).unwrap();
    assert_eq!(encode_file(&mut img, "notes.bin", &contents), Ok(()));
    let info = get_secret_info(&mut img);
    assert_eq!(info.secret_type, SecretType::File);
    assert_eq!(info.secret_size, 300);
    // 26 + 8 + 9 + 300 = 343 bytes; 1600 pixels carry 600 at depth 1
    assert_eq!(info.num_bits, 1);
    let mut buf = vec![0u8; 300];
    assert_eq!(decode_file(&mut img, &mut buf, info.num_bits), Ok("notes.bin".to_string()));
    assert_eq!(buf, contents);
}

#[test]
fn file_envelope_layout() {
    let mut img = Image::create_empty_image(20, 20);
    assert_eq!(encode_file(&mut img, "a.txt", &[9, 8, 7]), Ok(()));
    let mut c = ImageCoder::create();
    let mut back = vec![0u8; 26 + 8 + 5 + 3];
    assert_eq!(c.read(&mut img, &mut back), 42);
    let mut expected = header(1, 3);
    expected.extend_from_slice(&[0, 0, 0, 0, 0, 0, 0, 5]);
    expected.extend_from_slice(b"a.txt");
    expected.extend_from_slice(&[9, 8, 7]);
    assert_eq!(back, expected);
}

#[test]
fn empty_file_with_empty_name() {
    let mut img = Image::create_empty_image(10, 10);
    assert_eq!(encode_file(&mut img, "", &[]), Ok(()));
    let info = get_secret_info(&mut img);
    assert_eq!((info.num_bits, info.secret_type, info.secret_size), (1, SecretType::File, 0));
    let mut buf: [u8; 0] = [];
    assert_eq!(decode_file(&mut img, &mut buf, 1), Ok(String::new()));
}

#[test]
fn file_too_large_is_refused() {
    let mut img = Image::create_empty_image(6, 6);
    let before = img.get_bytes();
    // 26 + 8 + 4 + 17 = 55 bytes, one more than 36 pixels carry
    assert_eq!(encode_file(&mut img, "f.rs", &[1u8; 17]), Err(SecretError::InsufficientCapacity));
    assert_eq!(img.get_bytes(), before);
    assert_eq!(encode_file(&mut img, "f.rs", &[1u8; 16]), Ok(()));
    let mut buf = [0u8; 16];
    assert_eq!(decode_file(&mut img, &mut buf, 4), Ok("f.rs".to_string()));
    assert_eq!(buf, [1u8; 16]);
}

#[test]
fn file_name_that_is_not_utf8_is_an_error() {
    let mut img = Image::create_empty_image(20, 20);
    let mut data = header(1, 2);
    data.extend_from_slice(&[0, 0, 0, 0, 0, 0, 0, 2]);
    data.extend_from_slice(&[0xC3, 0x28]);
    data.extend_from_slice(&[5, 6]);
    assert_eq!(encode_data(&mut img, &data), Ok(()));
    let mut buf = [0xAAu8; 2];
    assert_eq!(decode_file(&mut img, &mut buf, 1), Err(SecretError::PayloadDecodeError));
    assert_eq!(buf, [0xAAu8; 2]);
}

#[test]
fn file_name_length_beyond_any_buffer_is_an_error() {
    let mut img = Image::create_empty_image(20, 20);
    let mut data = header(1, 2);
    data.extend_from_slice(&[0xFF; 8]);
    assert_eq!(encode_data(&mut img, &data), Ok(()));
    let mut buf = [0xAAu8; 2];
    assert_eq!(decode_file(&mut img, &mut buf, 1), Err(SecretError::PayloadDecodeError));
    assert_eq!(buf, [0xAAu8; 2]);
}
