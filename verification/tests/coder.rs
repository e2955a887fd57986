use stegano::error::SecretError;
use stegano::image::image_coder::ImageCoder;
use stegano::image::Image;

fn coder(depth: usize, alpha: bool) -> ImageCoder {
    let mut c = ImageCoder::create();
    c.num_bits(depth).unwrap();
    c.use_alpha_channel(alpha);
    c
}

fn noisy_image(width: u32, height: u32) -> Image {
    let mut state: u32 = 0x1234_5678;
    let pixels: Vec<u32> = (0..width * height)
        .map(|_| {
            state = state.wrapping_mul(1_664_525).wrapping_add(1_013_904_223);
            state
        })
        .collect();
    Image::from_pixels(width, height, pixels).unwrap()
}

#[test]
fn capacity_exact_values() {
    let img = Image::create_empty_image(10, 10);
    assert_eq!(coder(1, false).get_capacity(&img), 37);
    assert_eq!(coder(2, false).get_capacity(&img), 75);
    assert_eq!(coder(3, false).get_capacity(&img), 112);
    assert_eq!(coder(4, false).get_capacity(&img), 150);
    assert_eq!(coder(1, true).get_capacity(&img), 50);
    assert_eq!(coder(3, true).get_capacity(&img), 150);
    let small = Image::create_empty_image(5, 1);
    assert_eq!(coder(1, false).get_capacity(&small), 1);
    assert_eq!(coder(3, false).get_capacity(&small), 5);
    let none = Image::create_empty_image(0, 0);
    assert_eq!(coder(4, true).get_capacity(&none), 0);
}

#[test]
fn default_coder_is_depth_one_without_alpha() {
    let img = Image::create_empty_image(8, 1);
    assert_eq!(ImageCoder::create().get_capacity(&img), 3);
}

#[test]
fn capacity_grows_with_depth() {
    for (w, h) in [(0u32, 0u32), (1, 1), (3, 5), (7, 7), (16, 9)] {
        let img = Image::create_empty_image(w, h);
        for alpha in [false, true] {
            for d in 1..4usize {
                assert!(coder(d + 1, alpha).get_capacity(&img) >= coder(d, alpha).get_capacity(&img));
            }
        }
    }
}

#[test]
fn bit_depth_out_of_range_is_refused() {
    let img = Image::create_empty_image(8, 1);
    let mut c = ImageCoder::create();
    assert_eq!(c.num_bits(0), Err(SecretError::InvalidBitDepth));
    assert_eq!(c.num_bits(5), Err(SecretError::InvalidBitDepth));
    // and the depth is as it was
    assert_eq!(c.get_capacity(&img), 3);
    assert_eq!(c.num_bits(4), Ok(()));
    assert_eq!(c.get_capacity(&img), 12);
    assert_eq!(c.num_bits(9), Err(SecretError::InvalidBitDepth));
    assert_eq!(c.get_capacity(&img), 12);
}

#[test]
fn write_places_groups_in_low_bits() {
    let mut img = Image::create_empty_image(1, 1);
    // 1101_0011 in groups of three: 110 100 11(0)
    assert_eq!(coder(3, false).write(&mut img, &[0b1101_0011]), Ok(1));
    assert_eq!(img.get_pixel_value(0, 0), (0b110, 0b100, 0b110, 0));
    assert_eq!(img.get_raw_data(), &[0x0006_0406]);
}

#[test]
fn write_keeps_the_bits_above() {
    let mut img = Image::from_pixels(1, 1, vec![0xFFFF_FFFF]).unwrap();
    assert_eq!(coder(3, false).write(&mut img, &[0b1101_0011]), Ok(1));
    assert_eq!(img.get_raw_data(), &[0xFFFE_FCFE]);
}

#[test]
fn write_with_alpha_uses_four_channels() {
    let mut img = Image::from_pixels(2, 1, vec![0xFFFF_FFFF, 0xFFFF_FFFF]).unwrap();
    assert_eq!(coder(1, true).write(&mut img, &[0b1010_0101]), Ok(1));
    assert_eq!(img.get_raw_data(), &[0xFEFF_FEFF, 0xFFFE_FFFE]);
}

#[test]
fn write_restarts_at_the_first_slot() {
    let mut img = Image::create_empty_image(4, 4);
    let c = coder(4, false);
    assert_eq!(c.write(&mut img, &[0xAB, 0xCD]), Ok(2));
    assert_eq!(c.write(&mut img, &[0x12]), Ok(1));
    let mut buf = [0u8; 2];
    assert_eq!(c.read(&mut img, &mut buf), 2);
    assert_eq!(buf, [0x12, 0xCD]);
}

#[test]
fn write_of_nothing_changes_nothing() {
    let mut img = noisy_image(3, 3);
    let before = img.clone();
    assert_eq!(coder(2, true).write(&mut img, &[]), Ok(0));
    assert_eq!(img.get_raw_data(), before.get_raw_data());
}

#[test]
fn read_gives_the_low_bits_in_order() {
    // r = 1, g = 2, b = 3, then r = 0: 01 10 11 00
    let mut img = Image::from_pixels(2, 1, vec![0x0003_0201, 0x0000_0000]).unwrap();
    let mut buf = [0u8; 1];
    assert_eq!(coder(2, false).read(&mut img, &mut buf), 1);
    assert_eq!(buf, [0b0110_1100]);
}

#[test]
fn read_fills_no_more_than_capacity() {
    let mut img = Image::from_pixels(2, 1, vec![0x0003_0201, 0x0000_0000]).unwrap();
    let mut buf = [0xEEu8; 4];
    assert_eq!(coder(2, false).read(&mut img, &mut buf), 1);
    assert_eq!(buf, [0b0110_1100, 0xEE, 0xEE, 0xEE]);
    let mut none: [u8; 0] = [];
    assert_eq!(coder(2, false).read(&mut img, &mut none), 0);
}

#[test]
fn read_leaves_the_image_as_it_is() {
    let mut img = noisy_image(9, 7);
    let before = img.get_bytes();
    for d in 1..=4usize {
        for alpha in [false, true] {
            let c = coder(d, alpha);
            let mut buf = vec![0u8; c.get_capacity(&img) + 3];
            c.read(&mut img, &mut buf);
            assert_eq!(img.get_bytes(), before);
        }
    }
}

#[test]
fn read_twice_gives_the_same_bytes() {
    let mut img = noisy_image(5, 5);
    let c = coder(3, true);
    let mut first = vec![0u8; 20];
    let mut second = vec![0u8; 20];
    assert_eq!(c.read(&mut img, &mut first), 20);
    assert_eq!(c.read(&mut img, &mut second), 20);
    assert_eq!(first, second);
}

#[test]
fn round_trip_at_every_depth() {
    for d in 1..=4usize {
        for alpha in [false, true] {
            let c = coder(d, alpha);
            let mut img = noisy_image(7, 5);
            let cap = c.get_capacity(&img);
            for len in [0usize, 1, 2, 5, cap - 1, cap] {
                let payload: Vec<u8> = (0..len).map(|i| (i * 37 + 11) as u8).collect();
                assert_eq!(c.write(&mut img, &payload), Ok(len));
                let mut back = vec![0u8; len];
                assert_eq!(c.read(&mut img, &mut back), len);
                assert_eq!(back, payload);
            }
        }
    }
}

#[test]
fn high_bits_survive_a_write() {
    for d in 1..=4usize {
        for alpha in [false, true] {
            let c = coder(d, alpha);
            let mut img = noisy_image(6, 6);
            let before = img.get_bytes();
            let cap = c.get_capacity(&img);
            let payload: Vec<u8> = (0..cap).map(|i| (i * 101 + 7) as u8).collect();
            assert_eq!(c.write(&mut img, &payload), Ok(cap));
            let after = img.get_bytes();
            assert_ne!(after, before);
            for (i, (a, b)) in after.iter().zip(before.iter()).enumerate() {
                assert_eq!(a >> d, b >> d);
                if !alpha && i % 4 == 3 {
                    assert_eq!(a, b);
                }
            }
        }
    }
}

#[test]
fn slots_behind_the_payload_are_untouched() {
    let mut img = noisy_image(4, 4);
    let before = img.get_bytes();
    // 2 bytes at depth 4 take 4 slots: red, green, blue of pixel 0 and red of pixel 1
    assert_eq!(coder(4, false).write(&mut img, &[0x5A, 0xC3]), Ok(2));
    let after = img.get_bytes();
    assert_eq!(after[0] & 0x0F, 0x5);
    assert_eq!(after[1] & 0x0F, 0xA);
    assert_eq!(after[2] & 0x0F, 0xC);
    assert_eq!(after[3], before[3]);
    assert_eq!(after[4] & 0x0F, 0x3);
    assert_eq!(&after[5..], &before[5..]);
}

#[test]
fn payload_of_exactly_the_capacity_fits_and_one_more_does_not() {
    for d in 1..=4usize {
        let c = coder(d, false);
        let mut img = noisy_image(6, 6);
        let cap = c.get_capacity(&img);
        let payload = vec![0x3Cu8; cap + 1];
        let before = img.get_bytes();
        assert_eq!(c.write(&mut img, &payload), Err(SecretError::InsufficientCapacity));
        assert_eq!(img.get_bytes(), before);
        assert_eq!(c.write(&mut img, &payload[..cap]), Ok(cap));
    }
}
