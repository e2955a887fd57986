use stegano::error::SecretError;
use stegano::image::{ColorLayout, Image};

#[test]
fn empty_image_has_zero_pixels_of_the_given_size() {
    let img = Image::create_empty_image(3, 2);
    assert_eq!(img.width(), 3);
    assert_eq!(img.height(), 2);
    assert_eq!(img.get_raw_data(), &[0u32; 6]);
    assert_eq!(img.get_bytes(), vec![0u8; 24]);
    assert_eq!(img.get_pixel_value(2, 1), (0, 0, 0, 0));
}

#[test]
fn empty_image_of_no_pixels() {
    let img = Image::create_empty_image(0, 5);
    assert_eq!(img.width(), 0);
    assert_eq!(img.height(), 5);
    assert!(img.get_raw_data().is_empty());
}

#[test]
fn set_pixel_then_get_pixel() {
    let mut img = Image::create_empty_image(4, 3);
    img.set_pixel_value(1, 2, (0x11, 0x22, 0x33, 0x44));
    assert_eq!(img.get_pixel_value(1, 2), (0x11, 0x22, 0x33, 0x44));
    assert_eq!(img.get_pixel_value(0, 2), (0, 0, 0, 0));
    // row-major: x + y * width
    assert_eq!(img.get_raw_data()[1 + 2 * 4], 0x4433_2211);
    assert_eq!(img.get_raw_data().iter().filter(|p| **p != 0).count(), 1);
}

#[test]
fn bytes_are_red_green_blue_alpha() {
    let img = Image::from_pixels(2, 1, vec![0x4433_2211, 0xDDCC_BBAA]).unwrap();
    assert_eq!(img.get_bytes(), vec![0x11, 0x22, 0x33, 0x44, 0xAA, 0xBB, 0xCC, 0xDD]);
    assert_eq!(img.get_pixel_value(1, 0), (0xAA, 0xBB, 0xCC, 0xDD));
}

#[test]
fn raw_data_can_be_changed_in_place() {
    let mut img = Image::create_empty_image(2, 2);
    img.get_raw_data_mut()[3] = 0x0102_0304;
    assert_eq!(img.get_pixel_value(1, 1), (0x04, 0x03, 0x02, 0x01));
    assert_eq!(img.width(), 2);
    assert_eq!(img.height(), 2);
}

#[test]
fn from_pixels_checks_the_count() {
    assert!(Image::from_pixels(2, 2, vec![1, 2, 3, 4]).is_ok());
    assert_eq!(Image::from_pixels(2, 2, vec![1, 2, 3]).err(), Some(SecretError::InvalidColorFormat));
    assert_eq!(Image::from_pixels(0, 0, vec![1]).err(), Some(SecretError::InvalidColorFormat));
    assert!(Image::from_pixels(0, 7, vec![]).is_ok());
}

#[test]
fn clone_is_equal_and_independent() {
    let mut img = Image::from_pixels(1, 2, vec![5, 6]).unwrap();
    let copy = img.clone();
    img.set_pixel_value(0, 0, (9, 9, 9, 9));
    assert_eq!(copy.get_raw_data(), &[5, 6]);
    assert_eq!(img.get_raw_data(), &[0x0909_0909, 6]);
}

#[test]
fn rgb_samples_get_full_alpha() {
    let samples = [1u8, 2, 3, 4, 5, 6];
    let img = Image::from_samples(2, 1, ColorLayout::Rgb, 8, &samples).unwrap();
    assert_eq!(img.width(), 2);
    assert_eq!(img.height(), 1);
    assert_eq!(img.get_raw_data(), &[0xFF03_0201, 0xFF06_0504]);
    assert_eq!(img.get_pixel_value(1, 0), (4, 5, 6, 0xFF));
}

#[test]
fn rgba_samples_are_taken_as_they_are() {
    let samples = [1u8, 2, 3, 4, 5, 6, 7, 8];
    let img = Image::from_samples(1, 2, ColorLayout::Rgba, 8, &samples).unwrap();
    assert_eq!(img.get_raw_data(), &[0x0403_0201, 0x0807_0605]);
    assert_eq!(img.get_bytes(), samples.to_vec());
}

#[test]
fn other_layouts_are_refused() {
    let samples = [0u8; 8];
    for layout in [ColorLayout::Grayscale, ColorLayout::Indexed, ColorLayout::GrayscaleAlpha] {
        assert_eq!(
            Image::from_samples(2, 1, layout, 8, &samples[..2]).err(),
            Some(SecretError::InvalidColorFormat)
        );
    }
    // 16 bits a sample
    assert_eq!(
        Image::from_samples(1, 1, ColorLayout::Rgba, 16, &samples).err(),
        Some(SecretError::InvalidColorFormat)
    );
    // samples that do not match the dimensions
    assert_eq!(
        Image::from_samples(2, 1, ColorLayout::Rgb, 8, &samples[..5]).err(),
        Some(SecretError::InvalidColorFormat)
    );
    assert_eq!(
        Image::from_samples(2, 1, ColorLayout::Rgba, 8, &samples[..6]).err(),
        Some(SecretError::InvalidColorFormat)
    );
}

#[test]
fn error_messages() {
    assert_eq!(SecretError::InvalidColorFormat.message(), "Invalid Color Format!");
    assert_eq!(SecretError::InsufficientCapacity.message(), "Not enough Image capacity!");
    assert_ne!(SecretError::PayloadDecodeError.message(), SecretError::InvalidBitDepth.message());
}
