//! Hides a payload in the low bits of an image's colour channels and finds it again.
pub mod bits;
pub mod error;
pub mod image;
pub mod image_secret;
