//! The ways in which hiding or recovering a payload can fail.
use vstd::prelude::*;

verus! {

/// Why an operation of this library was refused.
#[derive(Clone, Copy, Debug, PartialEq, Eq, Structural)]
pub enum SecretError {
    /// The source image is not 8-bit RGB or RGBA, or its pixel data does not
    /// match its dimensions.
    InvalidColorFormat,
    /// The payload does not fit in the image, even at the largest bit depth.
    InsufficientCapacity,
    /// The hidden bytes are not valid text.
    PayloadDecodeError,
    /// The bit depth is not between 1 and 4.
    InvalidBitDepth,
}

impl SecretError {
    /// A short description for people.
    pub fn message(&self) -> (out: &'static str)
        ensures
            out@ == (match *self {
                SecretError::InvalidColorFormat => "Invalid Color Format!"@,
                SecretError::InsufficientCapacity => "Not enough Image capacity!"@,
                SecretError::PayloadDecodeError => "The hidden payload is not valid text!"@,
                SecretError::InvalidBitDepth => "The bit depth must be between 1 and 4!"@,
            }),
    {
        match self {
            SecretError::InvalidColorFormat => "Invalid Color Format!",
            SecretError::InsufficientCapacity => "Not enough Image capacity!",
            SecretError::PayloadDecodeError => "The hidden payload is not valid text!",
            SecretError::InvalidBitDepth => "The bit depth must be between 1 and 4!",
        }
    }
}

} // verus!
