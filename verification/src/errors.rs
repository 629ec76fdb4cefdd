use vstd::prelude::*;

verus! {

/// What can go wrong while hiding or recovering a secret.
#[derive(Debug, Clone, Copy, PartialEq, Eq, Structural)]
pub enum Error {
    /// The secret could not be opened or read.
    SecretReadError,
    /// The secret needs more chunks than the image has bytes.
    SecretTooLarge,
    /// The chunk width is not between 1 and 8.
    InvalidNumberOfBits,
    /// The image could not be decoded, encoded or written.
    ImageReadWriteError,
}

impl Error {
    /// The text shown to a person for this error.
    pub open spec fn spec_message(self) -> Seq<char> {
        match self {
            Error::SecretReadError => "Something when while reading secret file"@,
            Error::SecretTooLarge => "Secret is too large to fit in image"@,
            Error::InvalidNumberOfBits => "Only 1 to 8 LSB bits are allowed"@,
            Error::ImageReadWriteError => "Something went wrong while processing the image"@,
        }
    }

    /// Renders the error as a sentence.
    pub fn message(&self) -> (text: String)
        ensures
            text@ == self.spec_message(),
    {
        match self {
            Error::SecretReadError => "Something when while reading secret file".to_string(),
            Error::SecretTooLarge => "Secret is too large to fit in image".to_string(),
            Error::InvalidNumberOfBits => "Only 1 to 8 LSB bits are allowed".to_string(),
            Error::ImageReadWriteError => "Something went wrong while processing the image".to_string(),
        }
    }
}

} // verus!
