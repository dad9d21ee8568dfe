//! Error types of the palette engine. Every error aborts the whole update:
//! the caller rewrites the document only on success, so a failed run leaves
//! the document untouched.

use vstd::prelude::*;

verus! {

/// An error raised when parsing a color value from a string.
#[derive(Clone, Copy, Debug, PartialEq, Eq, Structural)]
pub enum ColorParseError {
    /// The text is not `#` followed by six hexadecimal digits.
    InvalidFormat,
    /// The text has that shape, but a digit is not hexadecimal.
    InvalidValue,
}

impl ColorParseError {
    /// A short description, in place of a `Display` impl.
    pub fn message(&self) -> (r: String)
        ensures
            self is InvalidFormat ==> r@ == "the provided color string was in an unsupported format"@,
            self is InvalidValue ==> r@ == "failed to parse color value"@,
    {
        match self {
            ColorParseError::InvalidFormat => String::from_str(
                "the provided color string was in an unsupported format",
            ),
            ColorParseError::InvalidValue => String::from_str("failed to parse color value"),
        }
    }
}

/// An error raised while merging requests into the palette.
#[derive(Clone, Copy, Debug, PartialEq, Eq, Structural)]
pub enum UpdateError {
    /// A seed color value could not be parsed.
    Parse(ColorParseError),
    /// A link request referenced a group with no matching color in the
    /// palette.
    ReferenceNotFound,
    /// The document's color variables break the palette's shape: two
    /// entries of one group share a stop suffix.
    MalformedDocument,
}

impl UpdateError {
    /// A short description, in place of a `Display` impl.
    pub fn message(&self) -> (r: String)
        ensures
            self is ReferenceNotFound ==> r@ == "color not found in palette"@,
            self is MalformedDocument ==> r@ == "malformed color variables in document"@,
    {
        match self {
            UpdateError::Parse(e) => e.message(),
            UpdateError::ReferenceNotFound => String::from_str("color not found in palette"),
            UpdateError::MalformedDocument => String::from_str(
                "malformed color variables in document",
            ),
        }
    }
}

} // verus!
