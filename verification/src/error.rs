use vstd::prelude::*;
use vstd::string::*;

verus! {

#[verifier::external_type_specification]
#[verifier::external_body]
pub struct ExIoError(std::io::Error);

/// Error types for card PDF generation.
#[derive(Debug)]
pub enum CardsError {
    IoError(std::io::Error),
    ImageDecodeError(String),
    DirectoryNotFound(String),
    NoImagesFound(String),
    PdfGenerationError(String),
    InvalidGridSize(usize),
}

/// The character of a decimal digit `d` (`0 <= d < 10`).
pub open spec fn digit_char(d: nat) -> char {
    (48 + d) as char
}

/// The decimal notation of `n`, without leading zeros.
pub open spec fn decimal(n: nat) -> Seq<char>
    decreases n,
{
    if n < 10 {
        seq![digit_char(n)]
    } else {
        decimal(n / 10).push(digit_char(n % 10))
    }
}

fn digit_text(d: usize) -> (s: &'static str)
    requires
        d < 10,
    ensures
        s@ == seq![digit_char(d as nat)],
{
    proof {
        reveal_strlit("0");
        reveal_strlit("1");
        reveal_strlit("2");
        reveal_strlit("3");
        reveal_strlit("4");
        reveal_strlit("5");
        reveal_strlit("6");
        reveal_strlit("7");
        reveal_strlit("8");
        reveal_strlit("9");
    }
    match d {
        0 => "0",
        1 => "1",
        2 => "2",
        3 => "3",
        4 => "4",
        5 => "5",
        6 => "6",
        7 => "7",
        8 => "8",
        _ => "9",
    }
}

/// Writes `n` in decimal notation.
pub fn decimal_text(n: usize) -> (s: String)
    ensures
        s@ == decimal(n as nat),
    decreases n,
{
    if n < 10 {
        String::from_str(digit_text(n))
    } else {
        let mut s = decimal_text(n / 10);
        s.append(digit_text(n % 10));
        s
    }
}

/// The text that `std` gives for an I/O error.
#[verifier::external_body]
fn io_error_text(e: &std::io::Error) -> String {
    e.to_string()
}

impl CardsError {
    /// What the message of this error says, except for an I/O error, whose text comes from `std`.
    pub open spec fn spec_message(&self) -> Seq<char> {
        match self {
            CardsError::IoError(_) => seq![],
            CardsError::ImageDecodeError(s) => "Image decode error: "@ + s@,
            CardsError::DirectoryNotFound(s) => "Directory not found: "@ + s@,
            CardsError::NoImagesFound(s) => "No images found in: "@ + s@,
            CardsError::PdfGenerationError(s) => "PDF generation error: "@ + s@,
            CardsError::InvalidGridSize(n) => "Invalid grid size: "@ + decimal(*n as nat)
                + " (must be between 1 and 20)"@,
        }
    }

    /// The human readable message of this error.
    pub fn message(&self) -> (text: String)
        ensures
            !(self is IoError) ==> text@ == self.spec_message(),
            self is IoError ==> text@.len() >= "IO error: "@.len() && text@.subrange(0, "IO error: "@.len() as int) == "IO error: "@,
    {
        match self {
            CardsError::IoError(e) => {
                let mut text = String::from_str("IO error: ");
                text.append(io_error_text(e).as_str());
                text
            },
            CardsError::ImageDecodeError(s) => {
                let mut text = String::from_str("Image decode error: ");
                text.append(s.as_str());
                text
            },
            CardsError::DirectoryNotFound(s) => {
                let mut text = String::from_str("Directory not found: ");
                text.append(s.as_str());
                text
            },
            CardsError::NoImagesFound(s) => {
                let mut text = String::from_str("No images found in: ");
                text.append(s.as_str());
                text
            },
            CardsError::PdfGenerationError(s) => {
                let mut text = String::from_str("PDF generation error: ");
                text.append(s.as_str());
                text
            },
            CardsError::InvalidGridSize(n) => {
                let mut text = String::from_str("Invalid grid size: ");
                text.append(decimal_text(*n).as_str());
                text.append(" (must be between 1 and 20)");
                text
            },
        }
    }
}

impl From<std::io::Error> for CardsError {
    fn from(e: std::io::Error) -> (r: CardsError) {
        CardsError::IoError(e)
    }
}

impl vstd::std_specs::convert::FromSpecImpl<std::io::Error> for CardsError {
    open spec fn obeys_from_spec() -> bool {
        true
    }

    open spec fn from_spec(e: std::io::Error) -> CardsError {
        CardsError::IoError(e)
    }
}

} // verus!
