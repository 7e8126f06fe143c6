//! The errors of the crate.
use vstd::prelude::*;

verus! {

/// `core::str::Utf8Error`: why bytes are no text.
#[verifier::external_type_specification]
#[verifier::external_body]
pub struct ExUtf8Error(core::str::Utf8Error);

/// `ndarray::ShapeError`: why an array of a shape cannot be made.
#[verifier::external_type_specification]
#[verifier::external_body]
pub struct ExShapeError(ndarray::ShapeError);

/// An id that is not in the dataset.
#[derive(Clone, Copy, Debug, PartialEq, Eq, Structural)]
pub enum MissingIdError {
    Annotation(u32),
    Category(u32),
    Image(u32),
}

/// A segmentation that could not be converted to another encoding.
#[derive(Debug)]
pub enum MaskError {
    /// A group of five bits of a run length did not fit a byte.
    IntConversion(core::num::TryFromIntError, i64),
    /// The characters of compressed run lengths were no text.
    StrConversion(core::str::Utf8Error, Vec<u8>),
    /// The pixels of a mask did not fit the shape that it was to have.
    ImageToNDArrayConversion(ndarray::ShapeError),
    /// Polygons without the size of their image cannot be turned into a mask.
    UnsupportedConversion,
}

/// An annotation file or an image that could not be loaded. What went wrong,
/// where the cause lies outside this crate, is held as text.
#[derive(Debug)]
pub enum LoadingError {
    /// The annotation file at the given path could not be read.
    Read(String, String),
    /// The annotation file at the given path is no dataset.
    Deserialize(String, String),
    /// The annotation file at the given path holds an annotation for an image
    /// that it does not hold.
    Parsing(MissingIdError, String),
    /// An image could not be opened or decoded.
    Image(String),
}

/// Any error of the crate.
#[derive(Debug)]
pub enum CocoError {
    MissingId(MissingIdError),
    Loading(LoadingError),
    Mask(MaskError),
}

/// The decimal digit for a number under 10.
pub open spec fn digit(d: nat) -> char {
    (48 + d) as u8 as char
}

/// The number in decimal digits, with no 0 before them.
pub open spec fn decimal(n: nat) -> Seq<char>
    decreases n,
{
    if n < 10 {
        seq![digit(n)]
    } else {
        decimal(n / 10).push(digit(n % 10))
    }
}

/// The whole number in decimal digits, after a minus sign where it is
/// negative.
pub open spec fn integer(v: int) -> Seq<char> {
    if v < 0 {
        "-"@ + decimal((-v) as nat)
    } else {
        decimal(v as nat)
    }
}

/// The bytes in decimal digits, with a comma and a space between one and the
/// next.
pub open spec fn items(bytes: Seq<u8>) -> Seq<char>
    decreases bytes.len(),
{
    if bytes.len() == 0 {
        Seq::empty()
    } else if bytes.len() == 1 {
        decimal(bytes[0] as nat)
    } else {
        items(bytes.drop_last()) + ", "@ + decimal(bytes.last() as nat)
    }
}

/// The bytes as a list between square brackets.
pub open spec fn byte_list(bytes: Seq<u8>) -> Seq<char> {
    "["@ + items(bytes) + "]"@
}

/// The text as `Debug` writes it: between double quotes, with the characters
/// that cannot stand there as they are written as escapes.
pub uninterp spec fn debug_text(text: Seq<char>) -> Seq<char>;

/// `format!` with `{}` on a `u64`, which writes the number with `Display`:
/// in decimal digits, without a sign and with no 0 before them.
#[verifier::external_body]
fn decimal_text(n: u64) -> (text: String)
    ensures
        text@ == decimal(n as nat),
{
    format!("{n}")
}

/// `format!` with `{:?}` on a `str`, which writes the text with `Debug`.
#[verifier::external_body]
fn quoted(text: &str) -> (written: String)
    ensures
        written@ == debug_text(text@),
{
    format!("{text:?}")
}

/// The whole number in decimal digits.
fn integer_text(v: i64) -> (text: String)
    ensures
        text@ == integer(v as int),
{
    if v < 0 {
        let magnitude: u64 = (-(v + 1)) as u64 + 1;
        let mut text = String::from_str("-");
        text.append(decimal_text(magnitude).as_str());
        text
    } else {
        decimal_text(v as u64)
    }
}

/// The bytes as a list between square brackets.
fn byte_list_text(bytes: &Vec<u8>) -> (text: String)
    ensures
        text@ == byte_list(bytes@),
{
    let mut text = String::from_str("[");
    let mut i: usize = 0;
    while i < bytes.len()
        invariant
            i <= bytes.len(),
            text@ == "["@ + items(bytes@.take(i as int)),
        decreases bytes.len() - i,
    {
        let ghost before = bytes@.take(i as int);
        let ghost after = bytes@.take(i + 1);
        proof {
            assert(after.drop_last() =~= before);
            assert(after.last() == bytes[i as int]);
        }
        if i > 0 {
            text.append(", ");
        }
        text.append(decimal_text(bytes[i] as u64).as_str());
        proof {
            if i > 0 {
                assert(text@ =~= "["@ + (items(before) + ", "@ + decimal(bytes[i as int] as nat)));
            } else {
                assert(items(before) =~= Seq::<char>::empty());
                assert(text@ =~= "["@ + decimal(bytes[i as int] as nat));
            }
        }
        i = i + 1;
    }
    assert(bytes@.take(i as int) =~= bytes@);
    text.append("]");
    text
}

impl MissingIdError {
    /// The message on the missing id: it names the kind of id and the id.
    pub open spec fn text(self) -> Seq<char> {
        match self {
            MissingIdError::Annotation(id) => "The following annotation id was not found in the dataset: `"@
                + decimal(id as nat) + "`."@,
            MissingIdError::Category(id) => "The following category id was not found in the dataset: `"@
                + decimal(id as nat) + "`."@,
            MissingIdError::Image(id) => "The following image id was not found in the dataset: `"@
                + decimal(id as nat) + "`."@,
        }
    }

    /// The message on the missing id.
    pub fn message(&self) -> (text: String)
        ensures
            text@ == self.text(),
    {
        let (mut text, id) = match self {
            MissingIdError::Annotation(id) => (
                String::from_str("The following annotation id was not found in the dataset: `"),
                *id,
            ),
            MissingIdError::Category(id) => (
                String::from_str("The following category id was not found in the dataset: `"),
                *id,
            ),
            MissingIdError::Image(id) => (
                String::from_str("The following image id was not found in the dataset: `"),
                *id,
            ),
        };
        text.append(decimal_text(id as u64).as_str());
        text.append("`.");
        text
    }
}

impl MaskError {
    /// The message on the conversion that failed, with the value that could
    /// not be converted.
    pub open spec fn text(self) -> Seq<char> {
        match self {
            MaskError::IntConversion(_, value) => "Failed to convert RLE to its compressed version due to a type conversion error. Tried to convert '"@
                + integer(value as int) + "' to u8 and failed."@,
            MaskError::StrConversion(_, bytes) => "Failed to convert RLE to its compressed version due to a type conversion error. Tried to convert '"@
                + byte_list(bytes@) + "' to u8 and failed."@,
            MaskError::ImageToNDArrayConversion(_) => "Failed to convert an image mask to an ndarray version of it."@,
            MaskError::UnsupportedConversion => "Polygons without the size of their image cannot be converted."@,
        }
    }

    /// The message on the conversion that failed.
    pub fn message(&self) -> (text: String)
        ensures
            text@ == self.text(),
    {
        match self {
            MaskError::IntConversion(_, value) => {
                let mut text = String::from_str(
                    "Failed to convert RLE to its compressed version due to a type conversion error. Tried to convert '",
                );
                text.append(integer_text(*value).as_str());
                text.append("' to u8 and failed.");
                text
            },
            MaskError::StrConversion(_, bytes) => {
                let mut text = String::from_str(
                    "Failed to convert RLE to its compressed version due to a type conversion error. Tried to convert '",
                );
                text.append(byte_list_text(bytes).as_str());
                text.append("' to u8 and failed.");
                text
            },
            MaskError::ImageToNDArrayConversion(_) => String::from_str(
                "Failed to convert an image mask to an ndarray version of it.",
            ),
            MaskError::UnsupportedConversion => String::from_str(
                "Polygons without the size of their image cannot be converted.",
            ),
        }
    }
}

/// The message on an annotation file that holds an annotation for an image
/// that it does not hold.
pub open spec fn parsing_text(path: Seq<char>) -> Seq<char> {
    "Failed to parse the annotation file "@ + debug_text(path)
        + ". Found an annotation for an image id not in the dataset."@
}

impl LoadingError {
    /// The message on what could not be loaded: it names the file, as
    /// `Debug` writes its path. For an image it is the text that was given.
    pub open spec fn text(self) -> Seq<char> {
        match self {
            LoadingError::Read(_, path) => "Failed to read the annotation file "@ + debug_text(
                path@,
            ) + "."@,
            LoadingError::Deserialize(_, path) => "Failed to deserialize the annotation file "@
                + debug_text(path@) + "."@,
            LoadingError::Parsing(_, path) => parsing_text(path@),
            LoadingError::Image(why) => why@,
        }
    }

    /// The message on what could not be loaded.
    pub fn message(&self) -> (text: String)
        ensures
            text@ == self.text(),
    {
        match self {
            LoadingError::Read(_, path) => {
                let mut text = String::from_str("Failed to read the annotation file ");
                text.append(quoted(path.as_str()).as_str());
                text.append(".");
                text
            },
            LoadingError::Deserialize(_, path) => {
                let mut text = String::from_str("Failed to deserialize the annotation file ");
                text.append(quoted(path.as_str()).as_str());
                text.append(".");
                text
            },
            LoadingError::Parsing(_, path) => {
                let mut text = String::from_str("Failed to parse the annotation file ");
                text.append(quoted(path.as_str()).as_str());
                text.append(". Found an annotation for an image id not in the dataset.");
                text
            },
            LoadingError::Image(why) => why.clone(),
        }
    }
}

impl CocoError {
    /// The message of the error that it holds.
    pub open spec fn text(self) -> Seq<char> {
        match self {
            CocoError::MissingId(error) => error.text(),
            CocoError::Loading(error) => error.text(),
            CocoError::Mask(error) => error.text(),
        }
    }

    /// The message of the error that it holds.
    pub fn message(&self) -> (text: String)
        ensures
            text@ == self.text(),
    {
        match self {
            CocoError::MissingId(error) => error.message(),
            CocoError::Loading(error) => error.message(),
            CocoError::Mask(error) => error.message(),
        }
    }
}

} // verus!
