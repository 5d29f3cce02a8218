//! The failures a conversion can report.
use vstd::prelude::*;

use crate::text::decimal;
use crate::text::decimal_text;

verus! {

/// Anything that can go wrong while reading, converting or writing.
#[derive(Debug)]
pub enum Error {
    Io(String),
    Json { offset: usize, message: String },
    GeoJson(String),
    Parquet(String),
    FlatGeobuf(String),
    Usage(String),
    Convert(String),
}

/// What an [`Error`] says: the view of one.
pub enum Failure {
    Io(Seq<char>),
    Json { offset: int, message: Seq<char> },
    GeoJson(Seq<char>),
    Parquet(Seq<char>),
    FlatGeobuf(Seq<char>),
    Usage(Seq<char>),
    Convert(Seq<char>),
}

impl View for Error {
    type V = Failure;

    open spec fn view(&self) -> Failure {
        match self {
            Error::Io(m) => Failure::Io(m@),
            Error::Json { offset, message } => Failure::Json {
                offset: *offset as int,
                message: message@,
            },
            Error::GeoJson(m) => Failure::GeoJson(m@),
            Error::Parquet(m) => Failure::Parquet(m@),
            Error::FlatGeobuf(m) => Failure::FlatGeobuf(m@),
            Error::Usage(m) => Failure::Usage(m@),
            Error::Convert(m) => Failure::Convert(m@),
        }
    }
}

impl Failure {
    /// The sentence shown to the user.
    pub open spec fn sentence(self) -> Seq<char> {
        match self {
            Failure::Io(m) => "i/o error: "@ + m,
            Failure::Json { offset, message } => "json parse error at byte "@ + decimal(
                offset as nat,
            ) + ": "@ + message,
            Failure::GeoJson(m) => "invalid geojson: "@ + m,
            Failure::Parquet(m) => "invalid parquet: "@ + m,
            Failure::FlatGeobuf(m) => "invalid flatgeobuf: "@ + m,
            Failure::Usage(m) => m,
            Failure::Convert(m) => "conversion error: "@ + m,
        }
    }
}

impl Error {
    /// The sentence shown to the user.
    pub fn message(&self) -> (text: String)
        ensures
            text@ == self@.sentence(),
    {
        match self {
            Error::Io(m) => tagged("i/o error: ", m.as_str()),
            Error::Json { offset, message } => {
                let mut text = String::from_str("json parse error at byte ");
                text.append(decimal_text(*offset as u64).as_str());
                text.append(": ");
                text.append(message.as_str());
                text
            },
            Error::GeoJson(m) => tagged("invalid geojson: ", m.as_str()),
            Error::Parquet(m) => tagged("invalid parquet: ", m.as_str()),
            Error::FlatGeobuf(m) => tagged("invalid flatgeobuf: ", m.as_str()),
            Error::Usage(m) => String::from_str(m.as_str()),
            Error::Convert(m) => tagged("conversion error: ", m.as_str()),
        }
    }
}

/// `tag` followed by `body`.
pub fn tagged(tag: &str, body: &str) -> (text: String)
    ensures
        text@ == tag@ + body@,
{
    let mut text = String::from_str(tag);
    text.append(body);
    text
}

/// The mathematical value of a result: the view of the value or of the error.
pub open spec fn outcome<T: View>(r: Result<T, Error>) -> Result<T::V, Failure> {
    match r {
        Ok(v) => Ok(v@),
        Err(e) => Err(e@),
    }
}

} // verus!
