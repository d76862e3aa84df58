use crate::outside::{decode_error_message, decode_error_text};
use vstd::prelude::*;
use vstd::string::StringExecFns;

verus! {

/// Everything that can go wrong in the cache.
#[derive(Debug, PartialEq, Eq)]
pub enum Error {
    /// An upload was finalized without metadata.
    MissingNarInfo,
    /// The storage medium failed, and said this.
    Io(String),
    /// The artifact index failed, and said this.
    Database(String),
    /// An artifact could not be stored.
    Upload,
    /// An artifact could not be fetched.
    Download,
    /// A `name:payload` text ended before its second part.
    UnexpectedEof,
    /// A base-64 payload was refused by the decoder.
    Base64(base64::DecodeError),
    /// A base-32 digest held a foreign character or did not fit its length.
    BadBase32,
    /// A hash named an algorithm that is not known.
    UnknownHashType,
    /// No trusted key vouches for the metadata.
    NoValidSignature,
    /// A metadata record was malformed.
    BadNarInfo,
    /// The artifact is not in the cache.
    NotFound,
}

impl Error {
    /// The name of the error.
    pub open spec fn name(self) -> Seq<char> {
        match self {
            Error::MissingNarInfo => "MissingNarInfo"@,
            Error::Io(_) => "Io"@,
            Error::Database(_) => "Database"@,
            Error::Upload => "Upload"@,
            Error::Download => "Download"@,
            Error::UnexpectedEof => "UnexpectedEof"@,
            Error::Base64(_) => "Base64"@,
            Error::BadBase32 => "BadBase32"@,
            Error::UnknownHashType => "UnknownHashType"@,
            Error::NoValidSignature => "NoValidSignature"@,
            Error::BadNarInfo => "BadNarInfo"@,
            Error::NotFound => "NotFound"@,
        }
    }

    /// The HTTP status that answers the error: 404 where the artifact is not
    /// in the cache, which is no fault, and 500 for all else.
    pub open spec fn status(self) -> u16 {
        match self {
            Error::NotFound => 404,
            _ => 500,
        }
    }

    /// What the error says of itself. A failure of the store or of the index
    /// speaks in the words of the medium, and the refusal of a base-64 text
    /// in the decoder's.
    pub open spec fn message(self) -> Seq<char> {
        match self {
            Error::MissingNarInfo => "Missing narinfo"@,
            Error::Io(said) => said@,
            Error::Database(said) => said@,
            Error::Upload => "Upload error"@,
            Error::Download => "Download error"@,
            Error::UnexpectedEof => "Unexpected end of input"@,
            Error::Base64(e) => decode_error_text(e),
            Error::BadBase32 => "Bad base32"@,
            Error::UnknownHashType => "Unknown hash type"@,
            Error::NoValidSignature => "No valid signature"@,
            Error::BadNarInfo => "Bad narinfo"@,
            Error::NotFound => "Not found"@,
        }
    }

    /// What the error says of itself.
    pub fn to_string(&self) -> (message: String)
        ensures
            message@ == self.message(),
    {
        match self {
            Error::MissingNarInfo => String::from_str("Missing narinfo"),
            Error::Io(said) => said.clone(),
            Error::Database(said) => said.clone(),
            Error::Upload => String::from_str("Upload error"),
            Error::Download => String::from_str("Download error"),
            Error::UnexpectedEof => String::from_str("Unexpected end of input"),
            Error::Base64(e) => decode_error_message(e),
            Error::BadBase32 => String::from_str("Bad base32"),
            Error::UnknownHashType => String::from_str("Unknown hash type"),
            Error::NoValidSignature => String::from_str("No valid signature"),
            Error::BadNarInfo => String::from_str("Bad narinfo"),
            Error::NotFound => String::from_str("Not found"),
        }
    }

    /// The name of the error.
    pub fn as_ref(&self) -> (name: &'static str)
        ensures
            name@ == self.name(),
    {
        match self {
            Error::MissingNarInfo => "MissingNarInfo",
            Error::Io(_) => "Io",
            Error::Database(_) => "Database",
            Error::Upload => "Upload",
            Error::Download => "Download",
            Error::UnexpectedEof => "UnexpectedEof",
            Error::Base64(_) => "Base64",
            Error::BadBase32 => "BadBase32",
            Error::UnknownHashType => "UnknownHashType",
            Error::NoValidSignature => "NoValidSignature",
            Error::BadNarInfo => "BadNarInfo",
            Error::NotFound => "NotFound",
        }
    }

    /// The HTTP status that answers the error.
    pub fn status_code(&self) -> (code: u16)
        ensures
            code == self.status(),
    {
        match self {
            Error::NotFound => 404,
            _ => 500,
        }
    }
}

} // verus!
