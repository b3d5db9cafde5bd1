//! Errors reported by the converter library.
use crate::text::{concat_str, decimal, string_of, u64_decimal};
use vstd::prelude::*;
use vstd::string::*;

verus! {

/// An error of the converter. Each variant carries the text that explains it.
#[derive(Clone, Debug)]
pub enum Error {
    /// A `.dtr` recording that cannot be read.
    InvalidRec(String),
    /// Demo data that breaks an invariant of the converter.
    InvalidDemo(String),
    /// The demo parser refused the demo.
    Parser(String),
    /// The logical demo content is larger than the safety limit.
    DecompressedDemoTooLarge { path: String, limit_bytes: u64 },
    /// The zstd decoder refused a compressed demo.
    ZstdDemo { path: String, detail: String },
    /// No memory could be had for the demo content read so far.
    DemoAllocation { path: String, decoded_bytes: u64, detail: String },
}

pub type Result<T> = core::result::Result<T, Error>;

impl Error {
    /// The human readable text of the error.
    pub open spec fn spec_message(&self) -> Seq<char> {
        match self {
            Error::InvalidRec(m) => "invalid .dtr: "@ + m@,
            Error::InvalidDemo(m) => "invalid demo data: "@ + m@,
            Error::Parser(m) => "demoparser error: "@ + m@,
            Error::DecompressedDemoTooLarge { path, limit_bytes } => "logical demo content exceeds the safety limit of "@
                + decimal(*limit_bytes as nat) + " bytes: "@ + path@,
            Error::ZstdDemo { path, detail } => "failed to decompress zstd demo "@ + path@ + ": "@ + detail@,
            Error::DemoAllocation { path, decoded_bytes, detail } => "cannot allocate memory while loading demo "@
                + path@ + " after "@ + decimal(*decoded_bytes as nat) + " decoded bytes: "@ + detail@,
        }
    }

    /// The human readable text of the error.
    pub fn message(&self) -> (r: String)
        ensures
            r@ == self.spec_message(),
    {
        match self {
            Error::InvalidRec(m) => concat_str(string_of("invalid .dtr: "), m.as_str()),
            Error::InvalidDemo(m) => concat_str(string_of("invalid demo data: "), m.as_str()),
            Error::Parser(m) => concat_str(string_of("demoparser error: "), m.as_str()),
            Error::DecompressedDemoTooLarge { path, limit_bytes } => {
                let head = string_of("logical demo content exceeds the safety limit of ");
                let digits = u64_decimal(*limit_bytes);
                let with_limit = concat_str(head, digits.as_str());
                let with_unit = concat_str(with_limit, " bytes: ");
                concat_str(with_unit, path.as_str())
            },
            Error::ZstdDemo { path, detail } => {
                let head = concat_str(string_of("failed to decompress zstd demo "), path.as_str());
                let sep = concat_str(head, ": ");
                concat_str(sep, detail.as_str())
            },
            Error::DemoAllocation { path, decoded_bytes, detail } => {
                let head = concat_str(string_of("cannot allocate memory while loading demo "), path.as_str());
                let after = concat_str(head, " after ");
                let digits = u64_decimal(*decoded_bytes);
                let with_count = concat_str(after, digits.as_str());
                let sep = concat_str(with_count, " decoded bytes: ");
                concat_str(sep, detail.as_str())
            },
        }
    }

    /// The detail text carried by a demo error.
    pub open spec fn demo_detail(&self) -> Seq<char> {
        match self {
            Error::InvalidDemo(m) => m@,
            _ => Seq::empty(),
        }
    }
}

/// An `InvalidDemo` error with the given detail.
pub fn invalid_demo(detail: String) -> (e: Error)
    ensures
        e is InvalidDemo,
        e.demo_detail() == detail@,
{
    Error::InvalidDemo(detail)
}

/// An `InvalidDemo` error with a fixed detail text.
pub fn invalid_demo_str(detail: &str) -> (e: Error)
    ensures
        e is InvalidDemo,
        e.demo_detail() == detail@,
{
    Error::InvalidDemo(string_of(detail))
}

} // verus!
