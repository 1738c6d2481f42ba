//! Errors of the decoder.
use crate::iostream::InputError;
use vstd::prelude::*;

verus! {

pub type JpegResult<T> = Result<T, JpegError>;

/// A feature of JPEG that the decoder recognises and does not decode.
#[derive(Debug, Clone, Copy, PartialEq, Eq, Structural)]
pub enum UnsupportedFeature {
    /// Hierarchical or differential coding, or more than one frame.
    Hierarchical,
    /// Lossless coding.
    Lossless,
    /// Arithmetic entropy coding.
    ArithmeticEntropyCoding,
    /// A sample precision other than 8 bits.
    SamplePrecision(u8),
    /// A number of components other than 1, 3 or 4.
    ComponentCount(u8),
    /// A frame whose height a DNL segment is to define.
    DNL,
}

/// Why a stream could not be decoded.
#[derive(Debug, Clone, PartialEq, Eq)]
pub enum JpegError {
    /// The stream breaks the structure of a JPEG file; the text says how.
    Malformatted(String),
    /// The stream uses a feature that is not decoded.
    Unsupported(UnsupportedFeature),
    /// The stream ended where more bytes were due.
    EOF,
}

impl JpegError {
    /// Whether the error is `Malformatted` with exactly this text.
    pub open spec fn is_malformatted(&self, text: Seq<char>) -> bool {
        self matches JpegError::Malformatted(message) && message@ == text
    }

    /// Whether the error is `Unsupported` with this feature.
    pub open spec fn is_unsupported(&self, feature: UnsupportedFeature) -> bool {
        self matches JpegError::Unsupported(found) && found == feature
    }

    /// A `Malformatted` error with the given text.
    pub fn malformatted(text: &str) -> (error: JpegError)
        ensures
            error.is_malformatted(text@),
    {
        JpegError::Malformatted(text.to_owned())
    }

    /// The error that a failed read of the stream becomes: whatever stopped
    /// the read, the decoder has run out of bytes.
    pub fn from_input(error: InputError) -> (e: JpegError)
        ensures
            e is EOF,
    {
        JpegError::EOF
    }

    /// The text of the error: for an error of the structure its own text;
    /// else the name of the kind of error.
    pub open spec fn text(&self) -> Seq<char> {
        match self {
            JpegError::Malformatted(message) => message@,
            JpegError::Unsupported(feature) => match feature {
                UnsupportedFeature::Hierarchical => "unsupported: hierarchical"@,
                UnsupportedFeature::Lossless => "unsupported: lossless"@,
                UnsupportedFeature::ArithmeticEntropyCoding => {
                    "unsupported: arithmetic entropy coding"@
                },
                UnsupportedFeature::SamplePrecision(_) => "unsupported: sample precision"@,
                UnsupportedFeature::ComponentCount(_) => "unsupported: component count"@,
                UnsupportedFeature::DNL => "unsupported: DNL"@,
            },
            JpegError::EOF => "unexpected end of stream"@,
        }
    }

    /// The text of the error.
    pub fn message(&self) -> (text: String)
        ensures
            text@ == self.text(),
    {
        match self {
            JpegError::Malformatted(message) => message.clone(),
            JpegError::Unsupported(feature) => match feature {
                UnsupportedFeature::Hierarchical => "unsupported: hierarchical".to_owned(),
                UnsupportedFeature::Lossless => "unsupported: lossless".to_owned(),
                UnsupportedFeature::ArithmeticEntropyCoding => {
                    "unsupported: arithmetic entropy coding".to_owned()
                },
                UnsupportedFeature::SamplePrecision(_) => "unsupported: sample precision".to_owned(),
                UnsupportedFeature::ComponentCount(_) => "unsupported: component count".to_owned(),
                UnsupportedFeature::DNL => "unsupported: DNL".to_owned(),
            },
            JpegError::EOF => "unexpected end of stream".to_owned(),
        }
    }
}

} // verus!
