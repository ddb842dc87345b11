//! Plain-value types for the video decoding front end.
//!
//! The decoding itself runs through a native codec library and stays outside
//! this crate; these are the values that cross its boundary.

use vstd::prelude::*;
use vstd::string::StringExecFns;

verus! {

/// Where a video comes from: a file path or an in-memory byte buffer.
#[derive(Debug, Clone)]
pub enum VideoSource {
    File(String),
    Bytes(Vec<u8>),
}

/// What can go wrong while opening or decoding a video.
#[derive(Debug, Clone, PartialEq, Eq)]
pub enum VideoError {
    /// The codec library could not be initialized.
    InitFailed,
    /// The container holds no video stream.
    NoVideoStream,
    /// The codec library reported the carried message.
    FFmpeg(String),
    /// A frame could not be decoded into an image.
    DecodingFailed,
}

impl VideoError {
    /// The human-readable description of the error.
    pub fn message(&self) -> (r: String)
        ensures
            self is InitFailed ==> r@ == "Failed to initialize FFmpeg."@,
            self is NoVideoStream ==> r@ == "Video stream not found."@,
            self matches VideoError::FFmpeg(m) ==> r@ == "FFmpeg error: "@ + m@,
            self is DecodingFailed ==> r@ == "Failed to decode stream"@,
    {
        match self {
            VideoError::InitFailed => "Failed to initialize FFmpeg.".to_owned(),
            VideoError::NoVideoStream => "Video stream not found.".to_owned(),
            VideoError::FFmpeg(m) => "FFmpeg error: ".to_owned().concat(m.as_str()),
            VideoError::DecodingFailed => "Failed to decode stream".to_owned(),
        }
    }
}

} // verus!
