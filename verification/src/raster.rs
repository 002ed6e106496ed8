//! Raster (PNG/JPEG) output: image formats, per-stage timings, errors, and
//! the checks made before an image is encoded.
use crate::text::{chars_of, string_of};
use std::time::Duration;
use vstd::prelude::*;

verus! {

/// A raster image format.
#[derive(Debug, Clone, Copy, PartialEq, Eq, Structural)]
pub enum SkiaImageFormat {
    Png,
    Jpeg { quality: u8 },
}

/// The quality handed to the encoder: 100 for PNG, and the JPEG quality
/// capped at 100.
pub open spec fn spec_encode_quality(format: SkiaImageFormat) -> u32 {
    match format {
        SkiaImageFormat::Png => 100,
        SkiaImageFormat::Jpeg { quality } => if quality <= 100 {
            quality as u32
        } else {
            100
        },
    }
}

/// The quality handed to the encoder for a format (see `spec_encode_quality`).
pub fn encode_quality(format: SkiaImageFormat) -> (r: u32)
    ensures
        r == spec_encode_quality(format),
{
    match format {
        SkiaImageFormat::Png => 100,
        SkiaImageFormat::Jpeg { quality } => if quality <= 100 {
            quality as u32
        } else {
            100
        },
    }
}

/// Time spent in each stage of a raster render.
#[derive(Debug, Clone, Copy, Default)]
pub struct SkiaRenderStats {
    pub layout: Duration,
    pub setup: Duration,
    pub draw: Duration,
    pub encode: Duration,
    pub copy: Duration,
    pub total: Duration,
}

/// An encoded image and the time its stages took.
#[derive(Debug)]
pub struct SkiaImageOutput {
    pub bytes: Vec<u8>,
    pub stats: SkiaRenderStats,
}

/// Why a raster render failed. Paths and the underlying I/O errors are held
/// as their text.
#[derive(Debug, Clone)]
pub enum SkiaDirectError {
    InvalidSize,
    Surface,
    RenderWorker,
    Io { path: String, source: String },
    Font { path: String, source: String },
    Decode(String),
    Encode,
}

/// The message of an error.
pub open spec fn error_message(e: SkiaDirectError) -> Seq<char> {
    match e {
        SkiaDirectError::InvalidSize => "chart has an invalid raster size"@,
        SkiaDirectError::Surface => "failed to create Skia raster surface"@,
        SkiaDirectError::RenderWorker => "Skia segment render worker panicked"@,
        SkiaDirectError::Io { path, source } => "failed to read image asset "@ + path@ + ": "@
            + source@,
        SkiaDirectError::Font { path, source } => "failed to read font "@ + path@ + ": "@ + source@,
        SkiaDirectError::Decode(path) => "failed to decode image asset "@ + path@,
        SkiaDirectError::Encode => "failed to encode raster output"@,
    }
}

/// `prefix`, `path`, a colon and `source`, as one text.
fn joined_message(prefix: &str, path: &String, source: &String) -> (r: String)
    ensures
        r@ == prefix@ + path@ + ": "@ + source@,
{
    let mut v = chars_of(prefix);
    let p = chars_of(path.as_str());
    let sep = chars_of(": ");
    let s = chars_of(source.as_str());
    v.extend_from_slice(p.as_slice());
    v.extend_from_slice(sep.as_slice());
    v.extend_from_slice(s.as_slice());
    string_of(v.as_slice())
}

impl SkiaDirectError {
    /// The message of the error (see `error_message`).
    pub fn message(&self) -> (r: String)
        ensures
            r@ == error_message(*self),
    {
        match self {
            SkiaDirectError::InvalidSize => String::from_str("chart has an invalid raster size"),
            SkiaDirectError::Surface => String::from_str("failed to create Skia raster surface"),
            SkiaDirectError::RenderWorker => String::from_str(
                "Skia segment render worker panicked",
            ),
            SkiaDirectError::Io { path, source } => joined_message(
                "failed to read image asset ",
                path,
                source,
            ),
            SkiaDirectError::Font { path, source } => joined_message(
                "failed to read font ",
                path,
                source,
            ),
            SkiaDirectError::Decode(path) => {
                let mut v = chars_of("failed to decode image asset ");
                let p = chars_of(path.as_str());
                v.extend_from_slice(p.as_slice());
                string_of(v.as_slice())
            },
            SkiaDirectError::Encode => String::from_str("failed to encode raster output"),
        }
    }
}

/// The size of the raster surface, refused unless both sides are positive.
pub fn check_raster_size(width: i32, height: i32) -> (r: Result<(i32, i32), SkiaDirectError>)
    ensures
        r is Ok <==> width > 0 && height > 0,
        r matches Ok(size) ==> size == (width, height),
        r matches Err(e) ==> e == SkiaDirectError::InvalidSize,
{
    if width <= 0 || height <= 0 {
        Err(SkiaDirectError::InvalidSize)
    } else {
        Ok((width, height))
    }
}

} // verus!
