//! Technical audio properties, as read from a file's headers.
use vstd::prelude::*;

use crate::format::Format;

verus! {

/// What a track's audio actually is. Every field comes from the file's
/// headers; nothing here is inferred.
#[derive(Debug, Clone, PartialEq, Eq)]
pub struct AudioProperties {
    pub format: Format,
    /// Duration in milliseconds.
    pub duration_ms: u64,
    pub sample_rate: Option<u32>,
    pub bit_depth: Option<u8>,
    pub channels: Option<u8>,
    /// Audio bitrate in kbit/s where the container reports one.
    pub bitrate_kbps: Option<u32>,
    pub file_size: u64,
}

} // verus!
