//! Track identity. Content-derived identity that survives moves and retags
//! is still open; until it is settled this stage keys on path. What is fixed
//! is the interface: everything the earlier stages learned goes in, a
//! classification comes out, and nothing else reads paths to decide
//! identity.
use vstd::prelude::*;

use crate::audio::AudioProperties;
use crate::store::IndexedFile;
use crate::tags::TagSet;
use crate::types::{LibraryId, TrackId};

verus! {

/// Everything known about a file before identity is decided.
#[derive(Debug, Clone)]
pub struct FileFacts<'a> {
    pub root: &'a str,
    pub path: &'a str,
    pub size: u64,
    pub mtime_ms: u64,
    pub tags: &'a TagSet,
    pub properties: &'a AudioProperties,
    /// What the store had for this path, if anything, from the skip check.
    pub indexed: Option<&'a IndexedFile>,
}

#[derive(Debug, Clone, PartialEq, Eq)]
pub enum Identity {
    /// Never seen before.
    New,
    /// Same track, content or tags changed.
    Updated { track_id: TrackId },
    /// A track last seen elsewhere. The path-keyed rule never produces it.
    Moved { track_id: TrackId, from: String },
}

/// The classification under the path-keyed rule: the indexed track if the
/// path is known, else a new one.
pub open spec fn identity_of(indexed: Option<IndexedFile>) -> Identity {
    match indexed {
        Some(ix) => Identity::Updated { track_id: ix.track_id },
        None => Identity::New,
    }
}

pub open spec fn facts_indexed(facts: FileFacts<'_>) -> Option<IndexedFile> {
    match facts.indexed {
        Some(ix) => Some(*ix),
        None => None,
    }
}

/// Decide what a read file is. The library is part of the interface a
/// content fingerprint will need to look up matches; the path-keyed rule
/// does not read it.
pub fn identify(facts: &FileFacts<'_>, library: &LibraryId) -> (id: Identity)
    ensures
        id == identity_of(facts_indexed(*facts)),
{
    match facts.indexed {
        Some(indexed) => Identity::Updated { track_id: indexed.track_id },
        None => Identity::New,
    }
}

} // verus!
