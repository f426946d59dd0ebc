//! Domain types shared across the scanner and the store. Paths are text;
//! times are milliseconds since the Unix epoch.
use vstd::prelude::*;

use crate::audio::AudioProperties;
use crate::paths::{components, file_name, file_name_of, is_parent, parent_is, path_starts_with, paths_equal, same_path, starts_with_path, stem, stem_of_name};
use crate::tags::TagSet;
use crate::text::{chars_of, owned, string_from_chars};

verus! {

pub type LibraryId = String;

pub type TrackId = u64;

pub type ScanId = u64;

/// What the scanner needs to know about a library.
#[derive(Debug, Clone, PartialEq, Eq)]
pub struct LibraryConfig {
    pub id: LibraryId,
    pub roots: Vec<String>,
    /// Glob patterns matched against paths relative to their root. A
    /// matching directory is not descended; a matching file is not indexed.
    pub excludes: Vec<String>,
}

/// Why a scan started.
#[derive(Debug, Clone, Copy, PartialEq, Eq, Structural)]
pub enum Trigger {
    Initial,
    Watch,
    Scheduled,
    Manual,
    Reconfigure,
    Restore,
}

#[derive(Debug, Clone, Copy, PartialEq, Eq, Structural)]
pub enum ScanState {
    Queued,
    Running,
    Completed,
    Cancelled,
    /// A root did not answer; the index under it was left untouched.
    Suspended,
}

/// How deep a scope reaches.
#[derive(Debug, Clone, Copy, PartialEq, Eq, Hash, Structural)]
pub enum Depth {
    /// Only the files directly in the directory.
    Directory,
    /// The directory and everything below it.
    Subtree,
}

/// A unit of scanning work: a root, or a folder inside one.
#[derive(Debug, Clone, PartialEq, Eq, Hash)]
pub struct Scope {
    pub root: String,
    /// Absolute path, equal to or under `root`.
    pub path: String,
    pub depth: Depth,
}

/// Whether every file scope `b` visits is also visited by scope `a`.
pub open spec fn covers_spec(a: Scope, b: Scope) -> bool {
    &&& same_path(a.root@, b.root@)
    &&& match a.depth {
        Depth::Subtree => path_starts_with(b.path@, a.path@),
        Depth::Directory => b.depth == Depth::Directory && same_path(b.path@, a.path@),
    }
}

/// Whether scope `s` visits the file at `path`.
pub open spec fn contains_file_spec(s: Scope, path: Seq<char>) -> bool {
    match s.depth {
        Depth::Subtree => path_starts_with(path, s.path@),
        Depth::Directory => is_parent(s.path@, path),
    }
}

impl Scope {
    /// A whole root.
    pub fn root(root: &str) -> (s: Scope)
        ensures
            s.root@ == root@,
            s.path@ == root@,
            s.depth == Depth::Subtree,
    {
        Scope { root: owned(root), path: owned(root), depth: Depth::Subtree }
    }

    /// A folder inside a root.
    pub fn folder(root: &str, path: &str, depth: Depth) -> (s: Scope)
        ensures
            s.root@ == root@,
            s.path@ == path@,
            s.depth == depth,
    {
        Scope { root: owned(root), path: owned(path), depth }
    }

    /// Whether every file `other` would visit is also visited by `self`.
    pub fn covers(&self, other: &Scope) -> (r: bool)
        ensures
            r == covers_spec(*self, *other),
    {
        if !paths_equal(self.root.as_str(), other.root.as_str()) {
            return false;
        }
        match self.depth {
            Depth::Subtree => starts_with_path(other.path.as_str(), self.path.as_str()),
            Depth::Directory => other.depth == Depth::Directory && paths_equal(
                other.path.as_str(),
                self.path.as_str(),
            ),
        }
    }

    /// Whether `path` is a file this scope visits.
    pub fn contains_file(&self, path: &str) -> (r: bool)
        ensures
            r == contains_file_spec(*self, path@),
    {
        match self.depth {
            Depth::Subtree => starts_with_path(path, self.path.as_str()),
            Depth::Directory => parent_is(self.path.as_str(), path),
        }
    }
}

/// What covering means: a scope that covers another has the same root and
/// visits every file the other visits.
pub proof fn covering_scope_visits_every_file(a: Scope, b: Scope, p: Seq<char>)
    requires
        covers_spec(a, b),
        contains_file_spec(b, p),
    ensures
        same_path(a.root@, b.root@),
        contains_file_spec(a, p),
{
    let ca = components(a.path@);
    let cb = components(b.path@);
    let cp = components(p);
    match a.depth {
        Depth::Subtree => {
            match b.depth {
                Depth::Subtree => {
                    assert(cp.take(ca.len() as int) =~= cp.take(cb.len() as int).take(ca.len() as int));
                },
                Depth::Directory => {
                    assert(cp.drop_last() == cb);
                    assert(cp.take(cb.len() as int) =~= cp.drop_last());
                    assert(cp.take(ca.len() as int) =~= cb.take(ca.len() as int));
                },
            }
        },
        Depth::Directory => {},
    }
}

/// Milliseconds since the Unix epoch from the time since the epoch in
/// milliseconds, `None` for a clock before the epoch: cut to 64 bits, and
/// zero for a time before the epoch.
pub fn system_time_ms(millis_since_epoch: Option<u128>) -> (ms: u64)
    ensures
        ms == match millis_since_epoch {
            Some(m) => m as u64,
            None => 0u64,
        },
{
    match millis_since_epoch {
        Some(m) => m as u64,
        None => 0,
    }
}

/// A scope covers itself.
pub proof fn covers_is_reflexive(a: Scope)
    ensures
        covers_spec(a, a),
{
    assert(components(a.path@).take(components(a.path@).len() as int) =~= components(a.path@));
}

/// Covering is transitive: if `a` covers `b` and `b` covers `c`, `a`
/// covers `c`.
pub proof fn covers_is_transitive(a: Scope, b: Scope, c: Scope)
    requires
        covers_spec(a, b),
        covers_spec(b, c),
    ensures
        covers_spec(a, c),
{
    let ca = components(a.path@);
    let cb = components(b.path@);
    let cc = components(c.path@);
    match a.depth {
        Depth::Subtree => {
            match b.depth {
                Depth::Subtree => {
                    assert(cc.take(ca.len() as int) =~= cb.take(ca.len() as int));
                },
                Depth::Directory => {
                    assert(cc =~= cb);
                },
            }
        },
        Depth::Directory => {},
    }
}

/// Mirrors the API's scan progress.
#[derive(Debug, Clone, Default, PartialEq, Eq)]
pub struct ScanProgress {
    pub files_seen: u64,
    pub files_processed: u64,
    pub added: u64,
    pub updated: u64,
    pub moved: u64,
    pub missing: u64,
    pub problems: u64,
    pub current_path: Option<String>,
}

/// Where a resumed scan continues: the scope being worked and the last
/// directory fully persisted within it.
#[derive(Debug, Clone, PartialEq, Eq)]
pub struct Cursor {
    pub scope_index: usize,
    pub after_directory: Option<String>,
}

/// A scan: one or more scopes run under one trigger.
#[derive(Debug, Clone, PartialEq, Eq)]
pub struct Scan {
    pub id: ScanId,
    pub library: LibraryId,
    pub trigger: Trigger,
    pub scopes: Vec<Scope>,
    pub state: ScanState,
    /// Milliseconds since the Unix epoch.
    pub started_at: Option<u64>,
    pub finished_at: Option<u64>,
    pub progress: ScanProgress,
    pub cursor: Option<Cursor>,
}

/// Whether some scope of `mine` covers `o`.
pub open spec fn covered_by(mine: Seq<Scope>, o: Scope) -> bool {
    exists|j: int| 0 <= j < mine.len() && #[trigger] covers_spec(mine[j], o)
}

/// Whether every scope of `other` is covered by some scope of `mine`.
pub open spec fn scopes_cover(mine: Seq<Scope>, other: Seq<Scope>) -> bool {
    forall|i: int| 0 <= i < other.len() ==> covered_by(mine, #[trigger] other[i])
}

/// Whether some scope of `mine` covers `o`.
pub fn any_covers(mine: &Vec<Scope>, o: &Scope) -> (r: bool)
    ensures
        r == covered_by(mine@, *o),
{
    let mut j: usize = 0;
    while j < mine.len()
        invariant
            j <= mine.len(),
            forall|k: int| 0 <= k < j ==> !covers_spec(#[trigger] mine@[k], *o),
        decreases mine.len() - j,
    {
        if mine[j].covers(o) {
            return true;
        }
        j = j + 1;
    }
    false
}

impl Scan {
    /// Whether `other`'s work is entirely within this scan's.
    pub fn covers(&self, other: &[Scope]) -> (r: bool)
        ensures
            r == scopes_cover(self.scopes@, other@),
    {
        let mut i: usize = 0;
        while i < other.len()
            invariant
                i <= other.len(),
                forall|k: int| 0 <= k < i ==> covered_by(self.scopes@, #[trigger] other@[k]),
            decreases other.len() - i,
        {
            if !any_covers(&self.scopes, &other[i]) {
                return false;
            }
            i = i + 1;
        }
        true
    }
}

/// Where a track's artwork was found.
#[derive(Debug, Clone, PartialEq, Eq)]
pub enum ArtworkSource {
    Embedded,
    Sidecar(String),
}

/// Sort keys computed at scan time.
#[derive(Debug, Clone, Default, PartialEq, Eq)]
pub struct SortKeys {
    pub title: String,
    pub artist: String,
    pub album: String,
    pub album_artist: String,
}

/// Everything the scanner knows about one file, ready to persist.
#[derive(Debug, Clone, PartialEq, Eq)]
pub struct TrackRecord {
    /// `Some` when updating an existing track, `None` for a new one.
    pub id: Option<TrackId>,
    pub path: String,
    pub size: u64,
    pub mtime_ms: u64,
    pub tags: TagSet,
    pub properties: AudioProperties,
    pub artwork: Option<ArtworkSource>,
    pub artist_image: Option<String>,
    pub artist_biography: Option<String>,
    /// Sidecar lyrics file, when there are no embedded lyrics.
    pub lyrics_sidecar: Option<String>,
    pub sort: SortKeys,
    pub last_seen_scan: ScanId,
}

/// The title a file with no title tag is shown under: its file stem, or
/// "Untitled" when the path has no file name.
pub open spec fn filename_title_of(path: Seq<char>) -> Seq<char> {
    match file_name_of(path) {
        Some(n) => stem_of_name(n),
        None => "Untitled"@,
    }
}

impl TrackRecord {
    /// The display title: the tag, or the filename stem.
    pub fn display_title(&self) -> (t: String)
        ensures
            t@ == match self.tags.title {
                Some(s) => s@,
                None => filename_title_of(self.path@),
            },
    {
        match &self.tags.title {
            Some(t) => t.clone(),
            None => filename_title(self.path.as_str()),
        }
    }
}

pub fn filename_title(path: &str) -> (t: String)
    ensures
        t@ == filename_title_of(path@),
{
    let chars = chars_of(path);
    match file_name(&chars) {
        Some(n) => {
            let s = stem(&n);
            string_from_chars(&s)
        },
        None => owned("Untitled"),
    }
}

/// Scan problem kinds.
#[derive(Debug, Clone, Copy, PartialEq, Eq, Hash, Structural)]
pub enum ProblemKind {
    Unreadable,
    PermissionDenied,
    MalformedTags,
    UnsupportedEncoding,
    CorruptAudio,
    Stalled,
}

#[derive(Debug, Clone, PartialEq, Eq)]
pub struct Problem {
    pub path: String,
    pub kind: ProblemKind,
    pub detail: String,
    /// Milliseconds since the Unix epoch.
    pub seen_at: u64,
}

/// Per-file result of the pipeline.
#[derive(Debug, Clone, PartialEq, Eq)]
pub enum FileOutcome {
    Unchanged { track_id: TrackId },
    /// A missing track whose file is back, byte-identical.
    Returned { track_id: TrackId },
    Added(Box<TrackRecord>),
    Updated(Box<TrackRecord>),
    Problem(Problem),
}

/// Peak and RMS per bin, quantized to 0..=255, over a mono downmix.
#[derive(Debug, Clone, PartialEq, Eq)]
pub struct Waveform {
    pub peaks: Vec<u8>,
    pub rms: Vec<u8>,
}

/// One track's tag-derived facts, for duplicate detection.
#[derive(Debug, Clone, PartialEq, Eq)]
pub struct DuplicateCandidate {
    pub track_id: TrackId,
    pub path: String,
    pub title: Option<String>,
    pub artists: Vec<String>,
    pub album: Option<String>,
    pub album_artists: Vec<String>,
    pub track_number: Option<u32>,
    pub disc_number: Option<u32>,
}

#[derive(Debug, Clone, Copy, PartialEq, Eq, Structural)]
pub enum DuplicateReason {
    MatchingTags,
    MatchingContent,
    AlbumUnderTwoPaths,
}

#[derive(Debug, Clone, PartialEq, Eq)]
pub struct DuplicateGroup {
    pub reason: DuplicateReason,
    pub tracks: Vec<(TrackId, String)>,
}

} // verus!
