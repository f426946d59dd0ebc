//! The pipeline over one scan: the decisions its caller runs between
//! listing directories, reading files and talking to the store.
//!
//! A scan walks its scopes in order. For each file it skips what the store
//! already has unchanged, reads the rest, and turns what it read into a
//! record; outcomes gather in a batch that is flushed by size or by time.
//! A scope whose root does not answer suspends the scan and touches
//! nothing under it; a scope walked to the end, uncancelled, reconciles.
use vstd::prelude::*;

use crate::discover::{Candidate, Directory};
use crate::identity::{identify, identity_of, FileFacts, Identity};
use crate::problems::{from_read_error, io_kind_of};
use crate::scan_tags::{ReadError, ReadResult};
use crate::sidecar::{lyrics_for_of, opt_view, SidecarResolver, Sidecars};
use crate::sort::{sort_key, sort_key_of};
use crate::store::{lookup_of, marked, unseen, upsert_step, upserted_record_is_found, Batch, IndexedFile, LibraryAbs, StoredTrack};
use crate::tags::TagSet;
use crate::types::{
    filename_title, filename_title_of, ArtworkSource, Cursor, FileOutcome, LibraryId, Problem, ProblemKind,
    Scan, ScanId, ScanState, Scope, SortKeys, TrackId, TrackRecord,
};

verus! {

/// Tunables. Defaults are the starting points; benchmarks decide the
/// shipped values.
#[derive(Debug, Clone)]
pub struct ScanOptions {
    /// Flush a batch at this many outcomes...
    pub batch_size: usize,
    /// ...or after this many milliseconds, whichever comes first, so
    /// progress is visible and content appears within seconds.
    pub batch_interval_ms: u64,
}

impl Default for ScanOptions {
    fn default() -> (o: ScanOptions)
        ensures
            o.batch_size == 250,
            o.batch_interval_ms == 2000,
    {
        ScanOptions { batch_size: 250, batch_interval_ms: 2000 }
    }
}

/// The skip check: an indexed path with the same size and modification
/// time is done without opening the file; a missing track whose file is
/// back unchanged returns.
pub open spec fn skip_of(indexed: Option<IndexedFile>, size: u64, mtime_ms: u64) -> Option<FileOutcome> {
    match indexed {
        Some(ix) => if ix.size == size && ix.mtime_ms == mtime_ms {
            if ix.missing {
                Some(FileOutcome::Returned { track_id: ix.track_id })
            } else {
                Some(FileOutcome::Unchanged { track_id: ix.track_id })
            }
        } else {
            None
        },
        None => None,
    }
}

pub fn skip_check(indexed: Option<IndexedFile>, candidate: &Candidate) -> (r: Option<FileOutcome>)
    ensures
        r == skip_of(indexed, candidate.size, candidate.mtime_ms),
{
    match indexed {
        Some(ix) => if ix.size == candidate.size && ix.mtime_ms == candidate.mtime_ms {
            if ix.missing {
                Some(FileOutcome::Returned { track_id: ix.track_id })
            } else {
                Some(FileOutcome::Unchanged { track_id: ix.track_id })
            }
        } else {
            None
        },
        None => None,
    }
}

/// `p` is the problem a failed read of `path` gives.
pub open spec fn read_problem(p: Problem, path: Seq<char>, e: ReadError, seen_at: u64) -> bool {
    &&& p.path@ == path
    &&& p.seen_at == seen_at
    &&& match e {
        ReadError::Io(io) => p.kind == io_kind_of(io) && p.detail@ == io.message@,
        ReadError::Unsupported(d) => p.kind == ProblemKind::UnsupportedEncoding && p.detail@ == d@,
        ReadError::Unrecognized(d) => p.kind == ProblemKind::CorruptAudio && p.detail@ == d@,
        ReadError::Malformed(d) => p.kind == ProblemKind::MalformedTags && p.detail@ == d@,
    }
}

pub open spec fn first_or_empty(v: Seq<String>) -> Seq<char> {
    if v.len() > 0 {
        v[0]@
    } else {
        Seq::empty()
    }
}

pub open spec fn opt_string(s: Option<String>) -> Option<Seq<char>> {
    match s {
        Some(x) => Some(x@),
        None => None,
    }
}

/// The sort keys of a track with these tags, at `path`.
pub open spec fn sort_keys_ok(k: SortKeys, tags: TagSet, path: Seq<char>) -> bool {
    let title = match tags.title {
        Some(t) => t@,
        None => filename_title_of(path),
    };
    &&& k.title@ == sort_key_of(title, opt_string(tags.title_sort))
    &&& k.artist@ == sort_key_of(first_or_empty(tags.artists@), opt_string(tags.artist_sort))
    &&& k.album@ == sort_key_of(
        match tags.album {
            Some(a) => a@,
            None => Seq::empty(),
        },
        opt_string(tags.album_sort),
    )
    &&& k.album_artist@ == sort_key_of(first_or_empty(tags.album_artists@), opt_string(tags.album_artist_sort))
}

/// `r` is the record of a file read at `candidate` in `dir`, with the
/// sidecars `side` and the track id `id`.
pub open spec fn record_ok(
    r: TrackRecord,
    id: Option<u64>,
    dir: Directory,
    candidate: Candidate,
    read: ReadResult,
    side: Sidecars,
    scan_id: ScanId,
) -> bool {
    &&& r.id == id
    &&& r.path@ == candidate.path@
    &&& r.size == candidate.size
    &&& r.mtime_ms == candidate.mtime_ms
    &&& r.tags == read.tags
    &&& r.properties == read.properties
    &&& if read.tags.has_embedded_art {
        r.artwork == Some(ArtworkSource::Embedded)
    } else {
        match side.cover {
            Some(c) => r.artwork matches Some(ArtworkSource::Sidecar(p)) && p@ == c@,
            None => r.artwork is None,
        }
    }
    &&& opt_string(r.artist_image) == opt_view(side.artist_image)
    &&& opt_string(r.artist_biography) == opt_view(side.biography)
    &&& opt_string(r.lyrics_sidecar) == if read.tags.lyrics is None {
        lyrics_for_of(candidate.path@, dir.files@.map_values(|n: String| n@))
    } else {
        None
    }
    &&& sort_keys_ok(r.sort, read.tags, candidate.path@)
    &&& r.last_seen_scan == scan_id
}

fn clone_opt(s: &Option<String>) -> (r: Option<String>)
    ensures
        r == *s,
{
    match s {
        Some(x) => Some(x.clone()),
        None => None,
    }
}

fn opt_str(s: &Option<String>) -> (r: Option<&str>)
    ensures
        match s {
            Some(x) => r matches Some(y) && y@ == x@,
            None => r is None,
        },
{
    match s {
        Some(x) => Some(x.as_str()),
        None => None,
    }
}

fn first_str(v: &Vec<String>) -> (r: &str)
    ensures
        r@ == first_or_empty(v@),
{
    if v.len() > 0 {
        v[0].as_str()
    } else {
        proof {
            reveal_strlit("");
        }
        ""
    }
}

/// The sort keys of a track from its tags, named after its file when
/// untitled.
fn sort_keys(tags: &TagSet, path: &str) -> (k: SortKeys)
    ensures
        sort_keys_ok(k, *tags, path@),
{
    let title = match &tags.title {
        Some(t) => t.clone(),
        None => filename_title(path),
    };
    let album: &str = match &tags.album {
        Some(a) => a.as_str(),
        None => "",
    };
    proof {
        reveal_strlit("");
    }
    SortKeys {
        title: sort_key(title.as_str(), opt_str(&tags.title_sort)),
        artist: sort_key(first_str(&tags.artists), opt_str(&tags.artist_sort)),
        album: sort_key(album, opt_str(&tags.album_sort)),
        album_artist: sort_key(first_str(&tags.album_artists), opt_str(&tags.album_artist_sort)),
    }
}

/// Stages 3 to 5 for a file the skip check did not settle: a failed read is
/// a problem; otherwise identity, sidecars, lyrics and sort keys make the
/// record, added when the path is new and updated when it is known.
pub fn process_file(
    scan_id: ScanId,
    library: &LibraryId,
    root: &str,
    dir: &Directory,
    candidate: &Candidate,
    indexed: Option<IndexedFile>,
    read: Result<ReadResult, ReadError>,
    side: &Sidecars,
    seen_at: u64,
) -> (o: FileOutcome)
    requires
        skip_of(indexed, candidate.size, candidate.mtime_ms) is None,
    ensures
        match read {
            Err(e) => o matches FileOutcome::Problem(p) && read_problem(p, candidate.path@, e, seen_at),
            Ok(rr) => match indexed {
                None => o matches FileOutcome::Added(r) && record_ok(*r, None, *dir, *candidate, rr, *side, scan_id),
                Some(ix) => o matches FileOutcome::Updated(r) && record_ok(
                    *r,
                    Some(ix.track_id),
                    *dir,
                    *candidate,
                    rr,
                    *side,
                    scan_id,
                ),
            },
        },
{
    let read = match read {
        Ok(r) => r,
        Err(e) => return FileOutcome::Problem(from_read_error(candidate.path.as_str(), &e, seen_at)),
    };
    let identity = {
        let facts = FileFacts {
            root,
            path: candidate.path.as_str(),
            size: candidate.size,
            mtime_ms: candidate.mtime_ms,
            tags: &read.tags,
            properties: &read.properties,
            indexed: match &indexed {
                Some(ix) => Some(ix),
                None => None,
            },
        };
        identify(&facts, library)
    };
    let artwork = if read.tags.has_embedded_art {
        Some(ArtworkSource::Embedded)
    } else {
        match &side.cover {
            Some(c) => Some(ArtworkSource::Sidecar(c.clone())),
            None => None,
        }
    };
    let lyrics_sidecar = if read.tags.lyrics.is_none() {
        SidecarResolver::lyrics_for(candidate.path.as_str(), &dir.files)
    } else {
        None
    };
    let sort = sort_keys(&read.tags, candidate.path.as_str());
    let id = match identity {
        Identity::New => None,
        Identity::Updated { track_id } => Some(track_id),
        Identity::Moved { track_id, .. } => Some(track_id),
    };
    let record = TrackRecord {
        id,
        path: candidate.path.clone(),
        size: candidate.size,
        mtime_ms: candidate.mtime_ms,
        tags: read.tags,
        properties: read.properties,
        artwork,
        artist_image: clone_opt(&side.artist_image),
        artist_biography: clone_opt(&side.biography),
        lyrics_sidecar,
        sort,
        last_seen_scan: scan_id,
    };
    match identity {
        Identity::New => FileOutcome::Added(Box::new(record)),
        _ => FileOutcome::Updated(Box::new(record)),
    }
}

/// The progress counters one outcome can raise are below their limit.
pub open spec fn counters_below_max(scan: Scan) -> bool {
    &&& scan.progress.files_seen < u64::MAX
    &&& scan.progress.files_processed < u64::MAX
    &&& scan.progress.added < u64::MAX
    &&& scan.progress.updated < u64::MAX
    &&& scan.progress.problems < u64::MAX
}

/// Count one file's outcome and put it in the batch: unchanged tracks are
/// touched, returned ones come back, records are upserted, problems
/// recorded; every file that read cleanly clears the problems of its path.
pub fn tally(scan: &mut Scan, batch: &mut Batch, path: &str, outcome: FileOutcome)
    requires
        counters_below_max(*old(scan)),
    ensures
        final(scan).progress.files_seen == old(scan).progress.files_seen + 1,
        final(scan).progress.files_processed == old(scan).progress.files_processed + match outcome {
            FileOutcome::Unchanged { .. } | FileOutcome::Returned { .. } => 0int,
            _ => 1int,
        },
        final(scan).progress.added == old(scan).progress.added + if outcome is Added { 1int } else { 0int },
        final(scan).progress.updated == old(scan).progress.updated + if outcome is Updated { 1int } else { 0int },
        final(scan).progress.problems == old(scan).progress.problems + if outcome is Problem { 1int } else { 0int },
        final(scan).progress.moved == old(scan).progress.moved,
        final(scan).progress.missing == old(scan).progress.missing,
        final(scan).progress.current_path == old(scan).progress.current_path,
        final(scan).id == old(scan).id,
        final(scan).library == old(scan).library,
        final(scan).trigger == old(scan).trigger,
        final(scan).scopes == old(scan).scopes,
        final(scan).state == old(scan).state,
        final(scan).started_at == old(scan).started_at,
        final(scan).finished_at == old(scan).finished_at,
        final(scan).cursor == old(scan).cursor,
        final(batch).scan_id == old(batch).scan_id,
        final(batch).touched@ == match outcome {
            FileOutcome::Unchanged { track_id } => old(batch).touched@.push(track_id),
            _ => old(batch).touched@,
        },
        final(batch).returned@ == match outcome {
            FileOutcome::Returned { track_id } => old(batch).returned@.push(track_id),
            _ => old(batch).returned@,
        },
        final(batch).upserts@ == match outcome {
            FileOutcome::Added(r) | FileOutcome::Updated(r) => old(batch).upserts@.push(*r),
            _ => old(batch).upserts@,
        },
        final(batch).problems@ == match outcome {
            FileOutcome::Problem(p) => old(batch).problems@.push(p),
            _ => old(batch).problems@,
        },
        final(batch).cleared@.map_values(|c: String| c@) == match outcome {
            FileOutcome::Unchanged { .. } | FileOutcome::Problem(_) => old(batch).cleared@.map_values(|c: String| c@),
            _ => old(batch).cleared@.map_values(|c: String| c@).push(path@),
        },
{
    scan.progress.files_seen = scan.progress.files_seen + 1;
    let ghost cleared = batch.cleared@;
    match outcome {
        FileOutcome::Unchanged { track_id } => batch.touched.push(track_id),
        FileOutcome::Returned { track_id } => {
            batch.returned.push(track_id);
            batch.cleared.push(crate::text::owned(path));
        },
        FileOutcome::Added(record) => {
            scan.progress.files_processed = scan.progress.files_processed + 1;
            scan.progress.added = scan.progress.added + 1;
            batch.cleared.push(crate::text::owned(path));
            batch.upserts.push(*record);
        },
        FileOutcome::Updated(record) => {
            scan.progress.files_processed = scan.progress.files_processed + 1;
            scan.progress.updated = scan.progress.updated + 1;
            batch.cleared.push(crate::text::owned(path));
            batch.upserts.push(*record);
        },
        FileOutcome::Problem(problem) => {
            scan.progress.files_processed = scan.progress.files_processed + 1;
            scan.progress.problems = scan.progress.problems + 1;
            batch.problems.push(problem);
        },
    }
    proof {
        assert(batch.cleared@.map_values(|c: String| c@) =~= match outcome {
            FileOutcome::Unchanged { .. } | FileOutcome::Problem(_) => cleared.map_values(|c: String| c@),
            _ => cleared.map_values(|c: String| c@).push(path@),
        });
    }
}

/// A directory the walk could not list: its problem goes in the batch.
pub fn record_walk_error(scan: &mut Scan, batch: &mut Batch, problem: Problem)
    requires
        old(scan).progress.problems < u64::MAX,
    ensures
        *final(scan) == (Scan {
            progress: crate::types::ScanProgress { problems: (old(scan).progress.problems + 1) as u64, ..old(scan).progress },
            ..*old(scan)
        }),
        *final(batch) == (Batch { problems: final(batch).problems, ..*old(batch) }),
        final(batch).problems@ == old(batch).problems@.push(problem),
{
    batch.problems.push(problem);
    scan.progress.problems = scan.progress.problems + 1;
}

/// Start (or resume) running: the start time is kept from the first run.
pub fn begin_scan(scan: &mut Scan, now_ms: u64)
    ensures
        *final(scan) == (Scan {
            state: ScanState::Running,
            started_at: if old(scan).started_at is Some { old(scan).started_at } else { Some(now_ms) },
            ..*old(scan)
        }),
{
    scan.state = ScanState::Running;
    if scan.started_at.is_none() {
        scan.started_at = Some(now_ms);
    }
}

/// The scope a scan starts at: the cursor's, or the first.
pub fn first_scope(scan: &Scan) -> (i: usize)
    ensures
        i == match scan.cursor {
            Some(c) => c.scope_index,
            None => 0,
        },
{
    match &scan.cursor {
        Some(c) => c.scope_index,
        None => 0,
    }
}

/// Where the walk of scope `scope_index` resumes: after the cursor's
/// directory when the cursor is in that scope.
pub fn resume_point(scan: &Scan, scope_index: usize) -> (r: Option<String>)
    ensures
        opt_string(r) == match scan.cursor {
            Some(c) => if c.scope_index == scope_index {
                opt_string(c.after_directory)
            } else {
                None
            },
            None => None,
        },
{
    match &scan.cursor {
        Some(c) => if c.scope_index == scope_index {
            clone_opt(&c.after_directory)
        } else {
            None
        },
        None => None,
    }
}

/// A directory of scope `scope_index` is done: the cursor moves past it and
/// progress shows it.
pub fn directory_done(scan: &mut Scan, scope_index: usize, dir: &str)
    ensures
        final(scan).cursor matches Some(c) && c.scope_index == scope_index && opt_string(c.after_directory)
            == Some(dir@),
        opt_string(final(scan).progress.current_path) == Some(dir@),
        final(scan).progress == (crate::types::ScanProgress {
            current_path: final(scan).progress.current_path,
            ..old(scan).progress
        }),
        *final(scan) == (Scan { cursor: final(scan).cursor, progress: final(scan).progress, ..*old(scan) }),
{
    scan.cursor = Some(Cursor { scope_index, after_directory: Some(crate::text::owned(dir)) });
    scan.progress.current_path = Some(crate::text::owned(dir));
}

/// Whether the batch is due: it holds `batch_size` outcomes, or the last
/// flush was `batch_interval_ms` ago.
pub fn flush_due(batch: &Batch, since_flush_ms: u64, options: &ScanOptions) -> (r: bool)
    requires
        batch.size() <= usize::MAX,
    ensures
        r == (batch.size() >= options.batch_size || since_flush_ms >= options.batch_interval_ms),
{
    batch.len() >= options.batch_size || since_flush_ms >= options.batch_interval_ms
}

/// What a flush hands the store: the batch, when it holds anything, with a
/// fresh one left in its place.
pub fn take_batch(batch: &mut Batch) -> (r: Option<Batch>)
    requires
        old(batch).size() <= usize::MAX,
    ensures
        old(batch).size() == 0 ==> r is None && *final(batch) == *old(batch),
        old(batch).size() > 0 ==> r == Some(*old(batch)) && final(batch).is_new(old(batch).scan_id),
{
    if batch.is_empty() {
        return None;
    }
    let mut taken = Batch::new(batch.scan_id);
    std::mem::swap(batch, &mut taken);
    Some(taken)
}

/// A scope walked to its end: count what reconcile marked missing and move
/// the cursor to the next scope.
pub fn scope_done(scan: &mut Scan, scope_index: usize, missing: u64)
    requires
        old(scan).progress.missing + missing <= u64::MAX,
        scope_index < usize::MAX,
    ensures
        final(scan).progress == (crate::types::ScanProgress {
            missing: (old(scan).progress.missing + missing) as u64,
            ..old(scan).progress
        }),
        final(scan).cursor matches Some(c) && c.scope_index == scope_index + 1 && c.after_directory is None,
        *final(scan) == (Scan { cursor: final(scan).cursor, progress: final(scan).progress, ..*old(scan) }),
{
    scan.progress.missing = scan.progress.missing + missing;
    scan.cursor = Some(Cursor { scope_index: scope_index + 1, after_directory: None });
}

/// How a scan ends: cancelled, else suspended if a root did not answer,
/// else completed.
pub open spec fn final_state_of(cancelled: bool, suspended: bool) -> ScanState {
    if cancelled {
        ScanState::Cancelled
    } else if suspended {
        ScanState::Suspended
    } else {
        ScanState::Completed
    }
}

/// Leave the scan in its final state.
pub fn finish_scan(scan: &mut Scan, cancelled: bool, suspended: bool, now_ms: u64)
    ensures
        *final(scan) == (Scan {
            state: final_state_of(cancelled, suspended),
            finished_at: Some(now_ms),
            progress: crate::types::ScanProgress { current_path: None, ..old(scan).progress },
            ..*old(scan)
        }),
{
    scan.state = if cancelled {
        ScanState::Cancelled
    } else if suspended {
        ScanState::Suspended
    } else {
        ScanState::Completed
    };
    scan.finished_at = Some(now_ms);
    scan.progress.current_path = None;
}

/// An incremental rescan leaves alone what was indexed: once a record is
/// written, its file at the same size and modification time is settled as
/// unchanged without being read.
pub proof fn indexed_file_is_skipped_unchanged(a: LibraryAbs, next: u64, scan_id: ScanId, rec: TrackRecord)
    ensures
        skip_of(lookup_of(upsert_step(a, next, scan_id, rec).0, rec.path@), rec.size, rec.mtime_ms) == Some(
            FileOutcome::Unchanged {
                track_id: match rec.id {
                    Some(i) => i,
                    None => (next + 1) as u64,
                },
            },
        ),
{
    upserted_record_is_found(a, next, scan_id, rec);
}

/// A track reconcile marked missing returns, as the same track, when its
/// file is found again at the same size and modification time.
pub proof fn missing_track_returns_when_back(e: (TrackId, StoredTrack), scope: Scope, scan_id: ScanId)
    requires
        unseen(e, scope, scan_id),
    ensures
        marked(e, scope, scan_id).1.missing,
        skip_of(
            Some(IndexedFile {
                track_id: e.0,
                size: e.1.record.size,
                mtime_ms: e.1.record.mtime_ms,
                missing: marked(e, scope, scan_id).1.missing,
            }),
            e.1.record.size,
            e.1.record.mtime_ms,
        ) == Some(FileOutcome::Returned { track_id: e.0 }),
{
}

/// The skip check settles a file without reading it only when the index
/// holds its path at the very size and modification time the walk found:
/// any other size or modification time, or an unindexed path, sends the
/// file to be read. A settled file keeps its track: present, it is
/// unchanged; marked missing, it returns.
pub proof fn only_untouched_files_are_skipped(indexed: Option<IndexedFile>, size: u64, mtime_ms: u64)
    ensures
        skip_of(indexed, size, mtime_ms) is Some ==> (indexed matches Some(ix) && ix.size == size
            && ix.mtime_ms == mtime_ms),
        (indexed is None || indexed.unwrap().size != size || indexed.unwrap().mtime_ms != mtime_ms) ==> skip_of(
            indexed,
            size,
            mtime_ms,
        ) is None,
        indexed is Some && indexed.unwrap().size == size && indexed.unwrap().mtime_ms == mtime_ms
            && !indexed.unwrap().missing ==> skip_of(indexed, size, mtime_ms) == Some(
            FileOutcome::Unchanged { track_id: indexed.unwrap().track_id },
        ),
        indexed is Some && indexed.unwrap().size == size && indexed.unwrap().mtime_ms == mtime_ms
            && indexed.unwrap().missing ==> skip_of(indexed, size, mtime_ms) == Some(
            FileOutcome::Returned { track_id: indexed.unwrap().track_id },
        ),
{
}

} // verus!
