use jewelcase::audio::AudioProperties;
use jewelcase::catalog::{state_parse, state_str, trigger_parse, trigger_str, Entity, LibraryRow, Root};
use jewelcase::discover::{Candidate, Directory};
use jewelcase::duplicates::find_duplicates;
use jewelcase::ffmpeg::Error as FfmpegError;
use jewelcase::format::Format;
use jewelcase::identity::{identify, FileFacts, Identity};
use jewelcase::io::{IoError, IoErrorKind};
use jewelcase::problems::{from_ffmpeg, from_io, from_read_error};
use jewelcase::registry::Registry;
use jewelcase::scan::{
    begin_scan, directory_done, finish_scan, first_scope, flush_due, process_file, resume_point, scope_done,
    skip_check, take_batch, tally, ScanOptions,
};
use jewelcase::scan_tags::{ReadError, ReadResult};
use jewelcase::sidecar::Sidecars;
use jewelcase::store::{Batch, FeedEntry, IndexedFile, MemoryStore};
use jewelcase::tags::TagSet;
use jewelcase::triggers::{root_for, Debouncer};
use jewelcase::types::{
    ArtworkSource, Cursor, Depth, DuplicateCandidate, DuplicateReason, FileOutcome, Problem, ProblemKind, Scan,
    ScanProgress, ScanState, Scope, TrackRecord, Trigger,
};

fn props() -> AudioProperties {
    AudioProperties {
        format: Format::Flac,
        duration_ms: 1000,
        sample_rate: Some(44100),
        bit_depth: Some(16),
        channels: Some(2),
        bitrate_kbps: None,
        file_size: 10,
    }
}

fn record(path: &str, id: Option<u64>, size: u64) -> TrackRecord {
    TrackRecord {
        id,
        path: path.to_string(),
        size,
        mtime_ms: 5,
        tags: TagSet::default(),
        properties: props(),
        artwork: None,
        artist_image: None,
        artist_biography: None,
        lyrics_sidecar: None,
        sort: Default::default(),
        last_seen_scan: 0,
    }
}

fn scan(library: &str, scopes: Vec<Scope>) -> Scan {
    Scan {
        id: 0,
        library: library.to_string(),
        trigger: Trigger::Manual,
        scopes,
        state: ScanState::Queued,
        started_at: None,
        finished_at: None,
        progress: ScanProgress::default(),
        cursor: None,
    }
}

fn problem(path: &str) -> Problem {
    Problem { path: path.to_string(), kind: ProblemKind::CorruptAudio, detail: "bad".to_string(), seen_at: 1 }
}

#[test]
fn applied_records_are_found_at_their_paths() {
    let mut store = MemoryStore::new();
    let mut batch = Batch::new(1);
    batch.upserts.push(record("/m/a.flac", None, 10));
    batch.upserts.push(record("/m/b.flac", None, 20));
    store.apply("lib", batch);
    assert_eq!(
        store.lookup("lib", "/m/a.flac"),
        Some(IndexedFile { track_id: 1, size: 10, mtime_ms: 5, missing: false })
    );
    assert_eq!(
        store.lookup("lib", "/m//b.flac"),
        Some(IndexedFile { track_id: 2, size: 20, mtime_ms: 5, missing: false })
    );
    assert_eq!(store.lookup("lib", "/m/c.flac"), None);
    assert_eq!(store.lookup("other", "/m/a.flac"), None);
    let lib = store.library("lib").unwrap();
    assert_eq!(lib.feed(), vec![FeedEntry::Added(1), FeedEntry::Added(2)]);
    assert_eq!(lib.tracks().len(), 2);
    assert_eq!(lib.track(2).unwrap().record.last_seen_scan, 1);
}

#[test]
fn updates_keep_identity_and_moves_leave_the_old_path() {
    let mut store = MemoryStore::new();
    let mut batch = Batch::new(1);
    batch.upserts.push(record("/m/a.flac", None, 10));
    store.apply("lib", batch);
    let mut batch = Batch::new(2);
    batch.upserts.push(record("/m/moved.flac", Some(1), 11));
    store.apply("lib", batch);
    assert_eq!(store.lookup("lib", "/m/a.flac"), None);
    assert_eq!(
        store.lookup("lib", "/m/moved.flac"),
        Some(IndexedFile { track_id: 1, size: 11, mtime_ms: 5, missing: false })
    );
    let lib = store.library("lib").unwrap();
    assert_eq!(lib.feed(), vec![FeedEntry::Added(1), FeedEntry::Updated(1)]);
}

#[test]
fn reconcile_marks_only_unseen_tracks_in_scope_and_they_return() {
    let mut store = MemoryStore::new();
    let mut batch = Batch::new(1);
    batch.upserts.push(record("/m/a/1.flac", None, 1));
    batch.upserts.push(record("/m/a/2.flac", None, 1));
    batch.upserts.push(record("/m/b/3.flac", None, 1));
    store.apply("lib", batch);
    let mut seen = Batch::new(2);
    seen.touched.push(1);
    store.apply("lib", seen);
    let scope = Scope::folder("/m", "/m/a", Depth::Subtree);
    assert_eq!(store.mark_missing_unseen("lib", &scope, 2), 1);
    assert_eq!(store.lookup("lib", "/m/a/2.flac").map(|f| f.missing), Some(true));
    assert_eq!(store.lookup("lib", "/m/a/1.flac").map(|f| f.missing), Some(false));
    assert_eq!(store.lookup("lib", "/m/b/3.flac").map(|f| f.missing), Some(false));
    let mut back = Batch::new(3);
    back.returned.push(2);
    store.apply("lib", back);
    assert_eq!(store.lookup("lib", "/m/a/2.flac").map(|f| f.missing), Some(false));
    let feed = store.library("lib").unwrap().feed();
    assert_eq!(feed[3..].to_vec(), vec![FeedEntry::Missing(2), FeedEntry::Returned(2)]);
    assert_eq!(store.mark_missing_unseen("nowhere", &scope, 2), 0);
}

#[test]
fn problems_are_recorded_and_cleared_by_path() {
    let mut store = MemoryStore::new();
    let mut batch = Batch::new(1);
    batch.problems.push(problem("/m/x.flac"));
    batch.problems.push(problem("/m/y.flac"));
    store.apply("lib", batch);
    assert_eq!(store.library("lib").unwrap().problems().len(), 2);
    let mut batch = Batch::new(2);
    batch.cleared.push("/m/./x.flac".to_string());
    store.apply("lib", batch);
    let left: Vec<String> = store.library("lib").unwrap().problems().iter().map(|p| p.path.clone()).collect();
    assert_eq!(left, vec!["/m/y.flac"]);
}

#[test]
fn scans_get_fresh_ids_and_interrupted_ones_are_listed() {
    let mut store = MemoryStore::new();
    let a = store.create_scan(scan("lib", vec![Scope::root("/m")]));
    let b = store.create_scan(scan("lib", vec![Scope::root("/n")]));
    assert_eq!((a, b), (1, 2));
    let mut done = scan("lib", vec![Scope::root("/m")]);
    done.id = a;
    done.state = ScanState::Completed;
    store.update_scan(done);
    let lib = store.library("lib").unwrap();
    assert_eq!(lib.scans(false).len(), 2);
    let interrupted: Vec<u64> = lib.scans(true).iter().map(|s| s.id).collect();
    assert_eq!(interrupted, vec![2]);
}

#[test]
fn analysis_queue_skips_missing_and_current_tracks() {
    let mut store = MemoryStore::new();
    let mut batch = Batch::new(1);
    for p in ["/m/1.flac", "/m/2.flac", "/m/3.flac"] {
        batch.upserts.push(record(p, None, 1));
    }
    store.apply("lib", batch);
    store.store_analysis("lib", 1, 1);
    let lib = store.library("lib").unwrap();
    assert_eq!(lib.next_unanalyzed(1, 8), vec![(2, "/m/2.flac".to_string()), (3, "/m/3.flac".to_string())]);
    assert_eq!(lib.next_unanalyzed(1, 1), vec![(2, "/m/2.flac".to_string())]);
    assert_eq!(lib.next_unanalyzed(2, 8).len(), 3);
    assert_eq!(lib.duplicate_candidates().len(), 3);
}

fn candidate(id: u64, path: &str, title: Option<&str>, album: Option<&str>) -> DuplicateCandidate {
    DuplicateCandidate {
        track_id: id,
        path: path.to_string(),
        title: title.map(|t| t.to_string()),
        artists: vec!["Artist".to_string()],
        album: album.map(|a| a.to_string()),
        album_artists: vec!["Artist".to_string()],
        track_number: Some(1),
        disc_number: None,
    }
}

#[test]
fn duplicates_by_tags_and_by_album_spread() {
    let cs = vec![
        candidate(1, "/m/x/1.flac", Some("Song"), Some("Album")),
        candidate(2, "/m/y/1.flac", Some("SONG"), Some("album")),
        candidate(3, "/m/x/2.flac", Some("Other"), Some("Album")),
        candidate(4, "/m/z/9.flac", Some("Alone"), None),
    ];
    let groups = find_duplicates(&cs);
    assert_eq!(groups.len(), 2);
    assert_eq!(groups[0].reason, DuplicateReason::MatchingTags);
    assert_eq!(groups[0].tracks, vec![(1, "/m/x/1.flac".to_string()), (2, "/m/y/1.flac".to_string())]);
    assert_eq!(groups[1].reason, DuplicateReason::AlbumUnderTwoPaths);
    assert_eq!(
        groups[1].tracks,
        vec![(1, "/m/x/1.flac".to_string()), (3, "/m/x/2.flac".to_string()), (2, "/m/y/1.flac".to_string())]
    );
}

#[test]
fn duplicate_keys_lowercase_the_whole_text() {
    let cs = vec![
        candidate(1, "/m/x/1.flac", Some("\u{39f}\u{394}\u{39f}\u{3a3}"), None),
        candidate(2, "/m/y/1.flac", Some("\u{3bf}\u{3b4}\u{3bf}\u{3c2}"), None),
        candidate(3, "/m/z/1.flac", Some("\u{3bf}\u{3b4}\u{3bf}\u{3c3}"), None),
    ];
    let groups = find_duplicates(&cs);
    assert_eq!(groups.len(), 1);
    assert_eq!(groups[0].tracks, vec![(1, "/m/x/1.flac".to_string()), (2, "/m/y/1.flac".to_string())]);
    assert!(find_duplicates(&vec![]).is_empty());
}

#[test]
fn skip_check_settles_unchanged_and_returned_files() {
    let c = Candidate { path: "/m/a.flac".to_string(), size: 10, mtime_ms: 5 };
    let ix = IndexedFile { track_id: 7, size: 10, mtime_ms: 5, missing: false };
    assert_eq!(skip_check(Some(ix), &c), Some(FileOutcome::Unchanged { track_id: 7 }));
    let gone = IndexedFile { missing: true, ..ix };
    assert_eq!(skip_check(Some(gone), &c), Some(FileOutcome::Returned { track_id: 7 }));
    let changed = IndexedFile { size: 11, ..ix };
    assert_eq!(skip_check(Some(changed), &c), None);
    assert_eq!(skip_check(None, &c), None);
}

fn directory() -> Directory {
    Directory {
        path: "/m".to_string(),
        candidates: vec![],
        files: vec!["01 - Song.flac".to_string(), "01 - Song.lrc".to_string()],
    }
}

#[test]
fn process_file_builds_records() {
    let dir = directory();
    let c = Candidate { path: "/m/01 - Song.flac".to_string(), size: 10, mtime_ms: 5 };
    let mut tags = TagSet::default();
    tags.artists = vec!["The Band".to_string()];
    let read = ReadResult { tags, properties: props() };
    let side = Sidecars { cover: Some("/m/cover.jpg".to_string()), artist_image: None, biography: None };
    let library = "lib".to_string();
    match process_file(3, &library, "/m", &dir, &c, None, Ok(read), &side, 9) {
        FileOutcome::Added(r) => {
            assert_eq!(r.id, None);
            assert_eq!(r.last_seen_scan, 3);
            assert_eq!(r.artwork, Some(ArtworkSource::Sidecar("/m/cover.jpg".to_string())));
            assert_eq!(r.lyrics_sidecar, Some("/m/01 - Song.lrc".to_string()));
            assert_eq!(r.sort.title, "01 - song");
            assert_eq!(r.sort.artist, "band");
            assert_eq!(r.display_title(), "01 - Song");
        },
        other => panic!("expected a new track, got {other:?}"),
    }
    let ix = IndexedFile { track_id: 4, size: 1, mtime_ms: 1, missing: false };
    let read = ReadResult { tags: TagSet::default(), properties: props() };
    match process_file(3, &library, "/m", &dir, &c, Some(ix), Ok(read), &side, 9) {
        FileOutcome::Updated(r) => assert_eq!(r.id, Some(4)),
        other => panic!("expected an update, got {other:?}"),
    }
    let err = ReadError::Unrecognized("not audio".to_string());
    match process_file(3, &library, "/m", &dir, &c, None, Err(err), &side, 9) {
        FileOutcome::Problem(p) => {
            assert_eq!(p.kind, ProblemKind::CorruptAudio);
            assert_eq!(p.detail, "not audio");
            assert_eq!(p.seen_at, 9);
        },
        other => panic!("expected a problem, got {other:?}"),
    }
}

#[test]
fn identity_is_keyed_on_path_for_now() {
    let tags = TagSet::default();
    let p = props();
    let ix = IndexedFile { track_id: 4, size: 1, mtime_ms: 1, missing: false };
    let facts = FileFacts { root: "/m", path: "/m/a.flac", size: 1, mtime_ms: 1, tags: &tags, properties: &p, indexed: Some(&ix) };
    assert_eq!(identify(&facts, &"lib".to_string()), Identity::Updated { track_id: 4 });
    let facts = FileFacts { indexed: None, ..facts };
    assert_eq!(identify(&facts, &"lib".to_string()), Identity::New);
}

#[test]
fn tally_counts_and_batches_outcomes() {
    let mut s = scan("lib", vec![Scope::root("/m")]);
    let mut batch = Batch::new(1);
    tally(&mut s, &mut batch, "/m/a.flac", FileOutcome::Unchanged { track_id: 1 });
    tally(&mut s, &mut batch, "/m/b.flac", FileOutcome::Returned { track_id: 2 });
    tally(&mut s, &mut batch, "/m/c.flac", FileOutcome::Added(Box::new(record("/m/c.flac", None, 1))));
    tally(&mut s, &mut batch, "/m/d.flac", FileOutcome::Problem(problem("/m/d.flac")));
    assert_eq!(s.progress.files_seen, 4);
    assert_eq!(s.progress.files_processed, 2);
    assert_eq!((s.progress.added, s.progress.problems), (1, 1));
    assert_eq!(batch.touched, vec![1]);
    assert_eq!(batch.returned, vec![2]);
    assert_eq!(batch.cleared, vec!["/m/b.flac", "/m/c.flac"]);
    assert_eq!(batch.len(), 4);
    let options = ScanOptions::default();
    assert!(!flush_due(&batch, 100, &options));
    assert!(flush_due(&batch, 2000, &options));
    let taken = take_batch(&mut batch).unwrap();
    assert_eq!(taken.len(), 4);
    assert!(batch.is_empty());
    assert!(take_batch(&mut batch).is_none());
}

#[test]
fn a_scan_runs_resumes_and_ends() {
    let mut s = scan("lib", vec![Scope::root("/m"), Scope::root("/n")]);
    begin_scan(&mut s, 100);
    assert_eq!((s.state, s.started_at), (ScanState::Running, Some(100)));
    begin_scan(&mut s, 200);
    assert_eq!(s.started_at, Some(100));
    assert_eq!(first_scope(&s), 0);
    directory_done(&mut s, 0, "/m/a");
    assert_eq!(resume_point(&s, 0), Some("/m/a".to_string()));
    assert_eq!(resume_point(&s, 1), None);
    scope_done(&mut s, 0, 3);
    assert_eq!(s.progress.missing, 3);
    assert_eq!(s.cursor, Some(Cursor { scope_index: 1, after_directory: None }));
    assert_eq!(first_scope(&s), 1);
    finish_scan(&mut s, false, true, 300);
    assert_eq!((s.state, s.finished_at, s.progress.current_path.clone()), (ScanState::Suspended, Some(300), None));
    finish_scan(&mut s, true, true, 300);
    assert_eq!(s.state, ScanState::Cancelled);
}

#[test]
fn debouncer_groups_changes_by_directory() {
    let mut d = Debouncer::new();
    d.note("/m/a".to_string(), Depth::Directory, 0);
    d.note("/m/a/".to_string(), Depth::Subtree, 10);
    d.note("/m/b".to_string(), Depth::Directory, 500);
    assert!(d.take_ready(400, 1000).is_empty());
    let roots = vec!["/m".to_string()];
    let scopes = d.ready_scopes(1000, 1000, &roots);
    assert_eq!(scopes, vec![Scope::folder("/m", "/m/a", Depth::Subtree)]);
    d.note("/x/c".to_string(), Depth::Directory, 600);
    assert!(d.ready_scopes(2000, 1000, &roots) == vec![Scope::folder("/m", "/m/b", Depth::Directory)]);
    d.note("/m/c".to_string(), Depth::Directory, 2000);
    d.rescan_everything();
    assert!(d.take_rescan());
    assert!(!d.take_rescan());
    assert!(d.take_ready(u64::MAX, 0).is_empty());
    assert_eq!(root_for(&roots, "/m/a"), Some("/m".to_string()));
    assert_eq!(root_for(&roots, "/mm/a"), None);
}

#[test]
fn stored_names_read_back() {
    for t in [Trigger::Initial, Trigger::Watch, Trigger::Scheduled, Trigger::Manual, Trigger::Reconfigure, Trigger::Restore] {
        assert_eq!(trigger_parse(trigger_str(t)), t);
    }
    for s in [ScanState::Queued, ScanState::Running, ScanState::Completed, ScanState::Cancelled, ScanState::Suspended] {
        assert_eq!(state_parse(state_str(s)), s);
    }
    assert_eq!(trigger_parse("nonsense"), Trigger::Manual);
    assert_eq!(state_parse("nonsense"), ScanState::Completed);
    assert_eq!(Entity::Album.as_str(), "album");
}

#[test]
fn library_rows_give_scanner_configs() {
    let row = LibraryRow {
        id: -42,
        name: "Music".to_string(),
        excludes: vec!["tmp/**".to_string()],
        watch: true,
        scan_interval_minutes: None,
        roots: vec![Root { id: 1, path: "/a".to_string() }, Root { id: 2, path: "/b".to_string() }],
    };
    let c = row.config();
    assert_eq!(c.id, "-42");
    assert_eq!(c.roots, vec!["/a", "/b"]);
    assert_eq!(c.excludes, vec!["tmp/**"]);
    let row = LibraryRow { id: i64::MIN, ..row };
    assert_eq!(row.config().id, "-9223372036854775808");
}

#[test]
fn problems_from_each_failure() {
    let denied = IoError { kind: IoErrorKind::PermissionDenied, message: "no".to_string() };
    let other = IoError { kind: IoErrorKind::Other, message: "gone".to_string() };
    assert_eq!(from_io("/m/a", &denied, 1).kind, ProblemKind::PermissionDenied);
    assert_eq!(from_io("/m/a", &other, 1).kind, ProblemKind::Unreadable);
    assert_eq!(from_read_error("/m/a", &ReadError::Io(other.clone()), 1).kind, ProblemKind::Unreadable);
    assert_eq!(from_read_error("/m/a", &ReadError::Unsupported("x".to_string()), 1).kind, ProblemKind::UnsupportedEncoding);
    assert_eq!(from_read_error("/m/a", &ReadError::Malformed("x".to_string()), 1).kind, ProblemKind::MalformedTags);
    assert_eq!(from_ffmpeg("/m/a", &FfmpegError::Stalled(5000), 1).kind, ProblemKind::Stalled);
    assert_eq!(from_ffmpeg("/m/a", &FfmpegError::NoAudioStream, 1).kind, ProblemKind::CorruptAudio);
    let spawn = FfmpegError::Spawn { binary: "ffmpeg".to_string(), source: other };
    assert_eq!(from_ffmpeg("/m/a", &spawn, 1).kind, ProblemKind::Unreadable);
}

#[test]
fn registry_pauses_and_reaps() {
    let mut r = Registry::new(100, 1);
    assert!(r.acquire());
    assert!(!r.register(10, 0));
    assert!(!r.acquire());
    assert_eq!(r.pause_all(), vec![10]);
    assert!(r.is_paused());
    assert!(r.reap_stalled(1000).is_empty());
    assert_eq!(r.resume_all(1000), vec![10]);
    assert!(r.reap_stalled(1050).is_empty());
    assert_eq!(r.reap_stalled(1200), vec![10]);
    r.unregister(10);
    assert_eq!(r.running(), 0);
}
