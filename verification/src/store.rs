//! Persistence as the scanner sees it: what the store knows about a path,
//! the batches the scanner hands it, and the change feed.
use vstd::prelude::*;

use crate::keyed::{as_map, distinct_keys, has_key, key_index, lemma_absent, lemma_at, lemma_insert_at, lemma_push, lemma_remove, lemma_sorted_distinct, lemma_update, sorted_keys};
use crate::paths::{components, paths_equal, same_path};
use crate::types::{contains_file_spec, DuplicateCandidate, Problem, Scan, ScanId, ScanState, Scope, TrackId, TrackRecord};

verus! {

/// What the store already knows about a path. Enough for the skip check.
#[derive(Debug, Clone, Copy, PartialEq, Eq, Structural)]
pub struct IndexedFile {
    pub track_id: TrackId,
    pub size: u64,
    pub mtime_ms: u64,
    pub missing: bool,
}

/// One transaction's worth of outcomes.
#[derive(Debug, Default, Clone)]
pub struct Batch {
    pub scan_id: ScanId,
    /// New and updated tracks.
    pub upserts: Vec<TrackRecord>,
    /// Unchanged tracks: set `last_seen_scan` so reconcile leaves them alone.
    pub touched: Vec<TrackId>,
    /// Missing tracks whose files are back unchanged: clear the mark and touch.
    pub returned: Vec<TrackId>,
    pub problems: Vec<Problem>,
    /// Paths that scanned successfully: clear any problems recorded for them.
    pub cleared: Vec<String>,
}

impl Batch {
    /// How many outcomes the batch holds; cleared paths do not count.
    pub open spec fn size(&self) -> nat {
        self.upserts@.len() + self.touched@.len() + self.returned@.len() + self.problems@.len()
    }

    pub open spec fn is_new(&self, scan_id: ScanId) -> bool {
        &&& self.scan_id == scan_id
        &&& self.upserts@.len() == 0
        &&& self.touched@.len() == 0
        &&& self.returned@.len() == 0
        &&& self.problems@.len() == 0
        &&& self.cleared@.len() == 0
    }

    pub fn new(scan_id: ScanId) -> (b: Batch)
        ensures
            b.is_new(scan_id),
    {
        Batch {
            scan_id,
            upserts: Vec::new(),
            touched: Vec::new(),
            returned: Vec::new(),
            problems: Vec::new(),
            cleared: Vec::new(),
        }
    }

    pub fn len(&self) -> (n: usize)
        requires
            self.size() <= usize::MAX,
        ensures
            n == self.size(),
    {
        self.upserts.len() + self.touched.len() + self.returned.len() + self.problems.len()
    }

    pub fn is_empty(&self) -> (r: bool)
        requires
            self.size() <= usize::MAX,
        ensures
            r == (self.size() == 0),
    {
        self.len() == 0
    }
}

/// One entry of the net-effect change feed.
#[derive(Debug, Clone, Copy, PartialEq, Eq, Structural)]
pub enum FeedEntry {
    Added(TrackId),
    Updated(TrackId),
    Missing(TrackId),
    Returned(TrackId),
}

/// A track as the in-memory store keeps it: the record, whether its file
/// is missing, and the analyzer version its analysis was made with.
#[derive(Debug, Clone)]
pub struct StoredTrack {
    pub record: TrackRecord,
    pub missing: bool,
    pub analyzer_version: Option<u32>,
}

/// One library's index, as maps: tracks by id, track ids by path, problems
/// by path (paths compared by components), and the change feed.
pub struct LibraryAbs {
    pub tracks: Map<TrackId, StoredTrack>,
    pub paths: Map<Seq<Seq<char>>, TrackId>,
    pub problems: Map<Seq<Seq<char>>, Problem>,
    pub feed: Seq<FeedEntry>,
}

/// Upsert one record: a record without an id gets the next one. The
/// record is stored as seen by this scan and present; a track that moved
/// leaves its old path; the feed says whether it was added or updated.
pub open spec fn upsert_step(a: LibraryAbs, next: u64, scan_id: ScanId, rec: TrackRecord) -> (LibraryAbs, u64) {
    let id: u64 = match rec.id {
        Some(i) => i,
        None => (next + 1) as u64,
    };
    let next2: u64 = if rec.id is None { (next + 1) as u64 } else { next };
    let record = TrackRecord { id: Some(id), last_seen_scan: scan_id, ..rec };
    let is_new = !a.tracks.contains_key(id);
    let paths1 = if is_new { a.paths } else { a.paths.remove(components(a.tracks[id].record.path@)) };
    (
        LibraryAbs {
            tracks: a.tracks.insert(id, StoredTrack { record, missing: false, analyzer_version: None }),
            paths: paths1.insert(components(rec.path@), id),
            problems: a.problems,
            feed: a.feed.push(if is_new { FeedEntry::Added(id) } else { FeedEntry::Updated(id) }),
        },
        next2,
    )
}

pub open spec fn upserts_of(a: LibraryAbs, next: u64, scan_id: ScanId, recs: Seq<TrackRecord>) -> (LibraryAbs, u64)
    decreases recs.len(),
{
    if recs.len() == 0 {
        (a, next)
    } else {
        let (b, n) = upserts_of(a, next, scan_id, recs.drop_last());
        upsert_step(b, n, scan_id, recs.last())
    }
}

/// How many ids upserting these records takes.
pub open spec fn new_ids(recs: Seq<TrackRecord>) -> nat {
    recs.filter(|r: TrackRecord| r.id is None).len()
}

/// An unchanged track is marked seen by this scan.
pub open spec fn touch_step(a: LibraryAbs, scan_id: ScanId, id: TrackId) -> LibraryAbs {
    if a.tracks.contains_key(id) {
        let t = a.tracks[id];
        LibraryAbs {
            tracks: a.tracks.insert(id, StoredTrack { record: TrackRecord { last_seen_scan: scan_id, ..t.record }, ..t }),
            ..a
        }
    } else {
        a
    }
}

pub open spec fn touches_of(a: LibraryAbs, scan_id: ScanId, ids: Seq<TrackId>) -> LibraryAbs
    decreases ids.len(),
{
    if ids.len() == 0 {
        a
    } else {
        touch_step(touches_of(a, scan_id, ids.drop_last()), scan_id, ids.last())
    }
}

/// A returned track is seen by this scan and no longer missing; the feed
/// records the return if it was missing.
pub open spec fn return_step(a: LibraryAbs, scan_id: ScanId, id: TrackId) -> LibraryAbs {
    if a.tracks.contains_key(id) {
        let t = a.tracks[id];
        LibraryAbs {
            tracks: a.tracks.insert(
                id,
                StoredTrack { record: TrackRecord { last_seen_scan: scan_id, ..t.record }, missing: false, ..t },
            ),
            feed: if t.missing { a.feed.push(FeedEntry::Returned(id)) } else { a.feed },
            ..a
        }
    } else {
        a
    }
}

pub open spec fn returns_of(a: LibraryAbs, scan_id: ScanId, ids: Seq<TrackId>) -> LibraryAbs
    decreases ids.len(),
{
    if ids.len() == 0 {
        a
    } else {
        return_step(returns_of(a, scan_id, ids.drop_last()), scan_id, ids.last())
    }
}

pub open spec fn clears_of(a: LibraryAbs, paths: Seq<Seq<char>>) -> LibraryAbs
    decreases paths.len(),
{
    if paths.len() == 0 {
        a
    } else {
        let b = clears_of(a, paths.drop_last());
        LibraryAbs { problems: b.problems.remove(components(paths.last())), ..b }
    }
}

pub open spec fn problems_of(a: LibraryAbs, ps: Seq<Problem>) -> LibraryAbs
    decreases ps.len(),
{
    if ps.len() == 0 {
        a
    } else {
        let b = problems_of(a, ps.drop_last());
        LibraryAbs { problems: b.problems.insert(components(ps.last().path@), ps.last()), ..b }
    }
}

/// A batch applied: upserts, then touches, returns, cleared problems and
/// new problems, in that order.
pub open spec fn apply_of(a: LibraryAbs, next: u64, b: Batch) -> (LibraryAbs, u64) {
    let (u, n) = upserts_of(a, next, b.scan_id, b.upserts@);
    let t = touches_of(u, b.scan_id, b.touched@);
    let r = returns_of(t, b.scan_id, b.returned@);
    let c = clears_of(r, b.cleared@.map_values(|p: String| p@));
    (problems_of(c, b.problems@), n)
}

/// What the skip check learns of `path`.
pub open spec fn lookup_of(a: LibraryAbs, path: Seq<char>) -> Option<IndexedFile> {
    let k = components(path);
    if a.paths.contains_key(k) && a.tracks.contains_key(a.paths[k]) {
        let id = a.paths[k];
        let t = a.tracks[id];
        Some(IndexedFile { track_id: id, size: t.record.size, mtime_ms: t.record.mtime_ms, missing: t.missing })
    } else {
        None
    }
}

/// Whether reconcile marks a track missing: present, not seen by this
/// scan, and under the scope.
pub open spec fn unseen(e: (TrackId, StoredTrack), scope: Scope, scan_id: ScanId) -> bool {
    !e.1.missing && e.1.record.last_seen_scan != scan_id && contains_file_spec(scope, e.1.record.path@)
}

pub open spec fn marked(e: (TrackId, StoredTrack), scope: Scope, scan_id: ScanId) -> (TrackId, StoredTrack) {
    if unseen(e, scope, scan_id) {
        (e.0, StoredTrack { missing: true, ..e.1 })
    } else {
        e
    }
}

/// Whether a track needs analysis at `version`: present, and never
/// analyzed or analyzed by an older version.
pub open spec fn needs_analysis(e: (TrackId, StoredTrack), version: u32) -> bool {
    !e.1.missing && match e.1.analyzer_version {
        None => true,
        Some(v) => v < version,
    }
}

/// `c` carries the duplicate-detection facts of track `e`.
pub open spec fn candidate_of(c: DuplicateCandidate, e: (TrackId, StoredTrack)) -> bool {
    let tags = e.1.record.tags;
    &&& c.track_id == e.0
    &&& c.path@ == e.1.record.path@
    &&& crate::scan::opt_string(c.title) == crate::scan::opt_string(tags.title)
    &&& c.artists@.map_values(|s: String| s@) == tags.artists@.map_values(|s: String| s@)
    &&& crate::scan::opt_string(c.album) == crate::scan::opt_string(tags.album)
    &&& c.album_artists@.map_values(|s: String| s@) == tags.album_artists@.map_values(|s: String| s@)
    &&& c.track_number == tags.track_number
    &&& c.disc_number == tags.disc_number
}

pub open spec fn is_interrupted(e: (ScanId, Scan)) -> bool {
    e.1.state == ScanState::Running || e.1.state == ScanState::Queued
}

fn clone_opt_string(s: &Option<String>) -> (r: Option<String>)
    ensures
        crate::scan::opt_string(r) == crate::scan::opt_string(*s),
{
    match s {
        Some(x) => Some(x.clone()),
        None => None,
    }
}

fn clone_strings(v: &Vec<String>) -> (r: Vec<String>)
    ensures
        r@.map_values(|s: String| s@) == v@.map_values(|s: String| s@),
{
    let mut out: Vec<String> = Vec::new();
    let mut i: usize = 0;
    while i < v.len()
        invariant
            i <= v.len(),
            out@.map_values(|s: String| s@) == v@.take(i as int).map_values(|s: String| s@),
        decreases v.len() - i,
    {
        let ghost before = out@;
        out.push(v[i].clone());
        proof {
            assert(out@.map_values(|s: String| s@) =~= before.map_values(|s: String| s@).push(v@[i as int]@));
            assert(v@.take(i + 1).map_values(|s: String| s@) =~= v@.take(i as int).map_values(|s: String| s@).push(v@[i as int]@));
        }
        i = i + 1;
    }
    proof {
        assert(v@.take(v.len() as int) =~= v@);
    }
    out
}

/// Filtering a prefix gives a prefix of the filtered sequence.
proof fn lemma_filter_prefix<A>(s: Seq<A>, pred: spec_fn(A) -> bool, i: int)
    requires
        0 <= i <= s.len(),
    ensures
        s.take(i).filter(pred).len() <= s.filter(pred).len(),
        s.take(i).filter(pred) == s.filter(pred).take(s.take(i).filter(pred).len() as int),
    decreases s.len() - i,
{
    if i == s.len() {
        assert(s.take(i) =~= s);
        assert(s.filter(pred).take(s.filter(pred).len() as int) =~= s.filter(pred));
    } else {
        lemma_filter_prefix(s, pred, i + 1);
        assert(s.take(i + 1) =~= s.take(i).push(s[i]));
        s.take(i).lemma_filter_push(s[i], pred);
        let a = s.take(i).filter(pred);
        let b = s.take(i + 1).filter(pred);
        let f = s.filter(pred);
        assert(a =~= f.take(a.len() as int)) by {
            if pred(s[i]) {
                assert(b == a.push(s[i]));
                assert forall|k: int| 0 <= k < a.len() implies a[k] == f[k] by {
                    assert(b[k] == a[k]);
                    assert(b[k] == f.take(b.len() as int)[k]);
                }
            } else {
                assert(b == a);
            }
        }
    }
}

/// Filtering with a predicate that keeps everything keeps everything.
proof fn lemma_filter_all<A>(s: Seq<A>, pred: spec_fn(A) -> bool)
    requires
        forall|a: A| #[trigger] pred(a),
    ensures
        s.filter(pred) == s,
    decreases s.len(),
{
    if s.len() > 0 {
        lemma_filter_all(s.drop_last(), pred);
        assert(s =~= s.drop_last().push(s.last()));
        s.drop_last().lemma_filter_push(s.last(), pred);
    } else {
        assert(s.filter(pred) =~= s);
    }
}

/// A map read from pairs with distinct keys has as many keys as pairs.
proof fn lemma_map_len<K, V>(s: Seq<(K, V)>)
    requires
        distinct_keys(s),
    ensures
        as_map(s).len() == s.len(),
        as_map(s).dom().finite(),
{
    let keys = s.map_values(|e: (K, V)| e.0);
    assert(keys.no_duplicates()) by {
        assert forall|i: int, j: int| 0 <= i < keys.len() && 0 <= j < keys.len() && i != j implies keys[i] != keys[j] by {}
    }
    keys.unique_seq_to_set();
    assert(as_map(s).dom() =~= keys.to_set()) by {
        assert forall|k: K| as_map(s).dom().contains(k) <==> keys.to_set().contains(k) by {
            if as_map(s).dom().contains(k) {
                let i = choose|i: int| 0 <= i < s.len() && s[i].0 == k;
                assert(keys[i] == k);
            }
            if keys.to_set().contains(k) {
                let i = choose|i: int| 0 <= i < keys.len() && keys[i] == k;
                assert(s[i].0 == k);
            }
        }
    }
}

/// One library's index.
pub struct LibraryState {
    tracks: Vec<(TrackId, StoredTrack)>,
    paths: Vec<(String, TrackId)>,
    problems: Vec<Problem>,
    scans: Vec<(ScanId, crate::types::Scan)>,
    feed: Vec<FeedEntry>,
}

pub open spec fn path_entries(v: Seq<(String, TrackId)>) -> Seq<(Seq<Seq<char>>, TrackId)> {
    v.map_values(|e: (String, TrackId)| (components(e.0@), e.1))
}

pub open spec fn problem_entries(v: Seq<Problem>) -> Seq<(Seq<Seq<char>>, Problem)> {
    v.map_values(|p: Problem| (components(p.path@), p))
}

impl LibraryState {
    pub closed spec fn track_seq(&self) -> Seq<(TrackId, StoredTrack)> {
        self.tracks@
    }

    pub closed spec fn scan_seq(&self) -> Seq<(ScanId, crate::types::Scan)> {
        self.scans@
    }

    pub closed spec fn abs(&self) -> LibraryAbs {
        LibraryAbs {
            tracks: as_map(self.tracks@),
            paths: as_map(path_entries(self.paths@)),
            problems: as_map(problem_entries(self.problems@)),
            feed: self.feed@,
        }
    }

    pub closed spec fn wf(&self) -> bool {
        &&& sorted_keys(self.tracks@)
        &&& distinct_keys(path_entries(self.paths@))
        &&& distinct_keys(problem_entries(self.problems@))
        &&& sorted_keys(self.scans@)
        &&& forall|i: int| 0 <= i < self.scans@.len() ==> (#[trigger] self.scans@[i]).1.id == self.scans@[i].0
    }

    pub fn new() -> (l: LibraryState)
        ensures
            l.wf(),
            l.track_seq() == Seq::<(TrackId, StoredTrack)>::empty(),
            l.scan_seq() == Seq::<(ScanId, crate::types::Scan)>::empty(),
            l.abs().tracks == Map::<TrackId, StoredTrack>::empty(),
            l.abs().paths == Map::<Seq<Seq<char>>, TrackId>::empty(),
            l.abs().problems == Map::<Seq<Seq<char>>, Problem>::empty(),
            l.abs().feed == Seq::<FeedEntry>::empty(),
    {
        let l = LibraryState { tracks: Vec::new(), paths: Vec::new(), problems: Vec::new(), scans: Vec::new(), feed: Vec::new() };
        proof {
            assert(as_map(l.tracks@) =~= Map::<TrackId, StoredTrack>::empty());
            assert(path_entries(l.paths@) =~= Seq::<(Seq<Seq<char>>, TrackId)>::empty());
            assert(as_map(path_entries(l.paths@)) =~= Map::<Seq<Seq<char>>, TrackId>::empty());
            assert(problem_entries(l.problems@) =~= Seq::<(Seq<Seq<char>>, Problem)>::empty());
            assert(as_map(problem_entries(l.problems@)) =~= Map::<Seq<Seq<char>>, Problem>::empty());
        }
        l
    }

    /// Where track `id` is, or where it would go.
    fn find_track(&self, id: TrackId) -> (r: Result<usize, usize>)
        requires
            self.wf(),
        ensures
            match r {
                Ok(i) => i < self.tracks@.len() && self.tracks@[i as int].0 == id,
                Err(i) => i <= self.tracks@.len() && !has_key(self.tracks@, id) && (forall|k: int|
                    0 <= k < i ==> self.tracks@[k].0 < id) && (forall|k: int| i <= k < self.tracks@.len() ==> id
                    < self.tracks@[k].0),
            },
    {
        let mut i: usize = 0;
        while i < self.tracks.len() && self.tracks[i].0 < id
            invariant
                i <= self.tracks@.len(),
                self.wf(),
                forall|k: int| 0 <= k < i ==> self.tracks@[k].0 < id,
            decreases self.tracks@.len() - i,
        {
            i = i + 1;
        }
        if i < self.tracks.len() && self.tracks[i].0 == id {
            Ok(i)
        } else {
            proof {
                assert forall|k: int| i <= k < self.tracks@.len() implies id < self.tracks@[k].0 by {
                    if k > i {
                        assert(self.tracks@[i as int].0 < self.tracks@[k].0);
                    }
                }
                assert forall|k: int| 0 <= k < self.tracks@.len() implies self.tracks@[k].0 != id by {}
            }
            Err(i)
        }
    }

    fn find_path(&self, path: &str) -> (r: Option<usize>)
        ensures
            match r {
                Some(j) => j < self.paths@.len() && path_entries(self.paths@)[j as int].0 == components(path@),
                None => forall|k: int| 0 <= k < self.paths@.len() ==> path_entries(self.paths@)[k].0 != components(path@),
            },
    {
        let mut j: usize = 0;
        while j < self.paths.len()
            invariant
                j <= self.paths@.len(),
                forall|k: int| 0 <= k < j ==> path_entries(self.paths@)[k].0 != components(path@),
            decreases self.paths@.len() - j,
        {
            if paths_equal(self.paths[j].0.as_str(), path) {
                return Some(j);
            }
            j = j + 1;
        }
        None
    }

    fn find_problem(&self, path: &str) -> (r: Option<usize>)
        ensures
            match r {
                Some(j) => j < self.problems@.len() && problem_entries(self.problems@)[j as int].0 == components(path@),
                None => forall|k: int| 0 <= k < self.problems@.len() ==> problem_entries(self.problems@)[k].0 != components(path@),
            },
    {
        let mut j: usize = 0;
        while j < self.problems.len()
            invariant
                j <= self.problems@.len(),
                forall|k: int| 0 <= k < j ==> problem_entries(self.problems@)[k].0 != components(path@),
            decreases self.problems@.len() - j,
        {
            if paths_equal(self.problems[j].path.as_str(), path) {
                return Some(j);
            }
            j = j + 1;
        }
        None
    }

    /// The path map without `path`.
    fn unmap_path(&mut self, path: &str)
        requires
            old(self).wf(),
        ensures
            final(self).wf(),
            final(self).abs() == (LibraryAbs { paths: old(self).abs().paths.remove(components(path@)), ..old(self).abs() }),
            final(self).track_seq() == old(self).track_seq(),
            final(self).scan_seq() == old(self).scan_seq(),
    {
        match self.find_path(path) {
            Some(j) => {
                let ghost before = path_entries(self.paths@);
                self.paths.remove(j);
                proof {
                    lemma_remove(before, j as int);
                    assert(path_entries(self.paths@) =~= before.remove(j as int));
                }
            },
            None => {
                proof {
                    lemma_absent(path_entries(self.paths@), components(path@));
                    assert(as_map(path_entries(self.paths@)).remove(components(path@)) =~= as_map(path_entries(self.paths@)));
                }
            },
        }
    }

    /// Map `path` to `id`; a path already mapped keeps its key.
    fn map_path(&mut self, path: &str, id: TrackId)
        requires
            old(self).wf(),
        ensures
            final(self).wf(),
            final(self).abs() == (LibraryAbs { paths: old(self).abs().paths.insert(components(path@), id), ..old(self).abs() }),
            final(self).track_seq() == old(self).track_seq(),
            final(self).scan_seq() == old(self).scan_seq(),
    {
        let ghost before = path_entries(self.paths@);
        match self.find_path(path) {
            Some(j) => {
                let (key, _old) = self.paths.remove(j);
                self.paths.insert(j, (key, id));
                proof {
                    assert(path_entries(self.paths@) =~= before.update(j as int, (before[j as int].0, id)));
                    lemma_update(before, j as int, id);
                }
            },
            None => {
                self.paths.push((crate::text::owned(path), id));
                proof {
                    assert(path_entries(self.paths@) =~= before.push((components(path@), id)));
                    lemma_absent(before, components(path@));
                    lemma_push(before, components(path@), id);
                }
            },
        }
    }

    fn upsert(&mut self, next: &mut u64, scan_id: ScanId, rec: TrackRecord)
        requires
            old(self).wf(),
            rec.id is None ==> *old(next) < u64::MAX,
        ensures
            final(self).wf(),
            (final(self).abs(), *final(next)) == upsert_step(old(self).abs(), *old(next), scan_id, rec),
            final(self).scan_seq() == old(self).scan_seq(),
    {
        let ghost a = self.abs();
        let ghost rec0 = rec;
        let id = match rec.id {
            Some(i) => i,
            None => {
                *next = *next + 1;
                *next
            },
        };
        let mut record = rec;
        record.id = Some(id);
        record.last_seen_scan = scan_id;
        proof {
            assert(record == TrackRecord { id: Some(id), last_seen_scan: scan_id, ..rec0 });
        }
        match self.find_track(id) {
            Ok(i) => {
                proof {
                    lemma_sorted_distinct(self.tracks@);
                    lemma_at(self.tracks@, i as int);
                }
                let old_path = self.tracks[i].1.record.path.clone();
                self.unmap_path(old_path.as_str());
                self.map_path(record.path.as_str(), id);
                let ghost before = self.tracks@;
                let st = StoredTrack { record, missing: false, analyzer_version: None };
                let ghost stv = st;
                let _old = self.tracks.remove(i);
                self.tracks.insert(i, (id, st));
                proof {
                    assert(self.tracks@ =~= before.update(i as int, (before[i as int].0, stv)));
                    lemma_update(before, i as int, stv);
                    assert(sorted_keys(self.tracks@)) by {
                        assert forall|p: int, q: int| 0 <= p < q < self.tracks@.len() implies self.tracks@[p].0 < self.tracks@[q].0 by {
                            assert(self.tracks@[p].0 == before[p].0 && self.tracks@[q].0 == before[q].0);
                        }
                    }
                }
                self.feed.push(FeedEntry::Updated(id));
            },
            Err(pos) => {
                self.map_path(record.path.as_str(), id);
                let ghost before = self.tracks@;
                let st = StoredTrack { record, missing: false, analyzer_version: None };
                let ghost stv = st;
                self.tracks.insert(pos, (id, st));
                proof {
                    lemma_sorted_distinct(before);
                    lemma_insert_at(before, pos as int, id, stv);
                    assert(sorted_keys(self.tracks@)) by {
                        assert forall|p: int, q: int| 0 <= p < q < self.tracks@.len() implies self.tracks@[p].0 < self.tracks@[q].0 by {
                            let bp = if p < pos { p } else if p == pos { -1 } else { p - 1 };
                            let bq = if q < pos { q } else if q == pos { -1 } else { q - 1 };
                            if p != pos {
                                assert(self.tracks@[p] == before[bp]);
                            }
                            if q != pos {
                                assert(self.tracks@[q] == before[bq]);
                            }
                        }
                    }
                }
                self.feed.push(FeedEntry::Added(id));
            },
        }
    }

    fn touch(&mut self, scan_id: ScanId, id: TrackId)
        requires
            old(self).wf(),
        ensures
            final(self).wf(),
            final(self).abs() == touch_step(old(self).abs(), scan_id, id),
            final(self).scan_seq() == old(self).scan_seq(),
    {
        match self.find_track(id) {
            Ok(i) => {
                proof {
                    lemma_sorted_distinct(self.tracks@);
                    lemma_at(self.tracks@, i as int);
                }
                let ghost before = self.tracks@;
                let (k, mut t) = self.tracks.remove(i);
                t.record.last_seen_scan = scan_id;
                let ghost tv = t;
                self.tracks.insert(i, (k, t));
                proof {
                    assert(self.tracks@ =~= before.update(i as int, (before[i as int].0, tv)));
                    lemma_update(before, i as int, tv);
                    assert(forall|p: int| 0 <= p < self.tracks@.len() ==> self.tracks@[p].0 == before[p].0);
                }
            },
            Err(_) => {},
        }
    }

    fn return_track(&mut self, scan_id: ScanId, id: TrackId)
        requires
            old(self).wf(),
        ensures
            final(self).wf(),
            final(self).abs() == return_step(old(self).abs(), scan_id, id),
            final(self).scan_seq() == old(self).scan_seq(),
    {
        match self.find_track(id) {
            Ok(i) => {
                proof {
                    lemma_sorted_distinct(self.tracks@);
                    lemma_at(self.tracks@, i as int);
                }
                let ghost before = self.tracks@;
                let (k, mut t) = self.tracks.remove(i);
                let was_missing = t.missing;
                t.record.last_seen_scan = scan_id;
                t.missing = false;
                let ghost tv = t;
                self.tracks.insert(i, (k, t));
                proof {
                    assert(self.tracks@ =~= before.update(i as int, (before[i as int].0, tv)));
                    lemma_update(before, i as int, tv);
                    assert(forall|p: int| 0 <= p < self.tracks@.len() ==> self.tracks@[p].0 == before[p].0);
                }
                if was_missing {
                    self.feed.push(FeedEntry::Returned(id));
                }
            },
            Err(_) => {},
        }
    }

    fn clear_problem(&mut self, path: &str)
        requires
            old(self).wf(),
        ensures
            final(self).wf(),
            final(self).abs() == (LibraryAbs { problems: old(self).abs().problems.remove(components(path@)), ..old(self).abs() }),
            final(self).scan_seq() == old(self).scan_seq(),
            final(self).track_seq() == old(self).track_seq(),
    {
        let ghost before = problem_entries(self.problems@);
        match self.find_problem(path) {
            Some(j) => {
                self.problems.remove(j);
                proof {
                    lemma_remove(before, j as int);
                    assert(problem_entries(self.problems@) =~= before.remove(j as int));
                }
            },
            None => {
                proof {
                    lemma_absent(before, components(path@));
                    assert(as_map(before).remove(components(path@)) =~= as_map(before));
                }
            },
        }
    }

    fn record_problem(&mut self, problem: Problem)
        requires
            old(self).wf(),
        ensures
            final(self).wf(),
            final(self).abs() == (LibraryAbs {
                problems: old(self).abs().problems.insert(components(problem.path@), problem),
                ..old(self).abs()
            }),
            final(self).scan_seq() == old(self).scan_seq(),
            final(self).track_seq() == old(self).track_seq(),
    {
        let ghost before = problem_entries(self.problems@);
        let ghost pv = problem;
        match self.find_problem(problem.path.as_str()) {
            Some(j) => {
                self.problems.remove(j);
                self.problems.insert(j, problem);
                proof {
                    assert(problem_entries(self.problems@) =~= before.update(j as int, (before[j as int].0, pv)));
                    lemma_update(before, j as int, pv);
                }
            },
            None => {
                self.problems.push(problem);
                proof {
                    assert(problem_entries(self.problems@) =~= before.push((components(pv.path@), pv)));
                    lemma_absent(before, components(pv.path@));
                    lemma_push(before, components(pv.path@), pv);
                }
            },
        }
    }

    /// Apply one batch. New tracks take ids after `next`.
    pub fn apply(&mut self, next: &mut u64, batch: Batch)
        requires
            old(self).wf(),
            *old(next) + batch.upserts@.len() <= u64::MAX,
        ensures
            final(self).wf(),
            (final(self).abs(), *final(next)) == apply_of(old(self).abs(), *old(next), batch),
            final(self).scan_seq() == old(self).scan_seq(),
    {
        let ghost a0 = self.abs();
        let ghost n0 = *next;
        let ghost b = batch;
        let scan_id = batch.scan_id;
        let mut ups = batch.upserts;
        let ghost recs = ups@;
        let total = ups.len();
        let mut i: usize = 0;
        while ups.len() > 0
            invariant
                self.wf(),
                self.scan_seq() == old(self).scan_seq(),
                i + ups@.len() == recs.len(),
                recs.len() == total,
                ups@ == recs.skip(i as int),
                *next <= n0 + i,
                n0 + recs.len() <= u64::MAX,
                (self.abs(), *next) == upserts_of(a0, n0, scan_id, recs.take(i as int)),
            decreases ups@.len(),
        {
            let rec = ups.remove(0);
            proof {
                assert(rec == recs[i as int]);
                assert(recs.take(i + 1).drop_last() =~= recs.take(i as int));
                assert(recs.take(i + 1).last() == recs[i as int]);
                assert(ups@ =~= recs.skip(i + 1));
            }
            self.upsert(next, scan_id, rec);
            i = i + 1;
        }
        proof {
            assert(recs.take(i as int) =~= recs);
        }
        let ghost u = self.abs();
        let mut t: usize = 0;
        while t < batch.touched.len()
            invariant
                self.wf(),
                self.scan_seq() == old(self).scan_seq(),
                t <= batch.touched@.len(),
                batch.touched@ == b.touched@,
                batch.scan_id == scan_id,
                self.abs() == touches_of(u, scan_id, b.touched@.take(t as int)),
            decreases batch.touched@.len() - t,
        {
            proof {
                assert(b.touched@.take(t + 1).drop_last() =~= b.touched@.take(t as int));
            }
            self.touch(scan_id, batch.touched[t]);
            t = t + 1;
        }
        proof {
            assert(b.touched@.take(t as int) =~= b.touched@);
        }
        let ghost tt = self.abs();
        let mut r: usize = 0;
        while r < batch.returned.len()
            invariant
                self.wf(),
                self.scan_seq() == old(self).scan_seq(),
                r <= batch.returned@.len(),
                batch.returned@ == b.returned@,
                self.abs() == returns_of(tt, scan_id, b.returned@.take(r as int)),
            decreases batch.returned@.len() - r,
        {
            proof {
                assert(b.returned@.take(r + 1).drop_last() =~= b.returned@.take(r as int));
            }
            self.return_track(scan_id, batch.returned[r]);
            r = r + 1;
        }
        proof {
            assert(b.returned@.take(r as int) =~= b.returned@);
        }
        let ghost rr = self.abs();
        let ghost cv = b.cleared@.map_values(|p: String| p@);
        let mut c: usize = 0;
        while c < batch.cleared.len()
            invariant
                self.wf(),
                self.scan_seq() == old(self).scan_seq(),
                c <= batch.cleared@.len(),
                batch.cleared@ == b.cleared@,
                cv == b.cleared@.map_values(|p: String| p@),
                self.abs() == clears_of(rr, cv.take(c as int)),
            decreases batch.cleared@.len() - c,
        {
            proof {
                assert(cv.take(c + 1).drop_last() =~= cv.take(c as int));
                assert(cv.take(c + 1).last() == batch.cleared@[c as int]@);
            }
            self.clear_problem(batch.cleared[c].as_str());
            c = c + 1;
        }
        proof {
            assert(cv.take(c as int) =~= cv);
        }
        let ghost cc = self.abs();
        let mut ps = batch.problems;
        let ghost pv = ps@;
        let ptotal = ps.len();
        let mut q: usize = 0;
        while ps.len() > 0
            invariant
                self.wf(),
                self.scan_seq() == old(self).scan_seq(),
                q + ps@.len() == pv.len(),
                pv.len() == ptotal,
                ps@ == pv.skip(q as int),
                self.abs() == problems_of(cc, pv.take(q as int)),
            decreases ps@.len(),
        {
            let p = ps.remove(0);
            proof {
                assert(p == pv[q as int]);
                assert(pv.take(q + 1).drop_last() =~= pv.take(q as int));
                assert(ps@ =~= pv.skip(q + 1));
            }
            self.record_problem(p);
            q = q + 1;
        }
        proof {
            assert(pv.take(q as int) =~= pv);
        }
    }

    pub closed spec fn feed_seq(&self) -> Seq<FeedEntry> {
        self.feed@
    }

    /// Reconcile: mark missing every present track under `scope` this scan
    /// did not see, in id order, each with a feed entry. Gives how many.
    pub fn mark_missing_unseen(&mut self, scope: &Scope, scan_id: ScanId) -> (n: usize)
        requires
            old(self).wf(),
        ensures
            final(self).wf(),
            final(self).track_seq() == old(self).track_seq().map_values(
                |e: (TrackId, StoredTrack)| marked(e, *scope, scan_id),
            ),
            final(self).abs().paths == old(self).abs().paths,
            final(self).abs().problems == old(self).abs().problems,
            final(self).abs().feed == old(self).abs().feed + old(self).track_seq().filter(
                |e: (TrackId, StoredTrack)| unseen(e, *scope, scan_id),
            ).map_values(|e: (TrackId, StoredTrack)| FeedEntry::Missing(e.0)),
            n == old(self).track_seq().filter(|e: (TrackId, StoredTrack)| unseen(e, *scope, scan_id)).len(),
            final(self).scan_seq() == old(self).scan_seq(),
    {
        let ghost s0 = self.tracks@;
        let ghost f0 = self.feed@;
        let ghost pred = |e: (TrackId, StoredTrack)| unseen(e, *scope, scan_id);
        let ghost mark = |e: (TrackId, StoredTrack)| marked(e, *scope, scan_id);
        let ghost miss = |e: (TrackId, StoredTrack)| FeedEntry::Missing(e.0);
        let mut count: usize = 0;
        let mut i: usize = 0;
        proof {
            assert(s0.take(0).filter(pred) =~= Seq::<(TrackId, StoredTrack)>::empty());
            assert(self.feed@ =~= f0 + s0.take(0).filter(pred).map_values(miss));
        }
        while i < self.tracks.len()
            invariant
                i <= self.tracks@.len(),
                self.tracks@.len() == s0.len(),
                pred == (|e: (TrackId, StoredTrack)| unseen(e, *scope, scan_id)),
                mark == (|e: (TrackId, StoredTrack)| marked(e, *scope, scan_id)),
                miss == (|e: (TrackId, StoredTrack)| FeedEntry::Missing(e.0)),
                forall|k: int| 0 <= k < i ==> self.tracks@[k] == mark(s0[k]),
                forall|k: int| i <= k < s0.len() ==> self.tracks@[k] == s0[k],
                self.feed@ == f0 + s0.take(i as int).filter(pred).map_values(miss),
                count == s0.take(i as int).filter(pred).len(),
                self.paths@ == old(self).paths@,
                self.problems@ == old(self).problems@,
                self.scans@ == old(self).scans@,
                s0 == old(self).tracks@,
                f0 == old(self).feed@,
            decreases s0.len() - i,
        {
            proof {
                assert(s0.take(i + 1) =~= s0.take(i as int).push(s0[i as int]));
                s0.take(i as int).lemma_filter_push(s0[i as int], pred);
            }
            let hit = {
                let t = &self.tracks[i].1;
                !t.missing && t.record.last_seen_scan != scan_id && scope.contains_file(t.record.path.as_str())
            };
            if hit {
                let ghost before = self.tracks@;
                let (k, mut t) = self.tracks.remove(i);
                t.missing = true;
                let ghost tv = t;
                self.tracks.insert(i, (k, t));
                proof {
                    assert(self.tracks@ =~= before.update(i as int, (k, tv)));
                    assert(mark(s0[i as int]) == (k, tv));
                }
                let ghost fb = self.feed@;
                self.feed.push(FeedEntry::Missing(k));
                proof {
                    assert(self.feed@ =~= f0 + s0.take(i + 1).filter(pred).map_values(miss));
                }
                assert(count < usize::MAX) by {
                    s0.take(i as int).filter_lemma(pred);
                }
                count = count + 1;
            } else {
                proof {
                    assert(mark(s0[i as int]) == s0[i as int]);
                    assert(s0.take(i + 1).filter(pred) == s0.take(i as int).filter(pred));
                }
            }
            i = i + 1;
        }
        proof {
            assert(s0.take(i as int) =~= s0);
            assert(self.tracks@ =~= s0.map_values(mark));
            assert(forall|p: int| 0 <= p < self.tracks@.len() ==> self.tracks@[p].0 == s0[p].0);
            assert(sorted_keys(self.tracks@));
        }
        count
    }

    /// Up to `limit` tracks that need analysis at `version`, in id order,
    /// with their paths.
    pub fn next_unanalyzed(&self, version: u32, limit: usize) -> (r: Vec<(TrackId, String)>)
        ensures
            ({
                let due = self.track_seq().filter(|e: (TrackId, StoredTrack)| needs_analysis(e, version));
                r@.map_values(|x: (TrackId, String)| (x.0, x.1@)) == due.take(
                    if limit < due.len() { limit as int } else { due.len() as int },
                ).map_values(|e: (TrackId, StoredTrack)| (e.0, e.1.record.path@))
            }),
            forall|k: int| 0 <= k < r@.len() ==> is_present_track(self.track_seq(), (#[trigger] r@[k]).0, r@[k].1@),
    {
        let ghost s0 = self.tracks@;
        let ghost pred = |e: (TrackId, StoredTrack)| needs_analysis(e, version);
        let ghost view = |e: (TrackId, StoredTrack)| (e.0, e.1.record.path@);
        let mut out: Vec<(TrackId, String)> = Vec::new();
        let mut i: usize = 0;
        proof {
            assert(s0.take(0).filter(pred) =~= Seq::<(TrackId, StoredTrack)>::empty());
        }
        while i < self.tracks.len() && out.len() < limit
            invariant
                i <= s0.len(),
                s0 == self.tracks@,
                pred == (|e: (TrackId, StoredTrack)| needs_analysis(e, version)),
                view == (|e: (TrackId, StoredTrack)| (e.0, e.1.record.path@)),
                out@.len() <= limit,
                out@.map_values(|x: (TrackId, String)| (x.0, x.1@)) == s0.take(i as int).filter(pred).map_values(view),
            decreases s0.len() - i,
        {
            proof {
                assert(s0.take(i + 1) =~= s0.take(i as int).push(s0[i as int]));
                s0.take(i as int).lemma_filter_push(s0[i as int], pred);
            }
            let t = &self.tracks[i];
            let due = !t.1.missing && match t.1.analyzer_version {
                None => true,
                Some(v) => v < version,
            };
            if due {
                let ghost before = out@;
                out.push((t.0, t.1.record.path.clone()));
                proof {
                    assert(out@.map_values(|x: (TrackId, String)| (x.0, x.1@)) =~= before.map_values(
                        |x: (TrackId, String)| (x.0, x.1@),
                    ).push(view(s0[i as int])));
                }
            }
            i = i + 1;
        }
        proof {
            let due = s0.filter(pred);
            let got = s0.take(i as int).filter(pred);
            lemma_filter_prefix(s0, pred, i as int);
            if out@.len() < limit {
                assert(i == s0.len());
                assert(s0.take(i as int) =~= s0);
                assert(due.take(due.len() as int) =~= due);
            } else {
                assert(got.len() == limit);
                assert(got =~= due.take(limit as int));
            }
            only_present_tracks_are_due(s0, version);
            let m = if limit < due.len() { limit as int } else { due.len() as int };
            assert forall|k: int| 0 <= k < out@.len() implies is_present_track(s0, (#[trigger] out@[k]).0, out@[k].1@) by {
                let e = due[k];
                assert(out@.map_values(|x: (TrackId, String)| (x.0, x.1@))[k] == due.take(m).map_values(view)[k]);
                assert(s0.contains(e));
                let j = choose|j: int| 0 <= j < s0.len() && s0[j] == e;
                assert(s0[j] == e);
            }
        }
        out
    }

    /// Record that track `id` was analyzed at `version`.
    pub fn store_analysis(&mut self, id: TrackId, version: u32)
        requires
            old(self).wf(),
        ensures
            final(self).wf(),
            final(self).abs() == (LibraryAbs {
                tracks: if old(self).abs().tracks.contains_key(id) {
                    old(self).abs().tracks.insert(
                        id,
                        StoredTrack { analyzer_version: Some(version), ..old(self).abs().tracks[id] },
                    )
                } else {
                    old(self).abs().tracks
                },
                ..old(self).abs()
            }),
            final(self).scan_seq() == old(self).scan_seq(),
    {
        match self.find_track(id) {
            Ok(i) => {
                proof {
                    lemma_sorted_distinct(self.tracks@);
                    lemma_at(self.tracks@, i as int);
                }
                let ghost before = self.tracks@;
                let (k, mut t) = self.tracks.remove(i);
                t.analyzer_version = Some(version);
                let ghost tv = t;
                self.tracks.insert(i, (k, t));
                proof {
                    assert(self.tracks@ =~= before.update(i as int, (before[i as int].0, tv)));
                    lemma_update(before, i as int, tv);
                    assert(forall|p: int| 0 <= p < self.tracks@.len() ==> self.tracks@[p].0 == before[p].0);
                }
            },
            Err(_) => {
                proof {
                    assert(!as_map(self.tracks@).contains_key(id));
                }
            },
        }
    }

    /// The facts duplicate detection reads, for every present track in id
    /// order.
    pub fn duplicate_candidates(&self) -> (r: Vec<DuplicateCandidate>)
        ensures
            ({
                let present = self.track_seq().filter(|e: (TrackId, StoredTrack)| !e.1.missing);
                &&& r@.len() == present.len()
                &&& forall|k: int| 0 <= k < present.len() ==> candidate_of(#[trigger] r@[k], present[k])
            }),
    {
        let ghost s0 = self.tracks@;
        let ghost pred = |e: (TrackId, StoredTrack)| !e.1.missing;
        let mut out: Vec<DuplicateCandidate> = Vec::new();
        let mut i: usize = 0;
        proof {
            assert(s0.take(0).filter(pred) =~= Seq::<(TrackId, StoredTrack)>::empty());
        }
        while i < self.tracks.len()
            invariant
                i <= s0.len(),
                s0 == self.tracks@,
                pred == (|e: (TrackId, StoredTrack)| !e.1.missing),
                out@.len() == s0.take(i as int).filter(pred).len(),
                forall|k: int| 0 <= k < out@.len() ==> candidate_of(#[trigger] out@[k], s0.take(i as int).filter(pred)[k]),
            decreases s0.len() - i,
        {
            proof {
                assert(s0.take(i + 1) =~= s0.take(i as int).push(s0[i as int]));
                s0.take(i as int).lemma_filter_push(s0[i as int], pred);
            }
            let e = &self.tracks[i];
            if !e.1.missing {
                let tags = &e.1.record.tags;
                let c = DuplicateCandidate {
                    track_id: e.0,
                    path: e.1.record.path.clone(),
                    title: clone_opt_string(&tags.title),
                    artists: clone_strings(&tags.artists),
                    album: clone_opt_string(&tags.album),
                    album_artists: clone_strings(&tags.album_artists),
                    track_number: tags.track_number,
                    disc_number: tags.disc_number,
                };
                out.push(c);
            }
            i = i + 1;
        }
        proof {
            assert(s0.take(i as int) =~= s0);
        }
        out
    }

    /// Every track, in id order.
    pub fn tracks(&self) -> (r: Vec<&StoredTrack>)
        ensures
            r@.len() == self.track_seq().len(),
            forall|k: int| 0 <= k < r@.len() ==> *r@[k] == self.track_seq()[k].1,
    {
        let mut out: Vec<&StoredTrack> = Vec::new();
        let mut i: usize = 0;
        while i < self.tracks.len()
            invariant
                i <= self.tracks@.len(),
                out@.len() == i,
                forall|k: int| 0 <= k < i ==> *out@[k] == self.tracks@[k].1,
            decreases self.tracks@.len() - i,
        {
            out.push(&self.tracks[i].1);
            i = i + 1;
        }
        out
    }

    /// Track `id`, if there is one.
    pub fn track(&self, id: TrackId) -> (r: Option<&StoredTrack>)
        requires
            self.wf(),
        ensures
            match r {
                Some(t) => self.abs().tracks.contains_key(id) && *t == self.abs().tracks[id],
                None => !self.abs().tracks.contains_key(id),
            },
    {
        match self.find_track(id) {
            Ok(i) => {
                proof {
                    lemma_sorted_distinct(self.tracks@);
                    lemma_at(self.tracks@, i as int);
                }
                Some(&self.tracks[i].1)
            },
            Err(_) => None,
        }
    }

    /// Every recorded problem, one per path.
    pub fn problems(&self) -> (r: Vec<&Problem>)
        requires
            self.wf(),
        ensures
            r@.len() == self.abs().problems.len(),
            forall|k: int| 0 <= k < r@.len() ==> self.abs().problems.contains_key(components(r@[k].path@)) && self.abs().problems[components(r@[k].path@)] == *r@[k],
            forall|p: Seq<Seq<char>>| #[trigger] self.abs().problems.contains_key(p) ==> exists|k: int| 0 <= k < r@.len() && components(r@[k].path@) == p,
    {
        let ghost pe = problem_entries(self.problems@);
        let mut out: Vec<&Problem> = Vec::new();
        let mut i: usize = 0;
        while i < self.problems.len()
            invariant
                i <= self.problems@.len(),
                pe == problem_entries(self.problems@),
                distinct_keys(pe),
                out@.len() == i,
                forall|k: int| 0 <= k < i ==> *out@[k] == self.problems@[k],
            decreases self.problems@.len() - i,
        {
            out.push(&self.problems[i]);
            i = i + 1;
        }
        proof {
            assert forall|k: int| 0 <= k < out@.len() implies as_map(pe).contains_key(components(out@[k].path@)) && as_map(pe)[components(out@[k].path@)] == *out@[k] by {
                lemma_at(pe, k);
            }
            assert forall|p: Seq<Seq<char>>| #[trigger] as_map(pe).contains_key(p) implies exists|k: int| 0 <= k < out@.len() && components(out@[k].path@) == p by {
                let k = choose|k: int| 0 <= k < pe.len() && pe[k].0 == p;
                assert(components(out@[k].path@) == p);
            }
            lemma_map_len(pe);
        }
        out
    }

    /// The change feed, oldest first.
    pub fn feed(&self) -> (r: Vec<FeedEntry>)
        ensures
            r@ == self.abs().feed,
    {
        let mut out: Vec<FeedEntry> = Vec::new();
        let mut i: usize = 0;
        while i < self.feed.len()
            invariant
                i <= self.feed@.len(),
                out@ == self.feed@.take(i as int),
            decreases self.feed@.len() - i,
        {
            out.push(self.feed[i]);
            proof {
                assert(self.feed@.take(i + 1) =~= self.feed@.take(i as int).push(self.feed@[i as int]));
            }
            i = i + 1;
        }
        proof {
            assert(self.feed@.take(i as int) =~= self.feed@);
        }
        out
    }

    /// Store `scan` under its id, replacing what was there.
    pub fn put_scan(&mut self, scan: Scan)
        requires
            old(self).wf(),
        ensures
            final(self).wf(),
            as_map(final(self).scan_seq()) == as_map(old(self).scan_seq()).insert(scan.id, scan),
            final(self).abs() == old(self).abs(),
            final(self).track_seq() == old(self).track_seq(),
    {
        let id = scan.id;
        let ghost sv = scan;
        let mut i: usize = 0;
        while i < self.scans.len() && self.scans[i].0 < id
            invariant
                i <= self.scans@.len(),
                self.wf(),
                self.scans@ == old(self).scans@,
                self.tracks@ == old(self).tracks@,
                self.paths@ == old(self).paths@,
                self.problems@ == old(self).problems@,
                self.feed@ == old(self).feed@,
                forall|k: int| 0 <= k < i ==> self.scans@[k].0 < id,
            decreases self.scans@.len() - i,
        {
            i = i + 1;
        }
        let ghost before = self.scans@;
        proof {
            lemma_sorted_distinct(before);
        }
        if i < self.scans.len() && self.scans[i].0 == id {
            self.scans.remove(i);
            self.scans.insert(i, (id, scan));
            proof {
                assert(self.scans@ =~= before.update(i as int, (before[i as int].0, sv)));
                lemma_update(before, i as int, sv);
                assert(forall|p: int| 0 <= p < self.scans@.len() ==> self.scans@[p].0 == before[p].0);
                assert forall|p: int| 0 <= p < self.scans@.len() implies (#[trigger] self.scans@[p]).1.id == self.scans@[p].0 by {
                    if p != i {
                        assert(self.scans@[p] == before[p]);
                    }
                }
            }
        } else {
            proof {
                assert forall|k: int| i <= k < before.len() implies id < before[k].0 by {
                    if k > i {
                        assert(before[i as int].0 < before[k].0);
                    }
                }
                assert forall|k: int| 0 <= k < before.len() implies before[k].0 != id by {}
            }
            self.scans.insert(i, (id, scan));
            proof {
                lemma_insert_at(before, i as int, id, sv);
                assert forall|p: int, q: int| 0 <= p < q < self.scans@.len() implies self.scans@[p].0 < self.scans@[q].0 by {
                    let bp = if p < i { p } else { p - 1 };
                    let bq = if q < i { q } else { q - 1 };
                    if p != i {
                        assert(self.scans@[p] == before[bp]);
                    }
                    if q != i {
                        assert(self.scans@[q] == before[bq]);
                    }
                }
                assert forall|p: int| 0 <= p < self.scans@.len() implies (#[trigger] self.scans@[p]).1.id == self.scans@[p].0 by {
                    if p < i {
                        assert(self.scans@[p] == before[p]);
                    } else if p > i {
                        assert(self.scans@[p] == before[p - 1]);
                    }
                }
            }
        }
    }

    /// Every scan, in id order; only those left running or queued when
    /// `interrupted`.
    pub fn scans(&self, interrupted: bool) -> (r: Vec<&Scan>)
        ensures
            ({
                let chosen = if interrupted {
                    self.scan_seq().filter(|e: (ScanId, Scan)| is_interrupted(e))
                } else {
                    self.scan_seq()
                };
                &&& r@.len() == chosen.len()
                &&& forall|k: int| 0 <= k < r@.len() ==> *r@[k] == chosen[k].1
            }),
    {
        let ghost s0 = self.scans@;
        let ghost pred = |e: (ScanId, Scan)| if interrupted { is_interrupted(e) } else { true };
        let mut out: Vec<&Scan> = Vec::new();
        let mut i: usize = 0;
        proof {
            assert(s0.take(0).filter(pred) =~= Seq::<(ScanId, Scan)>::empty());
        }
        while i < self.scans.len()
            invariant
                i <= s0.len(),
                s0 == self.scans@,
                pred == (|e: (ScanId, Scan)| if interrupted { is_interrupted(e) } else { true }),
                out@.len() == s0.take(i as int).filter(pred).len(),
                forall|k: int| 0 <= k < out@.len() ==> *out@[k] == s0.take(i as int).filter(pred)[k].1,
            decreases s0.len() - i,
        {
            proof {
                assert(s0.take(i + 1) =~= s0.take(i as int).push(s0[i as int]));
                s0.take(i as int).lemma_filter_push(s0[i as int], pred);
            }
            let e = &self.scans[i];
            let keep = !interrupted || e.1.state == ScanState::Running || e.1.state == ScanState::Queued;
            if keep {
                out.push(&e.1);
            }
            i = i + 1;
        }
        proof {
            assert(s0.take(i as int) =~= s0);
            if interrupted {
                assert(pred =~= (|e: (ScanId, Scan)| is_interrupted(e)));
            } else {
                lemma_filter_all(s0, pred);
            }
        }
        out
    }

    /// What the skip check learns of `path`.
    pub fn lookup(&self, path: &str) -> (r: Option<IndexedFile>)
        requires
            self.wf(),
        ensures
            r == lookup_of(self.abs(), path@),
    {
        match self.find_path(path) {
            None => {
                proof {
                    lemma_absent(path_entries(self.paths@), components(path@));
                }
                None
            },
            Some(j) => {
                let id = self.paths[j].1;
                proof {
                    lemma_at(path_entries(self.paths@), j as int);
                }
                match self.find_track(id) {
                    Ok(i) => {
                        proof {
                            lemma_sorted_distinct(self.tracks@);
                            lemma_at(self.tracks@, i as int);
                        }
                        let t = &self.tracks[i].1;
                        Some(IndexedFile { track_id: id, size: t.record.size, mtime_ms: t.record.mtime_ms, missing: t.missing })
                    },
                    Err(_) => None,
                }
            },
        }
    }
}

/// The library index nothing has been stored in.
pub open spec fn empty_abs() -> LibraryAbs {
    LibraryAbs {
        tracks: Map::empty(),
        paths: Map::empty(),
        problems: Map::empty(),
        feed: Seq::empty(),
    }
}

pub open spec fn lib_entries(v: Seq<(String, LibraryState)>) -> Seq<(Seq<char>, LibraryState)> {
    v.map_values(|e: (String, LibraryState)| (e.0@, e.1))
}

/// The in-memory store: a complete store kept in memory, for tests and
/// examples. Libraries are created on first write.
pub struct MemoryStore {
    libraries: Vec<(String, LibraryState)>,
    next_track: TrackId,
    next_scan: ScanId,
}

impl MemoryStore {
    /// The libraries written so far, by id.
    pub closed spec fn libs(&self) -> Map<Seq<char>, LibraryState> {
        as_map(lib_entries(self.libraries@))
    }

    /// The last track id given out.
    pub closed spec fn last_track(&self) -> TrackId {
        self.next_track
    }

    /// The last scan id given out.
    pub closed spec fn last_scan(&self) -> ScanId {
        self.next_scan
    }

    pub closed spec fn wf(&self) -> bool {
        &&& distinct_keys(lib_entries(self.libraries@))
        &&& forall|i: int| 0 <= i < self.libraries@.len() ==> (#[trigger] self.libraries@[i]).1.wf()
    }

    /// A library's index, or the empty one.
    pub open spec fn abs_of(&self, library: Seq<char>) -> LibraryAbs {
        if self.libs().contains_key(library) {
            self.libs()[library].abs()
        } else {
            empty_abs()
        }
    }

    pub open spec fn tracks_of(&self, library: Seq<char>) -> Seq<(TrackId, StoredTrack)> {
        if self.libs().contains_key(library) {
            self.libs()[library].track_seq()
        } else {
            Seq::empty()
        }
    }

    pub open spec fn scans_of(&self, library: Seq<char>) -> Seq<(ScanId, Scan)> {
        if self.libs().contains_key(library) {
            self.libs()[library].scan_seq()
        } else {
            Seq::empty()
        }
    }

    pub fn new() -> (m: MemoryStore)
        ensures
            m.wf(),
            m.libs() == Map::<Seq<char>, LibraryState>::empty(),
            m.last_track() == 0,
            m.last_scan() == 0,
    {
        let m = MemoryStore { libraries: Vec::new(), next_track: 0, next_scan: 0 };
        proof {
            assert(lib_entries(m.libraries@) =~= Seq::<(Seq<char>, LibraryState)>::empty());
            assert(m.libs() =~= Map::<Seq<char>, LibraryState>::empty());
        }
        m
    }

    fn find(&self, library: &str) -> (r: Option<usize>)
        requires
            self.wf(),
        ensures
            match r {
                Some(i) => i < self.libraries@.len() && self.libraries@[i as int].0@ == library@
                    && self.libs().contains_key(library@) && self.libs()[library@] == self.libraries@[i as int].1,
                None => !self.libs().contains_key(library@),
            },
    {
        let ghost le = lib_entries(self.libraries@);
        let mut i: usize = 0;
        while i < self.libraries.len()
            invariant
                i <= self.libraries@.len(),
                le == lib_entries(self.libraries@),
                distinct_keys(le),
                forall|k: int| 0 <= k < i ==> le[k].0 != library@,
            decreases self.libraries@.len() - i,
        {
            if crate::text::str_eq(self.libraries[i].0.as_str(), library) {
                proof {
                    lemma_at(le, i as int);
                }
                return Some(i);
            }
            i = i + 1;
        }
        proof {
            lemma_absent(le, library@);
        }
        None
    }

    /// The index of `library`'s entry, made empty if it was not there.
    fn entry(&mut self, library: &str) -> (i: usize)
        requires
            old(self).wf(),
        ensures
            final(self).wf(),
            i < final(self).libraries@.len(),
            final(self).libraries@[i as int].0@ == library@,
            final(self).libs().contains_key(library@),
            final(self).libs()[library@] == final(self).libraries@[i as int].1,
            final(self).libs().remove(library@) == old(self).libs().remove(library@),
            final(self).abs_of(library@) == old(self).abs_of(library@),
            final(self).tracks_of(library@) == old(self).tracks_of(library@),
            final(self).scans_of(library@) == old(self).scans_of(library@),
            final(self).last_track() == old(self).last_track(),
            final(self).last_scan() == old(self).last_scan(),
    {
        match self.find(library) {
            Some(i) => i,
            None => {
                let ghost before = lib_entries(self.libraries@);
                let st = LibraryState::new();
                let ghost sv = st;
                self.libraries.push((crate::text::owned(library), st));
                proof {
                    assert(lib_entries(self.libraries@) =~= before.push((library@, sv)));
                    lemma_push(before, library@, sv);
                    lemma_at(lib_entries(self.libraries@), before.len() as int);
                    assert(self.libs().remove(library@) =~= as_map(before).remove(library@));
                    assert(sv.abs() == empty_abs());
                }
                self.libraries.len() - 1
            },
        }
    }

    /// Put `st` back at `i`, where it was taken from `prev`.
    fn put_back(&mut self, i: usize, name: String, st: LibraryState, Ghost(prev): Ghost<MemoryStore>)
        requires
            prev.wf(),
            st.wf(),
            i < prev.libraries@.len(),
            prev.libraries@[i as int].0@ == name@,
            old(self).libraries@ == prev.libraries@.remove(i as int),
        ensures
            final(self).wf(),
            final(self).libs() == prev.libs().insert(name@, st),
            final(self).next_track == old(self).next_track,
            final(self).next_scan == old(self).next_scan,
    {
        let ghost before = lib_entries(prev.libraries@);
        let ghost sv = st;
        self.libraries.insert(i, (name, st));
        proof {
            assert(self.libraries@ =~= prev.libraries@.update(i as int, (self.libraries@[i as int].0, sv)));
            assert(lib_entries(self.libraries@) =~= before.update(i as int, (before[i as int].0, sv)));
            lemma_update(before, i as int, sv);
            assert forall|k: int| 0 <= k < self.libraries@.len() implies (#[trigger] self.libraries@[k]).1.wf() by {
                if k != i {
                    assert(self.libraries@[k] == prev.libraries@[k]);
                }
            }
        }
    }

    pub fn create_scan(&mut self, scan: Scan) -> (id: ScanId)
        requires
            old(self).wf(),
            old(self).last_scan() < u64::MAX,
        ensures
            final(self).wf(),
            id == old(self).last_scan() + 1,
            final(self).last_scan() == id,
            final(self).last_track() == old(self).last_track(),
            final(self).libs().contains_key(scan.library@),
            as_map(final(self).scans_of(scan.library@)) == as_map(old(self).scans_of(scan.library@)).insert(
                id,
                Scan { id, ..scan },
            ),
            final(self).abs_of(scan.library@) == old(self).abs_of(scan.library@),
            final(self).tracks_of(scan.library@) == old(self).tracks_of(scan.library@),
            final(self).libs().remove(scan.library@) == old(self).libs().remove(scan.library@),
    {
        self.next_scan = self.next_scan + 1;
        let id = self.next_scan;
        let mut scan = scan;
        scan.id = id;
        let ghost lib = scan.library@;
        let i = self.entry(scan.library.as_str());
        proof {
            assert(self.libraries@[i as int].1.wf());
        }
        let ghost prev = *self;
        let (name, mut st) = self.libraries.remove(i);
        st.put_scan(scan);
        self.put_back(i, name, st, Ghost(prev));
        id
    }

    pub fn update_scan(&mut self, scan: Scan)
        requires
            old(self).wf(),
        ensures
            final(self).wf(),
            final(self).last_scan() == old(self).last_scan(),
            final(self).last_track() == old(self).last_track(),
            final(self).libs().contains_key(scan.library@),
            as_map(final(self).scans_of(scan.library@)) == as_map(old(self).scans_of(scan.library@)).insert(scan.id, scan),
            final(self).abs_of(scan.library@) == old(self).abs_of(scan.library@),
            final(self).tracks_of(scan.library@) == old(self).tracks_of(scan.library@),
            final(self).libs().remove(scan.library@) == old(self).libs().remove(scan.library@),
    {
        let i = self.entry(scan.library.as_str());
        proof {
            assert(self.libraries@[i as int].1.wf());
        }
        let ghost prev = *self;
        let (name, mut st) = self.libraries.remove(i);
        st.put_scan(scan);
        self.put_back(i, name, st, Ghost(prev));
    }

    /// Apply one batch to `library` atomically and append its net effect
    /// to the change feed.
    pub fn apply(&mut self, library: &str, batch: Batch)
        requires
            old(self).wf(),
            old(self).last_track() + batch.upserts@.len() <= u64::MAX,
        ensures
            final(self).wf(),
            (final(self).abs_of(library@), final(self).last_track()) == apply_of(
                old(self).abs_of(library@),
                old(self).last_track(),
                batch,
            ),
            final(self).scans_of(library@) == old(self).scans_of(library@),
            final(self).last_scan() == old(self).last_scan(),
            final(self).libs().remove(library@) == old(self).libs().remove(library@),
    {
        let i = self.entry(library);
        proof {
            assert(self.libraries@[i as int].1.wf());
        }
        let ghost prev = *self;
        let (name, mut st) = self.libraries.remove(i);
        let mut next = self.next_track;
        st.apply(&mut next, batch);
        self.next_track = next;
        self.put_back(i, name, st, Ghost(prev));
    }

    /// Mark missing every present track of `library` under `scope` that
    /// scan `scan_id` did not see. Gives how many.
    pub fn mark_missing_unseen(&mut self, library: &str, scope: &Scope, scan_id: ScanId) -> (n: usize)
        requires
            old(self).wf(),
        ensures
            final(self).wf(),
            final(self).tracks_of(library@) == old(self).tracks_of(library@).map_values(
                |e: (TrackId, StoredTrack)| marked(e, *scope, scan_id),
            ),
            final(self).abs_of(library@).paths == old(self).abs_of(library@).paths,
            final(self).abs_of(library@).problems == old(self).abs_of(library@).problems,
            final(self).abs_of(library@).feed == old(self).abs_of(library@).feed + old(self).tracks_of(library@).filter(
                |e: (TrackId, StoredTrack)| unseen(e, *scope, scan_id),
            ).map_values(|e: (TrackId, StoredTrack)| FeedEntry::Missing(e.0)),
            n == old(self).tracks_of(library@).filter(|e: (TrackId, StoredTrack)| unseen(e, *scope, scan_id)).len(),
            final(self).scans_of(library@) == old(self).scans_of(library@),
            final(self).libs().remove(library@) == old(self).libs().remove(library@),
            final(self).libs().contains_key(library@) == old(self).libs().contains_key(library@),
            final(self).last_track() == old(self).last_track(),
            final(self).last_scan() == old(self).last_scan(),
    {
        match self.find(library) {
            None => {
                proof {
                    let e = Seq::<(TrackId, StoredTrack)>::empty();
                    assert(e.map_values(|e: (TrackId, StoredTrack)| marked(e, *scope, scan_id)) =~= e);
                    assert(e.filter(|e: (TrackId, StoredTrack)| unseen(e, *scope, scan_id)) =~= e);
                    assert(empty_abs().feed + e.map_values(|e: (TrackId, StoredTrack)| FeedEntry::Missing(e.0)) =~= empty_abs().feed);
                }
                0
            },
            Some(i) => {
                proof {
                    assert(self.libraries@[i as int].1.wf());
                }
                let ghost prev = *self;
                let (name, mut st) = self.libraries.remove(i);
                let n = st.mark_missing_unseen(scope, scan_id);
                self.put_back(i, name, st, Ghost(prev));
                n
            },
        }
    }

    /// Record that track `id` of `library` was analyzed at `version`.
    pub fn store_analysis(&mut self, library: &str, id: TrackId, version: u32)
        requires
            old(self).wf(),
        ensures
            final(self).wf(),
            final(self).abs_of(library@) == (LibraryAbs {
                tracks: if old(self).abs_of(library@).tracks.contains_key(id) {
                    old(self).abs_of(library@).tracks.insert(
                        id,
                        StoredTrack { analyzer_version: Some(version), ..old(self).abs_of(library@).tracks[id] },
                    )
                } else {
                    old(self).abs_of(library@).tracks
                },
                ..old(self).abs_of(library@)
            }),
            final(self).scans_of(library@) == old(self).scans_of(library@),
            final(self).libs().remove(library@) == old(self).libs().remove(library@),
            final(self).last_track() == old(self).last_track(),
            final(self).last_scan() == old(self).last_scan(),
    {
        match self.find(library) {
            None => {},
            Some(i) => {
                proof {
                    assert(self.libraries@[i as int].1.wf());
                }
                let ghost prev = *self;
                let (name, mut st) = self.libraries.remove(i);
                st.store_analysis(id, version);
                self.put_back(i, name, st, Ghost(prev));
            },
        }
    }

    /// What the skip check learns of `path` in `library`.
    pub fn lookup(&self, library: &str, path: &str) -> (r: Option<IndexedFile>)
        requires
            self.wf(),
        ensures
            r == lookup_of(self.abs_of(library@), path@),
    {
        match self.find(library) {
            None => {
                proof {
                    assert(!empty_abs().paths.contains_key(components(path@)));
                }
                None
            },
            Some(i) => {
                proof {
                    assert(self.libraries@[i as int].1.wf());
                }
                self.libraries[i].1.lookup(path)
            },
        }
    }

    /// The library's state, if anything was stored for it.
    pub fn library(&self, library: &str) -> (r: Option<&LibraryState>)
        requires
            self.wf(),
        ensures
            match r {
                Some(st) => self.libs().contains_key(library@) && *st == self.libs()[library@] && st.wf(),
                None => !self.libs().contains_key(library@),
            },
    {
        match self.find(library) {
            None => None,
            Some(i) => {
                proof {
                    assert(self.libraries@[i as int].1.wf());
                }
                Some(&self.libraries[i].1)
            },
        }
    }
}

/// What is written is read back: after a record is upserted, the skip
/// check finds at its path the record's id, size and time, present.
pub proof fn upserted_record_is_found(a: LibraryAbs, next: u64, scan_id: ScanId, rec: TrackRecord)
    ensures
        ({
            let id: u64 = match rec.id {
                Some(i) => i,
                None => (next + 1) as u64,
            };
            lookup_of(upsert_step(a, next, scan_id, rec).0, rec.path@) == Some(
                IndexedFile { track_id: id, size: rec.size, mtime_ms: rec.mtime_ms, missing: false },
            )
        }),
{
}

/// Identity survives an update: a record that names its track keeps that
/// id, and the store's other tracks are untouched.
pub proof fn update_keeps_identity(a: LibraryAbs, next: u64, scan_id: ScanId, rec: TrackRecord, other: TrackId)
    requires
        rec.id is Some,
        other != rec.id->0,
    ensures
        upsert_step(a, next, scan_id, rec).1 == next,
        upsert_step(a, next, scan_id, rec).0.tracks[rec.id->0].record.id == rec.id,
        upsert_step(a, next, scan_id, rec).0.tracks.contains_key(other) == a.tracks.contains_key(other),
        a.tracks.contains_key(other) ==> upsert_step(a, next, scan_id, rec).0.tracks[other] == a.tracks[other],
{
}

/// A track the scan touched is not reconciled away by that scan.
pub proof fn touched_track_is_not_reconciled(a: LibraryAbs, scan_id: ScanId, id: TrackId, scope: Scope)
    requires
        a.tracks.contains_key(id),
    ensures
        !unseen((id, touch_step(a, scan_id, id).tracks[id]), scope, scan_id),
{
}

/// A missing track whose file is back is present again, and the feed says
/// so.
pub proof fn returned_track_is_present(a: LibraryAbs, scan_id: ScanId, id: TrackId)
    requires
        a.tracks.contains_key(id),
        a.tracks[id].missing,
    ensures
        !return_step(a, scan_id, id).tracks[id].missing,
        return_step(a, scan_id, id).feed == a.feed.push(FeedEntry::Returned(id)),
{
}

/// Reconcile stays inside its scope: a track outside it is left as it is.
pub proof fn reconcile_stays_in_scope(e: (TrackId, StoredTrack), scope: Scope, scan_id: ScanId)
    requires
        !contains_file_spec(scope, e.1.record.path@),
    ensures
        marked(e, scope, scan_id) == e,
{
}

/// A path that scanned cleanly has no problem left.
pub proof fn cleared_path_has_no_problem(a: LibraryAbs, paths: Seq<Seq<char>>, i: int)
    requires
        0 <= i < paths.len(),
    ensures
        !clears_of(a, paths).problems.contains_key(components(paths[i])),
    decreases paths.len(),
{
    if i < paths.len() - 1 {
        cleared_path_has_no_problem(a, paths.drop_last(), i);
        assert(paths.drop_last()[i] == paths[i]);
    }
}

/// Whether `s` holds track `id` at `path`, its file present.
pub open spec fn is_present_track(s: Seq<(TrackId, StoredTrack)>, id: TrackId, path: Seq<char>) -> bool {
    exists|j: int| 0 <= j < s.len() && (#[trigger] s[j]).0 == id && s[j].1.record.path@ == path && !s[j].1.missing
}

/// The tracks of `s` due for analysis at `version`, in order.
pub open spec fn due_for_analysis(s: Seq<(TrackId, StoredTrack)>, version: u32) -> Seq<(TrackId, StoredTrack)> {
    s.filter(|e: (TrackId, StoredTrack)| needs_analysis(e, version))
}

/// Analysis is handed present tracks only. The tracks due at `version`
/// are stored tracks whose files are present and which were never analyzed
/// or were analyzed by an older version; and every such track is due.
pub proof fn only_present_tracks_are_due(s: Seq<(TrackId, StoredTrack)>, version: u32)
    ensures
        forall|k: int|
            0 <= k < due_for_analysis(s, version).len() ==> {
                let e = #[trigger] due_for_analysis(s, version)[k];
                &&& s.contains(e)
                &&& !e.1.missing
                &&& (e.1.analyzer_version matches Some(v) ==> v < version)
            },
        forall|j: int|
            0 <= j < s.len() && !(#[trigger] s[j]).1.missing && (s[j].1.analyzer_version is None
                || s[j].1.analyzer_version.unwrap() < version) ==> due_for_analysis(s, version).contains(s[j]),
{
    let pred = |e: (TrackId, StoredTrack)| needs_analysis(e, version);
    let due = s.filter(pred);
    assert forall|k: int| 0 <= k < due.len() implies {
        let e = #[trigger] due[k];
        &&& s.contains(e)
        &&& !e.1.missing
        &&& (e.1.analyzer_version matches Some(v) ==> v < version)
    } by {
        s.lemma_filter_pred(pred, k);
        assert(due.contains(due[k]));
        s.lemma_filter_contains_rev(pred, due[k]);
    }
    assert forall|j: int|
        0 <= j < s.len() && !(#[trigger] s[j]).1.missing && (s[j].1.analyzer_version is None
            || s[j].1.analyzer_version.unwrap() < version) implies due.contains(s[j]) by {
        assert(pred(s[j]));
        s.lemma_filter_contains(pred, j);
    }
}

} // verus!
