//! Triggers: what the file watcher enqueues. The watcher is a hint, never
//! the source of truth; an overflow or an error rescans the whole library.
//! Changes are grouped by directory over a debounce interval and each
//! directory is enqueued as one scope.
use vstd::prelude::*;

use crate::multi_value::views;
use crate::order::{join, join_chars};
use crate::paths::{components, file_name, file_name_of, path_components, path_starts_with, paths_equal, same_path, starts_with_path};
use crate::sidecar::{is_sidecar_name, is_sidecar_name_of};
use crate::text::{chars_eq, chars_of, owned, string_from_chars};
use crate::types::{Depth, Scope};

verus! {

/// A path written back from its components.
pub open spec fn path_text(c: Seq<Seq<char>>) -> Seq<char> {
    if c.len() > 0 && c[0] == seq!['/'] {
        seq!['/'] + join(c.skip(1), seq!['/'])
    } else {
        join(c, seq!['/'])
    }
}

/// The directory holding `path`: its components but the last.
pub open spec fn parent_of(path: Seq<char>) -> Seq<char> {
    path_text(components(path).drop_last())
}

/// Which directory a changed path dirties, and how deep. An access changes
/// nothing. A directory event dirties the directory's own subtree, since
/// its contents are unknown; a sidecar-named file widens to the subtree of
/// its directory, since anything below may have inherited from it; any
/// other file dirties its directory alone.
pub open spec fn classify_of(is_access: bool, is_dir_event: bool, path: Seq<char>) -> Option<(Seq<char>, Depth)> {
    if is_access {
        None
    } else {
        match file_name_of(path) {
            None => None,
            Some(name) => if is_dir_event {
                Some((path, Depth::Subtree))
            } else if is_sidecar_name_of(name) {
                Some((parent_of(path), Depth::Subtree))
            } else {
                Some((parent_of(path), Depth::Directory))
            },
        }
    }
}

fn text_of(c: &Vec<Vec<char>>) -> (r: String)
    ensures
        r@ == path_text(views(c@)),
{
    let root = vec!['/'];
    proof {
        assert(root@ =~= seq!['/']);
    }
    if c.len() > 0 && chars_eq(&c[0], &root) {
        let mut rest: Vec<Vec<char>> = Vec::new();
        let mut i: usize = 1;
        proof {
            assert(views(c@)[0] == c@[0]@);
        }
        while i < c.len()
            invariant
                1 <= i <= c.len(),
                views(rest@) == views(c@).subrange(1, i as int),
            decreases c.len() - i,
        {
            let ghost before = views(rest@);
            rest.push(c[i].clone());
            proof {
                assert(views(rest@) =~= before.push(c@[i as int]@));
                assert(views(c@).subrange(1, i + 1) =~= views(c@).subrange(1, i as int).push(c@[i as int]@));
            }
            i = i + 1;
        }
        let mut out = vec!['/'];
        let j = join_chars(&rest, '/');
        crate::text::push_chars(&mut out, &j);
        proof {
            assert(views(c@).subrange(1, c.len() as int) =~= views(c@).skip(1));
            assert(rest@.map_values(|e: Vec<char>| e@) =~= views(rest@));
            assert(out@ =~= seq!['/'] + join(views(c@).skip(1), seq!['/']));
        }
        string_from_chars(&out)
    } else {
        proof {
            if c.len() > 0 {
                assert(views(c@)[0] == c@[0]@);
            }
            assert(c@.map_values(|e: Vec<char>| e@) =~= views(c@));
        }
        string_from_chars(&join_chars(c, '/'))
    }
}

/// Which directory a changed path dirties, and how deep. The caller says
/// whether the event was an access and whether it concerns a directory.
pub fn classify(is_access: bool, is_dir_event: bool, path: &str) -> (r: Option<(String, Depth)>)
    ensures
        match classify_of(is_access, is_dir_event, path@) {
            None => r is None,
            Some((d, depth)) => r matches Some((s, e)) && s@ == d && e == depth,
        },
{
    if is_access {
        return None;
    }
    let chars = chars_of(path);
    let name = match file_name(&chars) {
        Some(n) => n,
        None => return None,
    };
    if is_dir_event {
        return Some((owned(path), Depth::Subtree));
    }
    let mut c = path_components(&chars);
    let ghost before = views(c@);
    c.pop();
    proof {
        assert(views(c@) =~= before.drop_last());
    }
    let dir = text_of(&c);
    let name_s = string_from_chars(&name);
    if is_sidecar_name(name_s.as_str()) {
        Some((dir, Depth::Subtree))
    } else {
        Some((dir, Depth::Directory))
    }
}

/// Pending work for one directory: whether anything in it needs the
/// subtree, and when it was first seen (milliseconds).
#[derive(Debug, Clone)]
pub struct Pending {
    pub dir: String,
    pub depth: Depth,
    pub first_seen_ms: u64,
}

pub open spec fn pending_view(p: Pending) -> (Seq<char>, Depth, u64) {
    (p.dir@, p.depth, p.first_seen_ms)
}

/// No two pending entries are for the same directory.
pub open spec fn distinct_dirs(ps: Seq<(Seq<char>, Depth, u64)>) -> bool {
    forall|i: int, j: int| 0 <= i < j < ps.len() ==> !same_path(#[trigger] ps[i].0, #[trigger] ps[j].0)
}

/// A change noted for `dir`: a directory already pending keeps its first
/// sighting and widens to the subtree if asked; a new one is pending from
/// `now`.
pub open spec fn note_of(ps: Seq<(Seq<char>, Depth, u64)>, dir: Seq<char>, depth: Depth, now: u64) -> Seq<(Seq<char>, Depth, u64)> {
    if exists|i: int| 0 <= i < ps.len() && same_path(ps[i].0, dir) {
        let i = choose|i: int| 0 <= i < ps.len() && same_path(ps[i].0, dir);
        ps.update(i, (ps[i].0, if depth == Depth::Subtree { Depth::Subtree } else { ps[i].1 }, ps[i].2))
    } else {
        ps.push((dir, depth, now))
    }
}

/// `now - first`, or zero when the clock went back.
pub open spec fn elapsed(now: u64, first: u64) -> int {
    if now >= first {
        now - first
    } else {
        0
    }
}

pub open spec fn is_ready(p: (Seq<char>, Depth, u64), now: u64, debounce_ms: u64) -> bool {
    elapsed(now, p.2) >= debounce_ms
}

/// The first root `path` lies under.
pub open spec fn root_for_of(roots: Seq<Seq<char>>, path: Seq<char>) -> Option<Seq<char>> {
    if exists|i: int| 0 <= i < roots.len() && path_starts_with(path, roots[i]) {
        Some(roots[choose|i: int| 0 <= i < roots.len() && path_starts_with(path, roots[i]) && forall|k: int| 0 <= k < i ==> !path_starts_with(path, roots[k])])
    } else {
        None
    }
}

/// The first root `path` lies under.
pub fn root_for(roots: &Vec<String>, path: &str) -> (r: Option<String>)
    ensures
        match root_for_of(roots@.map_values(|s: String| s@), path@) {
            None => r is None,
            Some(root) => r matches Some(s) && s@ == root,
        },
{
    let ghost rv = roots@.map_values(|s: String| s@);
    let mut i: usize = 0;
    while i < roots.len()
        invariant
            i <= roots.len(),
            rv == roots@.map_values(|s: String| s@),
            forall|k: int| 0 <= k < i ==> !path_starts_with(path@, #[trigger] rv[k]),
        decreases roots.len() - i,
    {
        proof {
            assert(rv[i as int] == roots@[i as int]@);
        }
        if starts_with_path(path, roots[i].as_str()) {
            proof {
                let j = choose|j: int| 0 <= j < rv.len() && path_starts_with(path@, rv[j]) && forall|k: int| 0 <= k < j ==> !path_starts_with(path@, rv[k]);
                if j < i {
                    assert(!path_starts_with(path@, rv[j]));
                }
                if j > i {
                    assert(!path_starts_with(path@, rv[i as int]));
                }
            }
            return Some(roots[i].clone());
        }
        i = i + 1;
    }
    None
}

/// The watcher's debouncing state: pending directories, and whether the
/// whole library must be rescanned.
pub struct Debouncer {
    pending: Vec<Pending>,
    rescan_all: bool,
}

impl Debouncer {
    pub closed spec fn pending_spec(&self) -> Seq<(Seq<char>, Depth, u64)> {
        self.pending@.map_values(|p: Pending| pending_view(p))
    }

    pub closed spec fn rescan_spec(&self) -> bool {
        self.rescan_all
    }

    pub closed spec fn wf(&self) -> bool {
        distinct_dirs(self.pending_spec())
    }

    pub fn new() -> (d: Debouncer)
        ensures
            d.wf(),
            d.pending_spec() == Seq::<(Seq<char>, Depth, u64)>::empty(),
            !d.rescan_spec(),
    {
        let d = Debouncer { pending: Vec::new(), rescan_all: false };
        proof {
            assert(d.pending_spec() =~= Seq::<(Seq<char>, Depth, u64)>::empty());
        }
        d
    }

    /// Note a change to `dir` at `now_ms`.
    pub fn note(&mut self, dir: String, depth: Depth, now_ms: u64)
        requires
            old(self).wf(),
        ensures
            final(self).wf(),
            final(self).pending_spec() == note_of(old(self).pending_spec(), dir@, depth, now_ms),
            final(self).rescan_spec() == old(self).rescan_spec(),
    {
        let ghost ps = self.pending_spec();
        let mut i: usize = 0;
        while i < self.pending.len()
            invariant
                i <= self.pending.len(),
                ps == self.pending_spec(),
                ps == old(self).pending_spec(),
                self.rescan_all == old(self).rescan_all,
                distinct_dirs(ps),
                forall|k: int| 0 <= k < i ==> !same_path(#[trigger] ps[k].0, dir@),
            decreases self.pending.len() - i,
        {
            proof {
                assert(ps[i as int] == pending_view(self.pending@[i as int]));
            }
            if paths_equal(self.pending[i].dir.as_str(), dir.as_str()) {
                proof {
                    assert(same_path(ps[i as int].0, dir@));
                    let j = choose|j: int| 0 <= j < ps.len() && same_path(ps[j].0, dir@);
                    if j != i {
                        if j < i {
                            assert(!same_path(ps[j].0, dir@));
                        } else {
                            assert(!same_path(ps[i as int].0, ps[j].0));
                        }
                    }
                    assert(j == i);
                    assert(note_of(ps, dir@, depth, now_ms) == ps.update(
                        i as int,
                        (ps[i as int].0, if depth == Depth::Subtree { Depth::Subtree } else { ps[i as int].1 }, ps[i as int].2),
                    ));
                }
                if depth == Depth::Subtree {
                    let ghost before = self.pending@;
                    let mut p = self.pending.remove(i);
                    p.depth = Depth::Subtree;
                    self.pending.insert(i, p);
                    proof {
                        assert(self.pending@ =~= before.update(i as int, p));
                        assert(self.pending_spec() =~= note_of(ps, dir@, depth, now_ms));
                    }
                } else {
                    proof {
                        assert(ps[i as int].1 == ps.update(i as int, (ps[i as int].0, ps[i as int].1, ps[i as int].2))[i as int].1);
                        assert(ps.update(i as int, (ps[i as int].0, ps[i as int].1, ps[i as int].2)) =~= ps);
                    }
                }
                proof {
                    assert forall|a: int, b: int| 0 <= a < b < self.pending_spec().len() implies !same_path(
                        #[trigger] self.pending_spec()[a].0,
                        #[trigger] self.pending_spec()[b].0,
                    ) by {
                        assert(self.pending_spec()[a].0 == ps[a].0);
                        assert(self.pending_spec()[b].0 == ps[b].0);
                    }
                }
                return;
            }
            i = i + 1;
        }
        let ghost dv = dir@;
        self.pending.push(Pending { dir, depth, first_seen_ms: now_ms });
        proof {
            assert(self.pending_spec() =~= ps.push((dv, depth, now_ms)));
            assert forall|a: int, b: int| 0 <= a < b < self.pending_spec().len() implies !same_path(
                #[trigger] self.pending_spec()[a].0,
                #[trigger] self.pending_spec()[b].0,
            ) by {
                if b == ps.len() {
                    assert(!same_path(ps[a].0, dv));
                } else {
                    assert(self.pending_spec()[a] == ps[a]);
                    assert(self.pending_spec()[b] == ps[b]);
                }
            }
        }
    }

    /// The watcher reported an overflow or an error: rescan everything.
    pub fn rescan_everything(&mut self)
        ensures
            final(self).rescan_spec(),
            final(self).pending_spec() == old(self).pending_spec(),
            final(self).wf() == old(self).wf(),
    {
        self.rescan_all = true;
    }

    /// Whether the whole library is due for a rescan. If so, what was
    /// pending is dropped, since the rescan covers it.
    pub fn take_rescan(&mut self) -> (r: bool)
        requires
            old(self).wf(),
        ensures
            r == old(self).rescan_spec(),
            final(self).wf(),
            !final(self).rescan_spec(),
            final(self).pending_spec() == if r {
                Seq::<(Seq<char>, Depth, u64)>::empty()
            } else {
                old(self).pending_spec()
            },
    {
        if self.rescan_all {
            self.pending = Vec::new();
            self.rescan_all = false;
            proof {
                assert(self.pending_spec() =~= Seq::<(Seq<char>, Depth, u64)>::empty());
            }
            true
        } else {
            false
        }
    }

    /// Take the directories pending for at least `debounce_ms`, each with
    /// its depth, and leave the rest.
    pub fn take_ready(&mut self, now_ms: u64, debounce_ms: u64) -> (r: Vec<(String, Depth)>)
        requires
            old(self).wf(),
        ensures
            final(self).wf(),
            final(self).rescan_spec() == old(self).rescan_spec(),
            final(self).pending_spec() == old(self).pending_spec().filter(
                |p: (Seq<char>, Depth, u64)| !is_ready(p, now_ms, debounce_ms),
            ),
            r@.map_values(|x: (String, Depth)| (x.0@, x.1)) == old(self).pending_spec().filter(
                |p: (Seq<char>, Depth, u64)| is_ready(p, now_ms, debounce_ms),
            ).map_values(|p: (Seq<char>, Depth, u64)| (p.0, p.1)),
    {
        let ghost ps = self.pending_spec();
        let ghost ready = |p: (Seq<char>, Depth, u64)| is_ready(p, now_ms, debounce_ms);
        let ghost waiting = |p: (Seq<char>, Depth, u64)| !is_ready(p, now_ms, debounce_ms);
        let mut out: Vec<(String, Depth)> = Vec::new();
        let mut rest: Vec<Pending> = Vec::new();
        let mut i: usize = 0;
        proof {
            assert(ps.take(0).filter(ready) =~= Seq::<(Seq<char>, Depth, u64)>::empty());
            assert(ps.take(0).filter(waiting) =~= Seq::<(Seq<char>, Depth, u64)>::empty());
        }
        while i < self.pending.len()
            invariant
                i <= self.pending.len(),
                ps == self.pending_spec(),
                ready == (|p: (Seq<char>, Depth, u64)| is_ready(p, now_ms, debounce_ms)),
                waiting == (|p: (Seq<char>, Depth, u64)| !is_ready(p, now_ms, debounce_ms)),
                out@.map_values(|x: (String, Depth)| (x.0@, x.1)) == ps.take(i as int).filter(ready).map_values(
                    |p: (Seq<char>, Depth, u64)| (p.0, p.1),
                ),
                rest@.map_values(|p: Pending| pending_view(p)) == ps.take(i as int).filter(waiting),
            decreases self.pending.len() - i,
        {
            let p = &self.pending[i];
            proof {
                assert(ps[i as int] == pending_view(*p));
                assert(ps.take(i + 1) =~= ps.take(i as int).push(ps[i as int]));
                ps.take(i as int).lemma_filter_push(ps[i as int], ready);
                ps.take(i as int).lemma_filter_push(ps[i as int], waiting);
            }
            let waited = if now_ms >= p.first_seen_ms {
                now_ms - p.first_seen_ms
            } else {
                0
            };
            let ghost ob = out@;
            let ghost rb = rest@;
            if waited >= debounce_ms {
                out.push((p.dir.clone(), p.depth));
                proof {
                    assert(out@.map_values(|x: (String, Depth)| (x.0@, x.1)) =~= ob.map_values(
                        |x: (String, Depth)| (x.0@, x.1),
                    ).push((ps[i as int].0, ps[i as int].1)));
                }
            } else {
                rest.push(Pending { dir: p.dir.clone(), depth: p.depth, first_seen_ms: p.first_seen_ms });
                proof {
                    assert(rest@.map_values(|p: Pending| pending_view(p)) =~= rb.map_values(|p: Pending| pending_view(p)).push(ps[i as int]));
                }
            }
            i = i + 1;
        }
        proof {
            assert(ps.take(self.pending.len() as int) =~= ps);
        }
        self.pending = rest;
        proof {
            let f = ps.filter(waiting);
            assert forall|a: int, b: int| 0 <= a < b < f.len() implies !same_path(#[trigger] f[a].0, #[trigger] f[b].0) by {
                lemma_filter_keeps_order(ps, waiting, a, b);
            }
        }
        out
    }

    /// The scopes the debouncer has ready: each ready directory under the
    /// first root that holds it, at its depth. Directories under no root are
    /// dropped.
    pub fn ready_scopes(&mut self, now_ms: u64, debounce_ms: u64, roots: &Vec<String>) -> (r: Vec<Scope>)
        requires
            old(self).wf(),
        ensures
            final(self).wf(),
            final(self).rescan_spec() == old(self).rescan_spec(),
            final(self).pending_spec() == old(self).pending_spec().filter(
                |p: (Seq<char>, Depth, u64)| !is_ready(p, now_ms, debounce_ms),
            ),
            r@.map_values(|s: Scope| (s.root@, s.path@, s.depth)) == scopes_of(
                old(self).pending_spec().filter(|p: (Seq<char>, Depth, u64)| is_ready(p, now_ms, debounce_ms)),
                roots@.map_values(|s: String| s@),
            ),
    {
        let ready = self.take_ready(now_ms, debounce_ms);
        let ghost rv = roots@.map_values(|s: String| s@);
        let ghost rs = ready@.map_values(|x: (String, Depth)| (x.0@, x.1));
        let ghost whole = old(self).pending_spec().filter(|p: (Seq<char>, Depth, u64)| is_ready(p, now_ms, debounce_ms));
        proof {
            assert(rs == whole.map_values(|p: (Seq<char>, Depth, u64)| (p.0, p.1)));
            assert(rs.len() == ready@.len());
            assert(whole.take(0) =~= Seq::<(Seq<char>, Depth, u64)>::empty());
        }
        let mut out: Vec<Scope> = Vec::new();
        let mut i: usize = 0;
        while i < ready.len()
            invariant
                i <= ready.len(),
                rv == roots@.map_values(|s: String| s@),
                rs == ready@.map_values(|x: (String, Depth)| (x.0@, x.1)),
                rs == whole.map_values(|p: (Seq<char>, Depth, u64)| (p.0, p.1)),
                ready@.len() == whole.len(),
                out@.map_values(|s: Scope| (s.root@, s.path@, s.depth)) == scopes_of(whole.take(i as int), rv),
            decreases ready.len() - i,
        {
            let ghost before = out@;
            proof {
                assert(rs[i as int] == (ready@[i as int].0@, ready@[i as int].1));
                assert(whole.take(i + 1).drop_last() =~= whole.take(i as int));
                assert(whole.take(i + 1).last() == whole[i as int]);
            }
            match root_for(roots, ready[i].0.as_str()) {
                Some(root) => {
                    out.push(Scope::folder(root.as_str(), ready[i].0.as_str(), ready[i].1));
                    proof {
                        assert(out@.map_values(|s: Scope| (s.root@, s.path@, s.depth)) =~= before.map_values(
                            |s: Scope| (s.root@, s.path@, s.depth),
                        ).push((root@, whole[i as int].0, whole[i as int].1)));
                    }
                },
                None => {},
            }
            i = i + 1;
        }
        proof {
            assert(whole.take(ready.len() as int) =~= whole);
        }
        out
    }
}

/// The scopes for ready directories: each under the first root holding it.
pub open spec fn scopes_of(ready: Seq<(Seq<char>, Depth, u64)>, roots: Seq<Seq<char>>) -> Seq<(Seq<char>, Seq<char>, Depth)>
    decreases ready.len(),
{
    if ready.len() == 0 {
        Seq::empty()
    } else {
        let p = ready.last();
        let before = scopes_of(ready.drop_last(), roots);
        match root_for_of(roots, p.0) {
            Some(root) => before.push((root, p.0, p.1)),
            None => before,
        }
    }
}

/// Filtering keeps the order of what it keeps.
proof fn lemma_filter_keeps_order(
    ps: Seq<(Seq<char>, Depth, u64)>,
    pred: spec_fn((Seq<char>, Depth, u64)) -> bool,
    a: int,
    b: int,
)
    requires
        distinct_dirs(ps),
        0 <= a < b < ps.filter(pred).len(),
    ensures
        !same_path(ps.filter(pred)[a].0, ps.filter(pred)[b].0),
    decreases ps.len(),
{
    let f = ps.filter(pred);
    if ps.len() == 0 {
        assert(f.len() == 0);
    } else {
        let init = ps.drop_last();
        assert(ps =~= init.push(ps.last()));
        init.lemma_filter_push(ps.last(), pred);
        assert(distinct_dirs(init)) by {
            assert forall|i: int, j: int| 0 <= i < j < init.len() implies !same_path(#[trigger] init[i].0, #[trigger] init[j].0) by {
                assert(init[i] == ps[i] && init[j] == ps[j]);
            }
        }
        let fi = init.filter(pred);
        if pred(ps.last()) && b == f.len() - 1 {
            assert(f[b] == ps.last());
            assert(f[a] == fi[a]);
            assert(fi.contains(fi[a]));
            init.lemma_filter_contains_rev(pred, fi[a]);
            assert(init.contains(fi[a]));
            let k = choose|k: int| 0 <= k < init.len() && init[k] == fi[a];
            assert(ps[k] == init[k]);
            assert(!same_path(ps[k].0, ps[ps.len() - 1].0));
        } else {
            assert(f[a] == fi[a]);
            assert(f[b] == fi[b]);
            lemma_filter_keeps_order(init, pred, a, b);
        }
    }
}

/// Noting a change never narrows and never forgets. Every directory pending
/// before stays pending in its place with its first sighting, at the same
/// depth or widened to the subtree, so a subtree stays a subtree; only the
/// noted directory can change, and it widens when the change asks for the
/// subtree. A directory not yet pending is added last, from `now`, at the
/// depth asked.
pub proof fn noting_never_narrows(ps: Seq<(Seq<char>, Depth, u64)>, dir: Seq<char>, depth: Depth, now: u64)
    requires
        distinct_dirs(ps),
    ensures
        ps.len() <= note_of(ps, dir, depth, now).len() <= ps.len() + 1,
        forall|i: int|
            0 <= i < ps.len() ==> {
                let q = #[trigger] note_of(ps, dir, depth, now)[i];
                &&& q.0 == ps[i].0
                &&& q.2 == ps[i].2
                &&& (q.1 == ps[i].1 || q.1 == Depth::Subtree)
                &&& (ps[i].1 == Depth::Subtree ==> q.1 == Depth::Subtree)
                &&& (!same_path(ps[i].0, dir) ==> q == ps[i])
                &&& (same_path(ps[i].0, dir) && depth == Depth::Subtree ==> q.1 == Depth::Subtree)
            },
        (forall|i: int| 0 <= i < ps.len() ==> !same_path(#[trigger] ps[i].0, dir)) ==> note_of(ps, dir, depth, now)
            == ps.push((dir, depth, now)),
        exists|j: int|
            0 <= j < note_of(ps, dir, depth, now).len() && same_path(#[trigger] note_of(ps, dir, depth, now)[j].0, dir)
                && (depth == Depth::Subtree ==> note_of(ps, dir, depth, now)[j].1 == Depth::Subtree),
{
    let q = note_of(ps, dir, depth, now);
    if exists|i: int| 0 <= i < ps.len() && same_path(ps[i].0, dir) {
        let c = choose|i: int| 0 <= i < ps.len() && same_path(ps[i].0, dir);
        assert(same_path(q[c].0, dir));
        assert forall|i: int| 0 <= i < ps.len() && i != c implies !same_path(#[trigger] ps[i].0, dir) by {
            if i < c {
                assert(!same_path(ps[i].0, ps[c].0));
            } else {
                assert(!same_path(ps[c].0, ps[i].0));
            }
        }
    } else {
        let j = ps.len() as int;
        assert(q[j] == (dir, depth, now));
        assert(same_path(q[j].0, dir));
    }
}

} // verus!
