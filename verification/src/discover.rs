//! Walking a scope in a stable order, one directory at a time.
//!
//! Directories come out in sorted pre-order so a resume cursor is just "the
//! last directory finished". Each directory carries its audio candidates
//! (extension-filtered, with size and modification time) and its full file
//! name list, which the sidecar resolver reuses so no directory is listed
//! twice. The walk decides; its caller lists directories and hands the
//! listings in.
use vstd::prelude::*;

use globset::GlobSet;

use crate::comps_order::{all_after, comps_prefix, components_less, lemma_stack_pop, lemma_stack_push_children, none_under, stack_ordered};
use crate::excludes::{globs_match, set_is_empty, set_matches, set_patterns};
use crate::format::{is_candidate_extension, Format};
use crate::io::{IoError, IoErrorKind};
use crate::multi_value::{string_views, views};
use crate::order::{insert_sorted, join, join_chars, lex_lt, sorted_set, strictly_sorted, lemma_sorted_set};
use crate::paths::{components, components_lt, is_entry_name, lemma_join_components, extension, extension_of_name, file_name, file_name_of, path_components, path_starts_with, starts_with_path};
use crate::sidecar::join_of;
use crate::text::{ascii_lower_chars, ascii_lower_seq, chars_eq, chars_of, owned, slice_chars, string_from_chars};
use crate::types::{Depth, Scope};

verus! {

/// An audio candidate: passed the extension filter, not yet opened.
#[derive(Debug, Clone, PartialEq, Eq)]
pub struct Candidate {
    pub path: String,
    pub size: u64,
    pub mtime_ms: u64,
}

/// One directory's listing.
#[derive(Debug, Clone, PartialEq, Eq)]
pub struct Directory {
    pub path: String,
    pub candidates: Vec<Candidate>,
    /// Every regular file's name, sorted, each once.
    pub files: Vec<String>,
}

/// A directory that could not be listed. Reported as a problem on the
/// directory path; the walk continues.
#[derive(Debug, Clone, PartialEq, Eq)]
pub struct WalkError {
    pub path: String,
    pub error: IoError,
}

pub enum WalkItem {
    Directory(Directory),
    Error(WalkError),
}

/// Why a root is unusable right now.
#[derive(Debug, Clone, PartialEq, Eq)]
pub enum RootUnavailable {
    /// `stat` failed: unmounted, permission denied, gone; or not a
    /// directory.
    Inaccessible(IoError),
    /// Listed fine but held nothing at all. Far more often an unmounted share
    /// than a deleted collection.
    Empty,
}

/// Whether a root answers, from what `stat` said (whether it is a
/// directory) and, for a directory, what listing it said (whether it holds
/// any entry).
pub fn root_status(stat: Result<bool, IoError>, listing: Result<bool, IoError>) -> (r: Result<(), RootUnavailable>)
    ensures
        match stat {
            Err(e) => r == Err::<(), RootUnavailable>(RootUnavailable::Inaccessible(e)),
            Ok(false) => r matches Err(RootUnavailable::Inaccessible(e)) && e.kind == IoErrorKind::Other
                && e.message@ == "root is not a directory"@,
            Ok(true) => match listing {
                Err(e) => r == Err::<(), RootUnavailable>(RootUnavailable::Inaccessible(e)),
                Ok(false) => r == Err::<(), RootUnavailable>(RootUnavailable::Empty),
                Ok(true) => r is Ok,
            },
        },
{
    match stat {
        Err(e) => Err(RootUnavailable::Inaccessible(e)),
        Ok(false) => {
            let message = owned("root is not a directory");
            Err(RootUnavailable::Inaccessible(IoError { kind: IoErrorKind::Other, message }))
        },
        Ok(true) => match listing {
            Err(e) => Err(RootUnavailable::Inaccessible(e)),
            Ok(false) => Err(RootUnavailable::Empty),
            Ok(true) => Ok(()),
        },
    }
}

/// The extension filter: the only test a file must pass to be opened. Its
/// extension, in ASCII lowercase, must be one a supported format may have.
pub open spec fn is_candidate_of(path: Seq<char>) -> bool {
    match file_name_of(path) {
        Some(n) => match extension_of_name(n) {
            Some(e) => is_candidate_extension(ascii_lower_seq(e)),
            None => false,
        },
        None => false,
    }
}

pub fn is_candidate(path: &str) -> (r: bool)
    ensures
        r == is_candidate_of(path@),
{
    let chars = chars_of(path);
    match file_name(&chars) {
        Some(n) => match extension(&n) {
            Some(e) => {
                let lower = string_from_chars(&ascii_lower_chars(&e));
                Format::extension_is_candidate(lower.as_str())
            },
            None => false,
        },
        None => false,
    }
}

/// Where a directory sits relative to a resume cursor in traversal order.
#[derive(Debug, Clone, Copy, PartialEq, Eq, Structural)]
pub enum Position {
    /// Already persisted by the interrupted run; do not yield or descend.
    Done,
    /// The cursor directory or an ancestor of it: already persisted, but
    /// descend to reach children and siblings after it.
    Ancestor,
    /// Not yet visited.
    After,
}

/// The position of `dir` with respect to the cursor `resume`.
pub open spec fn position_of(resume: Option<Seq<char>>, dir: Seq<char>) -> Position {
    match resume {
        None => Position::After,
        Some(c) => if path_starts_with(c, dir) {
            Position::Ancestor
        } else if components_lt(components(dir), components(c)) {
            Position::Done
        } else {
            Position::After
        },
    }
}

/// A resumed walk gives only directories after the cursor in traversal
/// order: the cursor itself and what comes before it are done or only
/// descended through.
pub proof fn resumed_walk_gives_only_later_directories(cursor: Seq<char>, dir: Seq<char>)
    requires
        position_of(Some(cursor), dir) == Position::After,
    ensures
        components_lt(components(cursor), components(dir)),
{
    crate::comps_order::lemma_comps_total(components(cursor), components(dir));
    if components(cursor) == components(dir) {
        assert(components(cursor).take(components(dir).len() as int) =~= components(dir));
    }
}

/// Where `dir` sits relative to the cursor `resume` in traversal order.
pub fn cursor_position(resume: Option<&str>, dir: &str) -> (p: Position)
    ensures
        p == position_of(opt_view(resume), dir@),
{
    match resume {
        None => Position::After,
        Some(cursor) => {
            if starts_with_path(cursor, dir) {
                return Position::Ancestor;
            }
            let a = path_components(&chars_of(dir));
            let b = path_components(&chars_of(cursor));
            if components_less(&a, &b) {
                Position::Done
            } else {
                Position::After
            }
        },
    }
}

pub open spec fn opt_view(s: Option<&str>) -> Option<Seq<char>> {
    match s {
        Some(x) => Some(x@),
        None => None,
    }
}

/// `path` relative to `root`: the components after the root's, joined by
/// `/`, or the path itself when it is not under the root.
pub open spec fn relative_of(root: Seq<char>, path: Seq<char>) -> Seq<char> {
    if path_starts_with(path, root) {
        join(components(path).skip(components(root).len() as int), seq!['/'])
    } else {
        path
    }
}

/// Whether the exclude patterns drop `path`.
pub open spec fn excluded_of(globs: Seq<Seq<char>>, root: Seq<char>, path: Seq<char>) -> bool {
    globs.len() > 0 && globs_match(globs, relative_of(root, path))
}

fn relative(root: &str, path: &str) -> (r: String)
    ensures
        r@ == relative_of(root@, path@),
{
    if starts_with_path(path, root) {
        let pc = path_components(&chars_of(path));
        let rc = path_components(&chars_of(root));
        let mut rest: Vec<Vec<char>> = Vec::new();
        let mut i = rc.len();
        while i < pc.len()
            invariant
                rc.len() <= i <= pc.len(),
                views(rest@) == views(pc@).subrange(rc.len() as int, i as int),
            decreases pc.len() - i,
        {
            let ghost before = views(rest@);
            rest.push(slice_chars(&pc[i], 0, pc[i].len()));
            proof {
                assert(pc@[i as int]@.subrange(0, pc@[i as int]@.len() as int) =~= pc@[i as int]@);
                assert(views(rest@) =~= before.push(pc@[i as int]@));
                assert(views(pc@).subrange(rc.len() as int, i + 1) =~= views(pc@).subrange(
                    rc.len() as int,
                    i as int,
                ).push(pc@[i as int]@));
            }
            i = i + 1;
        }
        proof {
            assert(views(pc@).subrange(rc.len() as int, pc.len() as int) =~= views(pc@).skip(
                rc.len() as int,
            ));
            assert(rest@.map_values(|e: Vec<char>| e@) =~= views(rest@));
        }
        string_from_chars(&join_chars(&rest, '/'))
    } else {
        owned(path)
    }
}

/// An entry of a directory listing: a subdirectory, or a regular file (or
/// a link to one) with its size and modification time.
#[derive(Debug, Clone, PartialEq, Eq)]
pub enum EntryKind {
    Directory,
    File { size: u64, mtime_ms: u64 },
}

#[derive(Debug, Clone, PartialEq, Eq)]
pub struct DirEntry {
    pub name: String,
    pub kind: EntryKind,
}

/// Walks a scope, skipping directories at or before `resume_after` in
/// traversal order.
pub struct Walk<'a> {
    scope: &'a Scope,
    excludes: &'a GlobSet,
    resume_after: Option<&'a str>,
    /// Directories still to visit, the next one last (depth-first).
    stack: Vec<String>,
    /// The directory given last, by components.
    last: Ghost<Option<Seq<Seq<char>>>>,
    /// Whether its listing is still to come.
    open: Ghost<bool>,
}

/// Take directories off the top of `stack` until one is not already done.
pub open spec fn next_of(stack: Seq<Seq<char>>, resume: Option<Seq<char>>) -> (Seq<Seq<char>>, Option<(Seq<char>, Position)>)
    decreases stack.len(),
{
    if stack.len() == 0 {
        (stack, None)
    } else {
        let d = stack.last();
        let p = position_of(resume, d);
        if p == Position::Done {
            next_of(stack.drop_last(), resume)
        } else {
            (stack.drop_last(), Some((d, p)))
        }
    }
}

/// The names of the subdirectories in `es` the walk descends into.
#[verifier::opaque]
pub open spec fn subdir_names(es: Seq<DirEntry>, dir: Seq<char>, scope: Scope, globs: Seq<Seq<char>>) -> Set<Seq<char>> {
    Set::new(|n: Seq<char>| exists|i: int| 0 <= i < es.len() && es[i].name@ == n && es[i].kind is Directory
        && scope.depth == Depth::Subtree && !excluded_of(globs, scope.root@, join_of(dir, n)))
}

/// The names of the files in `es`.
#[verifier::opaque]
pub open spec fn file_names(es: Seq<DirEntry>) -> Set<Seq<char>> {
    Set::new(|n: Seq<char>| exists|i: int| 0 <= i < es.len() && es[i].name@ == n && es[i].kind is File)
}

/// The names of the files in `es` that are audio candidates.
#[verifier::opaque]
pub open spec fn candidate_names(es: Seq<DirEntry>, dir: Seq<char>, scope: Scope, globs: Seq<Seq<char>>) -> Set<Seq<char>> {
    Set::new(|n: Seq<char>| exists|i: int| 0 <= i < es.len() && es[i].name@ == n && es[i].kind is File
        && is_candidate_of(join_of(dir, n)) && !excluded_of(globs, scope.root@, join_of(dir, n)))
}

/// Whether `es` holds a file named `n`.
pub open spec fn has_file(es: Seq<DirEntry>, n: Seq<char>) -> bool {
    exists|x: int| 0 <= x < es.len() && es[x].name@ == n && es[x].kind is File
}

/// The first file entry of `es` named `n`.
pub open spec fn first_file(es: Seq<DirEntry>, n: Seq<char>) -> int {
    choose|i: int| 0 <= i < es.len() && es[i].name@ == n && es[i].kind is File && forall|k: int| 0 <= k < i ==> !(es[k].name@ == n && es[k].kind is File)
}

/// `c` is the candidate for the file named `n` in `dir`: its path, and the
/// size and time of the first file entry of that name.
pub open spec fn candidate_for(c: Candidate, dir: Seq<char>, es: Seq<DirEntry>, n: Seq<char>) -> bool {
    let e = es[first_file(es, n)];
    &&& c.path@ == join_of(dir, n)
    &&& e.kind matches EntryKind::File { size, mtime_ms }
    &&& c.size == size
    &&& c.mtime_ms == mtime_ms
}

proof fn lemma_names_step(es: Seq<DirEntry>, i: int, dir: Seq<char>, scope: Scope, globs: Seq<Seq<char>>)
    requires
        0 <= i < es.len(),
    ensures
        ({
            let pre = es.take(i);
            let post = es.take(i + 1);
            let e = es[i];
            let n = e.name@;
            let path = join_of(dir, n);
            &&& subdir_names(post, dir, scope, globs) == if e.kind is Directory && scope.depth == Depth::Subtree
                && !excluded_of(globs, scope.root@, path) {
                subdir_names(pre, dir, scope, globs).insert(n)
            } else {
                subdir_names(pre, dir, scope, globs)
            }
            &&& file_names(post) == if e.kind is File {
                file_names(pre).insert(n)
            } else {
                file_names(pre)
            }
            &&& candidate_names(post, dir, scope, globs) == if e.kind is File && is_candidate_of(path)
                && !excluded_of(globs, scope.root@, path) {
                candidate_names(pre, dir, scope, globs).insert(n)
            } else {
                candidate_names(pre, dir, scope, globs)
            }
        }),
{
    reveal(subdir_names);
    reveal(file_names);
    reveal(candidate_names);
    let pre = es.take(i);
    let post = es.take(i + 1);
    assert(post[i] == es[i]);
    assert forall|k: int| 0 <= k < i implies post[k] == pre[k] by {}
    let e = es[i];
    let n = e.name@;
    let path = join_of(dir, n);
    let a = subdir_names(post, dir, scope, globs);
    let b = if e.kind is Directory && scope.depth == Depth::Subtree && !excluded_of(globs, scope.root@, path) {
        subdir_names(pre, dir, scope, globs).insert(n)
    } else {
        subdir_names(pre, dir, scope, globs)
    };
    assert forall|x: Seq<char>| a.contains(x) <==> b.contains(x) by {
        if a.contains(x) {
            let k = choose|k: int| 0 <= k < post.len() && post[k].name@ == x && post[k].kind is Directory
                && scope.depth == Depth::Subtree && !excluded_of(globs, scope.root@, join_of(dir, x));
            if k < i {
                assert(pre[k] == post[k]);
            }
        }
        if subdir_names(pre, dir, scope, globs).contains(x) {
            let k = choose|k: int| 0 <= k < pre.len() && pre[k].name@ == x && pre[k].kind is Directory
                && scope.depth == Depth::Subtree && !excluded_of(globs, scope.root@, join_of(dir, x));
            assert(post[k] == pre[k]);
        }
    }
    assert(a =~= b);
    let a = file_names(post);
    let b = if e.kind is File {
        file_names(pre).insert(n)
    } else {
        file_names(pre)
    };
    assert forall|x: Seq<char>| a.contains(x) <==> b.contains(x) by {
        if a.contains(x) {
            let k = choose|k: int| 0 <= k < post.len() && post[k].name@ == x && post[k].kind is File;
            if k < i {
                assert(pre[k] == post[k]);
            }
        }
        if file_names(pre).contains(x) {
            let k = choose|k: int| 0 <= k < pre.len() && pre[k].name@ == x && pre[k].kind is File;
            assert(post[k] == pre[k]);
        }
    }
    assert(a =~= b);
    let a = candidate_names(post, dir, scope, globs);
    let b = if e.kind is File && is_candidate_of(path) && !excluded_of(globs, scope.root@, path) {
        candidate_names(pre, dir, scope, globs).insert(n)
    } else {
        candidate_names(pre, dir, scope, globs)
    };
    assert forall|x: Seq<char>| a.contains(x) <==> b.contains(x) by {
        if a.contains(x) {
            let k = choose|k: int| 0 <= k < post.len() && post[k].name@ == x && post[k].kind is File
                && is_candidate_of(join_of(dir, x)) && !excluded_of(globs, scope.root@, join_of(dir, x));
            if k < i {
                assert(pre[k] == post[k]);
            }
        }
        if candidate_names(pre, dir, scope, globs).contains(x) {
            let k = choose|k: int| 0 <= k < pre.len() && pre[k].name@ == x && pre[k].kind is File
                && is_candidate_of(join_of(dir, x)) && !excluded_of(globs, scope.root@, join_of(dir, x));
            assert(post[k] == pre[k]);
        }
    }
    assert(a =~= b);
}

impl<'a> Walk<'a> {
    pub closed spec fn pending(&self) -> Seq<Seq<char>> {
        string_views(self.stack@)
    }

    pub closed spec fn scope_of(&self) -> Scope {
        *self.scope
    }

    pub closed spec fn globs(&self) -> Seq<Seq<char>> {
        set_patterns(*self.excludes)
    }

    pub closed spec fn resume(&self) -> Option<Seq<char>> {
        opt_view(self.resume_after)
    }

    /// The directories still to visit, by components, the next one last.
    pub closed spec fn comp_stack(&self) -> Seq<Seq<Seq<char>>> {
        self.pending().map_values(|p: Seq<char>| components(p))
    }

    /// The directory given last, by components.
    pub closed spec fn last_given(&self) -> Option<Seq<Seq<char>>> {
        self.last@
    }

    /// Whether the listing of `dir`, the directory given last, is due.
    pub closed spec fn listing_due(&self, dir: Seq<char>) -> bool {
        self.open@ && self.last@ == Some(components(dir))
    }

    /// The walk's order holds: what is still to visit is in depth-first
    /// order and comes after the directory given last.
    pub closed spec fn ordered(&self) -> bool {
        &&& stack_ordered(self.comp_stack())
        &&& (self.last@ matches Some(l) ==> all_after(l, self.comp_stack()))
        &&& (self.open@ ==> (self.last@ matches Some(l) && none_under(l, self.comp_stack())))
    }

    pub fn new(scope: &'a Scope, excludes: &'a GlobSet, resume_after: Option<&'a str>) -> (w: Walk<'a>)
        ensures
            w.pending() == seq![scope.path@],
            w.scope_of() == *scope,
            w.globs() == set_patterns(*excludes),
            w.resume() == opt_view(resume_after),
            w.ordered(),
            w.last_given() is None,
    {
        let mut stack: Vec<String> = Vec::new();
        stack.push(scope.path.clone());
        let w = Walk { scope, excludes, resume_after, stack, last: Ghost(None), open: Ghost(false) };
        proof {
            assert(w.pending() =~= seq![scope.path@]);
            assert(w.comp_stack().len() == 1);
        }
        w
    }

    fn excluded(&self, path: &str) -> (r: bool)
        ensures
            r == excluded_of(self.globs(), self.scope_of().root@, path@),
    {
        if set_is_empty(self.excludes) {
            return false;
        }
        let rel = relative(self.scope.root.as_str(), path);
        set_matches(self.excludes, rel.as_str())
    }

    /// The next directory to list and where it sits relative to the cursor.
    /// Directories already done are dropped without listing them.
    pub fn next_dir(&mut self) -> (r: Option<(String, Position)>)
        requires
            old(self).ordered(),
        ensures
            final(self).scope_of() == old(self).scope_of(),
            final(self).globs() == old(self).globs(),
            final(self).resume() == old(self).resume(),
            final(self).pending() == next_of(old(self).pending(), old(self).resume()).0,
            match next_of(old(self).pending(), old(self).resume()).1 {
                Some((d, p)) => r matches Some((s, q)) && s@ == d && q == p,
                None => r is None,
            },
            final(self).ordered(),
            r matches Some((s, _)) ==> final(self).listing_due(s@) && final(self).last_given() == Some(
                components(s@),
            ),
            r is None ==> final(self).last_given() == old(self).last_given(),
            r matches Some((s, _)) ==> match old(self).last_given() {
                Some(l) => components_lt(l, components(s@)),
                None => true,
            },
    {
        loop
            invariant
                self.scope_of() == old(self).scope_of(),
                self.globs() == old(self).globs(),
                self.resume() == old(self).resume(),
                next_of(self.pending(), self.resume()) == next_of(old(self).pending(), old(self).resume()),
                self.ordered(),
                self.last@ == old(self).last@,
            decreases self.stack@.len(),
        {
            let ghost before = self.pending();
            let ghost cb = self.comp_stack();
            let dir = match self.stack.pop() {
                Some(d) => d,
                None => {
                    return None;
                },
            };
            proof {
                assert(self.pending() =~= before.drop_last());
                assert(before.last() == dir@);
                assert(self.comp_stack() =~= cb.drop_last());
                assert(cb.last() == components(dir@));
                lemma_stack_pop(cb);
                if self.last@ is Some {
                    let l = self.last@->0;
                    assert(components_lt(l, cb[cb.len() - 1]));
                    assert forall|i: int| 0 <= i < self.comp_stack().len() implies components_lt(
                        l,
                        #[trigger] self.comp_stack()[i],
                    ) by {
                        assert(self.comp_stack()[i] == cb[i]);
                    }
                }
                if self.open@ {
                    let l = self.last@->0;
                    assert forall|i: int| 0 <= i < self.comp_stack().len() implies !comps_prefix(
                        l,
                        #[trigger] self.comp_stack()[i],
                    ) by {
                        assert(self.comp_stack()[i] == cb[i]);
                    }
                }
            }
            let position = cursor_position(self.resume_after, dir.as_str());
            if position != Position::Done {
                self.last = Ghost(Some(components(dir@)));
                self.open = Ghost(true);
                return Some((dir, position));
            }
        }
    }

    /// Take the listing of `dir`, found at `position`: queue its
    /// subdirectories (for a subtree scope, not excluded) so they come next
    /// in name order, and give the directory with its candidates and file
    /// names. An ancestor of the cursor is descended but not given.
    pub fn accept_listing(&mut self, dir: &str, position: Position, entries: &Vec<DirEntry>) -> (r: Option<Directory>)
        requires
            old(self).ordered(),
            old(self).listing_due(dir@),
            forall|i: int| 0 <= i < entries@.len() ==> is_entry_name(#[trigger] entries@[i].name@),
        ensures
            final(self).ordered(),
            !final(self).listing_due(dir@),
            final(self).last_given() == old(self).last_given(),
            final(self).scope_of() == old(self).scope_of(),
            final(self).globs() == old(self).globs(),
            final(self).resume() == old(self).resume(),
            ({
                let subs = sorted_set(subdir_names(entries@, dir@, old(self).scope_of(), old(self).globs()));
                final(self).pending() == old(self).pending() + subs.reverse().map_values(|n: Seq<char>| join_of(dir@, n))
            }),
            position == Position::Ancestor ==> r is None,
            position != Position::Ancestor ==> (r matches Some(d) && ({
                let names = sorted_set(candidate_names(entries@, dir@, old(self).scope_of(), old(self).globs()));
                &&& d.path@ == dir@
                &&& string_views(d.files@) == sorted_set(file_names(entries@))
                &&& d.candidates@.len() == names.len()
                &&& forall|k: int| 0 <= k < names.len() ==> candidate_for(#[trigger] d.candidates@[k], dir@, entries@, names[k])
            })),
    {
        let ghost before = self.comp_stack();
        let ghost d = components(dir@);
        let (subs, files, cands) = self.sort_listing(dir, entries);
        self.push_subdirs(dir, &subs);
        self.open = Ghost(false);
        proof {
            let sv = views(subs@);
            let t = sv.reverse().map_values(|n: Seq<char>| join_of(dir@, n));
            assert forall|k: int| 0 <= k < sv.len() implies is_entry_name(#[trigger] sv[k]) by {
                reveal(subdir_names);
                assert(sv.to_set().contains(sv[k]));
                let i = choose|i: int| 0 <= i < entries@.len() && entries@[i].name@ == sv[k] && entries@[i].kind is Directory
                    && self.scope_of().depth == Depth::Subtree && !excluded_of(self.globs(), self.scope_of().root@, join_of(dir@, sv[k]));
                assert(is_entry_name(entries@[i].name@));
            }
            assert(self.comp_stack() =~= before + sv.reverse().map_values(|n: Seq<char>| d.push(n))) by {
                assert forall|k: int| 0 <= k < t.len() implies components(#[trigger] t[k]) == d.push(sv.reverse()[k]) by {
                    assert(sv.reverse()[k] == sv[sv.len() - 1 - k]);
                    lemma_join_components(dir@, sv.reverse()[k]);
                }
            }
            lemma_stack_push_children(before, d, sv);
        }
        if position == Position::Ancestor {
            return None;
        }
        proof {
            reveal(candidate_names);
            let cn = candidate_names(entries@, dir@, self.scope_of(), self.globs());
            assert forall|q: int| 0 <= q < cands@.len() implies has_file(entries@, #[trigger] cands@[q]@) by {
                assert(views(cands@)[q] == cands@[q]@);
                assert(views(cands@).to_set().contains(views(cands@)[q]));
                assert(cn.contains(cands@[q]@));
            }
        }
        let candidates = candidates_from(dir, entries, &cands);
        proof {
            assert forall|k: int| 0 <= k < cands@.len() implies views(cands@)[k] == cands@[k]@ by {}
        }
        let names = strings_from(&files);
        Some(Directory { path: owned(dir), candidates, files: names })
    }

    /// The names of the subdirectories to descend, of the files, and of the
    /// candidates in a listing, each sorted and once.
    fn sort_listing(&self, dir: &str, entries: &Vec<DirEntry>) -> (r: (Vec<Vec<char>>, Vec<Vec<char>>, Vec<Vec<char>>))
        ensures
            views(r.0@) == sorted_set(subdir_names(entries@, dir@, self.scope_of(), self.globs())),
            strictly_sorted(views(r.0@)),
            views(r.0@).to_set() == subdir_names(entries@, dir@, self.scope_of(), self.globs()),
            views(r.1@) == sorted_set(file_names(entries@)),
            views(r.2@) == sorted_set(candidate_names(entries@, dir@, self.scope_of(), self.globs())),
            views(r.2@).to_set() == candidate_names(entries@, dir@, self.scope_of(), self.globs()),
    {
        let ghost scope = self.scope_of();
        let ghost globs = self.globs();
        let ghost es = entries@;
        let mut subs: Vec<Vec<char>> = Vec::new();
        let mut files: Vec<Vec<char>> = Vec::new();
        let mut cands: Vec<Vec<char>> = Vec::new();
        proof {
            reveal(subdir_names);
            reveal(file_names);
            reveal(candidate_names);
            assert(views(subs@).to_set() =~= subdir_names(es.take(0), dir@, scope, globs));
            assert(views(files@).to_set() =~= file_names(es.take(0)));
            assert(views(cands@).to_set() =~= candidate_names(es.take(0), dir@, scope, globs));
        }
        let mut i: usize = 0;
        while i < entries.len()
            invariant
                i <= entries.len(),
                es == entries@,
                scope == self.scope_of(),
                globs == self.globs(),
                strictly_sorted(views(subs@)),
                strictly_sorted(views(files@)),
                strictly_sorted(views(cands@)),
                views(subs@).to_set() == subdir_names(es.take(i as int), dir@, scope, globs),
                views(files@).to_set() == file_names(es.take(i as int)),
                views(cands@).to_set() == candidate_names(es.take(i as int), dir@, scope, globs),
            decreases entries.len() - i,
        {
            let e = &entries[i];
            let ghost n = e.name@;
            let ghost pre = es.take(i as int);
            let ghost post = es.take(i + 1);
            proof {
                lemma_names_step(es, i as int, dir@, scope, globs);
            }
            let path = crate::sidecar::join(dir, e.name.as_str());
            match &e.kind {
                EntryKind::Directory => {
                    let keep = self.scope.depth == Depth::Subtree && !self.excluded(path.as_str());
                    if keep {
                        insert_sorted(&mut subs, chars_of(e.name.as_str()));
                    }
                    proof {
                        assert(views(subs@) =~= subs@.map_values(|v: Vec<char>| v@));
                    }
                },
                EntryKind::File { .. } => {
                    insert_sorted(&mut files, chars_of(e.name.as_str()));
                    let keep = is_candidate(path.as_str()) && !self.excluded(path.as_str());
                    if keep {
                        insert_sorted(&mut cands, chars_of(e.name.as_str()));
                    }
                    proof {
                        assert(views(files@) =~= files@.map_values(|v: Vec<char>| v@));
                        assert(views(cands@) =~= cands@.map_values(|v: Vec<char>| v@));
                    }
                },
            }
            i = i + 1;
        }
        proof {
            assert(es.take(entries.len() as int) =~= es);
            lemma_sorted_set(views(subs@));
            lemma_sorted_set(views(files@));
            lemma_sorted_set(views(cands@));
        }
        (subs, files, cands)
    }

    /// Queue the subdirectories so the first by name comes next.
    fn push_subdirs(&mut self, dir: &str, subs: &Vec<Vec<char>>)
        ensures
            final(self).scope_of() == old(self).scope_of(),
            final(self).globs() == old(self).globs(),
            final(self).resume() == old(self).resume(),
            final(self).pending() == old(self).pending() + views(subs@).reverse().map_values(|n: Seq<char>| join_of(dir@, n)),
            final(self).last == old(self).last,
            final(self).open == old(self).open,
    {
        let ghost before = self.pending();
        let ghost sv = views(subs@);
        let mut k = subs.len();
        proof {
            assert(sv.skip(k as int).reverse().map_values(|n: Seq<char>| join_of(dir@, n)) =~= Seq::<Seq<char>>::empty());
            assert(self.pending() =~= before + Seq::<Seq<char>>::empty());
        }
        while k > 0
            invariant
                k <= subs.len(),
                sv == views(subs@),
                self.scope_of() == old(self).scope_of(),
                self.globs() == old(self).globs(),
                self.resume() == old(self).resume(),
                self.pending() == before + sv.skip(k as int).reverse().map_values(|n: Seq<char>| join_of(dir@, n)),
                self.last == old(self).last,
                self.open == old(self).open,
            decreases k,
        {
            let name = string_from_chars(&subs[k - 1]);
            let p = crate::sidecar::join(dir, name.as_str());
            let ghost mid = self.pending();
            self.stack.push(p);
            proof {
                assert(sv[k - 1] == subs@[k - 1]@);
                assert(self.pending() =~= mid.push(join_of(dir@, sv[k - 1])));
                assert(sv.skip(k - 1).reverse() =~= sv.skip(k as int).reverse().push(sv[k - 1]));
                assert(sv.skip(k - 1).reverse().map_values(|n: Seq<char>| join_of(dir@, n)) =~= sv.skip(
                    k as int,
                ).reverse().map_values(|n: Seq<char>| join_of(dir@, n)).push(join_of(dir@, sv[k - 1])));
            }
            k = k - 1;
        }
        proof {
            assert(sv.skip(0) =~= sv);
        }
    }
}

/// The file entry for each candidate name, in order.
fn candidates_from(dir: &str, entries: &Vec<DirEntry>, cands: &Vec<Vec<char>>) -> (r: Vec<Candidate>)
    requires
        forall|q: int| 0 <= q < cands@.len() ==> has_file(entries@, #[trigger] cands@[q]@),
    ensures
        r@.len() == cands@.len(),
        forall|q: int| 0 <= q < cands@.len() ==> candidate_for(#[trigger] r@[q], dir@, entries@, cands@[q]@),
{
    let ghost es = entries@;
    let mut candidates: Vec<Candidate> = Vec::new();
    let mut j: usize = 0;
    while j < cands.len()
        invariant
            j <= cands.len(),
            es == entries@,
            forall|q: int| 0 <= q < cands@.len() ==> has_file(entries@, #[trigger] cands@[q]@),
            candidates@.len() == j,
            forall|q: int| 0 <= q < j ==> candidate_for(#[trigger] candidates@[q], dir@, entries@, cands@[q]@),
        decreases cands.len() - j,
    {
        let name = string_from_chars(&cands[j]);
        proof {
            assert(has_file(es, cands@[j as int]@));
        }
        let m = first_file_index(entries, name.as_str());
        let (size, mtime_ms) = match &entries[m].kind {
            EntryKind::File { size, mtime_ms } => (*size, *mtime_ms),
            EntryKind::Directory => (0, 0),
        };
        let path = crate::sidecar::join(dir, name.as_str());
        let ghost before = candidates@;
        candidates.push(Candidate { path, size, mtime_ms });
        proof {
            assert(name@ == cands@[j as int]@);
            assert(candidate_for(candidates@[j as int], dir@, entries@, cands@[j as int]@));
            assert forall|q: int| 0 <= q < j implies candidates@[q] == before[q] by {}
        }
        j = j + 1;
    }
    candidates
}

/// The index of the first file entry named `name`, which exists.
fn first_file_index(entries: &Vec<DirEntry>, name: &str) -> (m: usize)
    requires
        has_file(entries@, name@),
    ensures
        m < entries@.len(),
        m == first_file(entries@, name@),
        entries@[m as int].kind is File,
{
    let ghost es = entries@;
    let mut m: usize = 0;
    while m < entries.len()
        invariant
            m <= entries.len(),
            es == entries@,
            exists|x: int| 0 <= x < es.len() && es[x].name@ == name@ && es[x].kind is File,
            forall|x: int| 0 <= x < m ==> !(es[x].name@ == name@ && es[x].kind is File),
        decreases entries.len() - m,
    {
        let is_file = match &entries[m].kind {
            EntryKind::File { .. } => true,
            EntryKind::Directory => false,
        };
        if is_file && crate::text::str_eq(entries[m].name.as_str(), name) {
            proof {
                let f = first_file(es, name@);
                assert(es[m as int].name@ == name@ && es[m as int].kind is File);
                if f < m {
                    assert(!(es[f].name@ == name@ && es[f].kind is File));
                }
                if f > m {
                    assert(!(es[m as int].name@ == name@ && es[m as int].kind is File));
                }
            }
            return m;
        }
        m = m + 1;
    }
    proof {
        let x = choose|x: int| 0 <= x < es.len() && es[x].name@ == name@ && es[x].kind is File;
        assert(!(es[x].name@ == name@ && es[x].kind is File));
    }
    0
}

fn strings_from(v: &Vec<Vec<char>>) -> (r: Vec<String>)
    ensures
        string_views(r@) == views(v@),
{
    let mut names: Vec<String> = Vec::new();
    let mut q: usize = 0;
    while q < v.len()
        invariant
            q <= v.len(),
            string_views(names@) == views(v@).take(q as int),
        decreases v.len() - q,
    {
        let ghost before = names@;
        names.push(string_from_chars(&v[q]));
        proof {
            assert(string_views(names@) =~= string_views(before).push(v@[q as int]@));
            assert(views(v@).take(q + 1) =~= views(v@).take(q as int).push(v@[q as int]@));
        }
        q = q + 1;
    }
    proof {
        assert(views(v@).take(v.len() as int) =~= views(v@));
    }
    names
}

} // verus!
