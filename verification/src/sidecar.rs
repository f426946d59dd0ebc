//! Sidecar resolution: `cover.*`, `artist.*`, `artist.txt` and lyrics
//! files. The names are a public contract plugins write against; they live
//! here and nowhere else. Resolution walks up to the library root, nearest
//! match first, and never escapes the root.
use vstd::prelude::*;

use crate::multi_value::views;
use crate::paths::{components, lemma_components_shape, file_name, file_name_of, last_dot, path_components, stem, stem_of_name};
use crate::text::{ascii_lower_chars, ascii_lower_seq, chars_eq, chars_of, push_chars, push_str, slice_chars, string_from_chars};

verus! {

/// `cover.*`: album art.
pub const COVER_STEM: &'static str = "cover";

/// `artist.*`: artist image.
pub const ARTIST_STEM: &'static str = "artist";

/// `artist.txt`: artist biography.
pub const BIOGRAPHY_NAME: &'static str = "artist.txt";

/// The place of an image extension in the preference order `jpg`, `jpeg`,
/// `png`, `webp`, `gif`, `avif`.
pub open spec fn image_rank_of(ext: Seq<char>) -> Option<nat> {
    if ext == "jpg"@ {
        Some(0)
    } else if ext == "jpeg"@ {
        Some(1)
    } else if ext == "png"@ {
        Some(2)
    } else if ext == "webp"@ {
        Some(3)
    } else if ext == "gif"@ {
        Some(4)
    } else if ext == "avif"@ {
        Some(5)
    } else {
        None
    }
}

fn image_rank(ext: &str) -> (r: Option<usize>)
    ensures
        r matches Some(k) ==> image_rank_of(ext@) == Some(k as nat),
        r is None ==> image_rank_of(ext@) is None,
{
    if crate::text::str_eq(ext, "jpg") {
        Some(0)
    } else if crate::text::str_eq(ext, "jpeg") {
        Some(1)
    } else if crate::text::str_eq(ext, "png") {
        Some(2)
    } else if crate::text::str_eq(ext, "webp") {
        Some(3)
    } else if crate::text::str_eq(ext, "gif") {
        Some(4)
    } else if crate::text::str_eq(ext, "avif") {
        Some(5)
    } else {
        None
    }
}

/// A name split at its last `.` into stem and extension.
pub open spec fn split_last_dot(s: Seq<char>) -> Option<(Seq<char>, Seq<char>)> {
    match last_dot(s) {
        Some(i) => Some((s.take(i), s.skip(i + 1))),
        None => None,
    }
}

/// Whether a file name is one of the sidecar names (any case): the
/// biography, or a cover or artist image.
pub open spec fn is_sidecar_name_of(name: Seq<char>) -> bool {
    let lower = ascii_lower_seq(name);
    if lower == "artist.txt"@ {
        true
    } else {
        match split_last_dot(lower) {
            Some((st, ext)) => (st == "cover"@ || st == "artist"@) && image_rank_of(ext) is Some,
            None => false,
        }
    }
}

fn split_at_last_dot(s: &Vec<char>) -> (r: Option<(Vec<char>, Vec<char>)>)
    ensures
        r matches Some((a, b)) ==> split_last_dot(s@) == Some((a@, b@)),
        r is None ==> split_last_dot(s@) is None,
{
    let mut i = s.len();
    while i > 0
        invariant
            i <= s.len(),
            forall|k: int| i <= k < s.len() ==> s@[k] != '.',
        decreases i,
    {
        if s[i - 1] == '.' {
            proof {
                crate::paths::lemma_last_dot(s@, i - 1);
            }
            let a = slice_chars(s, 0, i - 1);
            let b = slice_chars(s, i, s.len());
            proof {
                assert(a@ =~= s@.take(i - 1));
                assert(b@ =~= s@.skip(i as int));
            }
            return Some((a, b));
        }
        i = i - 1;
    }
    None
}

/// Whether a filename is one of the sidecar names. The watcher uses this to
/// widen a change to the subtree.
pub fn is_sidecar_name(name: &str) -> (r: bool)
    ensures
        r == is_sidecar_name_of(name@),
{
    let chars = chars_of(name);
    let lower = ascii_lower_chars(&chars);
    let lower_s = string_from_chars(&lower);
    if crate::text::str_eq(lower_s.as_str(), BIOGRAPHY_NAME) {
        return true;
    }
    match split_at_last_dot(&lower) {
        Some((st, ext)) => {
            let st_s = string_from_chars(&st);
            let ext_s = string_from_chars(&ext);
            let named = crate::text::str_eq(st_s.as_str(), COVER_STEM) || crate::text::str_eq(
                st_s.as_str(),
                ARTIST_STEM,
            );
            named && image_rank(ext_s.as_str()).is_some()
        },
        None => false,
    }
}

/// What resolved for one directory.
#[derive(Debug, Clone, Default, PartialEq, Eq)]
pub struct Sidecars {
    pub cover: Option<String>,
    pub artist_image: Option<String>,
    pub biography: Option<String>,
}

/// The paths of [`Sidecars`], as text.
pub struct SidecarPaths {
    pub cover: Option<Seq<char>>,
    pub artist_image: Option<Seq<char>>,
    pub biography: Option<Seq<char>>,
}

pub open spec fn opt_view(s: Option<String>) -> Option<Seq<char>> {
    match s {
        Some(x) => Some(x@),
        None => None,
    }
}

impl View for Sidecars {
    type V = SidecarPaths;

    open spec fn view(&self) -> SidecarPaths {
        SidecarPaths {
            cover: opt_view(self.cover),
            artist_image: opt_view(self.artist_image),
            biography: opt_view(self.biography),
        }
    }
}

pub open spec fn complete(s: SidecarPaths) -> bool {
    s.cover is Some && s.artist_image is Some && s.biography is Some
}

pub open spec fn empty_sidecars() -> SidecarPaths {
    SidecarPaths { cover: None, artist_image: None, biography: None }
}

/// Each of `near`'s entries, or `far`'s where `near` has none.
pub open spec fn merge_sidecars(near: SidecarPaths, far: SidecarPaths) -> SidecarPaths {
    SidecarPaths {
        cover: if near.cover is Some { near.cover } else { far.cover },
        artist_image: if near.artist_image is Some { near.artist_image } else { far.artist_image },
        biography: if near.biography is Some { near.biography } else { far.biography },
    }
}

fn clone_opt(s: &Option<String>) -> (r: Option<String>)
    ensures
        r == *s,
{
    match s {
        Some(x) => Some(x.clone()),
        None => None,
    }
}

impl Sidecars {
    pub fn is_complete(&self) -> (r: bool)
        ensures
            r == complete(self@),
    {
        self.cover.is_some() && self.artist_image.is_some() && self.biography.is_some()
    }

    fn copy(&self) -> (r: Sidecars)
        ensures
            r == *self,
    {
        Sidecars {
            cover: clone_opt(&self.cover),
            artist_image: clone_opt(&self.artist_image),
            biography: clone_opt(&self.biography),
        }
    }
}

/// `name` joined onto `dir` as `Path::join` does.
pub open spec fn join_of(dir: Seq<char>, name: Seq<char>) -> Seq<char> {
    if name.len() > 0 && name[0] == '/' {
        name
    } else if dir.len() == 0 || dir.last() == '/' {
        dir + name
    } else {
        dir + seq!['/'] + name
    }
}

pub fn join(dir: &str, name: &str) -> (r: String)
    ensures
        r@ == join_of(dir@, name@),
{
    let d = chars_of(dir);
    let n = chars_of(name);
    let mut out: Vec<char> = Vec::new();
    if n.len() > 0 && n[0] == '/' {
        push_chars(&mut out, &n);
    } else {
        push_chars(&mut out, &d);
        if !(d.len() == 0 || d[d.len() - 1] == '/') {
            out.push('/');
        }
        push_chars(&mut out, &n);
    }
    proof {
        assert(out@ =~= join_of(dir@, name@));
    }
    string_from_chars(&out)
}

/// The sidecars in one directory's listing, before any walk: the
/// biography, and the cover and artist image with the most preferred
/// extension (the first listed among equals).
pub open spec fn local_state(dir: Seq<char>, names: Seq<Seq<char>>) -> (SidecarPaths, nat, nat)
    decreases names.len(),
{
    if names.len() == 0 {
        (empty_sidecars(), 6, 6)
    } else {
        let (out, cr, ar) = local_state(dir, names.drop_last());
        let name = names.last();
        let lower = ascii_lower_seq(name);
        if lower == "artist.txt"@ {
            (SidecarPaths { biography: Some(join_of(dir, name)), ..out }, cr, ar)
        } else {
            match split_last_dot(lower) {
                None => (out, cr, ar),
                Some((st, ext)) => match image_rank_of(ext) {
                    None => (out, cr, ar),
                    Some(rank) => if st == "cover"@ && rank < cr {
                        (SidecarPaths { cover: Some(join_of(dir, name)), ..out }, rank, ar)
                    } else if st == "artist"@ && rank < ar {
                        (SidecarPaths { artist_image: Some(join_of(dir, name)), ..out }, cr, rank)
                    } else {
                        (out, cr, ar)
                    },
                },
            }
        }
    }
}

pub open spec fn local_of_names(dir: Seq<char>, names: Seq<Seq<char>>) -> SidecarPaths {
    local_state(dir, names).0
}

/// The sidecars found in one directory's listing.
pub fn local_from_names(dir: &str, names: &Vec<String>) -> (out: Sidecars)
    ensures
        out@ == local_of_names(dir@, names@.map_values(|n: String| n@)),
{
    let ghost nv = names@.map_values(|n: String| n@);
    let mut out = Sidecars { cover: None, artist_image: None, biography: None };
    let mut cover_rank: usize = 6;
    let mut artist_rank: usize = 6;
    let mut i: usize = 0;
    while i < names.len()
        invariant
            i <= names.len(),
            nv == names@.map_values(|n: String| n@),
            (out@, cover_rank as nat, artist_rank as nat) == local_state(dir@, nv.take(i as int)),
        decreases names.len() - i,
    {
        let name = &names[i];
        proof {
            assert(nv.take(i + 1).drop_last() =~= nv.take(i as int));
            assert(nv.take(i + 1).last() == name@);
        }
        let chars = chars_of(name.as_str());
        let lower = ascii_lower_chars(&chars);
        let lower_s = string_from_chars(&lower);
        if crate::text::str_eq(lower_s.as_str(), BIOGRAPHY_NAME) {
            out.biography = Some(join(dir, name.as_str()));
        } else {
            match split_at_last_dot(&lower) {
                None => {},
                Some((st, ext)) => {
                    let ext_s = string_from_chars(&ext);
                    let st_s = string_from_chars(&st);
                    match image_rank(ext_s.as_str()) {
                        None => {},
                        Some(rank) => {
                            if crate::text::str_eq(st_s.as_str(), COVER_STEM) && rank < cover_rank {
                                cover_rank = rank;
                                out.cover = Some(join(dir, name.as_str()));
                            } else if crate::text::str_eq(st_s.as_str(), ARTIST_STEM) && rank
                                < artist_rank {
                                artist_rank = rank;
                                out.artist_image = Some(join(dir, name.as_str()));
                            }
                        },
                    }
                },
            }
        }
        i = i + 1;
    }
    proof {
        assert(nv.take(names.len() as int) =~= nv);
    }
    out
}

/// The local sidecars of directory `d` (by components) in `entries`:
/// those of its first entry, or none.
pub open spec fn local_of(entries: Seq<(Seq<Seq<char>>, SidecarPaths)>, d: Seq<Seq<char>>) -> SidecarPaths {
    if exists|i: int| 0 <= i < entries.len() && entries[i].0 == d {
        entries[choose|i: int| 0 <= i < entries.len() && entries[i].0 == d && forall|k: int| 0 <= k < i ==> entries[k].0 != d].1
    } else {
        empty_sidecars()
    }
}

proof fn lemma_local_of_push(before: Seq<(Seq<Seq<char>>, SidecarPaths)>, key: Seq<Seq<char>>, l: SidecarPaths, d: Seq<Seq<char>>)
    ensures
        local_of(before.push((key, l)), d) == (if d == key && !(exists|i: int| 0 <= i < before.len() && before[i].0 == d) {
            l
        } else {
            local_of(before, d)
        }),
{
    let after = before.push((key, l));
    if exists|i: int| 0 <= i < before.len() && before[i].0 == d {
        let m2 = choose|m2: int| 0 <= m2 < before.len() && before[m2].0 == d && forall|k: int| 0 <= k < m2 ==> before[k].0 != d;
        assert(exists|m: int| 0 <= m < before.len() && before[m].0 == d && forall|k: int| 0 <= k < m ==> before[k].0 != d) by {
            lemma_first_index(before, d);
        }
        assert(after[m2] == before[m2]);
        assert(forall|k: int| 0 <= k < m2 ==> after[k] == before[k]);
        let m = choose|m: int| 0 <= m < after.len() && after[m].0 == d && forall|k: int| 0 <= k < m ==> after[k].0 != d;
        if m < m2 {
            assert(before[m] == after[m]);
        }
        if m2 < m {
            assert(after[m2].0 != d);
        }
    } else if d == key {
        let j = choose|j: int| 0 <= j < after.len() && after[j].0 == key && forall|k: int| 0 <= k < j ==> after[k].0 != key;
        assert(after[before.len() as int].0 == key);
        if j < before.len() {
            assert(before[j] == after[j]);
        }
    } else {
        assert forall|i: int| 0 <= i < after.len() implies after[i].0 != d by {
            if i < before.len() {
                assert(after[i] == before[i]);
            }
        }
    }
}

/// Some entry for `d` exists, so a first one does.
proof fn lemma_first_index(entries: Seq<(Seq<Seq<char>>, SidecarPaths)>, d: Seq<Seq<char>>)
    requires
        exists|i: int| 0 <= i < entries.len() && entries[i].0 == d,
    ensures
        exists|m: int| 0 <= m < entries.len() && entries[m].0 == d && forall|k: int| 0 <= k < m ==> entries[k].0 != d,
    decreases entries.len(),
{
    if entries[entries.len() - 1].0 == d && !(exists|i: int| 0 <= i < entries.len() - 1 && entries[i].0 == d) {
        let m = entries.len() - 1;
        assert(forall|k: int| 0 <= k < m ==> entries[k].0 != d);
    } else {
        let shorter = entries.drop_last();
        let w = if exists|i: int| 0 <= i < entries.len() - 1 && entries[i].0 == d {
            choose|i: int| 0 <= i < entries.len() - 1 && entries[i].0 == d
        } else {
            choose|i: int| 0 <= i < entries.len() && entries[i].0 == d
        };
        assert(shorter[w] == entries[w]);
        assert(exists|i: int| 0 <= i < shorter.len() && shorter[i].0 == d);
        lemma_first_index(shorter, d);
        let m = choose|m: int| 0 <= m < shorter.len() && shorter[m].0 == d && forall|k: int| 0 <= k < m ==> shorter[k].0 != d;
        assert(entries[m] == shorter[m]);
        assert(forall|k: int| 0 <= k < m ==> entries[k] == shorter[k]);
    }
}

/// What resolves for directory `d`: its own sidecars, then, while some are
/// missing and `d` is strictly inside the root, what resolves for its
/// parent. Nearest wins.
pub open spec fn resolve_of(entries: Seq<(Seq<Seq<char>>, SidecarPaths)>, root: Seq<Seq<char>>, d: Seq<Seq<char>>) -> SidecarPaths
    decreases d.len(),
{
    let l = local_of(entries, d);
    if !complete(l) && d != root && root.len() <= d.len() && d.take(root.len() as int) == root
        && d.len() > 0 && d.last() != seq!['/'] {
        merge_sidecars(l, resolve_of(entries, root, d.drop_last()))
    } else {
        l
    }
}

/// Resolver for one scan of one root.
pub struct SidecarResolver {
    root: Vec<Vec<char>>,
    /// Per directory: what is in it, not inherited.
    local: Vec<(Vec<Vec<char>>, Sidecars)>,
}

pub open spec fn entry_views(v: Seq<(Vec<Vec<char>>, Sidecars)>) -> Seq<(Seq<Seq<char>>, SidecarPaths)> {
    v.map_values(|e: (Vec<Vec<char>>, Sidecars)| (views(e.0@), e.1@))
}

impl SidecarResolver {
    pub closed spec fn root_spec(&self) -> Seq<Seq<char>> {
        views(self.root@)
    }

    /// The listings offered so far, by directory.
    pub closed spec fn entries(&self) -> Seq<(Seq<Seq<char>>, SidecarPaths)> {
        entry_views(self.local@)
    }

    pub fn new(root: &str) -> (r: SidecarResolver)
        ensures
            r.root_spec() == components(root@),
            r.entries() == Seq::<(Seq<Seq<char>>, SidecarPaths)>::empty(),
    {
        let c = chars_of(root);
        let r = SidecarResolver { root: path_components(&c), local: Vec::new() };
        proof {
            assert(entry_views(r.local@) =~= Seq::<(Seq<Seq<char>>, SidecarPaths)>::empty());
        }
        r
    }

    fn find(&self, d: &Vec<Vec<char>>) -> (r: Option<usize>)
        ensures
            r matches Some(i) ==> i < self.local@.len() && self.entries()[i as int].0 == views(d@)
                && forall|k: int| 0 <= k < i ==> self.entries()[k].0 != views(d@),
            r is None ==> forall|k: int| 0 <= k < self.entries().len() ==> self.entries()[k].0 != views(d@),
    {
        let mut i: usize = 0;
        while i < self.local.len()
            invariant
                i <= self.local.len(),
                forall|k: int| 0 <= k < i ==> self.entries()[k].0 != views(d@),
            decreases self.local.len() - i,
        {
            proof {
                assert(self.entries()[i as int].0 == views(self.local@[i as int].0@));
            }
            if comps_equal(&self.local[i].0, d) {
                return Some(i);
            }
            i = i + 1;
        }
        None
    }

    /// Use a listing discovery already made, so the directory is not read
    /// twice. The first listing offered for a directory is the one kept.
    pub fn offer_listing(&mut self, dir: &str, files: &Vec<String>)
        ensures
            final(self).root_spec() == old(self).root_spec(),
            local_of(final(self).entries(), components(dir@)) == if exists|i: int| 0 <= i < old(self).entries().len() && old(self).entries()[i].0 == components(dir@) {
                local_of(old(self).entries(), components(dir@))
            } else {
                local_of_names(dir@, files@.map_values(|n: String| n@))
            },
            forall|d: Seq<Seq<char>>| d != components(dir@) ==> local_of(final(self).entries(), d) == local_of(old(self).entries(), d),
    {
        let c = path_components(&chars_of(dir));
        match self.find(&c) {
            Some(i) => {},
            None => {
                let l = local_from_names(dir, files);
                let ghost before = self.entries();
                self.local.push((c, l));
                proof {
                    assert(self.entries() =~= before.push((components(dir@), l@)));
                    assert forall|d: Seq<Seq<char>>| true implies local_of(self.entries(), d) == (if d == components(dir@) && !(exists|i: int| 0 <= i < before.len() && before[i].0 == d) {
                        l@
                    } else {
                        local_of(before, d)
                    }) by {
                        lemma_local_of_push(before, components(dir@), l@, d);
                    }
                }
            },
        }
    }

    fn local_for(&self, d: &Vec<Vec<char>>) -> (r: Sidecars)
        ensures
            r@ == local_of(self.entries(), views(d@)),
    {
        match self.find(d) {
            Some(i) => {
                proof {
                    let e = self.entries();
                    let m = choose|m: int| 0 <= m < e.len() && e[m].0 == views(d@) && forall|k: int| 0 <= k < m ==> e[k].0 != views(d@);
                    if m < i {
                        assert(e[m].0 != views(d@));
                    }
                    if i < m {
                        assert(e[i as int].0 != views(d@));
                    }
                    assert(e[i as int].1 == self.local@[i as int].1@);
                }
                self.local[i].1.copy()
            },
            None => Sidecars { cover: None, artist_image: None, biography: None },
        }
    }

    fn resolve_comps(&self, d: &mut Vec<Vec<char>>) -> (r: Sidecars)
        ensures
            r@ == resolve_of(self.entries(), self.root_spec(), views(old(d)@)),
        decreases old(d)@.len(),
    {
        let l = self.local_for(d);
        if l.is_complete() || comps_equal(d, &self.root) || !comps_prefix(&self.root, d) || d.len() == 0 {
            return l;
        }
        let root_comp = vec!['/'];
        proof {
            assert(root_comp@ =~= seq!['/']);
            assert(views(d@).last() == d@[d.len() - 1]@);
        }
        if chars_eq(&d[d.len() - 1], &root_comp) {
            return l;
        }
        let ghost before = views(d@);
        d.pop();
        proof {
            assert(views(d@) =~= before.drop_last());
        }
        let far = self.resolve_comps(d);
        Sidecars {
            cover: if l.cover.is_some() { l.cover } else { far.cover },
            artist_image: if l.artist_image.is_some() { l.artist_image } else { far.artist_image },
            biography: if l.biography.is_some() { l.biography } else { far.biography },
        }
    }

    /// Whether a listing of `dir` was offered. The caller offers the
    /// listings of the directories a resolution will walk through before it
    /// resolves; one it cannot read counts as holding nothing.
    pub fn is_listed(&self, dir: &str) -> (r: bool)
        ensures
            r == exists|i: int| 0 <= i < self.entries().len() && self.entries()[i].0 == components(dir@),
    {
        let c = path_components(&chars_of(dir));
        match self.find(&c) {
            Some(_) => true,
            None => false,
        }
    }

    /// Lyrics: same directory, same stem, no walk; `.lrc` before `.txt`,
    /// an exact name before one differing in ASCII case.
    pub fn lyrics_for(audio: &str, files: &Vec<String>) -> (r: Option<String>)
        ensures
            r matches Some(p) ==> lyrics_for_of(audio@, files@.map_values(|n: String| n@)) == Some(p@),
            r is None ==> lyrics_for_of(audio@, files@.map_values(|n: String| n@)) is None,
    {
        find_lyrics(audio, files)
    }

    /// Resolve for `dir`, walking up to the root. Nearest match wins. A
    /// directory whose listing was not offered counts as holding nothing,
    /// so the caller offers the listings of a folder's ancestors first.
    pub fn resolve(&self, dir: &str) -> (r: Sidecars)
        ensures
            r@ == resolve_of(self.entries(), self.root_spec(), components(dir@)),
    {
        let mut c = path_components(&chars_of(dir));
        self.resolve_comps(&mut c)
    }
}

fn comps_equal(a: &Vec<Vec<char>>, b: &Vec<Vec<char>>) -> (r: bool)
    ensures
        r == (views(a@) == views(b@)),
{
    if a.len() != b.len() {
        proof {
            assert(views(a@).len() != views(b@).len());
        }
        return false;
    }
    let mut i: usize = 0;
    while i < a.len()
        invariant
            a.len() == b.len(),
            i <= a.len(),
            forall|k: int| 0 <= k < i ==> a@[k]@ == b@[k]@,
        decreases a.len() - i,
    {
        if !chars_eq(&a[i], &b[i]) {
            proof {
                assert(views(a@)[i as int] != views(b@)[i as int]);
            }
            return false;
        }
        i = i + 1;
    }
    proof {
        assert(views(a@) =~= views(b@));
    }
    true
}

/// Whether `p` is a component-wise prefix of `d`.
fn comps_prefix(p: &Vec<Vec<char>>, d: &Vec<Vec<char>>) -> (r: bool)
    ensures
        r == (views(p@).len() <= views(d@).len() && views(d@).take(views(p@).len() as int) == views(p@)),
{
    if p.len() > d.len() {
        return false;
    }
    let mut i: usize = 0;
    while i < p.len()
        invariant
            p.len() <= d.len(),
            i <= p.len(),
            forall|k: int| 0 <= k < i ==> d@[k]@ == p@[k]@,
        decreases p.len() - i,
    {
        if !chars_eq(&d[i], &p[i]) {
            proof {
                assert(views(d@).take(p.len() as int)[i as int] == d@[i as int]@);
                assert(views(p@)[i as int] == p@[i as int]@);
            }
            return false;
        }
        i = i + 1;
    }
    proof {
        assert(views(d@).take(p.len() as int) =~= views(p@));
    }
    true
}

/// The name a lyrics file for a track with stem `st` and extension `ext`
/// has.
pub open spec fn lyrics_name(st: Seq<char>, ext: Seq<char>) -> Seq<char> {
    st + seq!['.'] + ext
}

/// `audio` with its file name replaced by `name`.
pub open spec fn with_file_name_of(audio: Seq<char>, name: Seq<char>) -> Seq<char> {
    match last_slash(audio) {
        None => name,
        Some(i) => if i == 0 {
            seq!['/'] + name
        } else {
            join_of(audio.take(i), name)
        },
    }
}

pub open spec fn last_slash(s: Seq<char>) -> Option<int> {
    if exists|i: int| 0 <= i < s.len() && s[i] == '/' {
        Some(choose|i: int| 0 <= i < s.len() && s[i] == '/' && forall|k: int| i < k < s.len() ==> s[k] != '/')
    } else {
        None
    }
}

/// The first of `files` equal to `name` without regard to ASCII case.
pub open spec fn first_case_match(files: Seq<Seq<char>>, name: Seq<char>) -> Option<Seq<char>> {
    if exists|i: int| 0 <= i < files.len() && ascii_lower_seq(files[i]) == ascii_lower_seq(name) {
        Some(files[choose|i: int| 0 <= i < files.len() && ascii_lower_seq(files[i]) == ascii_lower_seq(name)
            && forall|k: int| 0 <= k < i ==> ascii_lower_seq(files[k]) != ascii_lower_seq(name)])
    } else {
        None
    }
}

/// The lyrics file for one extension: the exact name, else a name equal to
/// it in any ASCII case.
pub open spec fn lyrics_with(audio: Seq<char>, files: Seq<Seq<char>>, st: Seq<char>, ext: Seq<char>) -> Option<Seq<char>> {
    let name = lyrics_name(st, ext);
    if files.contains(name) {
        Some(with_file_name_of(audio, name))
    } else {
        match first_case_match(files, name) {
            Some(f) => Some(with_file_name_of(audio, f)),
            None => None,
        }
    }
}

/// Lyrics: same directory, same stem, `.lrc` before `.txt`, no walk.
pub open spec fn lyrics_for_of(audio: Seq<char>, files: Seq<Seq<char>>) -> Option<Seq<char>> {
    match file_name_of(audio) {
        None => None,
        Some(n) => {
            let st = stem_of_name(n);
            match lyrics_with(audio, files, st, "lrc"@) {
                Some(p) => Some(p),
                None => lyrics_with(audio, files, st, "txt"@),
            }
        },
    }
}

fn with_file_name(audio: &Vec<char>, name: &Vec<char>) -> (r: String)
    ensures
        r@ == with_file_name_of(audio@, name@),
{
    let mut i = audio.len();
    while i > 0
        invariant
            i <= audio.len(),
            forall|k: int| i <= k < audio.len() ==> audio@[k] != '/',
        decreases i,
    {
        if audio[i - 1] == '/' {
            proof {
                let j = choose|j: int| 0 <= j < audio@.len() && audio@[j] == '/' && forall|k: int| j < k < audio@.len() ==> audio@[k] != '/';
                if j < i - 1 {
                    assert(audio@[i - 1] != '/');
                }
                if j > i - 1 {
                    assert(audio@[j] != '/');
                }
            }
            let ns = string_from_chars(name);
            if i - 1 == 0 {
                let mut out: Vec<char> = Vec::new();
                out.push('/');
                push_chars(&mut out, name);
                proof {
                    assert(out@ =~= seq!['/'] + name@);
                }
                return string_from_chars(&out);
            }
            let dir = slice_chars(audio, 0, i - 1);
            let ds = string_from_chars(&dir);
            proof {
                assert(dir@ =~= audio@.take(i - 1));
            }
            return join(ds.as_str(), ns.as_str());
        }
        i = i - 1;
    }
    string_from_chars(name)
}

fn case_match(files: &Vec<String>, name: &Vec<char>) -> (r: Option<Vec<char>>)
    ensures
        r matches Some(f) ==> first_case_match(files@.map_values(|n: String| n@), name@) == Some(f@),
        r is None ==> first_case_match(files@.map_values(|n: String| n@), name@) is None,
{
    let ghost fv = files@.map_values(|n: String| n@);
    let lname = ascii_lower_chars(name);
    let mut i: usize = 0;
    while i < files.len()
        invariant
            i <= files.len(),
            fv == files@.map_values(|n: String| n@),
            lname@ == ascii_lower_seq(name@),
            forall|k: int| 0 <= k < i ==> ascii_lower_seq(fv[k]) != ascii_lower_seq(name@),
        decreases files.len() - i,
    {
        let f = chars_of(files[i].as_str());
        let lf = ascii_lower_chars(&f);
        proof {
            assert(fv[i as int] == f@);
        }
        if chars_eq(&lf, &lname) {
            proof {
                let j = choose|j: int| 0 <= j < fv.len() && ascii_lower_seq(fv[j]) == ascii_lower_seq(name@) && forall|k: int| 0 <= k < j ==> ascii_lower_seq(fv[k]) != ascii_lower_seq(name@);
                if j < i {
                    assert(false);
                }
                if j > i {
                    assert(ascii_lower_seq(fv[i as int]) != ascii_lower_seq(name@));
                }
            }
            return Some(f);
        }
        i = i + 1;
    }
    None
}

fn exact_match(files: &Vec<String>, name: &Vec<char>) -> (r: bool)
    ensures
        r == files@.map_values(|n: String| n@).contains(name@),
{
    let ghost fv = files@.map_values(|n: String| n@);
    let mut i: usize = 0;
    while i < files.len()
        invariant
            i <= files.len(),
            fv == files@.map_values(|n: String| n@),
            forall|k: int| 0 <= k < i ==> fv[k] != name@,
        decreases files.len() - i,
    {
        let f = chars_of(files[i].as_str());
        proof {
            assert(fv[i as int] == f@);
        }
        if chars_eq(&f, name) {
            return true;
        }
        i = i + 1;
    }
    false
}

fn lyrics_with_ext(audio: &Vec<char>, files: &Vec<String>, st: &Vec<char>, ext: &str) -> (r: Option<String>)
    ensures
        r matches Some(p) ==> lyrics_with(audio@, files@.map_values(|n: String| n@), st@, ext@) == Some(p@),
        r is None ==> lyrics_with(audio@, files@.map_values(|n: String| n@), st@, ext@) is None,
{
    let mut name = slice_chars(st, 0, st.len());
    name.push('.');
    push_str(&mut name, ext);
    proof {
        assert(name@ =~= lyrics_name(st@, ext@));
    }
    if exact_match(files, &name) {
        return Some(with_file_name(audio, &name));
    }
    match case_match(files, &name) {
        Some(f) => Some(with_file_name(audio, &f)),
        None => None,
    }
}

fn find_lyrics(audio: &str, files: &Vec<String>) -> (r: Option<String>)
    ensures
        r matches Some(p) ==> lyrics_for_of(audio@, files@.map_values(|n: String| n@)) == Some(p@),
        r is None ==> lyrics_for_of(audio@, files@.map_values(|n: String| n@)) is None,
{
    let a = chars_of(audio);
    let n = match file_name(&a) {
        Some(n) => n,
        None => return None,
    };
    let st = stem(&n);
    match lyrics_with_ext(&a, files, &st, "lrc") {
        Some(p) => Some(p),
        None => lyrics_with_ext(&a, files, &st, "txt"),
    }
}

/// Whether `r` is, for the field `f`, what the first directory on the way
/// up from `d` to its first `floor` components holds: the value of that
/// directory's own listing, no nearer one holding any; or none, when no
/// directory on the way holds one.
pub open spec fn first_on_way_up(
    entries: Seq<(Seq<Seq<char>>, SidecarPaths)>,
    d: Seq<Seq<char>>,
    floor: int,
    f: spec_fn(SidecarPaths) -> Option<Seq<char>>,
    r: Option<Seq<char>>,
) -> bool {
    match r {
        Some(_) => exists|n: int|
            #![trigger d.take(n)]
            floor <= n <= d.len() && f(local_of(entries, d.take(n))) == r && forall|m: int|
                #![trigger d.take(m)]
                n < m <= d.len() ==> f(local_of(entries, d.take(m))) is None,
        None => forall|n: int| #![trigger d.take(n)] floor <= n <= d.len() ==> f(local_of(entries, d.take(n))) is None,
    }
}

#[verifier::rlimit(60)]
#[verifier::spinoff_prover]
proof fn lemma_resolve_first_on_way_up(
    entries: Seq<(Seq<Seq<char>>, SidecarPaths)>,
    root: Seq<Seq<char>>,
    d: Seq<Seq<char>>,
    f: spec_fn(SidecarPaths) -> Option<Seq<char>>,
)
    requires
        root.len() > 0,
        root.len() <= d.len(),
        d.take(root.len() as int) == root,
        forall|i: int| 1 <= i < d.len() ==> (#[trigger] d[i]) != seq!['/'],
        forall|a: SidecarPaths, b: SidecarPaths| #[trigger] f(merge_sidecars(a, b)) == (if f(a) is Some { f(a) } else { f(b) }),
        forall|a: SidecarPaths| complete(a) ==> (#[trigger] f(a)) is Some,
    ensures
        first_on_way_up(entries, d, root.len() as int, f, f(resolve_of(entries, root, d))),
    decreases d.len(),
{
    let l = local_of(entries, d);
    let floor = root.len() as int;
    assert(d.take(d.len() as int) =~= d);
    if d.len() == root.len() {
        assert(d =~= root);
    }
    if f(l) is Some {
        assert(f(resolve_of(entries, root, d)) == f(l)) by {
            if !complete(l) && d != root && d.len() > 0 && d.last() != seq!['/'] {
                assert(resolve_of(entries, root, d) == merge_sidecars(l, resolve_of(entries, root, d.drop_last())));
            }
        }
        let n = d.len() as int;
        assert(floor <= n <= d.len() && f(local_of(entries, d.take(n))) == f(l));
        assert(forall|m: int| #![trigger d.take(m)] n < m <= d.len() ==> f(local_of(entries, d.take(m))) is None);
    } else if !complete(l) && d != root && d.len() > 0 && d.last() != seq!['/'] {
        let p = d.drop_last();
        assert(d.len() > root.len());
        assert(p.take(floor) =~= d.take(floor));
        assert forall|i: int| 1 <= i < p.len() implies (#[trigger] p[i]) != seq!['/'] by {
            assert(p[i] == d[i]);
        }
        lemma_resolve_first_on_way_up(entries, root, p, f);
        let rr = resolve_of(entries, root, p);
        assert(resolve_of(entries, root, d) == merge_sidecars(l, rr));
        assert(f(resolve_of(entries, root, d)) == f(rr));
        assert forall|m: int| 0 <= m <= p.len() implies #[trigger] d.take(m) == p.take(m) by {
            assert(d.take(m) =~= p.take(m));
        }
        if f(rr) is Some {
            let n = choose|n: int|
                #![trigger p.take(n)]
                floor <= n <= p.len() && f(local_of(entries, p.take(n))) == f(rr) && forall|m: int|
                    #![trigger p.take(m)]
                    n < m <= p.len() ==> f(local_of(entries, p.take(m))) is None;
            assert(d.take(n) == p.take(n));
            assert forall|m: int| #![trigger d.take(m)] n < m <= d.len() implies f(local_of(entries, d.take(m))) is None by {
                if m < d.len() {
                    assert(d.take(m) == p.take(m));
                }
            }
        } else {
            assert forall|n: int| #![trigger d.take(n)] floor <= n <= d.len() implies f(local_of(entries, d.take(n))) is None by {
                if n < d.len() {
                    assert(d.take(n) == p.take(n));
                }
            }
        }
    } else {
        assert(!complete(l));
        if d != root {
            assert(d.len() > 0);
            assert(d.last() == seq!['/']);
            assert(d[d.len() - 1] == d.last());
            assert(d.len() == 1);
            assert(false);
        }
        assert(resolve_of(entries, root, d) == l);
        assert forall|n: int| #![trigger d.take(n)] floor <= n <= d.len() implies f(local_of(entries, d.take(n))) is None by {
            assert(n == d.len());
        }
    }
}

/// Nearest wins, up to the root and no further. For a directory at or
/// under the root, the cover, the artist image and the biography that
/// resolve are each what the first listing on the way up holds: the
/// directory's own, else its parent's, and so on, the root's last; none
/// when none of them holds one. No directory above the root counts.
pub proof fn resolve_takes_first_on_the_way_up(
    entries: Seq<(Seq<Seq<char>>, SidecarPaths)>,
    root: Seq<char>,
    dir: Seq<char>,
)
    requires
        root.len() > 0,
        components(root).len() <= components(dir).len(),
        components(dir).take(components(root).len() as int) == components(root),
    ensures
        first_on_way_up(
            entries,
            components(dir),
            components(root).len() as int,
            |s: SidecarPaths| s.cover,
            resolve_of(entries, components(root), components(dir)).cover,
        ),
        first_on_way_up(
            entries,
            components(dir),
            components(root).len() as int,
            |s: SidecarPaths| s.artist_image,
            resolve_of(entries, components(root), components(dir)).artist_image,
        ),
        first_on_way_up(
            entries,
            components(dir),
            components(root).len() as int,
            |s: SidecarPaths| s.biography,
            resolve_of(entries, components(root), components(dir)).biography,
        ),
{
    lemma_components_shape(root);
    lemma_components_shape(dir);
    let rc = components(root);
    let dc = components(dir);
    lemma_resolve_first_on_way_up(entries, rc, dc, |s: SidecarPaths| s.cover);
    lemma_resolve_first_on_way_up(entries, rc, dc, |s: SidecarPaths| s.artist_image);
    lemma_resolve_first_on_way_up(entries, rc, dc, |s: SidecarPaths| s.biography);
}

proof fn lemma_first_case_index(files: Seq<Seq<char>>, name: Seq<char>, i: int)
    requires
        0 <= i < files.len(),
        ascii_lower_seq(files[i]) == ascii_lower_seq(name),
    ensures
        exists|j: int|
            0 <= j < files.len() && ascii_lower_seq(files[j]) == ascii_lower_seq(name) && forall|k: int|
                0 <= k < j ==> ascii_lower_seq(files[k]) != ascii_lower_seq(name),
    decreases i,
{
    if exists|k: int| 0 <= k < i && ascii_lower_seq(files[k]) == ascii_lower_seq(name) {
        let k = choose|k: int| 0 <= k < i && ascii_lower_seq(files[k]) == ascii_lower_seq(name);
        lemma_first_case_index(files, name, k);
    } else {
        assert(forall|k: int| 0 <= k < i ==> ascii_lower_seq(files[k]) != ascii_lower_seq(name));
    }
}

/// A case-insensitive match is one of the files, equal to the name in
/// ASCII case.
proof fn lemma_case_match_is_a_file(files: Seq<Seq<char>>, name: Seq<char>)
    requires
        exists|i: int| 0 <= i < files.len() && ascii_lower_seq(#[trigger] files[i]) == ascii_lower_seq(name),
    ensures
        exists|j: int|
            0 <= j < files.len() && ascii_lower_seq(#[trigger] files[j]) == ascii_lower_seq(name) && first_case_match(
                files,
                name,
            ) == Some(files[j]),
{
    let i = choose|i: int| 0 <= i < files.len() && ascii_lower_seq(#[trigger] files[i]) == ascii_lower_seq(name);
    lemma_first_case_index(files, name, i);
    let c = choose|i: int|
        0 <= i < files.len() && ascii_lower_seq(files[i]) == ascii_lower_seq(name) && forall|k: int|
            0 <= k < i ==> ascii_lower_seq(files[k]) != ascii_lower_seq(name);
    assert(first_case_match(files, name) == Some(files[c]));
    assert(ascii_lower_seq(files[c]) == ascii_lower_seq(name));
}

/// Synchronized lyrics come first: when the listing holds the track's stem
/// with `.lrc`, that file is its lyrics, whatever else the listing holds.
/// Plain lyrics, the stem with `.txt`, are found only when no file is the
/// stem with `.lrc` in any ASCII case.
pub proof fn synchronized_lyrics_come_first(audio: Seq<char>, files: Seq<Seq<char>>)
    requires
        file_name_of(audio) is Some,
    ensures
        files.contains(lyrics_name(stem_of_name(file_name_of(audio).unwrap()), "lrc"@)) ==> lyrics_for_of(audio, files)
            == Some(with_file_name_of(audio, lyrics_name(stem_of_name(file_name_of(audio).unwrap()), "lrc"@))),
        (forall|i: int|
            0 <= i < files.len() ==> ascii_lower_seq(#[trigger] files[i]) != ascii_lower_seq(
                lyrics_name(stem_of_name(file_name_of(audio).unwrap()), "lrc"@),
            )) && files.contains(lyrics_name(stem_of_name(file_name_of(audio).unwrap()), "txt"@)) ==> lyrics_for_of(
            audio,
            files,
        ) == Some(with_file_name_of(audio, lyrics_name(stem_of_name(file_name_of(audio).unwrap()), "txt"@))),
        (exists|i: int|
            0 <= i < files.len() && ascii_lower_seq(#[trigger] files[i]) == ascii_lower_seq(
                lyrics_name(stem_of_name(file_name_of(audio).unwrap()), "lrc"@),
            )) ==> exists|j: int|
            0 <= j < files.len() && ascii_lower_seq(#[trigger] files[j]) == ascii_lower_seq(
                lyrics_name(stem_of_name(file_name_of(audio).unwrap()), "lrc"@),
            ) && lyrics_for_of(audio, files) == Some(with_file_name_of(audio, files[j])),
{
    let st = stem_of_name(file_name_of(audio).unwrap());
    let lrc = lyrics_name(st, "lrc"@);
    if exists|i: int| 0 <= i < files.len() && ascii_lower_seq(#[trigger] files[i]) == ascii_lower_seq(lrc) {
        if files.contains(lrc) {
            let j = choose|j: int| 0 <= j < files.len() && files[j] == lrc;
            assert(ascii_lower_seq(files[j]) == ascii_lower_seq(lrc));
        } else {
            lemma_case_match_is_a_file(files, lrc);
        }
    }
    if forall|i: int| 0 <= i < files.len() ==> ascii_lower_seq(#[trigger] files[i]) != ascii_lower_seq(lrc) {
        if files.contains(lrc) {
            let i = choose|i: int| 0 <= i < files.len() && files[i] == lrc;
            assert(ascii_lower_seq(files[i]) != ascii_lower_seq(lrc));
        }
        assert(first_case_match(files, lrc) is None);
    }
}

/// Nearest wins: what a directory holds itself is what resolves for it.
pub proof fn nearest_sidecar_wins(entries: Seq<(Seq<Seq<char>>, SidecarPaths)>, root: Seq<Seq<char>>, d: Seq<Seq<char>>)
    ensures
        local_of(entries, d).cover is Some ==> resolve_of(entries, root, d).cover == local_of(entries, d).cover,
        local_of(entries, d).artist_image is Some ==> resolve_of(entries, root, d).artist_image == local_of(
            entries,
            d,
        ).artist_image,
        local_of(entries, d).biography is Some ==> resolve_of(entries, root, d).biography == local_of(entries, d).biography,
{
}

/// The walk never escapes the root: for a directory outside it, or the
/// root itself, only its own sidecars resolve.
pub proof fn walk_stays_in_root(entries: Seq<(Seq<Seq<char>>, SidecarPaths)>, root: Seq<Seq<char>>, d: Seq<Seq<char>>)
    requires
        d == root || !(root.len() <= d.len() && d.take(root.len() as int) == root),
    ensures
        resolve_of(entries, root, d) == local_of(entries, d),
{
}

} // verus!
