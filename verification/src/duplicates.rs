//! Duplicate detection: a background job over the index, never part of a
//! scan. Informational only: nothing here touches a track.
//!
//! Two kinds of group come out. Tracks whose tags match (title, artists,
//! album, album artists, disc and track number, without regard to case),
//! one group per tag key in key order. Then albums found under more than
//! one directory, one group per album key in key order, holding the album's
//! tracks directory by directory in path order.
use vstd::prelude::*;

use crate::comps_order::{comp_views, comps_sorted, insert_sorted_path, lemma_sorted_paths, sorted_paths};
use crate::multi_value::views;
use crate::order::{insert_sorted, join, lemma_sorted_set, sorted_set, strictly_sorted};
use crate::paths::{components, path_components};
use crate::tags::{dec_digits, lemma_dec_digits, push_digits};
use crate::text::{chars_eq, chars_of, lowercase_str_of, push_chars, push_str, str_to_lowercase, string_from_chars};
use crate::types::{DuplicateCandidate, DuplicateGroup, DuplicateReason, TrackId};

verus! {

/// The field separator of a key.
pub open spec fn key_sep() -> Seq<char> {
    seq!['\u{1}']
}

/// `Option<u32>` as its debug form prints it.
pub open spec fn opt_debug(o: Option<u32>) -> Seq<char> {
    match o {
        None => "None"@,
        Some(n) => "Some("@ + dec_digits(n as nat) + ")"@,
    }
}

pub open spec fn lower(s: Seq<char>) -> Seq<char> {
    lowercase_str_of(s)
}

pub open spec fn joined(v: Seq<String>) -> Seq<char> {
    join(v.map_values(|s: String| s@), seq![';'])
}

/// The key under which tracks with matching tags meet; none for an
/// untitled track.
pub open spec fn tag_key_of(c: DuplicateCandidate) -> Option<Seq<char>> {
    match c.title {
        None => None,
        Some(t) => Some(
            lower(t@) + key_sep() + lower(joined(c.artists@)) + key_sep() + lower(
                match c.album {
                    Some(a) => a@,
                    None => Seq::empty(),
                },
            ) + key_sep() + lower(joined(c.album_artists@)) + key_sep() + opt_debug(c.disc_number) + key_sep()
                + opt_debug(c.track_number),
        ),
    }
}

/// The key of a track's album; none when it has no album.
pub open spec fn album_key_of(c: DuplicateCandidate) -> Option<Seq<char>> {
    match c.album {
        None => None,
        Some(a) => Some(lower(a@) + key_sep() + lower(joined(c.album_artists@))),
    }
}

/// The directory a path is in, by components: its parent, or the empty
/// path when it has none.
pub open spec fn dir_of(path: Seq<char>) -> Seq<Seq<char>> {
    let c = components(path);
    if c.len() == 0 || (c.len() == 1 && c[0] == seq!['/']) {
        Seq::empty()
    } else {
        c.drop_last()
    }
}

pub open spec fn member(c: DuplicateCandidate) -> (TrackId, Seq<char>) {
    (c.track_id, c.path@)
}

pub open spec fn tag_keys(cs: Seq<DuplicateCandidate>) -> Set<Seq<char>> {
    Set::new(|k: Seq<char>| exists|i: int| 0 <= i < cs.len() && tag_key_of(cs[i]) == Some(k))
}

pub open spec fn tag_members(cs: Seq<DuplicateCandidate>, k: Seq<char>) -> Seq<(TrackId, Seq<char>)> {
    cs.filter(|c: DuplicateCandidate| tag_key_of(c) == Some(k)).map_values(|c: DuplicateCandidate| member(c))
}

/// The matching-tags groups: for each tag key in order, its tracks, where
/// there are two or more.
pub open spec fn tag_groups(cs: Seq<DuplicateCandidate>) -> Seq<Seq<(TrackId, Seq<char>)>> {
    sorted_set(tag_keys(cs)).map_values(|k: Seq<char>| tag_members(cs, k)).filter(
        |g: Seq<(TrackId, Seq<char>)>| g.len() > 1,
    )
}

pub open spec fn album_keys(cs: Seq<DuplicateCandidate>) -> Set<Seq<char>> {
    Set::new(|k: Seq<char>| exists|i: int| 0 <= i < cs.len() && album_key_of(cs[i]) == Some(k))
}

pub open spec fn album_dirs(cs: Seq<DuplicateCandidate>, k: Seq<char>) -> Set<Seq<Seq<char>>> {
    Set::new(|d: Seq<Seq<char>>| exists|i: int| 0 <= i < cs.len() && album_key_of(cs[i]) == Some(k) && dir_of(cs[i].path@) == d)
}

pub open spec fn album_members(cs: Seq<DuplicateCandidate>, k: Seq<char>, d: Seq<Seq<char>>) -> Seq<(TrackId, Seq<char>)> {
    cs.filter(|c: DuplicateCandidate| album_key_of(c) == Some(k) && dir_of(c.path@) == d).map_values(
        |c: DuplicateCandidate| member(c),
    )
}

/// All the sequences of `s`, one after another.
pub open spec fn concat_all<T>(s: Seq<Seq<T>>) -> Seq<T>
    decreases s.len(),
{
    if s.len() == 0 {
        Seq::empty()
    } else {
        concat_all(s.drop_last()) + s.last()
    }
}

/// An album's tracks, directory by directory in path order.
pub open spec fn album_group(cs: Seq<DuplicateCandidate>, k: Seq<char>) -> Seq<(TrackId, Seq<char>)> {
    concat_all(sorted_paths(album_dirs(cs, k)).map_values(|d: Seq<Seq<char>>| album_members(cs, k, d)))
}

/// The album groups: for each album key in order found under two or more
/// directories, its tracks.
pub open spec fn album_groups(cs: Seq<DuplicateCandidate>) -> Seq<Seq<(TrackId, Seq<char>)>> {
    sorted_set(album_keys(cs)).filter(|k: Seq<char>| album_dirs(cs, k).len() > 1).map_values(
        |k: Seq<char>| album_group(cs, k),
    )
}

pub open spec fn pairs_view(v: Seq<(TrackId, String)>) -> Seq<(TrackId, Seq<char>)> {
    v.map_values(|p: (TrackId, String)| (p.0, p.1@))
}

pub open spec fn opt_chars(o: Option<Vec<char>>) -> Option<Seq<char>> {
    match o {
        Some(v) => Some(v@),
        None => None,
    }
}

fn push_opt_debug(out: &mut Vec<char>, o: Option<u32>)
    ensures
        final(out)@ == old(out)@ + opt_debug(o),
{
    match o {
        None => {
            push_str(out, "None");
            proof {
                reveal_strlit("None");
            }
        },
        Some(n) => {
            push_str(out, "Some(");
            push_digits(out, n as u64);
            push_str(out, ")");
            proof {
                reveal_strlit("Some(");
                reveal_strlit(")");
                assert(final(out)@ =~= old(out)@ + opt_debug(o));
            }
        },
    }
}

fn join_strings(v: &Vec<String>) -> (r: String)
    ensures
        r@ == joined(v@),
{
    let ghost l = v@.map_values(|s: String| s@);
    let mut out: Vec<char> = Vec::new();
    let mut i: usize = 0;
    while i < v.len()
        invariant
            i <= v.len(),
            l == v@.map_values(|s: String| s@),
            out@ == join(l.take(i as int), seq![';']),
        decreases v.len() - i,
    {
        let ghost before = out@;
        if i > 0 {
            out.push(';');
        }
        push_str(&mut out, v[i].as_str());
        proof {
            assert(l.take(i + 1).drop_last() =~= l.take(i as int));
            assert(l.take(i + 1).last() == v@[i as int]@);
            assert(out@ =~= join(l.take(i + 1), seq![';']));
        }
        i = i + 1;
    }
    proof {
        assert(l.take(v.len() as int) =~= l);
    }
    string_from_chars(&out)
}

fn lower_of(s: &str) -> (r: Vec<char>)
    ensures
        r@ == lower(s@),
{
    let l = str_to_lowercase(s);
    chars_of(l.as_str())
}

fn tag_key(c: &DuplicateCandidate) -> (r: Option<Vec<char>>)
    ensures
        opt_chars(r) == tag_key_of(*c),
{
    let title = match &c.title {
        Some(t) => t,
        None => return None,
    };
    let album: &str = match &c.album {
        Some(a) => a.as_str(),
        None => "",
    };
    proof {
        reveal_strlit("");
        assert(album@ == match c.album {
            Some(a) => a@,
            None => Seq::<char>::empty(),
        });
    }
    let t = lower_of(title.as_str());
    let ar = lower_of(join_strings(&c.artists).as_str());
    let al = lower_of(album);
    let aa = lower_of(join_strings(&c.album_artists).as_str());
    let mut out: Vec<char> = Vec::new();
    push_chars(&mut out, &t);
    out.push('\u{1}');
    push_chars(&mut out, &ar);
    out.push('\u{1}');
    push_chars(&mut out, &al);
    out.push('\u{1}');
    push_chars(&mut out, &aa);
    out.push('\u{1}');
    let ghost mid = out@;
    push_opt_debug(&mut out, c.disc_number);
    out.push('\u{1}');
    push_opt_debug(&mut out, c.track_number);
    proof {
        assert(mid =~= t@ + key_sep() + ar@ + key_sep() + al@ + key_sep() + aa@ + key_sep());
        assert(out@ =~= mid + opt_debug(c.disc_number) + key_sep() + opt_debug(c.track_number));
        assert(out@ =~= tag_key_of(*c).unwrap());
    }
    Some(out)
}

fn album_key(c: &DuplicateCandidate) -> (r: Option<Vec<char>>)
    ensures
        opt_chars(r) == album_key_of(*c),
{
    let album = match &c.album {
        Some(a) => a,
        None => return None,
    };
    let al = lower_of(album.as_str());
    let aa = lower_of(join_strings(&c.album_artists).as_str());
    let mut out: Vec<char> = Vec::new();
    push_chars(&mut out, &al);
    out.push('\u{1}');
    push_chars(&mut out, &aa);
    proof {
        assert(out@ =~= album_key_of(*c).unwrap());
    }
    Some(out)
}

fn dir(path: &str) -> (r: Vec<Vec<char>>)
    ensures
        views(r@) == dir_of(path@),
{
    let mut c = path_components(&chars_of(path));
    let root = vec!['/'];
    proof {
        assert(root@ =~= seq!['/']);
    }
    if c.len() == 0 || (c.len() == 1 && chars_eq(&c[0], &root)) {
        proof {
            if c.len() == 1 {
                assert(views(c@)[0] == c@[0]@);
            }
        }
        return Vec::new();
    }
    proof {
        assert(views(c@)[0] == c@[0]@);
    }
    let ghost before = views(c@);
    c.pop();
    proof {
        assert(views(c@) =~= before.drop_last());
    }
    c
}

/// The keys and directory of each candidate.
struct Keyed {
    tags: Vec<Option<Vec<char>>>,
    albums: Vec<Option<Vec<char>>>,
    dirs: Vec<Vec<Vec<char>>>,
}

impl Keyed {
    spec fn describes(&self, cs: Seq<DuplicateCandidate>) -> bool {
        &&& self.tags@.len() == cs.len()
        &&& self.albums@.len() == cs.len()
        &&& self.dirs@.len() == cs.len()
        &&& forall|i: int| 0 <= i < cs.len() ==> opt_chars(#[trigger] self.tags@[i]) == tag_key_of(cs[i])
        &&& forall|i: int| 0 <= i < cs.len() ==> opt_chars(#[trigger] self.albums@[i]) == album_key_of(cs[i])
        &&& forall|i: int| 0 <= i < cs.len() ==> views(#[trigger] self.dirs@[i]@) == dir_of(cs[i].path@)
    }
}

fn keyed(cs: &Vec<DuplicateCandidate>) -> (k: Keyed)
    ensures
        k.describes(cs@),
{
    let mut k = Keyed { tags: Vec::new(), albums: Vec::new(), dirs: Vec::new() };
    let mut i: usize = 0;
    while i < cs.len()
        invariant
            i <= cs.len(),
            k.describes(cs@.take(i as int)),
        decreases cs.len() - i,
    {
        k.tags.push(tag_key(&cs[i]));
        k.albums.push(album_key(&cs[i]));
        k.dirs.push(dir(cs[i].path.as_str()));
        i = i + 1;
    }
    proof {
        assert(cs@.take(cs.len() as int) =~= cs@);
    }
    k
}

fn same_key(a: &Option<Vec<char>>, k: &Vec<char>) -> (r: bool)
    ensures
        r == (opt_chars(*a) == Some(k@)),
{
    match a {
        Some(x) => chars_eq(x, k),
        None => false,
    }
}

fn comps_eq(a: &Vec<Vec<char>>, b: &Vec<Vec<char>>) -> (r: bool)
    ensures
        r == (views(a@) == views(b@)),
{
    if a.len() != b.len() {
        proof {
            assert(views(a@).len() != views(b@).len());
        }
        return false;
    }
    let mut i: usize = 0;
    while i < a.len()
        invariant
            a.len() == b.len(),
            i <= a.len(),
            forall|k: int| 0 <= k < i ==> a@[k]@ == b@[k]@,
        decreases a.len() - i,
    {
        if !chars_eq(&a[i], &b[i]) {
            proof {
                assert(views(a@)[i as int] != views(b@)[i as int]);
            }
            return false;
        }
        i = i + 1;
    }
    proof {
        assert(views(a@) =~= views(b@));
    }
    true
}

/// The distinct tag keys, sorted.
fn sorted_tag_keys(k: &Keyed, Ghost(cs): Ghost<Seq<DuplicateCandidate>>) -> (r: Vec<Vec<char>>)
    requires
        k.describes(cs),
    ensures
        views(r@) == sorted_set(tag_keys(cs)),
        views(r@).to_set() == tag_keys(cs),
{
    let mut keys: Vec<Vec<char>> = Vec::new();
    let mut i: usize = 0;
    proof {
        assert(views(keys@).to_set() =~= tag_keys(cs.take(0)));
    }
    while i < k.tags.len()
        invariant
            i <= k.tags.len(),
            k.describes(cs),
            strictly_sorted(views(keys@)),
            views(keys@).to_set() == tag_keys(cs.take(i as int)),
        decreases k.tags.len() - i,
    {
        let ghost pre = cs.take(i as int);
        let ghost post = cs.take(i + 1);
        proof {
            assert(post[i as int] == cs[i as int]);
            assert forall|j: int| 0 <= j < i implies post[j] == pre[j] by {}
        }
        match &k.tags[i] {
            Some(key) => {
                insert_sorted(&mut keys, key.clone());
                proof {
                    assert(views(keys@) =~= keys@.map_values(|e: Vec<char>| e@));
                    assert(tag_key_of(cs[i as int]) == Some(key@));
                    assert(tag_keys(post) =~= tag_keys(pre).insert(key@));
                }
            },
            None => {
                proof {
                    assert(tag_keys(post) =~= tag_keys(pre));
                }
            },
        }
        i = i + 1;
    }
    proof {
        assert(cs.take(k.tags.len() as int) =~= cs);
        lemma_sorted_set(views(keys@));
    }
    keys
}

/// The tracks whose tag key is `key`, in order.
fn tag_members_of(cs: &Vec<DuplicateCandidate>, k: &Keyed, key: &Vec<char>) -> (r: Vec<(TrackId, String)>)
    requires
        k.describes(cs@),
    ensures
        pairs_view(r@) == tag_members(cs@, key@),
{
    let ghost pred = |c: DuplicateCandidate| tag_key_of(c) == Some(key@);
    let mut out: Vec<(TrackId, String)> = Vec::new();
    let mut i: usize = 0;
    proof {
        assert(cs@.take(0).filter(pred) =~= Seq::<DuplicateCandidate>::empty());
        assert(pairs_view(out@) =~= cs@.take(0).filter(pred).map_values(|c: DuplicateCandidate| member(c)));
    }
    while i < cs.len()
        invariant
            i <= cs.len(),
            k.describes(cs@),
            pred == (|c: DuplicateCandidate| tag_key_of(c) == Some(key@)),
            pairs_view(out@) == cs@.take(i as int).filter(pred).map_values(|c: DuplicateCandidate| member(c)),
        decreases cs.len() - i,
    {
        let ghost before = out@;
        proof {
            assert(cs@.take(i + 1) =~= cs@.take(i as int).push(cs@[i as int]));
            cs@.take(i as int).lemma_filter_push(cs@[i as int], pred);
        }
        if same_key(&k.tags[i], key) {
            out.push((cs[i].track_id, cs[i].path.clone()));
            proof {
                assert(pairs_view(out@) =~= pairs_view(before).push(member(cs@[i as int])));
            }
        }
        i = i + 1;
    }
    proof {
        assert(cs@.take(cs.len() as int) =~= cs@);
    }
    out
}

/// The distinct album keys, sorted.
fn sorted_album_keys(k: &Keyed, Ghost(cs): Ghost<Seq<DuplicateCandidate>>) -> (r: Vec<Vec<char>>)
    requires
        k.describes(cs),
    ensures
        views(r@) == sorted_set(album_keys(cs)),
        views(r@).to_set() == album_keys(cs),
{
    let mut keys: Vec<Vec<char>> = Vec::new();
    let mut i: usize = 0;
    proof {
        assert(views(keys@).to_set() =~= album_keys(cs.take(0)));
    }
    while i < k.albums.len()
        invariant
            i <= k.albums.len(),
            k.describes(cs),
            strictly_sorted(views(keys@)),
            views(keys@).to_set() == album_keys(cs.take(i as int)),
        decreases k.albums.len() - i,
    {
        let ghost pre = cs.take(i as int);
        let ghost post = cs.take(i + 1);
        proof {
            assert(post[i as int] == cs[i as int]);
            assert forall|j: int| 0 <= j < i implies post[j] == pre[j] by {}
        }
        match &k.albums[i] {
            Some(key) => {
                insert_sorted(&mut keys, key.clone());
                proof {
                    assert(views(keys@) =~= keys@.map_values(|e: Vec<char>| e@));
                    assert(album_key_of(cs[i as int]) == Some(key@));
                    assert(album_keys(post) =~= album_keys(pre).insert(key@));
                }
            },
            None => {
                proof {
                    assert(album_keys(post) =~= album_keys(pre));
                }
            },
        }
        i = i + 1;
    }
    proof {
        assert(cs.take(k.albums.len() as int) =~= cs);
        lemma_sorted_set(views(keys@));
    }
    keys
}

/// The distinct directories holding album `key`, in path order.
fn sorted_album_dirs(k: &Keyed, key: &Vec<char>, Ghost(cs): Ghost<Seq<DuplicateCandidate>>) -> (r: Vec<Vec<Vec<char>>>)
    requires
        k.describes(cs),
    ensures
        comp_views(r@) == sorted_paths(album_dirs(cs, key@)),
        comp_views(r@).to_set() == album_dirs(cs, key@),
        comps_sorted(comp_views(r@)),
{
    let mut dirs: Vec<Vec<Vec<char>>> = Vec::new();
    let mut i: usize = 0;
    proof {
        assert(comp_views(dirs@).to_set() =~= album_dirs(cs.take(0), key@));
    }
    while i < k.albums.len()
        invariant
            i <= k.albums.len(),
            k.describes(cs),
            comps_sorted(comp_views(dirs@)),
            comp_views(dirs@).to_set() == album_dirs(cs.take(i as int), key@),
        decreases k.albums.len() - i,
    {
        let ghost pre = cs.take(i as int);
        let ghost post = cs.take(i + 1);
        proof {
            assert(post[i as int] == cs[i as int]);
            assert forall|j: int| 0 <= j < i implies post[j] == pre[j] by {}
        }
        if same_key(&k.albums[i], key) {
            let d = clone_comps(&k.dirs[i]);
            insert_sorted_path(&mut dirs, d);
            proof {
                assert(album_dirs(post, key@) =~= album_dirs(pre, key@).insert(dir_of(cs[i as int].path@)));
            }
        } else {
            proof {
                assert(album_dirs(post, key@) =~= album_dirs(pre, key@));
            }
        }
        i = i + 1;
    }
    proof {
        assert(cs.take(k.albums.len() as int) =~= cs);
        lemma_sorted_paths(comp_views(dirs@));
    }
    dirs
}

fn clone_comps(v: &Vec<Vec<char>>) -> (r: Vec<Vec<char>>)
    ensures
        views(r@) == views(v@),
{
    let mut out: Vec<Vec<char>> = Vec::new();
    let mut i: usize = 0;
    while i < v.len()
        invariant
            i <= v.len(),
            views(out@) == views(v@).take(i as int),
        decreases v.len() - i,
    {
        let ghost before = views(out@);
        out.push(v[i].clone());
        proof {
            assert(views(out@) =~= before.push(v@[i as int]@));
            assert(views(v@).take(i + 1) =~= views(v@).take(i as int).push(v@[i as int]@));
        }
        i = i + 1;
    }
    proof {
        assert(views(v@).take(v.len() as int) =~= views(v@));
    }
    out
}

/// Append the tracks of album `key` in directory `d`, in order.
fn push_album_members(
    out: &mut Vec<(TrackId, String)>,
    cs: &Vec<DuplicateCandidate>,
    k: &Keyed,
    key: &Vec<char>,
    d: &Vec<Vec<char>>,
)
    requires
        k.describes(cs@),
    ensures
        pairs_view(final(out)@) == pairs_view(old(out)@) + album_members(cs@, key@, views(d@)),
{
    let ghost pred = |c: DuplicateCandidate| album_key_of(c) == Some(key@) && dir_of(c.path@) == views(d@);
    let ghost start = pairs_view(out@);
    let mut i: usize = 0;
    proof {
        assert(cs@.take(0).filter(pred) =~= Seq::<DuplicateCandidate>::empty());
        assert(pairs_view(out@) =~= start + cs@.take(0).filter(pred).map_values(|c: DuplicateCandidate| member(c)));
    }
    while i < cs.len()
        invariant
            i <= cs.len(),
            k.describes(cs@),
            pred == (|c: DuplicateCandidate| album_key_of(c) == Some(key@) && dir_of(c.path@) == views(d@)),
            pairs_view(out@) == start + cs@.take(i as int).filter(pred).map_values(|c: DuplicateCandidate| member(c)),
        decreases cs.len() - i,
    {
        let ghost before = out@;
        proof {
            assert(cs@.take(i + 1) =~= cs@.take(i as int).push(cs@[i as int]));
            cs@.take(i as int).lemma_filter_push(cs@[i as int], pred);
        }
        if same_key(&k.albums[i], key) && comps_eq(&k.dirs[i], d) {
            out.push((cs[i].track_id, cs[i].path.clone()));
            proof {
                assert(pairs_view(out@) =~= pairs_view(before).push(member(cs@[i as int])));
            }
        }
        i = i + 1;
    }
    proof {
        assert(cs@.take(cs.len() as int) =~= cs@);
    }
}

pub open spec fn group_view(g: DuplicateGroup) -> (DuplicateReason, Seq<(TrackId, Seq<char>)>) {
    (g.reason, pairs_view(g.tracks@))
}

/// Find likely duplicates among the candidates the store gives.
pub fn find_duplicates(candidates: &Vec<DuplicateCandidate>) -> (groups: Vec<DuplicateGroup>)
    ensures
        groups@.map_values(|g: DuplicateGroup| group_view(g)) == tag_groups(candidates@).map_values(
            |t: Seq<(TrackId, Seq<char>)>| (DuplicateReason::MatchingTags, t),
        ) + album_groups(candidates@).map_values(
            |t: Seq<(TrackId, Seq<char>)>| (DuplicateReason::AlbumUnderTwoPaths, t),
        ),
{
    let ghost cs = candidates@;
    let k = keyed(candidates);
    let mut groups: Vec<DuplicateGroup> = Vec::new();

    // Matching tags.
    let keys = sorted_tag_keys(&k, Ghost(cs));
    let ghost kv = views(keys@);
    let ghost tf = |t: Seq<(TrackId, Seq<char>)>| (DuplicateReason::MatchingTags, t);
    let ghost big = |g: Seq<(TrackId, Seq<char>)>| g.len() > 1;
    let ghost tm = |key: Seq<char>| tag_members(cs, key);
    let mut g: usize = 0;
    proof {
        assert(kv.take(0).map_values(tm).filter(big) =~= Seq::<Seq<(TrackId, Seq<char>)>>::empty());
        assert(groups@.map_values(|g: DuplicateGroup| group_view(g)) =~= kv.take(0).map_values(tm).filter(big).map_values(tf));
    }
    while g < keys.len()
        invariant
            g <= keys.len(),
            cs == candidates@,
            k.describes(cs),
            kv == views(keys@),
            tm == (|key: Seq<char>| tag_members(cs, key)),
            big == (|g: Seq<(TrackId, Seq<char>)>| g.len() > 1),
            tf == (|t: Seq<(TrackId, Seq<char>)>| (DuplicateReason::MatchingTags, t)),
            groups@.map_values(|g: DuplicateGroup| group_view(g)) == kv.take(g as int).map_values(tm).filter(big).map_values(tf),
        decreases keys.len() - g,
    {
        let members = tag_members_of(candidates, &k, &keys[g]);
        let ghost before = groups@;
        proof {
            assert(kv[g as int] == keys@[g as int]@);
            assert(kv.take(g + 1).map_values(tm) =~= kv.take(g as int).map_values(tm).push(tm(kv[g as int])));
            kv.take(g as int).map_values(tm).lemma_filter_push(tm(kv[g as int]), big);
        }
        if members.len() > 1 {
            groups.push(DuplicateGroup { reason: DuplicateReason::MatchingTags, tracks: members });
            proof {
                assert(groups@.map_values(|g: DuplicateGroup| group_view(g)) =~= before.map_values(|g: DuplicateGroup| group_view(g)).push(tf(tm(kv[g as int]))));
            }
        } else {
            proof {
                assert(pairs_view(members@).len() == members@.len());
            }
        }
        g = g + 1;
    }
    proof {
        assert(kv.take(keys.len() as int) =~= kv);
    }
    let ghost tag_part = groups@.map_values(|g: DuplicateGroup| group_view(g));

    // One album under two paths.
    let akeys = sorted_album_keys(&k, Ghost(cs));
    let ghost av = views(akeys@);
    let ghost af = |t: Seq<(TrackId, Seq<char>)>| (DuplicateReason::AlbumUnderTwoPaths, t);
    let ghost spread = |key: Seq<char>| album_dirs(cs, key).len() > 1;
    let ghost ag = |key: Seq<char>| album_group(cs, key);
    let mut a: usize = 0;
    proof {
        assert(av.take(0).filter(spread) =~= Seq::<Seq<char>>::empty());
        assert(groups@.map_values(|g: DuplicateGroup| group_view(g)) =~= tag_part + av.take(0).filter(spread).map_values(ag).map_values(af));
    }
    while a < akeys.len()
        invariant
            a <= akeys.len(),
            cs == candidates@,
            k.describes(cs),
            av == views(akeys@),
            av.to_set() == album_keys(cs),
            spread == (|key: Seq<char>| album_dirs(cs, key).len() > 1),
            ag == (|key: Seq<char>| album_group(cs, key)),
            af == (|t: Seq<(TrackId, Seq<char>)>| (DuplicateReason::AlbumUnderTwoPaths, t)),
            groups@.map_values(|g: DuplicateGroup| group_view(g)) == tag_part + av.take(a as int).filter(spread).map_values(ag).map_values(af),
        decreases akeys.len() - a,
    {
        let key = &akeys[a];
        let dirs = sorted_album_dirs(&k, key, Ghost(cs));
        let ghost before = groups@;
        proof {
            assert(av[a as int] == key@);
            assert(av.take(a + 1) =~= av.take(a as int).push(key@));
            av.take(a as int).lemma_filter_push(key@, spread);
            assert(comp_views(dirs@).to_set().len() == album_dirs(cs, key@).len());
            crate::comps_order::lemma_comps_sorted_distinct(comp_views(dirs@));
        }
        if dirs.len() > 1 {
            let mut tracks: Vec<(TrackId, String)> = Vec::new();
            let ghost dv = comp_views(dirs@);
            let ghost am = |d: Seq<Seq<char>>| album_members(cs, key@, d);
            let mut di: usize = 0;
            proof {
                assert(dv.take(0).map_values(am) =~= Seq::<Seq<(TrackId, Seq<char>)>>::empty());
            }
            while di < dirs.len()
                invariant
                    di <= dirs.len(),
                    cs == candidates@,
                    k.describes(cs),
                    dv == comp_views(dirs@),
                    am == (|d: Seq<Seq<char>>| album_members(cs, key@, d)),
                    pairs_view(tracks@) == concat_all(dv.take(di as int).map_values(am)),
                decreases dirs.len() - di,
            {
                push_album_members(&mut tracks, candidates, &k, key, &dirs[di]);
                proof {
                    assert(dv[di as int] == views(dirs@[di as int]@));
                    assert(am(dv[di as int]) == album_members(cs, key@, views(dirs@[di as int]@)));
                    assert(dv.take(di + 1).map_values(am) =~= dv.take(di as int).map_values(am).push(am(dv[di as int])));
                    assert(dv.take(di + 1).map_values(am).drop_last() =~= dv.take(di as int).map_values(am));
                }
                di = di + 1;
            }
            proof {
                assert(dv.take(dirs.len() as int) =~= dv);
                assert(dv.map_values(am) =~= sorted_paths(album_dirs(cs, key@)).map_values(|d: Seq<Seq<char>>| album_members(cs, key@, d)));
                assert(pairs_view(tracks@) == ag(key@));
            }
            let group = DuplicateGroup { reason: DuplicateReason::AlbumUnderTwoPaths, tracks };
            proof {
                assert(group_view(group) == af(ag(key@)));
            }
            groups.push(group);
            proof {
                assert(av.take(a + 1).filter(spread) =~= av.take(a as int).filter(spread).push(key@));
                assert(av.take(a + 1).filter(spread).map_values(ag).map_values(af) =~= av.take(a as int).filter(spread).map_values(ag).map_values(af).push(af(ag(key@))));
                assert(groups@.map_values(|g: DuplicateGroup| group_view(g)) =~= before.map_values(|g: DuplicateGroup| group_view(g)).push(af(ag(key@))));
                assert(groups@.map_values(|g: DuplicateGroup| group_view(g)) =~= tag_part + av.take(a + 1).filter(spread).map_values(ag).map_values(af));
            }
        } else {
            proof {
                assert(av.take(a + 1).filter(spread) =~= av.take(a as int).filter(spread));
            }
        }
        a = a + 1;
    }
    proof {
        assert(av.take(akeys.len() as int) =~= av);
        assert(sorted_set(tag_keys(cs)).map_values(tm) =~= sorted_set(tag_keys(cs)).map_values(|k: Seq<char>| tag_members(cs, k)));
        assert(sorted_set(album_keys(cs)).filter(spread).map_values(ag) =~= album_groups(cs));
    }
    groups
}

/// A printed `Option<u32>` never holds the key separator.
proof fn lemma_opt_debug_no_sep(o: Option<u32>)
    ensures
        !opt_debug(o).contains('\u{1}'),
{
    reveal_strlit("None");
    reveal_strlit("Some(");
    reveal_strlit(")");
    if let Some(n) = o {
        lemma_dec_digits(n as nat);
        let d = dec_digits(n as nat);
        let s = opt_debug(o);
        assert(s =~= "Some("@ + d + ")"@);
        if s.contains('\u{1}') {
            let k = choose|k: int| 0 <= k < s.len() && s[k] == '\u{1}';
            if 5 <= k < 5 + d.len() {
                assert(s[k] == d[k - 5]);
                assert(crate::text::is_digit(d[k - 5]));
            }
        }
    }
}

/// Printed `Option<u32>`s are equal only for equal values.
proof fn lemma_opt_debug_injective(a: Option<u32>, b: Option<u32>)
    requires
        opt_debug(a) == opt_debug(b),
    ensures
        a == b,
{
    reveal_strlit("None");
    reveal_strlit("Some(");
    reveal_strlit(")");
    match (a, b) {
        (Some(n), Some(m)) => {
            lemma_dec_digits(n as nat);
            lemma_dec_digits(m as nat);
            let dn = dec_digits(n as nat);
            let dm = dec_digits(m as nat);
            let s = opt_debug(a);
            assert(s =~= "Some("@ + dn + ")"@);
            assert(s =~= "Some("@ + dm + ")"@);
            assert(dn.len() == dm.len());
            assert(dn =~= s.subrange(5, 5 + dn.len() as int));
            assert(dm =~= s.subrange(5, 5 + dm.len() as int));
        },
        (Some(n), None) => {
            assert(opt_debug(a)[0] == 'S');
            assert(opt_debug(b)[0] == 'N');
        },
        (None, Some(m)) => {
            assert(opt_debug(b)[0] == 'S');
            assert(opt_debug(a)[0] == 'N');
        },
        (None, None) => {},
    }
}

/// The field after the last separator of a key is the same in two equal
/// keys, and so is what comes before it.
proof fn lemma_last_field(p1: Seq<char>, d1: Seq<char>, p2: Seq<char>, d2: Seq<char>)
    requires
        p1 + key_sep() + d1 == p2 + key_sep() + d2,
        !d1.contains('\u{1}'),
        !d2.contains('\u{1}'),
    ensures
        d1 == d2,
        p1 == p2,
{
    let x = p1 + key_sep() + d1;
    let y = p2 + key_sep() + d2;
    let h1 = p1 + key_sep();
    let h2 = p2 + key_sep();
    assert(x.len() == y.len());
    if d1.len() < d2.len() {
        let i = p1.len() as int;
        assert(h1[i] == '\u{1}');
        assert(x[i] == h1[i]);
        assert(h2.len() <= i);
        assert(y[i] == d2[i - h2.len()]);
        assert(d2.contains('\u{1}'));
    } else if d2.len() < d1.len() {
        let i = p2.len() as int;
        assert(h2[i] == '\u{1}');
        assert(y[i] == h2[i]);
        assert(h1.len() <= i);
        assert(x[i] == d1[i - h1.len()]);
        assert(d1.contains('\u{1}'));
    } else {
        assert(d1 =~= x.subrange(p1.len() as int + 1, x.len() as int));
        assert(d2 =~= y.subrange(p2.len() as int + 1, y.len() as int));
        assert(p1 =~= x.subrange(0, p1.len() as int));
        assert(p2 =~= y.subrange(0, p2.len() as int));
    }
}

/// Tracks meet on matching tags only with the same disc and track number:
/// two candidates whose disc numbers or track numbers differ never share a
/// tag key, so never a matching-tags group.
pub proof fn matching_tags_keep_discs_and_tracks_apart(a: DuplicateCandidate, b: DuplicateCandidate)
    requires
        tag_key_of(a) is Some,
        tag_key_of(a) == tag_key_of(b),
    ensures
        a.track_number == b.track_number,
        a.disc_number == b.disc_number,
{
    let ka = tag_key_of(a).unwrap();
    let kb = tag_key_of(b).unwrap();
    let ta = a.title.unwrap()@;
    let tb = b.title.unwrap()@;
    let pa = lower(ta) + key_sep() + lower(joined(a.artists@)) + key_sep() + lower(
        match a.album {
            Some(x) => x@,
            None => Seq::empty(),
        },
    ) + key_sep() + lower(joined(a.album_artists@)) + key_sep();
    let pb = lower(tb) + key_sep() + lower(joined(b.artists@)) + key_sep() + lower(
        match b.album {
            Some(x) => x@,
            None => Seq::empty(),
        },
    ) + key_sep() + lower(joined(b.album_artists@)) + key_sep();
    let qa = pa + opt_debug(a.disc_number);
    let qb = pb + opt_debug(b.disc_number);
    assert(ka == qa + key_sep() + opt_debug(a.track_number));
    assert(kb == qb + key_sep() + opt_debug(b.track_number));
    lemma_opt_debug_no_sep(a.track_number);
    lemma_opt_debug_no_sep(b.track_number);
    lemma_last_field(qa, opt_debug(a.track_number), qb, opt_debug(b.track_number));
    lemma_opt_debug_injective(a.track_number, b.track_number);
    let ra = pa.drop_last();
    let rb = pb.drop_last();
    assert(pa =~= ra + key_sep());
    assert(pb =~= rb + key_sep());
    assert(qa =~= ra + key_sep() + opt_debug(a.disc_number));
    assert(qb =~= rb + key_sep() + opt_debug(b.disc_number));
    lemma_opt_debug_no_sep(a.disc_number);
    lemma_opt_debug_no_sep(b.disc_number);
    lemma_last_field(ra, opt_debug(a.disc_number), rb, opt_debug(b.disc_number));
    lemma_opt_debug_injective(a.disc_number, b.disc_number);
}

} // verus!
