//! How tags become the catalog: which artists a track credits, which album
//! it belongs to, and what an artist or album row says once the tracks that
//! point at it change. The database executes these decisions; they are
//! made here.
//!
//! A file that names no artist is credited to the unknown artist, whose key
//! is empty. An album is credited to its album artists; without them, a
//! compilation is credited to the unknown artist and any other album to the
//! track's artists. An album is found by the name key of its title and the
//! artists key of its credits.
use vstd::prelude::*;

use crate::catalog::{album_type, album_type_of, is_most_used, most_used};
use crate::order::{lex_less, lex_lt};
use crate::fold::{artists_key, artists_key_of, name_key, name_key_of, tag_key, tag_key_of};
use crate::multi_value::string_views;
use crate::sort::{sort_key, sort_key_of};
use crate::problems::{group_key, group_key_of};
use crate::tags::{Lyrics, TagSet};
use crate::types::{DuplicateCandidate, ProblemKind};
use crate::text::{chars_of, string_from_chars, trim, trim_chars};

verus! {

/// One credit of a track or album: the spelling as stored (trimmed), or
/// `None` for the unknown artist, and the key it is found by.
#[derive(Debug, Clone, PartialEq, Eq)]
pub struct Credit {
    pub name: Option<String>,
    pub key: String,
}

/// A genre link: the tag's key and its spelling as stored (trimmed).
#[derive(Debug, Clone, PartialEq, Eq)]
pub struct GenreLink {
    pub key: String,
    pub name: String,
}

/// Everything a track points at, decided from its tags.
#[derive(Debug, Clone, PartialEq, Eq)]
pub struct TrackLinks {
    /// The track's artist credits, in tag order.
    pub artists: Vec<Credit>,
    /// The album's artist credits, in tag order.
    pub album_artists: Vec<Credit>,
    /// The name key of the album title (empty when untitled).
    pub album_title_key: String,
    /// The artists key of the album credits.
    pub album_artists_key: String,
    /// One link per genre, in tag order.
    pub genres: Vec<GenreLink>,
}

/// The track's credits: its artists, or the unknown artist when it names
/// none.
pub open spec fn credits_of(tags: TagSet) -> Seq<Option<Seq<char>>> {
    if tags.artists@.len() == 0 {
        seq![None]
    } else {
        tags.artists@.map_values(|s: String| Some(s@))
    }
}

/// The album's credits: its album artists; without them, the unknown
/// artist for a compilation and the track's credits otherwise.
pub open spec fn album_credits_of(tags: TagSet) -> Seq<Option<Seq<char>>> {
    if tags.album_artists@.len() > 0 {
        tags.album_artists@.map_values(|s: String| Some(s@))
    } else if tags.compilation {
        seq![None]
    } else {
        credits_of(tags)
    }
}

/// The text a credit stands for: its name, or nothing for the unknown
/// artist.
pub open spec fn credit_text(c: Option<Seq<char>>) -> Seq<char> {
    match c {
        Some(n) => n,
        None => Seq::empty(),
    }
}

/// The key a credit is found by: the name key, empty for the unknown artist.
pub open spec fn credit_key(c: Option<Seq<char>>) -> Seq<char> {
    match c {
        Some(n) => name_key_of(n),
        None => Seq::empty(),
    }
}

pub open spec fn opt_text(s: Option<String>) -> Option<Seq<char>> {
    match s {
        Some(x) => Some(x@),
        None => None,
    }
}

/// `c` is the credit made from `src`.
pub open spec fn credit_from(c: Credit, src: Option<Seq<char>>) -> bool {
    &&& opt_text(c.name) == match src {
        Some(n) => Some(trim(n)),
        None => None,
    }
    &&& c.key@ == credit_key(src)
}

/// `cs` are the credits made from `srcs`, one each, in order.
pub open spec fn credits_from(cs: Seq<Credit>, srcs: Seq<Option<Seq<char>>>) -> bool {
    cs.len() == srcs.len() && forall|k: int| 0 <= k < cs.len() ==> credit_from(#[trigger] cs[k], srcs[k])
}

/// The links of a track with these tags.
pub open spec fn links_ok(l: TrackLinks, tags: TagSet) -> bool {
    &&& credits_from(l.artists@, credits_of(tags))
    &&& credits_from(l.album_artists@, album_credits_of(tags))
    &&& l.album_title_key@ == name_key_of(
        match tags.album {
            Some(a) => a@,
            None => Seq::empty(),
        },
    )
    &&& l.album_artists_key@ == artists_key_of(album_credits_of(tags).map_values(|c: Option<Seq<char>>| credit_text(c)))
    &&& l.genres@.len() == tags.genres@.len()
    &&& forall|k: int| 0 <= k < l.genres@.len() ==> #[trigger] l.genres@[k].key@ == tag_key_of(tags.genres@[k]@)
        && l.genres@[k].name@ == trim(tags.genres@[k]@)
}

fn trimmed(s: &str) -> (out: String)
    ensures
        out@ == trim(s@),
{
    string_from_chars(&trim_chars(&chars_of(s)))
}

/// A credit for each name, in order.
fn named_credits(names: &Vec<String>) -> (cs: Vec<Credit>)
    ensures
        credits_from(cs@, names@.map_values(|s: String| Some(s@))),
{
    let mut cs: Vec<Credit> = Vec::new();
    let mut i: usize = 0;
    while i < names.len()
        invariant
            i <= names.len(),
            cs@.len() == i,
            forall|k: int| 0 <= k < i ==> credit_from(#[trigger] cs@[k], Some(names@[k]@)),
        decreases names.len() - i,
    {
        let c = Credit { name: Some(trimmed(names[i].as_str())), key: name_key(names[i].as_str()) };
        cs.push(c);
        i = i + 1;
    }
    cs
}

/// The unknown artist's credit.
fn unknown_credit() -> (c: Credit)
    ensures
        credit_from(c, None),
{
    let key = String::new();
    proof {
        assert(key@ =~= Seq::<char>::empty());
    }
    Credit { name: None, key }
}

/// What a track with these tags links to: its artist credits, its album's
/// credits, the key the album is found by, and its genres.
pub fn track_links(tags: &TagSet) -> (l: TrackLinks)
    ensures
        links_ok(l, *tags),
{
    let artists = if tags.artists.len() == 0 {
        let mut v: Vec<Credit> = Vec::new();
        v.push(unknown_credit());
        v
    } else {
        named_credits(&tags.artists)
    };
    let album_artists = if tags.album_artists.len() > 0 {
        named_credits(&tags.album_artists)
    } else if tags.compilation {
        let mut v: Vec<Credit> = Vec::new();
        v.push(unknown_credit());
        v
    } else if tags.artists.len() == 0 {
        let mut v: Vec<Credit> = Vec::new();
        v.push(unknown_credit());
        v
    } else {
        named_credits(&tags.artists)
    };
    proof {
        assert(credits_from(artists@, credits_of(*tags)));
    }
    let ghost srcs = album_credits_of(*tags);
    let mut names: Vec<&str> = Vec::new();
    if tags.album_artists.len() > 0 {
        let mut i: usize = 0;
        while i < tags.album_artists.len()
            invariant
                i <= tags.album_artists.len(),
                tags.album_artists@.len() > 0,
                srcs == album_credits_of(*tags),
                names@.len() == i,
                forall|k: int| 0 <= k < i ==> (#[trigger] names@[k])@ == credit_text(srcs[k]),
            decreases tags.album_artists.len() - i,
        {
            names.push(tags.album_artists[i].as_str());
            i = i + 1;
        }
        proof {
            assert(names@.len() == srcs.len());
        }
    } else if tags.compilation || tags.artists.len() == 0 {
        names.push("");
        proof {
            reveal_strlit("");
            assert(srcs == seq![None::<Seq<char>>]);
            assert(names@[0]@ == credit_text(srcs[0]));
        }
    } else {
        let mut i: usize = 0;
        while i < tags.artists.len()
            invariant
                i <= tags.artists.len(),
                tags.artists@.len() > 0,
                tags.album_artists@.len() == 0,
                !tags.compilation,
                srcs == album_credits_of(*tags),
                names@.len() == i,
                forall|k: int| 0 <= k < i ==> (#[trigger] names@[k])@ == credit_text(srcs[k]),
            decreases tags.artists.len() - i,
        {
            names.push(tags.artists[i].as_str());
            i = i + 1;
        }
        proof {
            assert(names@.len() == srcs.len());
        }
    }
    proof {
        assert(names@.map_values(|n: &str| n@) =~= srcs.map_values(|c: Option<Seq<char>>| credit_text(c)));
    }
    let album_artists_key = artists_key(names.as_slice());
    let album_title_key = match &tags.album {
        Some(a) => name_key(a.as_str()),
        None => name_key(""),
    };
    proof {
        reveal_strlit("");
    }
    let mut genres: Vec<GenreLink> = Vec::new();
    let mut g: usize = 0;
    while g < tags.genres.len()
        invariant
            g <= tags.genres.len(),
            genres@.len() == g,
            forall|k: int| 0 <= k < g ==> #[trigger] genres@[k].key@ == tag_key_of(tags.genres@[k]@)
                && genres@[k].name@ == trim(tags.genres@[k]@),
        decreases tags.genres.len() - g,
    {
        let key = tag_key(tags.genres[g].as_str());
        let name = trimmed(tags.genres[g].as_str());
        let ghost before = genres@;
        genres.push(GenreLink { key, name });
        proof {
            assert forall|k: int| 0 <= k < g + 1 implies #[trigger] genres@[k].key@ == tag_key_of(tags.genres@[k]@)
                && genres@[k].name@ == trim(tags.genres@[k]@) by {
                if k < g {
                    assert(genres@[k] == before[k]);
                }
            }
        }
        g = g + 1;
    }
    TrackLinks { artists, album_artists, album_title_key, album_artists_key, genres }
}

/// The number of different values in `s`.
pub open spec fn distinct_count<A>(s: Seq<A>) -> nat {
    s.to_set().len()
}

proof fn lemma_distinct_push<A>(s: Seq<A>, x: A)
    ensures
        distinct_count(s.push(x)) == distinct_count(s) + if s.contains(x) {
            0int
        } else {
            1int
        },
{
    assert forall|a: A| #[trigger] s.push(x).to_set().contains(a) == s.to_set().insert(x).contains(a) by {
        if s.contains(a) {
            let i = choose|i: int| 0 <= i < s.len() && s[i] == a;
            assert(s.push(x)[i] == a);
        }
        if a == x {
            assert(s.push(x)[s.len() as int] == x);
        }
        if s.push(x).contains(a) {
            let i = choose|i: int| 0 <= i < s.push(x).len() && s.push(x)[i] == a;
            if i < s.len() {
                assert(s[i] == a);
            }
        }
    }
    assert(s.push(x).to_set() =~= s.to_set().insert(x));
    vstd::seq_lib::seq_to_set_is_finite(s);
    vstd::set::axiom_set_insert_len(s.to_set(), x);
}

proof fn lemma_distinct_empty<A>()
    ensures
        distinct_count(Seq::<A>::empty()) == 0,
{
    assert(Seq::<A>::empty().to_set() =~= Set::<A>::empty());
}

/// The values that are there, in order.
pub open spec fn somes(s: Seq<Option<Seq<char>>>) -> Seq<Seq<char>>
    decreases s.len(),
{
    if s.len() == 0 {
        Seq::empty()
    } else {
        somes(s.drop_last()) + match s.last() {
            Some(x) => seq![x],
            None => Seq::empty(),
        }
    }
}

/// One credit of an artist on a track, as the catalog holds it.
#[derive(Debug, Clone)]
pub struct ArtistCreditRow {
    pub track_id: i64,
    /// The credit's place among the track's artists; 0 is the primary one.
    pub position: u64,
    /// The spelling credited; `None` for the unknown artist.
    pub name: Option<String>,
    /// Whether the track's file is missing.
    pub track_missing: bool,
    /// Whether the track's album lists this artist among its artists.
    pub on_album: bool,
    /// The track's artist sort key.
    pub artist_sort_key: String,
}

/// What becomes of an artist row.
#[derive(Debug, Clone, PartialEq, Eq)]
pub enum ArtistUpdate {
    /// Nothing credits the artist any more.
    Delete,
    Update {
        /// The most-used spelling, `None` when every credit is unnamed.
        name: Option<String>,
        sort_key: String,
        /// How many albums list the artist.
        album_count: u64,
        /// How many different tracks credit the artist.
        track_count: u64,
        /// Credits on tracks whose file is present.
        available: u64,
        /// Credits on tracks whose album does not list the artist.
        appearances: u64,
    },
}

pub open spec fn row_names(rows: Seq<ArtistCreditRow>) -> Seq<Option<Seq<char>>> {
    rows.map_values(|r: ArtistCreditRow| opt_text(r.name))
}

pub open spec fn opt_views(s: Seq<Option<String>>) -> Seq<Option<Seq<char>>> {
    s.map_values(|o: Option<String>| opt_text(o))
}

/// The artist sort keys of the tracks that credit the artist first.
pub open spec fn primary_sort_keys(rows: Seq<ArtistCreditRow>) -> Seq<Seq<char>> {
    rows.filter(|r: ArtistCreditRow| r.position == 0).map_values(|r: ArtistCreditRow| r.artist_sort_key@)
}

/// The sort key an artist gets: the most-used tagged sort key where it is
/// the primary credit, unless that is empty; otherwise the one derived from
/// its name.
pub open spec fn artist_sort_key_ok(k: Seq<char>, rows: Seq<ArtistCreditRow>, name: Option<Seq<char>>) -> bool {
    let keys = primary_sort_keys(rows);
    let derived = sort_key_of(
        match name {
            Some(n) => n,
            None => Seq::empty(),
        },
        None,
    );
    if keys.len() == 0 {
        k == derived
    } else {
        exists|t: Seq<char>| is_most_used(keys, t) && if t.len() > 0 {
            k == t
        } else {
            k == derived
        }
    }
}

/// What an artist row becomes, from the credits that point at it: its
/// track credits (`rows`), its spellings as an album artist of tracks
/// (`album_credit_names`) and how many albums list it (`album_count`).
pub open spec fn artist_update_ok(
    u: ArtistUpdate,
    rows: Seq<ArtistCreditRow>,
    album_credit_names: Seq<Option<String>>,
    album_count: u64,
) -> bool {
    if rows.len() == 0 && album_count == 0 && album_credit_names.len() == 0 {
        u == ArtistUpdate::Delete
    } else {
        let spellings = somes(row_names(rows) + opt_views(album_credit_names));
        match u {
            ArtistUpdate::Delete => false,
            ArtistUpdate::Update { name, sort_key, album_count: ac, track_count, available, appearances } => {
                &&& (spellings.len() == 0 ==> name is None)
                &&& (spellings.len() > 0 ==> (name matches Some(n) && is_most_used(spellings, n@)))
                &&& artist_sort_key_ok(sort_key@, rows, opt_text(name))
                &&& ac == album_count
                &&& track_count == distinct_count(rows.map_values(|r: ArtistCreditRow| r.track_id))
                &&& available == rows.filter(|r: ArtistCreditRow| !r.track_missing).len()
                &&& appearances == rows.filter(|r: ArtistCreditRow| !r.on_album).len()
            },
        }
    }
}

fn opt_clone(o: &Option<String>) -> (r: Option<String>)
    ensures
        opt_text(r) == opt_text(*o),
{
    match o {
        Some(s) => Some(string_from_chars(&chars_of(s.as_str()))),
        None => None,
    }
}

/// Push the named values of `src` onto `out`.
fn push_somes(out: &mut Vec<String>, src: &Vec<Option<String>>)
    ensures
        string_views(final(out)@) == string_views(old(out)@) + somes(opt_views(src@)),
{
    let mut i: usize = 0;
    proof {
        assert(opt_views(src@).take(0) =~= Seq::<Option<Seq<char>>>::empty());
        assert(string_views(out@) =~= string_views(old(out)@) + somes(opt_views(src@).take(0)));
    }
    while i < src.len()
        invariant
            i <= src.len(),
            string_views(out@) == string_views(old(out)@) + somes(opt_views(src@).take(i as int)),
        decreases src.len() - i,
    {
        let ghost before = string_views(out@);
        proof {
            assert(opt_views(src@).take(i + 1).drop_last() =~= opt_views(src@).take(i as int));
            assert(opt_views(src@).take(i + 1).last() == opt_text(src@[i as int]));
        }
        match &src[i] {
            Some(x) => {
                out.push(string_from_chars(&chars_of(x.as_str())));
                proof {
                    assert(string_views(out@) =~= before.push(x@));
                }
            },
            None => {},
        }
        i = i + 1;
    }
    proof {
        assert(opt_views(src@).take(src.len() as int) =~= opt_views(src@));
    }
}

proof fn lemma_somes_concat(a: Seq<Option<Seq<char>>>, b: Seq<Option<Seq<char>>>)
    ensures
        somes(a + b) == somes(a) + somes(b),
    decreases b.len(),
{
    if b.len() == 0 {
        assert(a + b =~= a);
        assert(somes(a) + somes(b) =~= somes(a));
    } else {
        lemma_somes_concat(a, b.drop_last());
        assert((a + b).drop_last() =~= a + b.drop_last());
        assert((a + b).last() == b.last());
        assert(somes(a) + somes(b) =~= somes(a) + somes(b.drop_last()) + match b.last() {
            Some(x) => seq![x],
            None => Seq::<Seq<char>>::empty(),
        });
    }
}

/// Decide what an artist row becomes from the credits that point at it:
/// deleted when no track, album or album-artist credit remains; otherwise
/// named by its most-used spelling, sorted by its most-used tagged sort key
/// (or its name), and counted.
pub fn artist_update(rows: &Vec<ArtistCreditRow>, album_credit_names: &Vec<Option<String>>, album_count: u64) -> (u: ArtistUpdate)
    ensures
        artist_update_ok(u, rows@, album_credit_names@, album_count),
{
    if rows.len() == 0 && album_count == 0 && album_credit_names.len() == 0 {
        return ArtistUpdate::Delete;
    }
    // Spellings, and the counts.
    let mut row_name_opts: Vec<Option<String>> = Vec::new();
    let mut keys: Vec<String> = Vec::new();
    let mut track_count: u64 = 0;
    let mut available: u64 = 0;
    let mut appearances: u64 = 0;
    let ghost ids = rows@.map_values(|r: ArtistCreditRow| r.track_id);
    let ghost present = |r: ArtistCreditRow| !r.track_missing;
    let ghost away = |r: ArtistCreditRow| !r.on_album;
    let ghost primary = |r: ArtistCreditRow| r.position == 0;
    proof {
        lemma_distinct_empty::<i64>();
        assert(ids.take(0) =~= Seq::<i64>::empty());
        assert(rows@.take(0) =~= Seq::<ArtistCreditRow>::empty());
        assert(rows@.take(0).filter(present) =~= Seq::<ArtistCreditRow>::empty());
        assert(rows@.take(0).filter(away) =~= Seq::<ArtistCreditRow>::empty());
        assert(rows@.take(0).filter(primary) =~= Seq::<ArtistCreditRow>::empty());
    }
    let mut i: usize = 0;
    while i < rows.len()
        invariant
            i <= rows.len(),
            ids == rows@.map_values(|r: ArtistCreditRow| r.track_id),
            present == (|r: ArtistCreditRow| !r.track_missing),
            away == (|r: ArtistCreditRow| !r.on_album),
            primary == (|r: ArtistCreditRow| r.position == 0),
            opt_views(row_name_opts@) == row_names(rows@.take(i as int)),
            string_views(keys@) == rows@.take(i as int).filter(primary).map_values(|r: ArtistCreditRow| r.artist_sort_key@),
            track_count == distinct_count(ids.take(i as int)),
            available == rows@.take(i as int).filter(present).len(),
            appearances == rows@.take(i as int).filter(away).len(),
            track_count <= i,
            available <= i,
            appearances <= i,
            rows.len() <= usize::MAX,
        decreases rows.len() - i,
    {
        let r = &rows[i];
        let ghost pre = rows@.take(i as int);
        proof {
            assert(rows@.take(i + 1) =~= pre.push(rows@[i as int]));
            assert(ids.take(i + 1) =~= ids.take(i as int).push(r.track_id));
            pre.lemma_filter_push(rows@[i as int], present);
            pre.lemma_filter_push(rows@[i as int], away);
            pre.lemma_filter_push(rows@[i as int], primary);
            lemma_distinct_push(ids.take(i as int), r.track_id);
            assert(row_names(rows@.take(i + 1)) =~= row_names(pre).push(opt_text(r.name)));
        }
        let mut seen = false;
        let mut j: usize = 0;
        while j < i
            invariant
                j <= i,
                i < rows.len(),
                ids == rows@.map_values(|r: ArtistCreditRow| r.track_id),
                seen == exists|k: int| 0 <= k < j && ids[k] == rows@[i as int].track_id,
            decreases i - j,
        {
            proof {
                assert(ids[j as int] == rows@[j as int].track_id);
            }
            if rows[j].track_id == rows[i].track_id {
                seen = true;
            }
            j = j + 1;
        }
        proof {
            if seen {
                let k = choose|k: int| 0 <= k < i && ids[k] == rows@[i as int].track_id;
                assert(ids.take(i as int)[k] == r.track_id);
            }
            if ids.take(i as int).contains(r.track_id) {
                let k = choose|k: int| 0 <= k < i && ids.take(i as int)[k] == r.track_id;
                assert(ids[k] == r.track_id);
            }
        }
        if !seen {
            track_count = track_count + 1;
        }
        if !r.track_missing {
            available = available + 1;
        }
        if !r.on_album {
            appearances = appearances + 1;
        }
        let ghost kb = string_views(keys@);
        if r.position == 0 {
            keys.push(string_from_chars(&chars_of(r.artist_sort_key.as_str())));
            proof {
                assert(string_views(keys@) =~= kb.push(r.artist_sort_key@));
            }
        }
        proof {
            assert(pre.push(rows@[i as int]).filter(primary).map_values(|r: ArtistCreditRow| r.artist_sort_key@) =~= if r.position
                == 0 {
                pre.filter(primary).map_values(|r: ArtistCreditRow| r.artist_sort_key@).push(r.artist_sort_key@)
            } else {
                pre.filter(primary).map_values(|r: ArtistCreditRow| r.artist_sort_key@)
            });
        }
        let ghost nb = opt_views(row_name_opts@);
        row_name_opts.push(opt_clone(&r.name));
        proof {
            assert(opt_views(row_name_opts@) =~= nb.push(opt_text(r.name)));
        }
        i = i + 1;
    }
    proof {
        assert(rows@.take(rows.len() as int) =~= rows@);
        assert(ids.take(rows.len() as int) =~= ids);
    }
    let mut spellings: Vec<String> = Vec::new();
    proof {
        assert(string_views(spellings@) =~= Seq::<Seq<char>>::empty());
    }
    push_somes(&mut spellings, &row_name_opts);
    push_somes(&mut spellings, album_credit_names);
    proof {
        lemma_somes_concat(row_names(rows@), opt_views(album_credit_names@));
        assert(string_views(spellings@) =~= somes(row_names(rows@) + opt_views(album_credit_names@)));
    }
    let name = most_used(&spellings);
    let derived = match &name {
        Some(n) => sort_key(n.as_str(), None),
        None => sort_key("", None),
    };
    proof {
        reveal_strlit("");
    }
    let sort = if keys.len() == 0 {
        derived
    } else {
        match most_used(&keys) {
            Some(t) => if chars_of(t.as_str()).len() > 0 {
                proof {
                    assert(is_most_used(primary_sort_keys(rows@), t@));
                }
                t
            } else {
                proof {
                    assert(is_most_used(primary_sort_keys(rows@), t@));
                }
                derived
            },
            None => derived,
        }
    };
    ArtistUpdate::Update { name, sort_key: sort, album_count, track_count, available, appearances }
}

/// One track of an album, as the catalog holds it.
#[derive(Debug, Clone)]
pub struct AlbumTrackRow {
    /// The album title the track's tags spell.
    pub title: Option<String>,
    pub album_sort_key: String,
    pub release_date: Option<String>,
    pub release_type: Option<String>,
    pub disc_number: i64,
    pub disc_total: Option<i64>,
    pub track_total: Option<i64>,
    pub compilation: bool,
    pub duration_us: u64,
    /// Whether the track's file is missing.
    pub missing: bool,
}

/// What becomes of an album row.
#[derive(Debug, Clone, PartialEq, Eq)]
pub enum AlbumUpdate {
    /// No track points at the album any more.
    Delete,
    Update {
        /// The most-used spelling of the title.
        title: Option<String>,
        /// The least sort key among the tracks spelling that title; `None`
        /// keeps the stored one.
        sort_key: Option<String>,
        /// `album`, `single`, `ep` or `compilation`.
        album_type: String,
        /// The most-used release date.
        release_date: Option<String>,
        /// The largest disc and track totals tagged.
        disc_total: Option<i64>,
        track_total: Option<i64>,
        /// How many different disc numbers the tracks carry.
        disc_count: u64,
        track_count: u64,
        /// Tracks whose file is present.
        available: u64,
        duration_us: u64,
    },
}

/// The largest value present, if any.
pub open spec fn max_opt(s: Seq<Option<i64>>) -> Option<i64>
    decreases s.len(),
{
    if s.len() == 0 {
        None
    } else {
        let m = max_opt(s.drop_last());
        match (m, s.last()) {
            (Some(a), Some(b)) => Some(if a >= b { a } else { b }),
            (None, x) => x,
            (x, None) => x,
        }
    }
}

/// The total duration of the tracks.
pub open spec fn total_duration(rows: Seq<AlbumTrackRow>) -> nat
    decreases rows.len(),
{
    if rows.len() == 0 {
        0
    } else {
        total_duration(rows.drop_last()) + rows.last().duration_us as nat
    }
}

/// The most-used of the values present, or `None` when none is.
pub open spec fn most_used_opt_ok(r: Option<String>, values: Seq<Option<Seq<char>>>) -> bool {
    let present = somes(values);
    &&& (present.len() == 0 ==> r is None)
    &&& (present.len() > 0 ==> (r matches Some(v) && is_most_used(present, v@)))
}

/// `k` is the least of `keys` in byte order.
pub open spec fn is_least(keys: Seq<Seq<char>>, k: Seq<char>) -> bool {
    keys.contains(k) && forall|i: int| 0 <= i < keys.len() ==> !lex_lt(#[trigger] keys[i], k)
}

/// The sort keys of the tracks spelling the title `t`.
pub open spec fn sort_keys_for(rows: Seq<AlbumTrackRow>, t: Option<Seq<char>>) -> Seq<Seq<char>> {
    rows.filter(|r: AlbumTrackRow| opt_text(r.title) == t).map_values(|r: AlbumTrackRow| r.album_sort_key@)
}

/// What an album row becomes, from the tracks that point at it.
pub open spec fn album_update_ok(u: AlbumUpdate, rows: Seq<AlbumTrackRow>) -> bool {
    if rows.len() == 0 {
        u == AlbumUpdate::Delete
    } else {
        match u {
            AlbumUpdate::Delete => false,
            AlbumUpdate::Update {
                title,
                sort_key,
                album_type,
                release_date,
                disc_total,
                track_total,
                disc_count,
                track_count,
                available,
                duration_us,
            } => {
                let keys = sort_keys_for(rows, opt_text(title));
                let types = rows.map_values(|r: AlbumTrackRow| opt_text(r.release_type));
                &&& most_used_opt_ok(title, rows.map_values(|r: AlbumTrackRow| opt_text(r.title)))
                &&& (keys.len() == 0 ==> sort_key is None)
                &&& (keys.len() > 0 ==> (sort_key matches Some(k) && is_least(keys, k@)))
                &&& most_used_opt_ok(release_date, rows.map_values(|r: AlbumTrackRow| opt_text(r.release_date)))
                &&& disc_total == max_opt(rows.map_values(|r: AlbumTrackRow| r.disc_total))
                &&& track_total == max_opt(rows.map_values(|r: AlbumTrackRow| r.track_total))
                &&& exists|rt: Option<String>| most_used_opt_ok(rt, types) && album_type@ == album_type_of(
                    opt_text(rt),
                    exists|i: int| 0 <= i < rows.len() && #[trigger] rows[i].compilation,
                    track_total,
                )
                &&& disc_count == distinct_count(rows.map_values(|r: AlbumTrackRow| r.disc_number))
                &&& track_count == rows.len()
                &&& available == rows.filter(|r: AlbumTrackRow| !r.missing).len()
                &&& duration_us == total_duration(rows)
            },
        }
    }
}

/// The most-used of the values present.
fn most_used_present(values: &Vec<Option<String>>) -> (r: Option<String>)
    ensures
        most_used_opt_ok(r, opt_views(values@)),
{
    let mut present: Vec<String> = Vec::new();
    proof {
        assert(string_views(present@) =~= Seq::<Seq<char>>::empty());
    }
    push_somes(&mut present, values);
    proof {
        assert(string_views(present@) =~= somes(opt_views(values@)));
    }
    most_used(&present)
}

fn opt_eq(a: &Option<String>, b: &Option<String>) -> (r: bool)
    ensures
        r == (opt_text(*a) == opt_text(*b)),
{
    match (a, b) {
        (Some(x), Some(y)) => crate::text::str_eq(x.as_str(), y.as_str()),
        (None, None) => true,
        _ => false,
    }
}

/// Decide what an album row becomes from the tracks that point at it:
/// deleted when none does; otherwise titled, dated and typed by the
/// most-used spellings, sorted by the least sort key of the tracks with that
/// title, and counted.
pub fn album_update(rows: &Vec<AlbumTrackRow>) -> (u: AlbumUpdate)
    requires
        total_duration(rows@) <= u64::MAX,
    ensures
        album_update_ok(u, rows@),
{
    if rows.len() == 0 {
        return AlbumUpdate::Delete;
    }
    let mut titles: Vec<Option<String>> = Vec::new();
    let mut dates: Vec<Option<String>> = Vec::new();
    let mut types: Vec<Option<String>> = Vec::new();
    let mut disc_total: Option<i64> = None;
    let mut track_total: Option<i64> = None;
    let mut disc_count: u64 = 0;
    let mut available: u64 = 0;
    let mut duration: u64 = 0;
    let mut compilation = false;
    let ghost discs = rows@.map_values(|r: AlbumTrackRow| r.disc_number);
    let ghost present = |r: AlbumTrackRow| !r.missing;
    proof {
        lemma_distinct_empty::<i64>();
        assert(discs.take(0) =~= Seq::<i64>::empty());
        assert(rows@.take(0) =~= Seq::<AlbumTrackRow>::empty());
        assert(rows@.take(0).filter(present) =~= Seq::<AlbumTrackRow>::empty());
    }
    let mut i: usize = 0;
    while i < rows.len()
        invariant
            i <= rows.len(),
            discs == rows@.map_values(|r: AlbumTrackRow| r.disc_number),
            present == (|r: AlbumTrackRow| !r.missing),
            total_duration(rows@) <= u64::MAX,
            opt_views(titles@) == rows@.take(i as int).map_values(|r: AlbumTrackRow| opt_text(r.title)),
            opt_views(dates@) == rows@.take(i as int).map_values(|r: AlbumTrackRow| opt_text(r.release_date)),
            opt_views(types@) == rows@.take(i as int).map_values(|r: AlbumTrackRow| opt_text(r.release_type)),
            disc_total == max_opt(rows@.take(i as int).map_values(|r: AlbumTrackRow| r.disc_total)),
            track_total == max_opt(rows@.take(i as int).map_values(|r: AlbumTrackRow| r.track_total)),
            disc_count == distinct_count(discs.take(i as int)),
            disc_count <= i,
            available == rows@.take(i as int).filter(present).len(),
            available <= i,
            duration == total_duration(rows@.take(i as int)),
            compilation == exists|k: int| 0 <= k < i && #[trigger] rows@[k].compilation,
        decreases rows.len() - i,
    {
        let r = &rows[i];
        let ghost pre = rows@.take(i as int);
        proof {
            assert(rows@.take(i + 1) =~= pre.push(rows@[i as int]));
            assert(rows@.take(i + 1).drop_last() =~= pre);
            assert(discs.take(i + 1) =~= discs.take(i as int).push(r.disc_number));
            pre.lemma_filter_push(rows@[i as int], present);
            lemma_distinct_push(discs.take(i as int), r.disc_number);
            lemma_total_le(rows@, i + 1);
            assert(pre.push(rows@[i as int]).map_values(|r: AlbumTrackRow| r.disc_total) =~= pre.map_values(
                |r: AlbumTrackRow| r.disc_total,
            ).push(r.disc_total));
            assert(pre.push(rows@[i as int]).map_values(|r: AlbumTrackRow| r.track_total) =~= pre.map_values(
                |r: AlbumTrackRow| r.track_total,
            ).push(r.track_total));
            assert(pre.push(rows@[i as int]).map_values(|r: AlbumTrackRow| r.disc_total).drop_last() =~= pre.map_values(
                |r: AlbumTrackRow| r.disc_total,
            ));
            assert(pre.push(rows@[i as int]).map_values(|r: AlbumTrackRow| r.track_total).drop_last() =~= pre.map_values(
                |r: AlbumTrackRow| r.track_total,
            ));
        }
        let mut seen = false;
        let mut j: usize = 0;
        while j < i
            invariant
                j <= i,
                i < rows.len(),
                discs == rows@.map_values(|r: AlbumTrackRow| r.disc_number),
                seen == exists|k: int| 0 <= k < j && discs[k] == rows@[i as int].disc_number,
            decreases i - j,
        {
            proof {
                assert(discs[j as int] == rows@[j as int].disc_number);
            }
            if rows[j].disc_number == rows[i].disc_number {
                seen = true;
            }
            j = j + 1;
        }
        proof {
            if seen {
                let k = choose|k: int| 0 <= k < i && discs[k] == rows@[i as int].disc_number;
                assert(discs.take(i as int)[k] == r.disc_number);
            }
            if discs.take(i as int).contains(r.disc_number) {
                let k = choose|k: int| 0 <= k < i && discs.take(i as int)[k] == r.disc_number;
                assert(discs[k] == r.disc_number);
            }
        }
        if !seen {
            disc_count = disc_count + 1;
        }
        if !r.missing {
            available = available + 1;
        }
        duration = duration + r.duration_us;
        disc_total = match (disc_total, r.disc_total) {
            (Some(a), Some(b)) => Some(if a >= b { a } else { b }),
            (None, x) => x,
            (x, None) => x,
        };
        track_total = match (track_total, r.track_total) {
            (Some(a), Some(b)) => Some(if a >= b { a } else { b }),
            (None, x) => x,
            (x, None) => x,
        };
        if r.compilation {
            compilation = true;
        }
        let ghost tb = opt_views(titles@);
        let ghost db = opt_views(dates@);
        let ghost yb = opt_views(types@);
        titles.push(opt_clone(&r.title));
        dates.push(opt_clone(&r.release_date));
        types.push(opt_clone(&r.release_type));
        proof {
            assert(opt_views(titles@) =~= tb.push(opt_text(r.title)));
            assert(opt_views(dates@) =~= db.push(opt_text(r.release_date)));
            assert(opt_views(types@) =~= yb.push(opt_text(r.release_type)));
            assert(rows@.take(i + 1).map_values(|r: AlbumTrackRow| opt_text(r.title)) =~= tb.push(opt_text(r.title)));
            assert(rows@.take(i + 1).map_values(|r: AlbumTrackRow| opt_text(r.release_date)) =~= db.push(opt_text(r.release_date)));
            assert(rows@.take(i + 1).map_values(|r: AlbumTrackRow| opt_text(r.release_type)) =~= yb.push(opt_text(r.release_type)));
            assert(compilation == exists|k: int| 0 <= k < i + 1 && #[trigger] rows@[k].compilation);
        }
        i = i + 1;
    }
    proof {
        assert(rows@.take(rows.len() as int) =~= rows@);
        assert(discs.take(rows.len() as int) =~= discs);
    }
    let title = most_used_present(&titles);
    let release_date = most_used_present(&dates);
    let release_type = most_used_present(&types);
    // The least sort key among the tracks that spell the title.
    let ghost pick = |r: AlbumTrackRow| opt_text(r.title) == opt_text(title);
    let ghost key_of = |r: AlbumTrackRow| r.album_sort_key@;
    let mut best: Option<Vec<char>> = None;
    proof {
        assert(rows@.take(0).filter(pick) =~= Seq::<AlbumTrackRow>::empty());
    }
    let mut k: usize = 0;
    while k < rows.len()
        invariant
            k <= rows.len(),
            pick == (|r: AlbumTrackRow| opt_text(r.title) == opt_text(title)),
            key_of == (|r: AlbumTrackRow| r.album_sort_key@),
            ({
                let keys = rows@.take(k as int).filter(pick).map_values(key_of);
                &&& (keys.len() == 0 ==> best is None)
                &&& (keys.len() > 0 ==> (best matches Some(b) && is_least(keys, b@)))
            }),
        decreases rows.len() - k,
    {
        let ghost pre = rows@.take(k as int);
        let ghost keys0 = pre.filter(pick).map_values(key_of);
        proof {
            assert(rows@.take(k + 1) =~= pre.push(rows@[k as int]));
            pre.lemma_filter_push(rows@[k as int], pick);
        }
        if opt_eq(&rows[k].title, &title) {
            let ch = chars_of(rows[k].album_sort_key.as_str());
            let ghost keys1 = keys0.push(ch@);
            proof {
                assert(pre.push(rows@[k as int]).filter(pick).map_values(key_of) =~= keys1);
            }
            let replace = match &best {
                None => true,
                Some(b) => lex_less(&ch, b),
            };
            if replace {
                proof {
                    if keys0.len() > 0 {
                        let b = best->0@;
                        assert forall|q: int| 0 <= q < keys1.len() implies !lex_lt(#[trigger] keys1[q], ch@) by {
                            if q < keys0.len() {
                                assert(keys1[q] == keys0[q]);
                                assert(!lex_lt(keys0[q], b));
                                if lex_lt(keys0[q], ch@) {
                                    crate::order::lemma_lex_transitive(keys0[q], ch@, b);
                                }
                            } else {
                                crate::order::lemma_lex_irreflexive(ch@);
                            }
                        }
                    } else {
                        assert forall|q: int| 0 <= q < keys1.len() implies !lex_lt(#[trigger] keys1[q], ch@) by {
                            crate::order::lemma_lex_irreflexive(ch@);
                        }
                    }
                    assert(keys1[keys0.len() as int] == ch@);
                }
                best = Some(ch);
            } else {
                proof {
                    let b = best->0@;
                    assert(keys1.contains(b)) by {
                        let q = choose|q: int| 0 <= q < keys0.len() && keys0[q] == b;
                        assert(keys1[q] == b);
                    }
                    assert forall|q: int| 0 <= q < keys1.len() implies !lex_lt(#[trigger] keys1[q], b) by {
                        if q < keys0.len() {
                            assert(keys1[q] == keys0[q]);
                        }
                    }
                }
            }
        } else {
            proof {
                assert(pre.push(rows@[k as int]).filter(pick).map_values(key_of) =~= keys0);
            }
        }
        k = k + 1;
    }
    proof {
        assert(rows@.take(rows.len() as int) =~= rows@);
        assert(rows@.filter(pick).map_values(key_of) =~= sort_keys_for(rows@, opt_text(title)));
    }
    let sort_key = match best {
        Some(b) => Some(string_from_chars(&b)),
        None => None,
    };
    let kind = match &release_type {
        Some(t) => album_type(Some(t.as_str()), compilation, track_total),
        None => album_type(None, compilation, track_total),
    };
    let album_type = crate::text::owned(kind);
    proof {
        assert(opt_views(types@) == rows@.map_values(|r: AlbumTrackRow| opt_text(r.release_type)));
        assert(most_used_opt_ok(release_type, rows@.map_values(|r: AlbumTrackRow| opt_text(r.release_type))));
    }
    AlbumUpdate::Update {
        title,
        sort_key,
        album_type,
        release_date,
        disc_total,
        track_total,
        disc_count,
        track_count: rows.len() as u64,
        available,
        duration_us: duration,
    }
}

proof fn lemma_total_le(rows: Seq<AlbumTrackRow>, n: int)
    requires
        0 <= n <= rows.len(),
    ensures
        total_duration(rows.take(n)) <= total_duration(rows),
    decreases rows.len() - n,
{
    if n < rows.len() {
        lemma_total_le(rows, n + 1);
        assert(rows.take(n + 1).drop_last() =~= rows.take(n));
    } else {
        assert(rows.take(n) =~= rows);
    }
}

/// What recording a problem does to the problem groups.
#[derive(Debug, Clone, PartialEq, Eq)]
pub struct ProblemPlan {
    /// The group the problem belongs in.
    pub key: String,
    /// No group with that key exists yet: create it, with this problem's
    /// detail as its summary.
    pub create_group: bool,
    /// The group's last sighting afterwards.
    pub last_seen: u64,
    /// Whether the path's entry is replaced (it was in another group, or in
    /// none); otherwise its detail and time are updated in place.
    pub replace_entry: bool,
    /// The group the path leaves, to be recounted (and deleted if empty).
    pub leave_group: Option<String>,
}

/// Decide how a problem is recorded. `group_last_seen` is the last sighting
/// of the group its key names, if that group exists; `entry_group` is the
/// group the path is recorded under now, if any.
pub fn problem_plan(
    kind: ProblemKind,
    root: &str,
    detail: &str,
    seen: u64,
    group_last_seen: Option<u64>,
    entry_group: Option<&str>,
) -> (p: ProblemPlan)
    ensures
        p.key@ == group_key_of(kind, root@, detail@),
        p.create_group == group_last_seen is None,
        p.last_seen == match group_last_seen {
            Some(l) => if l >= seen {
                l
            } else {
                seen
            },
            None => seen,
        },
        p.replace_entry == match entry_group {
            Some(g) => g@ != p.key@,
            None => true,
        },
        match entry_group {
            Some(g) => if g@ != p.key@ {
                p.leave_group matches Some(l) && l@ == g@
            } else {
                p.leave_group is None
            },
            None => p.leave_group is None,
        },
{
    let key = group_key(kind, root, detail);
    let last_seen = match group_last_seen {
        Some(l) => if l >= seen {
            l
        } else {
            seen
        },
        None => seen,
    };
    let (replace_entry, leave_group) = match entry_group {
        Some(g) => if crate::text::str_eq(g, key.as_str()) {
            (false, None)
        } else {
            (true, Some(crate::text::owned(g)))
        },
        None => (true, None),
    };
    ProblemPlan { key, create_group: group_last_seen.is_none(), last_seen, replace_entry, leave_group }
}

/// A problem group recounted: kept with its count, or deleted when no path
/// is left in it.
pub fn recounted_group(count: u64) -> (keep: Option<u64>)
    ensures
        count == 0 ==> keep is None,
        count > 0 ==> keep == Some(count),
{
    if count == 0 {
        None
    } else {
        Some(count)
    }
}

/// Whom a folder's artist image and biography go to: the album's artists
/// when any of them is named (`true`), else the track's artists.
pub fn art_goes_to_album_artists(links: &TrackLinks) -> (r: bool)
    ensures
        r == exists|i: int| 0 <= i < links.album_artists@.len() && (#[trigger] links.album_artists@[i]).name is Some,
{
    let mut i: usize = 0;
    while i < links.album_artists.len()
        invariant
            i <= links.album_artists.len(),
            forall|k: int| 0 <= k < i ==> (#[trigger] links.album_artists@[k]).name is None,
        decreases links.album_artists.len() - i,
    {
        if links.album_artists[i].name.is_some() {
            return true;
        }
        i = i + 1;
    }
    false
}

/// The lyrics kind a track row records.
pub open spec fn lyrics_kind_of(lyrics: Option<Lyrics>) -> Seq<char> {
    match lyrics {
        None => "none"@,
        Some(l) => if l.synced {
            "synced"@
        } else {
            "plain"@
        },
    }
}

/// The lyrics kind a track row records: `none` without lyrics, else
/// `synced` or `plain`.
pub fn lyrics_kind(lyrics: &Option<Lyrics>) -> (k: &'static str)
    ensures
        k@ == lyrics_kind_of(*lyrics),
{
    match lyrics {
        None => "none",
        Some(l) => if l.synced {
            "synced"
        } else {
            "plain"
        },
    }
}

/// Whether `i` is the first of the credits at the lowest position.
pub open spec fn is_first_lowest(credits: Seq<(i64, String)>, i: int) -> bool {
    &&& 0 <= i < credits.len()
    &&& forall|j: int| 0 <= j < credits.len() ==> credits[i].0 <= (#[trigger] credits[j]).0
    &&& forall|j: int| 0 <= j < i ==> credits[i].0 < (#[trigger] credits[j]).0
}

/// The album's artist sort key: of its album artists (position, sort key),
/// the key of the one at the lowest position, the first listed of those;
/// none without album artists.
pub fn lead_artist_sort_key(credits: &Vec<(i64, String)>) -> (r: Option<String>)
    ensures
        r is None <==> credits.len() == 0,
        r matches Some(k) ==> exists|i: int| is_first_lowest(credits@, i) && k@ == (#[trigger] credits@[i]).1@,
{
    if credits.len() == 0 {
        return None;
    }
    let mut best: usize = 0;
    let mut i: usize = 1;
    while i < credits.len()
        invariant
            1 <= i <= credits.len(),
            best < i,
            forall|j: int| 0 <= j < i ==> credits@[best as int].0 <= (#[trigger] credits@[j]).0,
            forall|j: int| 0 <= j < best ==> credits@[best as int].0 < (#[trigger] credits@[j]).0,
        decreases credits.len() - i,
    {
        if credits[i].0 < credits[best].0 {
            best = i;
        }
        i = i + 1;
    }
    let k = crate::text::owned(credits[best].1.as_str());
    proof {
        assert(is_first_lowest(credits@, best as int));
    }
    Some(k)
}

/// Credits in order: by position, then by name.
pub open spec fn credit_le(a: (i64, String), b: (i64, String)) -> bool {
    a.0 < b.0 || (a.0 == b.0 && !lex_lt(b.1@, a.1@))
}

pub open spec fn credits_sorted(s: Seq<(i64, String)>) -> bool {
    forall|i: int, j: int| 0 <= i < j < s.len() ==> credit_le(#[trigger] s[i], #[trigger] s[j])
}

proof fn lemma_credit_le_trans(a: (i64, String), b: (i64, String), c: (i64, String))
    requires
        credit_le(a, b),
        credit_le(b, c),
    ensures
        credit_le(a, c),
{
    if a.0 == b.0 && b.0 == c.0 {
        if lex_lt(c.1@, a.1@) {
            crate::order::lemma_lex_total(b.1@, a.1@);
            crate::order::lemma_lex_total(c.1@, b.1@);
            if lex_lt(c.1@, b.1@) {
            } else if c.1@ == b.1@ {
            } else {
                crate::order::lemma_lex_transitive(b.1@, c.1@, a.1@);
            }
        }
    }
}

/// The credits sorted by position, then name: the order credits are
/// listed in.
pub fn by_position(credits: &Vec<(i64, String)>) -> (out: Vec<(i64, String)>)
    ensures
        out@.to_multiset() == credits@.to_multiset(),
        credits_sorted(out@),
{
    let mut out: Vec<(i64, String)> = Vec::new();
    let mut i: usize = 0;
    proof {
        assert(credits@.take(0) =~= Seq::<(i64, String)>::empty());
        assert(out@ =~= credits@.take(0));
    }
    while i < credits.len()
        invariant
            i <= credits.len(),
            out@.to_multiset() == credits@.take(i as int).to_multiset(),
            credits_sorted(out@),
        decreases credits.len() - i,
    {
        let x = (credits[i].0, credits[i].1.clone());
        // The first place whose credit comes after `x`.
        let xc = chars_of(x.1.as_str());
        let mut j: usize = 0;
        while j < out.len() && !(x.0 < out[j].0 || (x.0 == out[j].0 && lex_less(&xc, &chars_of(out[j].1.as_str()))))
            invariant
                j <= out.len(),
                xc@ == x.1@,
                forall|k: int| 0 <= k < j ==> credit_le(#[trigger] out@[k], x),
            decreases out.len() - j,
        {
            proof {
                let o = out@[j as int];
                crate::order::lemma_lex_total(x.1@, o.1@);
                if x.0 == o.0 && !lex_lt(x.1@, o.1@) {
                    if x.1@ != o.1@ {
                        crate::order::lemma_lex_asym(o.1@, x.1@);
                    } else {
                        crate::order::lemma_lex_irreflexive(x.1@);
                    }
                }
            }
            j = j + 1;
        }
        let ghost before = out@;
        proof {
            if j < out.len() {
                let o = out@[j as int];
                assert(x.0 < o.0 || (x.0 == o.0 && lex_lt(x.1@, o.1@)));
                if x.0 == o.0 {
                    crate::order::lemma_lex_asym(x.1@, o.1@);
                }
                assert(credit_le(x, o));
                assert forall|k: int| j <= k < before.len() implies credit_le(x, #[trigger] before[k]) by {
                    if k > j {
                        lemma_credit_le_trans(x, o, before[k]);
                    }
                }
            }
        }
        out.insert(j, x);
        proof {
            assert(out@ == before.insert(j as int, x));
            assert forall|a: int, b: int| 0 <= a < b < out@.len() implies credit_le(#[trigger] out@[a], #[trigger] out@[b]) by {
                if b < j {
                    assert(out@[a] == before[a] && out@[b] == before[b]);
                } else if b == j {
                    assert(out@[a] == before[a]);
                } else if a < j {
                    assert(out@[a] == before[a] && out@[b] == before[b - 1]);
                    lemma_credit_le_trans(before[a], x, before[b - 1]);
                } else if a == j {
                    assert(out@[b] == before[b - 1]);
                } else {
                    assert(out@[a] == before[a - 1] && out@[b] == before[b - 1]);
                }
            }
            let l = before.subrange(0, j as int);
            let r = before.subrange(j as int, before.len() as int);
            assert(before =~= l + r);
            vstd::seq_lib::lemma_multiset_commutative(l, r);
            vstd::seq_lib::lemma_multiset_commutative(l.push(x), r);
            l.to_multiset_ensures();
            assert(credits@.take(i + 1) =~= credits@.take(i as int).push(credits@[i as int]));
            credits@.take(i as int).to_multiset_ensures();
            assert(out@.to_multiset() =~= credits@.take(i + 1).to_multiset());
        }
        i = i + 1;
    }
    proof {
        assert(credits@.take(credits.len() as int) =~= credits@);
    }
    out
}

/// The names of credits, in order.
fn names_of(credits: &Vec<(i64, String)>) -> (out: Vec<String>)
    ensures
        string_views(out@) == credits@.map_values(|c: (i64, String)| c.1@),
{
    let mut out: Vec<String> = Vec::new();
    let mut i: usize = 0;
    while i < credits.len()
        invariant
            i <= credits.len(),
            string_views(out@) == credits@.take(i as int).map_values(|c: (i64, String)| c.1@),
        decreases credits.len() - i,
    {
        let ghost before = string_views(out@);
        out.push(string_from_chars(&chars_of(credits[i].1.as_str())));
        proof {
            assert(string_views(out@) =~= before.push(credits@[i as int].1@));
            assert(credits@.take(i + 1).map_values(|c: (i64, String)| c.1@) =~= credits@.take(i as int).map_values(
                |c: (i64, String)| c.1@,
            ).push(credits@[i as int].1@));
        }
        i = i + 1;
    }
    proof {
        assert(credits@.take(credits.len() as int) =~= credits@);
    }
    out
}

/// A present track as the catalog holds it, for duplicate detection.
#[derive(Debug, Clone)]
pub struct TrackDupRow {
    pub track_id: i64,
    /// The track's file, when its root is known.
    pub path: Option<String>,
    pub title: String,
    pub album: Option<String>,
    pub track_number: Option<i64>,
    /// 0 when untagged.
    pub disc_number: i64,
}

/// `names` are the names of `credits` in credit order.
pub open spec fn ordered_names(names: Seq<Seq<char>>, credits: Seq<(i64, String)>) -> bool {
    exists|sorted: Seq<(i64, String)>|
        sorted.to_multiset() == credits.to_multiset() && credits_sorted(sorted) && names == sorted.map_values(
            |c: (i64, String)| c.1@,
        )
}

/// The duplicate-detection view of a track: `None` when its file cannot be
/// located; otherwise its facts, its credits in order, and no disc number
/// for disc 0.
pub fn candidate_of(row: &TrackDupRow, credits: &Vec<(i64, String)>, album_credits: &Vec<(i64, String)>) -> (c: Option<
    DuplicateCandidate,
>)
    ensures
        row.path is None <==> c is None,
        c matches Some(d) ==> {
            &&& d.track_id == row.track_id as u64
            &&& opt_text(Some(d.path)) == opt_text(row.path)
            &&& opt_text(d.title) == Some(row.title@)
            &&& opt_text(d.album) == opt_text(row.album)
            &&& ordered_names(string_views(d.artists@), credits@)
            &&& ordered_names(string_views(d.album_artists@), album_credits@)
            &&& d.track_number == match row.track_number {
                Some(n) => Some(n as u32),
                None => None,
            }
            &&& d.disc_number == if row.disc_number == 0 {
                None
            } else {
                Some(row.disc_number as u32)
            }
        },
{
    let path = match &row.path {
        Some(p) => string_from_chars(&chars_of(p.as_str())),
        None => return None,
    };
    let sorted = by_position(credits);
    let album_sorted = by_position(album_credits);
    let artists = names_of(&sorted);
    let album_artists = names_of(&album_sorted);
    proof {
        assert(ordered_names(string_views(artists@), credits@));
        assert(ordered_names(string_views(album_artists@), album_credits@));
    }
    Some(DuplicateCandidate {
        track_id: row.track_id as u64,
        path,
        title: Some(string_from_chars(&chars_of(row.title.as_str()))),
        artists,
        album: opt_clone(&row.album),
        album_artists,
        track_number: match row.track_number {
            Some(n) => Some(n as u32),
            None => None,
        },
        disc_number: if row.disc_number == 0 {
            None
        } else {
            Some(row.disc_number as u32)
        },
    })
}

} // verus!
