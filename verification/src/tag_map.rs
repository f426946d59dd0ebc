//! The tag mapper: what a file's tags say, whatever the tagging scheme,
//! turned into the canonical tag set.
//!
//! The tag reader hands over each tag of a file as plain values: its kind,
//! whether it is the format's primary tag, whether it carries pictures, and
//! for each field the first item's text and every text item. Fields are
//! taken from the tags in priority order: the primary tag first, then the
//! rest by kind (ID3v2, Vorbis comments and MP4 first, APE next, ID3v1
//! last, since it truncates), keeping the reader's order among equals.
use vstd::prelude::*;

use crate::multi_value::{split_all, split_all_values, string_views};
use crate::scan_tags::{explicit_flag, explicit_of, flag, flag_of, number_pair, number_pair_of};
use crate::tags::{looks_synced, partial_date_of, Lyrics, PartialDate, TagSet};
use crate::text::{ascii_lower_chars, ascii_lower_seq, chars_of, parse_unsigned, parse_unsigned_chars, string_from_chars, trim, trim_chars};

verus! {

/// The kinds of tag a file may carry.
#[derive(Debug, Clone, Copy, PartialEq, Eq, Structural)]
pub enum TagKind {
    Id3v2,
    VorbisComments,
    Mp4Ilst,
    Ape,
    AiffText,
    RiffInfo,
    Id3v1,
    Other,
}

/// The scheme-independent fields the mapper reads.
#[derive(Debug, Clone, Copy, PartialEq, Eq, Structural)]
pub enum Field {
    TrackTitle,
    TrackArtist,
    TrackArtists,
    AlbumTitle,
    AlbumArtist,
    AlbumArtists,
    FlagCompilation,
    TrackNumber,
    TrackTotal,
    DiscNumber,
    DiscTotal,
    RecordingDate,
    ReleaseDate,
    Year,
    OriginalReleaseDate,
    Genre,
    MusicBrainzReleaseType,
    ParentalAdvisory,
    Isrc,
    MusicBrainzRecordingId,
    MusicBrainzReleaseId,
    Lyrics,
    UnsyncLyrics,
    TrackTitleSortOrder,
    TrackArtistSortOrder,
    AlbumTitleSortOrder,
    AlbumArtistSortOrder,
}

/// What one tag holds for one field: the text of its first item with the
/// field, if that item is text, and the text of every item with the field.
#[derive(Debug, Clone)]
pub struct FieldValues {
    pub field: Field,
    pub first: Option<String>,
    pub all: Vec<String>,
}

/// One tag of a file.
#[derive(Debug, Clone)]
pub struct TagData {
    pub kind: TagKind,
    /// Whether this is the format's primary tag.
    pub primary: bool,
    pub has_pictures: bool,
    pub fields: Vec<FieldValues>,
}

/// Where a tag of this kind comes in the priority order.
pub open spec fn rank(k: TagKind) -> nat {
    match k {
        TagKind::Id3v2 | TagKind::VorbisComments | TagKind::Mp4Ilst => 0,
        TagKind::Ape => 1,
        TagKind::AiffText | TagKind::RiffInfo => 2,
        TagKind::Id3v1 => 3,
        TagKind::Other => 2,
    }
}

/// Insert `x` after every tag that does not come later than it.
pub open spec fn insert_by_rank(s: Seq<TagData>, x: TagData) -> Seq<TagData>
    decreases s.len(),
{
    if s.len() == 0 {
        seq![x]
    } else if rank(s.last().kind) <= rank(x.kind) {
        s.push(x)
    } else {
        insert_by_rank(s.drop_last(), x).push(s.last())
    }
}

/// The tags stably sorted by rank.
pub open spec fn sort_by_rank(s: Seq<TagData>) -> Seq<TagData>
    decreases s.len(),
{
    if s.len() == 0 {
        Seq::empty()
    } else {
        insert_by_rank(sort_by_rank(s.drop_last()), s.last())
    }
}

/// The tags in the order fields are taken from them: sorted by rank, then
/// the primary tag moved to the front.
pub open spec fn ordered_of(tags: Seq<TagData>) -> Seq<TagData> {
    let r = sort_by_rank(tags);
    if exists|p: int| 0 <= p < r.len() && r[p].primary {
        let p = choose|p: int| 0 <= p < r.len() && r[p].primary && forall|k: int| 0 <= k < p ==> !r[k].primary;
        seq![r[p]] + r.remove(p)
    } else {
        r
    }
}

pub open spec fn opt_string(s: Option<String>) -> Option<Seq<char>> {
    match s {
        Some(x) => Some(x@),
        None => None,
    }
}

/// Where a tag's first entry for a field is.
pub open spec fn field_index(fs: Seq<FieldValues>, f: Field) -> Option<int> {
    if exists|i: int| 0 <= i < fs.len() && fs[i].field == f {
        Some(choose|i: int| 0 <= i < fs.len() && fs[i].field == f && forall|k: int| 0 <= k < i ==> fs[k].field != f)
    } else {
        None
    }
}

/// What a tag holds for a field: its first entry for the field, or nothing.
pub open spec fn values_of(t: TagData, f: Field) -> (Option<Seq<char>>, Seq<Seq<char>>) {
    match field_index(t.fields@, f) {
        Some(i) => (opt_string(t.fields@[i].first), string_views(t.fields@[i].all@)),
        None => (None, Seq::empty()),
    }
}

/// The first field text, trimmed, that is not empty, across the tags in
/// order.
pub open spec fn first_string_of(tags: Seq<TagData>, f: Field) -> Option<Seq<char>>
    decreases tags.len(),
{
    if tags.len() == 0 {
        None
    } else {
        match values_of(tags[0], f).0 {
            Some(s) if trim(s).len() > 0 => Some(trim(s)),
            _ => first_string_of(tags.drop_first(), f),
        }
    }
}

/// All values of a field from the first tag that has any, split at `;`.
pub open spec fn strings_of(tags: Seq<TagData>, f: Field) -> Seq<Seq<char>>
    decreases tags.len(),
{
    if tags.len() == 0 {
        Seq::empty()
    } else {
        let v = split_all_values(values_of(tags[0], f).1);
        if v.len() > 0 {
            v
        } else {
            strings_of(tags.drop_first(), f)
        }
    }
}

/// A total: the trimmed text as a `u32`, zero allowed.
pub open spec fn total_of(s: Option<Seq<char>>) -> Option<u32> {
    match s {
        Some(t) => match parse_unsigned(trim(t), u32::MAX as nat) {
            Some(v) => Some(v as u32),
            None => None,
        },
        None => None,
    }
}

/// The release date: the first of the recording date, the release date,
/// the year and the original release date that is present and parses.
pub open spec fn release_date_of(tags: Seq<TagData>) -> Option<PartialDate> {
    let parsed = |f: Field| match first_string_of(tags, f) {
        Some(s) => partial_date_of(s),
        None => None,
    };
    if parsed(Field::RecordingDate) is Some {
        parsed(Field::RecordingDate)
    } else if parsed(Field::ReleaseDate) is Some {
        parsed(Field::ReleaseDate)
    } else if parsed(Field::Year) is Some {
        parsed(Field::Year)
    } else {
        parsed(Field::OriginalReleaseDate)
    }
}

/// The values of a multi-valued field, or those of its plural field when
/// it has none.
pub open spec fn people_of(tags: Seq<TagData>, one: Field, many: Field) -> Seq<Seq<char>> {
    if strings_of(tags, one).len() > 0 {
        strings_of(tags, one)
    } else {
        strings_of(tags, many)
    }
}

/// A number and its total: the total field wins over a packed `n/total`.
pub open spec fn numbered_of(tags: Seq<TagData>, number: Field, total: Field) -> (Option<u32>, Option<u32>) {
    let packed = match first_string_of(tags, number) {
        Some(raw) => number_pair_of(raw),
        None => (None, None),
    };
    let t = total_of(first_string_of(tags, total));
    (packed.0, if t is Some { t } else { packed.1 })
}

/// `t` is the tag set the tags say, fields taken in the order of `tags`.
pub open spec fn mapped(t: TagSet, tags: Seq<TagData>) -> bool {
    let lyrics = match first_string_of(tags, Field::Lyrics) {
        Some(l) => Some(l),
        None => first_string_of(tags, Field::UnsyncLyrics),
    };
    &&& opt_string(t.title) == first_string_of(tags, Field::TrackTitle)
    &&& string_views(t.artists@) == people_of(tags, Field::TrackArtist, Field::TrackArtists)
    &&& opt_string(t.album) == first_string_of(tags, Field::AlbumTitle)
    &&& string_views(t.album_artists@) == people_of(tags, Field::AlbumArtist, Field::AlbumArtists)
    &&& t.compilation == match first_string_of(tags, Field::FlagCompilation) {
        Some(v) => flag_of(v),
        None => false,
    }
    &&& (t.track_number, t.track_total) == numbered_of(tags, Field::TrackNumber, Field::TrackTotal)
    &&& (t.disc_number, t.disc_total) == numbered_of(tags, Field::DiscNumber, Field::DiscTotal)
    &&& t.release_date == release_date_of(tags)
    &&& string_views(t.genres@) == strings_of(tags, Field::Genre)
    &&& opt_string(t.release_type) == match first_string_of(tags, Field::MusicBrainzReleaseType) {
        Some(s) => Some(ascii_lower_seq(s)),
        None => None,
    }
    &&& t.explicit == match first_string_of(tags, Field::ParentalAdvisory) {
        Some(v) => explicit_of(v),
        None => None,
    }
    &&& opt_string(t.isrc) == first_string_of(tags, Field::Isrc)
    &&& opt_string(t.musicbrainz_recording_id) == first_string_of(tags, Field::MusicBrainzRecordingId)
    &&& opt_string(t.musicbrainz_release_id) == first_string_of(tags, Field::MusicBrainzReleaseId)
    &&& match lyrics {
        Some(l) => t.lyrics matches Some(ly) && ly.text@ == l && ly.synced == looks_synced(l),
        None => t.lyrics is None,
    }
    &&& t.has_embedded_art == exists|i: int| 0 <= i < tags.len() && tags[i].has_pictures
    &&& opt_string(t.title_sort) == first_string_of(tags, Field::TrackTitleSortOrder)
    &&& opt_string(t.artist_sort) == first_string_of(tags, Field::TrackArtistSortOrder)
    &&& opt_string(t.album_sort) == first_string_of(tags, Field::AlbumTitleSortOrder)
    &&& opt_string(t.album_artist_sort) == first_string_of(tags, Field::AlbumArtistSortOrder)
}

fn rank_of(k: TagKind) -> (r: u8)
    ensures
        r as nat == rank(k),
{
    match k {
        TagKind::Id3v2 | TagKind::VorbisComments | TagKind::Mp4Ilst => 0,
        TagKind::Ape => 1,
        TagKind::AiffText | TagKind::RiffInfo => 2,
        TagKind::Id3v1 => 3,
        TagKind::Other => 2,
    }
}

/// Inserting at the position found by walking back over later tags is
/// `insert_by_rank`.
proof fn lemma_insert_at(s: Seq<TagData>, x: TagData, j: int)
    requires
        0 <= j <= s.len(),
        forall|k: int| j <= k < s.len() ==> rank((#[trigger] s[k]).kind) > rank(x.kind),
        j == 0 || rank(s[j - 1].kind) <= rank(x.kind),
    ensures
        insert_by_rank(s, x) == s.insert(j, x),
    decreases s.len(),
{
    if s.len() == 0 {
        assert(s.insert(j, x) =~= seq![x]);
    } else if j == s.len() {
        assert(s.insert(j, x) =~= s.push(x));
    } else {
        lemma_insert_at(s.drop_last(), x, j);
        assert(s.drop_last().insert(j, x).push(s.last()) =~= s.insert(j, x));
    }
}

/// The tags in the order fields are taken from them.
fn ordered_tags(tags: &Vec<TagData>) -> (r: Vec<&TagData>)
    ensures
        r@.map_values(|t: &TagData| *t) == ordered_of(tags@),
{
    let mut sorted: Vec<&TagData> = Vec::new();
    let mut i: usize = 0;
    proof {
        assert(sorted@.map_values(|t: &TagData| *t) =~= sort_by_rank(tags@.take(0)));
    }
    while i < tags.len()
        invariant
            i <= tags.len(),
            sorted@.map_values(|t: &TagData| *t) == sort_by_rank(tags@.take(i as int)),
        decreases tags.len() - i,
    {
        let x = &tags[i];
        let rx = rank_of(x.kind);
        let ghost sv = sorted@.map_values(|t: &TagData| *t);
        let mut j = sorted.len();
        while j > 0 && rx < rank_of(sorted[j - 1].kind)
            invariant
                j <= sorted@.len(),
                sv == sorted@.map_values(|t: &TagData| *t),
                rx as nat == rank(x.kind),
                forall|k: int| j <= k < sv.len() ==> rank((#[trigger] sv[k]).kind) > rank(x.kind),
            decreases j,
        {
            j = j - 1;
        }
        proof {
            lemma_insert_at(sv, *x, j as int);
            assert(tags@.take(i + 1).drop_last() =~= tags@.take(i as int));
            assert(tags@.take(i + 1).last() == *x);
        }
        sorted.insert(j, x);
        proof {
            assert(sorted@.map_values(|t: &TagData| *t) =~= sv.insert(j as int, *x));
        }
        i = i + 1;
    }
    proof {
        assert(tags@.take(tags.len() as int) =~= tags@);
    }
    let ghost r = sorted@.map_values(|t: &TagData| *t);
    let mut p: usize = 0;
    while p < sorted.len()
        invariant
            p <= sorted@.len(),
            r == sorted@.map_values(|t: &TagData| *t),
            r == sort_by_rank(tags@),
            forall|k: int| 0 <= k < p ==> !r[k].primary,
        decreases sorted@.len() - p,
    {
        if sorted[p].primary {
            let first = sorted.remove(p);
            sorted.insert(0, first);
            proof {
                assert(r[p as int].primary);
                assert(exists|q: int| 0 <= q < r.len() && r[q].primary && forall|k: int| 0 <= k < q ==> !r[k].primary);
                let q = choose|q: int| 0 <= q < r.len() && r[q].primary && forall|k: int| 0 <= k < q ==> !r[k].primary;
                if q < p {
                    assert(!r[q].primary);
                }
                if q > p {
                    assert(!r[p as int].primary);
                }
                assert(sorted@.map_values(|t: &TagData| *t) =~= seq![r[p as int]] + r.remove(p as int));
            }
            return sorted;
        }
        p = p + 1;
    }
    proof {
        assert(forall|k: int| 0 <= k < r.len() ==> !r[k].primary);
    }
    sorted
}

proof fn lemma_first_field(fs: Seq<FieldValues>, f: Field, i: int)
    requires
        0 <= i < fs.len(),
        fs[i].field == f,
        forall|k: int| 0 <= k < i ==> fs[k].field != f,
    ensures
        field_index(fs, f) == Some(i),
{
    let j = choose|j: int| 0 <= j < fs.len() && fs[j].field == f && forall|k: int| 0 <= k < j ==> fs[k].field != f;
    if j < i {
        assert(fs[j].field != f);
    }
    if j > i {
        assert(fs[i].field != f);
    }
}

fn find_field(fs: &Vec<FieldValues>, f: Field) -> (r: Option<usize>)
    ensures
        match r {
            Some(i) => field_index(fs@, f) == Some(i as int) && i < fs@.len(),
            None => field_index(fs@, f) is None,
        },
{
    let mut i: usize = 0;
    while i < fs.len()
        invariant
            i <= fs@.len(),
            forall|k: int| 0 <= k < i ==> fs@[k].field != f,
        decreases fs@.len() - i,
    {
        if fs[i].field == f {
            proof {
                lemma_first_field(fs@, f, i as int);
            }
            return Some(i);
        }
        i = i + 1;
    }
    None
}

/// What a tag holds for a field.
fn values<'a>(t: &'a TagData, f: Field) -> (r: Option<&'a FieldValues>)
    ensures
        match r {
            Some(fv) => values_of(*t, f) == (opt_string(fv.first), string_views(fv.all@)),
            None => values_of(*t, f) == (None::<Seq<char>>, Seq::<Seq<char>>::empty()),
        },
{
    match find_field(&t.fields, f) {
        Some(i) => Some(&t.fields[i]),
        None => None,
    }
}

/// The first field text, trimmed, that is not empty, across the tags.
fn first_string(tags: &Vec<&TagData>, f: Field) -> (r: Option<String>)
    ensures
        opt_string(r) == first_string_of(tags@.map_values(|t: &TagData| *t), f),
{
    let ghost ts = tags@.map_values(|t: &TagData| *t);
    let mut i: usize = 0;
    proof {
        assert(ts.skip(0) =~= ts);
    }
    while i < tags.len()
        invariant
            i <= tags@.len(),
            ts == tags@.map_values(|t: &TagData| *t),
            first_string_of(ts, f) == first_string_of(ts.skip(i as int), f),
        decreases tags@.len() - i,
    {
        let ghost rest = ts.skip(i as int);
        proof {
            assert(rest[0] == *tags@[i as int]);
            assert(rest.drop_first() =~= ts.skip(i + 1));
        }
        match values(tags[i], f) {
            Some(fv) => match &fv.first {
                Some(s) => {
                    let t = trim_chars(&chars_of(s.as_str()));
                    if t.len() > 0 {
                        return Some(string_from_chars(&t));
                    }
                },
                None => {},
            },
            None => {},
        }
        i = i + 1;
    }
    None
}

/// All values of a field from the first tag that has any.
fn strings(tags: &Vec<&TagData>, f: Field) -> (r: Vec<String>)
    ensures
        string_views(r@) == strings_of(tags@.map_values(|t: &TagData| *t), f),
{
    let ghost ts = tags@.map_values(|t: &TagData| *t);
    let mut i: usize = 0;
    proof {
        assert(ts.skip(0) =~= ts);
    }
    while i < tags.len()
        invariant
            i <= tags@.len(),
            ts == tags@.map_values(|t: &TagData| *t),
            strings_of(ts, f) == strings_of(ts.skip(i as int), f),
        decreases tags@.len() - i,
    {
        let ghost rest = ts.skip(i as int);
        proof {
            assert(rest[0] == *tags@[i as int]);
            assert(rest.drop_first() =~= ts.skip(i + 1));
        }
        let mut raws: Vec<&str> = Vec::new();
        match values(tags[i], f) {
            Some(fv) => {
                let mut k: usize = 0;
                while k < fv.all.len()
                    invariant
                        k <= fv.all@.len(),
                        raws@.map_values(|r: &str| r@) == string_views(fv.all@).take(k as int),
                    decreases fv.all@.len() - k,
                {
                    let ghost before = raws@;
                    raws.push(fv.all[k].as_str());
                    proof {
                        assert(raws@.map_values(|r: &str| r@) =~= before.map_values(|r: &str| r@).push(fv.all@[k as int]@));
                        assert(string_views(fv.all@).take(k + 1) =~= string_views(fv.all@).take(k as int).push(fv.all@[k as int]@));
                    }
                    k = k + 1;
                }
                proof {
                    assert(string_views(fv.all@).take(k as int) =~= string_views(fv.all@));
                }
            },
            None => {
                proof {
                    assert(raws@.map_values(|r: &str| r@) =~= Seq::<Seq<char>>::empty());
                }
            },
        }
        let v = split_all(raws.as_slice());
        if v.len() > 0 {
            return v;
        }
        i = i + 1;
    }
    Vec::new()
}

fn total(s: &Option<String>) -> (r: Option<u32>)
    ensures
        r == total_of(opt_string(*s)),
{
    match s {
        Some(t) => {
            let tt = trim_chars(&chars_of(t.as_str()));
            match parse_unsigned_chars(&tt, 0, tt.len(), 4294967295) {
                Some(v) => {
                    proof {
                        assert(tt@.subrange(0, tt@.len() as int) =~= tt@);
                    }
                    Some(v as u32)
                },
                None => {
                    proof {
                        assert(tt@.subrange(0, tt@.len() as int) =~= tt@);
                    }
                    None
                },
            }
        },
        None => None,
    }
}

fn date(tags: &Vec<&TagData>, f: Field) -> (r: Option<PartialDate>)
    ensures
        r == match first_string_of(tags@.map_values(|t: &TagData| *t), f) {
            Some(s) => partial_date_of(s),
            None => None,
        },
{
    match first_string(tags, f) {
        Some(s) => PartialDate::parse(s.as_str()),
        None => None,
    }
}

fn numbered(tags: &Vec<&TagData>, number: Field, total_field: Field) -> (r: (Option<u32>, Option<u32>))
    ensures
        r == numbered_of(tags@.map_values(|t: &TagData| *t), number, total_field),
{
    let (n, packed_total) = match first_string(tags, number) {
        Some(raw) => number_pair(raw.as_str()),
        None => (None, None),
    };
    let t = total(&first_string(tags, total_field));
    (n, if t.is_some() { t } else { packed_total })
}

fn people(tags: &Vec<&TagData>, one: Field, many: Field) -> (r: Vec<String>)
    ensures
        string_views(r@) == people_of(tags@.map_values(|t: &TagData| *t), one, many),
{
    let v = strings(tags, one);
    if v.len() > 0 {
        v
    } else {
        strings(tags, many)
    }
}

/// The canonical tag set the tags of a file say.
#[verifier::spinoff_prover]
#[verifier::rlimit(50)]
pub fn map_tags(file_tags: &Vec<TagData>) -> (t: TagSet)
    ensures
        mapped(t, ordered_of(file_tags@)),
{
    let tags = ordered_tags(file_tags);
    let ghost ts = tags@.map_values(|t: &TagData| *t);
    let (track_number, track_total) = numbered(&tags, Field::TrackNumber, Field::TrackTotal);
    let (disc_number, disc_total) = numbered(&tags, Field::DiscNumber, Field::DiscTotal);
    let release_date = match date(&tags, Field::RecordingDate) {
        Some(d) => Some(d),
        None => match date(&tags, Field::ReleaseDate) {
            Some(d) => Some(d),
            None => match date(&tags, Field::Year) {
                Some(d) => Some(d),
                None => date(&tags, Field::OriginalReleaseDate),
            },
        },
    };
    let release_type = match first_string(&tags, Field::MusicBrainzReleaseType) {
        Some(s) => Some(string_from_chars(&ascii_lower_chars(&chars_of(s.as_str())))),
        None => None,
    };
    let explicit = match first_string(&tags, Field::ParentalAdvisory) {
        Some(v) => explicit_flag(v.as_str()),
        None => None,
    };
    let compilation = match first_string(&tags, Field::FlagCompilation) {
        Some(v) => flag(v.as_str()),
        None => false,
    };
    let lyrics_text = match first_string(&tags, Field::Lyrics) {
        Some(l) => Some(l),
        None => first_string(&tags, Field::UnsyncLyrics),
    };
    let lyrics = match lyrics_text {
        Some(l) => Some(Lyrics::from_text(l)),
        None => None,
    };
    let mut has_embedded_art = false;
    let mut i: usize = 0;
    while i < tags.len()
        invariant
            i <= tags@.len(),
            ts == tags@.map_values(|t: &TagData| *t),
            has_embedded_art == exists|k: int| 0 <= k < i && ts[k].has_pictures,
        decreases tags@.len() - i,
    {
        proof {
            assert(ts[i as int] == *tags@[i as int]);
        }
        if tags[i].has_pictures {
            has_embedded_art = true;
        }
        i = i + 1;
    }
    TagSet {
        title: first_string(&tags, Field::TrackTitle),
        artists: people(&tags, Field::TrackArtist, Field::TrackArtists),
        album: first_string(&tags, Field::AlbumTitle),
        album_artists: people(&tags, Field::AlbumArtist, Field::AlbumArtists),
        compilation,
        track_number,
        track_total,
        disc_number,
        disc_total,
        release_date,
        genres: strings(&tags, Field::Genre),
        release_type,
        explicit,
        isrc: first_string(&tags, Field::Isrc),
        musicbrainz_recording_id: first_string(&tags, Field::MusicBrainzRecordingId),
        musicbrainz_release_id: first_string(&tags, Field::MusicBrainzReleaseId),
        lyrics,
        has_embedded_art,
        title_sort: first_string(&tags, Field::TrackTitleSortOrder),
        artist_sort: first_string(&tags, Field::TrackArtistSortOrder),
        album_sort: first_string(&tags, Field::AlbumTitleSortOrder),
        album_artist_sort: first_string(&tags, Field::AlbumArtistSortOrder),
    }
}

} // verus!
