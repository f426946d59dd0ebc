use jewelcase::fold::tag_key;
use jewelcase::sort::sort_key;
use jewelcase::model::{
    album_update, artist_update, candidate_of, problem_plan, recounted_group, track_links, AlbumTrackRow,
    AlbumUpdate, ArtistCreditRow, ArtistUpdate, TrackDupRow,
};
use jewelcase::tags::{PartialDate, TagSet};
use jewelcase::types::{system_time_ms, ProblemKind};

fn strings(v: &[&str]) -> Vec<String> {
    v.iter().map(|s| s.to_string()).collect()
}

#[test]
fn a_fourth_date_part_is_not_a_date() {
    assert_eq!(PartialDate::parse("1991-09-24-07"), None);
    assert_eq!(
        PartialDate::parse("1991-09-24T07:00:00"),
        Some(PartialDate { year: 1991, month: Some(9), day: Some(24) })
    );
}

#[test]
fn untagged_tracks_credit_the_unknown_artist() {
    let tags = TagSet::default();
    let l = track_links(&tags);
    assert_eq!(l.artists.len(), 1);
    assert_eq!(l.artists[0].name, None);
    assert_eq!(l.artists[0].key, "");
    assert_eq!(l.album_artists.len(), 1);
    assert_eq!(l.album_artists[0].key, "");
    assert_eq!(l.album_title_key, "");
    assert_eq!(l.album_artists_key, "");
}

#[test]
fn album_credits_follow_album_artists_then_compilation_then_artists() {
    let mut tags = TagSet::default();
    tags.artists = strings(&[" Björk ", "Thom"]);
    tags.album = Some(" Post ".to_string());
    tags.genres = strings(&["Hip-Hop ", "trip_hop"]);
    let l = track_links(&tags);
    assert_eq!(l.artists[0].name.as_deref(), Some("Björk"));
    assert_eq!(l.artists[0].key, "björk");
    assert_eq!(l.album_artists.len(), 2);
    assert_eq!(l.album_title_key, "post");
    assert_eq!(l.album_artists_key, "björk;thom");
    assert_eq!(l.genres[0].key, "hiphop");
    assert_eq!(l.genres[0].name, "Hip-Hop");
    assert_eq!(l.genres[1].key, "triphop");

    tags.compilation = true;
    let l = track_links(&tags);
    assert_eq!(l.album_artists.len(), 1);
    assert_eq!(l.album_artists[0].name, None);
    assert_eq!(l.album_artists_key, "");

    tags.album_artists = strings(&["Various Artists"]);
    let l = track_links(&tags);
    assert_eq!(l.album_artists[0].name.as_deref(), Some("Various Artists"));
    assert_eq!(l.album_artists_key, "various artists");
}

fn credit(track_id: i64, position: u64, name: &str, missing: bool, on_album: bool, sort: &str) -> ArtistCreditRow {
    ArtistCreditRow {
        track_id,
        position,
        name: Some(name.to_string()),
        track_missing: missing,
        on_album,
        artist_sort_key: sort.to_string(),
    }
}

#[test]
fn artists_without_credits_are_deleted() {
    assert_eq!(artist_update(&Vec::new(), &Vec::new(), 0), ArtistUpdate::Delete);
    assert_ne!(artist_update(&Vec::new(), &Vec::new(), 1), ArtistUpdate::Delete);
}

#[test]
fn artists_are_named_counted_and_sorted() {
    let rows = vec![
        credit(1, 0, "nirvana", false, true, ""),
        credit(2, 0, "Nirvana", true, false, ""),
        credit(2, 1, "Nirvana", true, false, ""),
    ];
    match artist_update(&rows, &vec![Some("nirvana".to_string())], 2) {
        ArtistUpdate::Update { name, sort_key, album_count, track_count, available, appearances } => {
            assert_eq!(name.as_deref(), Some("Nirvana"));
            assert_eq!(sort_key, "nirvana");
            assert_eq!(album_count, 2);
            assert_eq!(track_count, 2);
            assert_eq!(available, 1);
            assert_eq!(appearances, 2);
        }
        ArtistUpdate::Delete => panic!("deleted"),
    }
    let rows = vec![credit(1, 0, "The Beatles", false, true, "beatles, the")];
    match artist_update(&rows, &Vec::new(), 1) {
        ArtistUpdate::Update { sort_key, .. } => assert_eq!(sort_key, "beatles, the"),
        ArtistUpdate::Delete => panic!("deleted"),
    }
}

fn track(title: Option<&str>, sort: &str, disc: i64, total: Option<i64>, missing: bool) -> AlbumTrackRow {
    AlbumTrackRow {
        title: title.map(|t| t.to_string()),
        album_sort_key: sort.to_string(),
        release_date: Some("1991".to_string()),
        release_type: None,
        disc_number: disc,
        disc_total: None,
        track_total: total,
        compilation: false,
        duration_us: 1000,
        missing,
    }
}

#[test]
fn albums_take_the_most_used_title_and_count_their_tracks() {
    assert_eq!(album_update(&Vec::new()), AlbumUpdate::Delete);
    let rows = vec![
        track(Some("Nevermind"), "nevermind b", 1, Some(12), false),
        track(Some("Nevermind"), "nevermind a", 1, Some(13), true),
        track(Some("nevermind"), "a", 2, None, false),
    ];
    match album_update(&rows) {
        AlbumUpdate::Update {
            title,
            sort_key,
            album_type,
            release_date,
            disc_total,
            track_total,
            disc_count,
            track_count,
            available,
            duration_us,
        } => {
            assert_eq!(title.as_deref(), Some("Nevermind"));
            assert_eq!(sort_key.as_deref(), Some("nevermind a"));
            assert_eq!(album_type, "album");
            assert_eq!(release_date.as_deref(), Some("1991"));
            assert_eq!(disc_total, None);
            assert_eq!(track_total, Some(13));
            assert_eq!(disc_count, 2);
            assert_eq!(track_count, 3);
            assert_eq!(available, 2);
            assert_eq!(duration_us, 3000);
        }
        AlbumUpdate::Delete => panic!("deleted"),
    }
    match album_update(&vec![track(None, "x", 0, Some(2), false)]) {
        AlbumUpdate::Update { title, album_type, .. } => {
            assert_eq!(title, None);
            assert_eq!(album_type, "single");
        }
        AlbumUpdate::Delete => panic!("deleted"),
    }
}

#[test]
fn problems_move_to_their_group() {
    let p = problem_plan(ProblemKind::CorruptAudio, "/m", "bad frame", 5, None, None);
    assert!(p.create_group);
    assert_eq!(p.last_seen, 5);
    assert!(p.replace_entry);
    assert_eq!(p.leave_group, None);
    let p2 = problem_plan(ProblemKind::CorruptAudio, "/m", "bad frame", 3, Some(9), Some(p.key.as_str()));
    assert_eq!(p2.key, p.key);
    assert!(!p2.create_group);
    assert_eq!(p2.last_seen, 9);
    assert!(!p2.replace_entry);
    let p3 = problem_plan(ProblemKind::Unreadable, "/m", "gone", 7, None, Some(p.key.as_str()));
    assert!(p3.replace_entry);
    assert_eq!(p3.leave_group.as_deref(), Some(p.key.as_str()));
    assert_eq!(recounted_group(0), None);
    assert_eq!(recounted_group(2), Some(2));
}

#[test]
fn duplicate_candidates_list_credits_in_order() {
    let row = TrackDupRow {
        track_id: 4,
        path: Some("/m/a/01.flac".to_string()),
        title: "One".to_string(),
        album: Some("A".to_string()),
        track_number: Some(1),
        disc_number: 0,
    };
    let credits = vec![(1, "b".to_string()), (0, "a".to_string())];
    let c = candidate_of(&row, &credits, &vec![(0, "x".to_string())]).unwrap();
    assert_eq!(c.track_id, 4);
    assert_eq!(c.artists, strings(&["a", "b"]));
    assert_eq!(c.album_artists, strings(&["x"]));
    assert_eq!(c.disc_number, None);
    assert_eq!(c.track_number, Some(1));
    let lost = TrackDupRow { path: None, ..row };
    assert!(candidate_of(&lost, &credits, &Vec::new()).is_none());
}

#[test]
fn clock_readings_become_milliseconds() {
    assert_eq!(system_time_ms(None), 0);
    assert_eq!(system_time_ms(Some(1_700_000_000_123)), 1_700_000_000_123);
    assert_eq!(system_time_ms(Some((1u128 << 64) + 5)), 5);
}

#[test]
fn tag_keys_drop_spacing_and_case() {
    assert_eq!(tag_key(" Hip - Hop_ Music "), "hiphopmusic");
}

#[test]
fn sort_keys_are_single_spaced() {
    assert_eq!(sort_key("  The   Beatles \t", None), "beatles");
    assert_eq!(sort_key("x", Some("  Cash,\n Johnny ")), "cash, johnny");
}
