use jewelcase::catalog::album_type;
use jewelcase::ffmpeg::{decoders_outcome, Error};
use jewelcase::fold::{name_key, tag_key};
use jewelcase::model::{
    album_update, art_goes_to_album_artists, artist_update, lead_artist_sort_key, lyrics_kind, track_links, AlbumTrackRow, AlbumUpdate,
    ArtistCreditRow, ArtistUpdate,
};
use jewelcase::sidecar::SidecarResolver;
use jewelcase::sort::sort_key;
use jewelcase::tags::{Lyrics, TagSet};
use jewelcase::types::filename_title;

fn tags(title: &str, artist: &str, album: &str) -> TagSet {
    let mut t = TagSet::default();
    t.title = Some(title.to_string());
    t.artists = vec![artist.to_string()];
    t.album = Some(album.to_string());
    t
}

fn row(title: Option<&str>, disc: i64, total: Option<i64>) -> AlbumTrackRow {
    AlbumTrackRow {
        title: title.map(|t| t.to_string()),
        album_sort_key: String::new(),
        release_date: None,
        release_type: None,
        disc_number: disc,
        disc_total: None,
        track_total: total,
        compilation: false,
        duration_us: 0,
        missing: false,
    }
}

fn credit(track_id: i64, name: &str, on_album: bool) -> ArtistCreditRow {
    ArtistCreditRow {
        track_id,
        position: 0,
        name: Some(name.to_string()),
        track_missing: false,
        on_album,
        artist_sort_key: String::new(),
    }
}

#[test]
fn folders_of_one_album_fold_to_one_album() {
    let mut one = tags("A", "Band", "Live");
    one.disc_number = Some(1);
    one.track_total = Some(10);
    let mut two = tags("B", "Band", "live");
    two.disc_number = Some(2);
    two.track_total = Some(8);
    let (l1, l2) = (track_links(&one), track_links(&two));
    assert_eq!(l1.album_title_key, l2.album_title_key);
    assert_eq!(l1.album_artists_key, l2.album_artists_key);
    assert_eq!(l1.album_artists.len(), 1);
    assert_eq!(l1.album_artists[0].key, "band");
    match album_update(&vec![row(Some("Live"), 1, Some(10)), row(Some("live"), 2, Some(8))]) {
        AlbumUpdate::Update { track_count, disc_count, track_total, .. } => {
            assert_eq!(track_count, 2);
            assert_eq!(disc_count, 2);
            assert_eq!(track_total, Some(10));
        }
        AlbumUpdate::Delete => panic!("deleted"),
    }
}

#[test]
fn most_used_spelling_names_the_artist() {
    assert_eq!(name_key("nirvana"), name_key("Nirvana"));
    assert_eq!(name_key("beck"), name_key("Beck"));
    assert_ne!(name_key("Nirvana"), name_key("Beck"));
    let rows = vec![credit(1, "nirvana", true), credit(2, "Nirvana", true), credit(3, "Nirvana", true)];
    match artist_update(&rows, &Vec::new(), 1) {
        ArtistUpdate::Update { name, track_count, .. } => {
            assert_eq!(name.as_deref(), Some("Nirvana"));
            assert_eq!(track_count, 3);
        }
        ArtistUpdate::Delete => panic!("deleted"),
    }
    let rows = vec![credit(4, "beck", true), credit(5, "Beck", true)];
    match artist_update(&rows, &Vec::new(), 1) {
        ArtistUpdate::Update { name, .. } => assert_eq!(name.as_deref(), Some("Beck")),
        ArtistUpdate::Delete => panic!("deleted"),
    }
}

#[test]
fn untagged_files_fold_to_the_unknown_artist_and_album() {
    let (a, b) = (track_links(&TagSet::default()), track_links(&TagSet::default()));
    assert_eq!(a, b);
    assert_eq!(a.artists[0].name, None);
    match album_update(&vec![row(None, 0, None), row(None, 0, None)]) {
        AlbumUpdate::Update { title, track_count, .. } => {
            assert_eq!(title, None);
            assert_eq!(track_count, 2);
        }
        AlbumUpdate::Delete => panic!("deleted"),
    }
    assert_eq!(filename_title("/lib/a/one.wav"), "one");
}

#[test]
fn compilations_are_one_album_with_a_type() {
    let mut one = tags("1", "A", "Hits");
    one.album_artists = vec!["Various Artists".to_string()];
    one.compilation = true;
    let mut two = tags("2", "B", "Hits");
    two.album_artists = vec!["Various Artists".to_string()];
    two.compilation = true;
    let (l1, l2) = (track_links(&one), track_links(&two));
    assert_eq!(l1.album_artists_key, l2.album_artists_key);
    assert_eq!(l1.album_title_key, l2.album_title_key);
    assert_ne!(l1.artists[0].key, l2.artists[0].key);
    assert_eq!(album_type(None, true, None), "compilation");
    assert_eq!(album_type(None, false, Some(5)), "ep");
    assert_eq!(album_type(Some("album"), false, Some(2)), "album");
    match artist_update(&vec![credit(1, "A", false)], &Vec::new(), 0) {
        ArtistUpdate::Update { appearances, album_count, .. } => {
            assert_eq!(appearances, 1);
            assert_eq!(album_count, 0);
        }
        ArtistUpdate::Delete => panic!("deleted"),
    }
}

#[test]
fn tag_keys_fold_unicode_case_and_spacing() {
    assert_eq!(tag_key("ÉLECTRO\u{3000}Pop"), "électropop");
    assert_eq!(tag_key("électro-pop"), tag_key("Électro Pop"));
    assert_eq!(tag_key("İ_x"), "i\u{307}x");
    assert_eq!(tag_key("\u{a0}Hip\u{2003}Hop\u{a0}"), "hiphop");
}

#[test]
fn sort_keys_single_space_unicode_white_space() {
    assert_eq!(sort_key("  The\u{2003}Ünïcode\u{a0}\u{a0}Band ", None), "the ünïcode band");
    assert_eq!(sort_key("x", Some("\u{3000}Ørjan\t\u{2028} Nilsen")), "ørjan nilsen");
}

#[test]
fn sidecars_come_from_the_first_listing_on_the_way_up() {
    let mut r = SidecarResolver::new("/m");
    r.offer_listing("/", &vec!["cover.jpg".to_string(), "artist.png".to_string()]);
    r.offer_listing("/m", &vec!["cover.jpg".to_string(), "artist.txt".to_string()]);
    r.offer_listing("/m/a", &vec!["artist.png".to_string(), "01.flac".to_string()]);
    r.offer_listing("/m/a/b", &vec!["cover.png".to_string()]);
    let s = r.resolve("/m/a/b");
    assert_eq!(s.cover, Some("/m/a/b/cover.png".to_string()));
    assert_eq!(s.artist_image, Some("/m/a/artist.png".to_string()));
    assert_eq!(s.biography, Some("/m/artist.txt".to_string()));
    let top = r.resolve("/m");
    assert_eq!(top.cover, Some("/m/cover.jpg".to_string()));
    assert_eq!(top.artist_image, None);
    assert_eq!(r.resolve("/m/a/b"), s);
}

#[test]
fn failing_decoder_listing_is_failed() {
    match decoders_outcome(false, Some(1), "  bad option\n") {
        Err(Error::Failed { status, stderr }) => {
            assert_eq!(status, Some(1));
            assert_eq!(stderr, "  bad option\n");
        }
        other => panic!("{:?}", other),
    }
    assert!(decoders_outcome(true, Some(0), "noise").is_ok());
}

#[test]
fn lyrics_kinds() {
    assert_eq!(lyrics_kind(&None), "none");
    let synced = Lyrics { text: "[00:01.00]first".to_string(), synced: true };
    assert_eq!(lyrics_kind(&Some(synced)), "synced");
    let plain = Lyrics { text: "first".to_string(), synced: false };
    assert_eq!(lyrics_kind(&Some(plain)), "plain");
}

#[test]
fn album_artist_sort_key_is_the_lead_artists() {
    assert_eq!(lead_artist_sort_key(&Vec::new()), None);
    let credits = vec![(2, "zed".to_string()), (0, "abba".to_string()), (1, "beck".to_string()), (0, "cher".to_string())];
    assert_eq!(lead_artist_sort_key(&credits).as_deref(), Some("abba"));
}

#[test]
fn artist_art_goes_to_named_album_artists() {
    let mut t = tags("1", "A", "Hits");
    assert!(art_goes_to_album_artists(&track_links(&t)));
    t.compilation = true;
    assert!(!art_goes_to_album_artists(&track_links(&t)));
    t.album_artists = vec!["Various Artists".to_string()];
    assert!(art_goes_to_album_artists(&track_links(&t)));
    assert!(!art_goes_to_album_artists(&track_links(&TagSet::default())));
}
