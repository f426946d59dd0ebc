use jewelcase::fold::{artists_key, name_key, tag_key};
use jewelcase::format::Format;
use jewelcase::lrc::{parse, SyncedLine};
use jewelcase::multi_value::{split, split_all};
use jewelcase::sort::sort_key;
use jewelcase::tags::{Lyrics, PartialDate};

#[test]
fn names_fold_case_not_spacing() {
    assert_eq!(name_key("  Nirvana "), "nirvana");
    assert_eq!(name_key("SUN RA"), "sun ra");
    assert_ne!(name_key("Sun Ra"), name_key("Sunra"));
    assert_eq!(name_key("Björk"), "björk");
    assert_eq!(name_key("BJÖRK"), "björk");
}

#[test]
fn tags_fold_spacing_too() {
    assert_eq!(tag_key("Hip Hop"), tag_key("hip-hop"));
    assert_eq!(tag_key("Hip Hop"), tag_key("HipHop"));
    assert_ne!(tag_key("Rock"), tag_key("Rocks"));
}

#[test]
fn artists_key_is_order_independent() {
    assert_eq!(
        artists_key(&["SZA", "Kendrick Lamar"]),
        artists_key(&["kendrick lamar", "sza"])
    );
    assert_eq!(artists_key(&["A", "A"]), "a");
    assert_eq!(artists_key(&[]), "");
}

#[test]
fn artists_key_sorts_and_joins() {
    assert_eq!(artists_key(&["SZA", " Kendrick Lamar "]), "kendrick lamar;sza");
    assert_eq!(artists_key(&["b", "a", "B"]), "a;b");
}

#[test]
fn tag_key_drops_underscores_and_trims() {
    assert_eq!(tag_key("  R_and_B "), "randb");
    assert_eq!(tag_key("Drum & Bass"), "drum&bass");
}

#[test]
fn wma_is_not_a_candidate() {
    assert!(!Format::extension_is_candidate("wma"));
    assert!(!Format::extension_is_candidate("asf"));
}

#[test]
fn candidate_extensions_are_accepted() {
    for ext in ["flac", "m4a", "m4b", "mp4", "wav", "wave", "aif", "aiff", "aifc", "mp3", "mp2", "aac", "ogg", "oga", "opus"] {
        assert!(Format::extension_is_candidate(ext), "{ext}");
    }
    assert!(!Format::extension_is_candidate("FLAC"));
    assert!(!Format::extension_is_candidate(""));
}

#[test]
fn every_format_has_a_decoder() {
    for f in Format::ALL {
        assert!(!f.ffmpeg_decoder().is_empty());
    }
}

#[test]
fn format_names() {
    assert_eq!(Format::Wav.ffmpeg_decoder(), "pcm_s16le");
    assert_eq!(Format::Aiff.codec_name(), "pcm");
    assert_eq!(Format::Alac.container_name(), "mp4");
    assert_eq!(Format::Opus.container_name(), "ogg");
    assert_eq!(Format::Vorbis.display_name(), "Ogg Vorbis");
    assert!(Format::Flac.is_lossless());
    assert!(!Format::Mp3.is_lossless());
}

#[test]
fn parses_common_forms() {
    let lines = parse(
        "[ti:Song]\n[00:12.00]Load up on guns\n[00:15.5]Bring your friends\n[01:02]It's fun\n[Chorus]\nnot timed",
    );
    assert_eq!(
        lines,
        vec![
            SyncedLine {
                start_ms: 12_000,
                text: "Load up on guns".into()
            },
            SyncedLine {
                start_ms: 15_500,
                text: "Bring your friends".into()
            },
            SyncedLine {
                start_ms: 62_000,
                text: "It's fun".into()
            },
        ]
    );
}

#[test]
fn repeated_stamps_and_sorting() {
    let lines = parse("[00:30.00][00:10.00]la la");
    assert_eq!(lines.len(), 2);
    assert_eq!(lines[0].start_ms, 10_000);
    assert_eq!(lines[1].start_ms, 30_000);
}

#[test]
fn plain_text_is_empty() {
    assert!(parse("just words\nmore words").is_empty());
}

#[test]
fn lrc_fractions_and_ties() {
    let lines = parse("[00:01.123] a \r\n[00:01.123]b\n[00:00.9]c\n[00:60]bad\n[00:1]bad");
    assert_eq!(lines.iter().map(|l| (l.start_ms, l.text.as_str())).collect::<Vec<_>>(),
        vec![(900, "c"), (1123, "a"), (1123, "b")]);
}

#[test]
fn lrc_huge_minutes_are_not_times() {
    assert!(parse("[99999999999999999999:00]x").is_empty());
    assert!(parse("[307445734561825861:00]x").is_empty());
}

#[test]
fn semicolon_is_the_only_delimiter() {
    assert_eq!(split("Kendrick Lamar;SZA"), vec!["Kendrick Lamar", "SZA"]);
    assert_eq!(split("Earth, Wind & Fire"), vec!["Earth, Wind & Fire"]);
    assert_eq!(split("A feat. B"), vec!["A feat. B"]);
}

#[test]
fn trims_and_drops_empties() {
    assert_eq!(split(" A ; ;B;"), vec!["A", "B"]);
    assert!(split("  ;  ").is_empty());
}

#[test]
fn native_repeats_and_semicolons_read_the_same() {
    assert_eq!(split_all(&["A", "B"]), split("A;B"));
    assert_eq!(split_all(&["A;B", "B", "C"]), vec!["A", "B", "C"]);
}

#[test]
fn split_drops_repeats_keeping_first() {
    assert_eq!(split("B;A;B; A"), vec!["B", "A"]);
    assert_eq!(split_all(&[" x ;y", "y;z", ""]), split(" x ;y;y;z;"));
}

#[test]
fn articles_are_stripped() {
    assert_eq!(sort_key("The Beatles", None), "beatles");
    assert_eq!(sort_key("A Tribe Called Quest", None), "tribe called quest");
    assert_eq!(sort_key("An Horse", None), "horse");
}

#[test]
fn a_word_that_is_only_an_article_survives() {
    assert_eq!(sort_key("The", None), "the");
    assert_eq!(sort_key("Them", None), "them");
}

#[test]
fn sort_tag_wins() {
    assert_eq!(
        sort_key("The Beatles", Some("Beatles, The")),
        "beatles, the"
    );
    assert_eq!(sort_key("The Beatles", Some("  ")), "beatles");
}

#[test]
fn whitespace_and_case_are_normalized() {
    assert_eq!(sort_key("  Foo   BAR ", None), "foo bar");
}

#[test]
fn article_needs_something_after_it() {
    assert_eq!(sort_key("THE   Who", None), "who");
    assert_eq!(sort_key("the ", None), "the");
    assert_eq!(sort_key("", None), "");
}

#[test]
fn dates_keep_tag_precision() {
    assert_eq!(
        PartialDate::parse("1991"),
        Some(PartialDate {
            year: 1991,
            month: None,
            day: None
        })
    );
    assert_eq!(
        PartialDate::parse("1991-09"),
        Some(PartialDate {
            year: 1991,
            month: Some(9),
            day: None
        })
    );
    assert_eq!(
        PartialDate::parse("1991-09-24T00:00:00"),
        Some(PartialDate {
            year: 1991,
            month: Some(9),
            day: Some(24)
        })
    );
    assert_eq!(PartialDate::parse("unknown"), None);
    assert_eq!(PartialDate::parse("1991-13"), None);
}

#[test]
fn dates_format_at_their_precision() {
    assert_eq!(PartialDate::parse("1991").unwrap().to_string(), "1991");
    assert_eq!(PartialDate::parse("1991-9").unwrap().to_string(), "1991-09");
    assert_eq!(
        PartialDate::parse("1991-09-24").unwrap().to_string(),
        "1991-09-24"
    );
}

#[test]
fn date_edge_cases() {
    assert_eq!(PartialDate::parse(" 2001-02-03 12:00 ").unwrap().to_string(), "2001-02-03");
    assert_eq!(PartialDate::parse("0999"), None);
    assert_eq!(PartialDate::parse("1991-09-32"), None);
    assert_eq!(PartialDate::parse("1991--01"), None);
    assert_eq!(PartialDate { year: 7, month: Some(1), day: None }.to_string(), "0007-01");
}

#[test]
fn lrc_is_detected() {
    assert!(Lyrics::from_text("[00:12.50]Hello".into()).synced);
    assert!(Lyrics::from_text("[01:02]Hello".into()).synced);
    assert!(!Lyrics::from_text("Hello [verse 1]".into()).synced);
    assert!(!Lyrics::from_text("[Chorus]\nla la".into()).synced);
}

#[test]
fn only_the_first_fifty_lines_count() {
    let mut text = "plain\n".repeat(50);
    text.push_str("[00:01.00]late");
    assert!(!Lyrics::from_text(text).synced);
    let mut text = "plain\n".repeat(49);
    text.push_str("[00:01.00]in time");
    assert!(Lyrics::from_text(text).synced);
}
