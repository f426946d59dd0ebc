use jewelcase::ffmpeg::{audio_stream, child_outcome, Error as FfmpegError, ProbeStream};
use jewelcase::format::Format;
use jewelcase::io::IoErrorKind;
use jewelcase::scan_tags::{map_parse_error, mp4_format, probed_format, properties, Cause, FileKind, Mp4Audio, ReadError};
use jewelcase::tag_map::{map_tags, Field, FieldValues, TagData, TagKind};
use jewelcase::tags::PartialDate;

fn field(field: Field, values: &[&str]) -> FieldValues {
    FieldValues {
        field,
        first: values.first().map(|v| v.to_string()),
        all: values.iter().map(|v| v.to_string()).collect(),
    }
}

fn tag(kind: TagKind, primary: bool, fields: Vec<FieldValues>) -> TagData {
    TagData { kind, primary, has_pictures: false, fields }
}

#[test]
fn primary_tag_wins_then_rank() {
    let v1 = tag(TagKind::Id3v1, false, vec![field(Field::TrackTitle, &["Truncated titl"])]);
    let ape = tag(TagKind::Ape, false, vec![field(Field::TrackTitle, &["From APE"]), field(Field::Genre, &["Rock"])]);
    let v2 = tag(TagKind::Id3v2, true, vec![field(Field::TrackTitle, &["  "]), field(Field::AlbumTitle, &["Album"])]);
    let t = map_tags(&vec![v1.clone(), ape.clone(), v2.clone()]);
    assert_eq!(t.title, Some("From APE".to_string()));
    assert_eq!(t.album, Some("Album".to_string()));
    assert_eq!(t.genres, vec!["Rock"]);
    let only_v1 = map_tags(&vec![v1]);
    assert_eq!(only_v1.title, Some("Truncated titl".to_string()));
}

#[test]
fn fields_map_to_the_canonical_set() {
    let mut t = tag(
        TagKind::VorbisComments,
        true,
        vec![
            field(Field::TrackArtists, &["A; B", "C"]),
            field(Field::TrackNumber, &["3/12"]),
            field(Field::DiscNumber, &["1"]),
            field(Field::DiscTotal, &[" 2 "]),
            field(Field::Year, &["1999"]),
            field(Field::RecordingDate, &["not a date"]),
            field(Field::MusicBrainzReleaseType, &["Album"]),
            field(Field::ParentalAdvisory, &["clean"]),
            field(Field::FlagCompilation, &["1"]),
            field(Field::UnsyncLyrics, &["[00:01.00]hi"]),
        ],
    );
    t.has_pictures = true;
    let s = map_tags(&vec![t]);
    assert_eq!(s.artists, vec!["A", "B", "C"]);
    assert_eq!((s.track_number, s.track_total), (Some(3), Some(12)));
    assert_eq!((s.disc_number, s.disc_total), (Some(1), Some(2)));
    assert_eq!(s.release_date, Some(PartialDate { year: 1999, month: None, day: None }));
    assert_eq!(s.release_type, Some("album".to_string()));
    assert_eq!(s.explicit, Some(false));
    assert!(s.compilation);
    assert!(s.has_embedded_art);
    let lyrics = s.lyrics.unwrap();
    assert_eq!(lyrics.text, "[00:01.00]hi");
    assert!(lyrics.synced);
    assert_eq!(s.title, None);
}

#[test]
fn no_tags_is_an_empty_tag_set() {
    let s = map_tags(&vec![]);
    assert_eq!(s, Default::default());
}

#[test]
fn formats_from_what_the_reader_found() {
    assert_eq!(mp4_format(Mp4Audio::Alac, "Some(ALAC)"), Ok(Format::Alac));
    assert_eq!(
        mp4_format(Mp4Audio::Other, "Some(Mp3)"),
        Err(ReadError::Unsupported("MP4 codec Some(Mp3)".to_string()))
    );
    assert_eq!(probed_format(FileKind::Mp4, "Mp4"), Ok(Format::Aac));
    assert_eq!(probed_format(FileKind::Mpeg, "Mpeg"), Ok(Format::Mp3));
    assert_eq!(probed_format(FileKind::Other, "Ape"), Err(ReadError::Unsupported("Ape".to_string())));
    let p = properties(Format::Flac, (1u128 << 64) + 5, Some(44100), Some(16), Some(2), None, Some(900), 10);
    assert_eq!(p.duration_ms, 5);
    assert_eq!(p.bitrate_kbps, Some(900));
}

#[test]
fn parse_errors_are_classified() {
    assert_eq!(
        map_parse_error(&vec![Cause::Other, Cause::UnknownFormat], "whatever"),
        ReadError::Unrecognized("whatever".to_string())
    );
    match map_parse_error(&vec![Cause::Io { permission_denied: true, message: "denied".to_string() }], "x") {
        ReadError::Io(e) => {
            assert_eq!(e.kind, IoErrorKind::PermissionDenied);
            assert_eq!(e.message, "denied");
        },
        other => panic!("expected a denied read, got {other:?}"),
    }
    assert_eq!(map_parse_error(&vec![], "Unsupported thing"), ReadError::Unsupported("Unsupported thing".to_string()));
    assert_eq!(map_parse_error(&vec![], "bad frame"), ReadError::Malformed("bad frame".to_string()));
}

fn stream(kind: &str, rate: Option<&str>, channels: Option<u32>) -> ProbeStream {
    ProbeStream {
        codec_type: Some(kind.to_string()),
        codec_name: Some("flac".to_string()),
        sample_rate: rate.map(|r| r.to_string()),
        channels,
        channel_layout: Some("stereo".to_string()),
    }
}

#[test]
fn the_first_audio_stream_is_probed() {
    let facts = audio_stream(&vec![stream("video", None, None), stream("audio", Some("48000"), Some(2))]).unwrap();
    assert_eq!((facts.sample_rate, facts.channels, facts.codec_name.as_str()), (48000, 2, "flac"));
    assert_eq!(facts.channel_layout, Some("stereo".to_string()));
    assert!(matches!(audio_stream(&vec![stream("video", None, None)]), Err(FfmpegError::NoAudioStream)));
    assert!(matches!(audio_stream(&vec![stream("audio", Some("0"), Some(2))]), Err(FfmpegError::Probe(m)) if m == "missing sample_rate"));
    assert!(matches!(audio_stream(&vec![stream("audio", Some("44100"), Some(0))]), Err(FfmpegError::Probe(m)) if m == "missing channels"));
}

#[test]
fn children_end_stalled_failed_or_fine() {
    assert!(matches!(child_outcome(true, false, None, "", 30000), Err(FfmpegError::Stalled(30000))));
    match child_outcome(false, false, Some(1), "  oops \n", 30000) {
        Err(FfmpegError::Failed { status, stderr }) => assert_eq!((status, stderr.as_str()), (Some(1), "oops")),
        other => panic!("expected a failure, got {other:?}"),
    }
    assert!(child_outcome(false, true, Some(0), "", 30000).is_ok());
}
