//! Reading tags into the canonical types: the errors a read ends in, and
//! the rules that turn raw tag text into fields.
use vstd::prelude::*;

use crate::audio::AudioProperties;
use crate::format::Format;
use crate::io::{IoError, IoErrorKind};
use crate::multi_value::{split_parts, split_pieces, views};
use crate::tags::{parse_in, TagSet};
use crate::text::{ascii_lower_chars, ascii_lower_seq, chars_of, contains_chars, contains_seq, owned, parse_unsigned_chars, str_eq, trim, trim_chars};

verus! {

/// Why a file's tags could not be read.
#[derive(Debug, Clone, PartialEq, Eq)]
pub enum ReadError {
    Io(IoError),
    /// A known container with a codec that is not played.
    Unsupported(String),
    /// Content no known format matches, whatever the extension claimed.
    Unrecognized(String),
    /// The container or its tags could not be parsed.
    Malformed(String),
}

/// What reading one file produces.
#[derive(Debug, Clone, PartialEq, Eq)]
pub struct ReadResult {
    pub tags: TagSet,
    pub properties: AudioProperties,
}

/// A positive number in a piece of `n/total` text.
pub open spec fn positive_of(piece: Seq<char>) -> Option<u32> {
    match parse_in(trim(piece), u32::MAX as nat, 1, u32::MAX as nat) {
        Some(v) => Some(v as u32),
        None => None,
    }
}

/// A number that may be packed as `n/total`: each half a positive
/// number, else absent.
pub open spec fn number_pair_of(raw: Seq<char>) -> (Option<u32>, Option<u32>) {
    let ps = split_parts(raw, '/');
    (positive_of(ps[0]), if ps.len() >= 2 {
        positive_of(ps[1])
    } else {
        None
    })
}

fn positive(piece: &Vec<char>) -> (r: Option<u32>)
    ensures
        r == positive_of(piece@),
{
    let t = trim_chars(piece);
    match parse_unsigned_chars(&t, 0, t.len(), 0xFFFF_FFFF) {
        Some(v) if v > 0 => {
            proof {
                assert(t@.subrange(0, t.len() as int) =~= t@);
            }
            Some(v as u32)
        },
        _ => {
            proof {
                assert(t@.subrange(0, t.len() as int) =~= t@);
            }
            None
        },
    }
}

/// Parse a number that may be packed as `n/total`.
pub fn number_pair(raw: &str) -> (r: (Option<u32>, Option<u32>))
    ensures
        r == number_pair_of(raw@),
{
    let chars = chars_of(raw);
    let ps = split_pieces(&chars, '/');
    proof {
        crate::multi_value::lemma_split_parts_nonempty(chars@, '/');
        assert(views(ps@)[0] == ps@[0]@);
    }
    let n = positive(&ps[0]);
    let total = if ps.len() >= 2 {
        proof {
            assert(views(ps@)[1] == ps@[1]@);
        }
        positive(&ps[1])
    } else {
        None
    };
    (n, total)
}

/// The texts a yes-flag may be written as.
pub open spec fn flag_of(raw: Seq<char>) -> bool {
    let t = trim(raw);
    t == "1"@ || t == "true"@ || t == "True"@ || t == "TRUE"@ || t == "yes"@
}

/// Whether a flag tag says yes.
pub fn flag(raw: &str) -> (r: bool)
    ensures
        r == flag_of(raw@),
{
    let chars = chars_of(raw);
    let t = trim_chars(&chars);
    let s = crate::text::string_from_chars(&t);
    let st = s.as_str();
    str_eq(st, "1") || str_eq(st, "true") || str_eq(st, "True") || str_eq(st, "TRUE") || str_eq(
        st,
        "yes",
    )
}

/// The explicit-content flag: explicit, clean, or not said.
pub open spec fn explicit_of(raw: Seq<char>) -> Option<bool> {
    let t = trim(raw);
    if t == "1"@ || t == "4"@ || t == "explicit"@ || t == "Explicit"@ {
        Some(true)
    } else if t == "2"@ || t == "clean"@ || t == "Clean"@ {
        Some(false)
    } else {
        None
    }
}

/// Read the explicit-content tag.
pub fn explicit_flag(raw: &str) -> (r: Option<bool>)
    ensures
        r == explicit_of(raw@),
{
    let chars = chars_of(raw);
    let t = trim_chars(&chars);
    let s = crate::text::string_from_chars(&t);
    let st = s.as_str();
    if str_eq(st, "1") || str_eq(st, "4") || str_eq(st, "explicit") || str_eq(st, "Explicit") {
        Some(true)
    } else if str_eq(st, "2") || str_eq(st, "clean") || str_eq(st, "Clean") {
        Some(false)
    } else {
        None
    }
}

/// The codec an MP4 file's audio track carries, as far as the format
/// decision needs it.
#[derive(Debug, Clone, Copy, PartialEq, Eq, Structural)]
pub enum Mp4Audio {
    Aac,
    Alac,
    /// Anything else, or no audio track.
    Other,
}

/// The file types a probe of the content can find, as far as the format
/// decision needs them.
#[derive(Debug, Clone, Copy, PartialEq, Eq, Structural)]
pub enum FileKind {
    Flac,
    Mpeg,
    Aac,
    Vorbis,
    Opus,
    Wav,
    Aiff,
    Mp4,
    Other,
}

/// The format of an MP4 file by its codec. `codec` is how the reader
/// prints the codec it found, for the error.
pub fn mp4_format(audio: Mp4Audio, codec: &str) -> (r: Result<Format, ReadError>)
    ensures
        match audio {
            Mp4Audio::Aac => r == Ok::<Format, ReadError>(Format::Aac),
            Mp4Audio::Alac => r == Ok::<Format, ReadError>(Format::Alac),
            Mp4Audio::Other => r matches Err(ReadError::Unsupported(d)) && d@ == "MP4 codec "@ + codec@,
        },
{
    match audio {
        Mp4Audio::Aac => Ok(Format::Aac),
        Mp4Audio::Alac => Ok(Format::Alac),
        Mp4Audio::Other => {
            let mut d = chars_of("MP4 codec ");
            crate::text::push_str(&mut d, codec);
            proof {
                reveal_strlit("MP4 codec ");
            }
            Err(ReadError::Unsupported(crate::text::string_from_chars(&d)))
        },
    }
}

/// The format of a probed file by its type; an MP4 the content sniff
/// missed is taken as AAC. `name` is how the reader prints the type, for
/// the error.
pub fn probed_format(kind: FileKind, name: &str) -> (r: Result<Format, ReadError>)
    ensures
        match kind {
            FileKind::Flac => r == Ok::<Format, ReadError>(Format::Flac),
            FileKind::Mpeg => r == Ok::<Format, ReadError>(Format::Mp3),
            FileKind::Aac => r == Ok::<Format, ReadError>(Format::Aac),
            FileKind::Vorbis => r == Ok::<Format, ReadError>(Format::Vorbis),
            FileKind::Opus => r == Ok::<Format, ReadError>(Format::Opus),
            FileKind::Wav => r == Ok::<Format, ReadError>(Format::Wav),
            FileKind::Aiff => r == Ok::<Format, ReadError>(Format::Aiff),
            FileKind::Mp4 => r == Ok::<Format, ReadError>(Format::Aac),
            FileKind::Other => r matches Err(ReadError::Unsupported(d)) && d@ == name@,
        },
{
    match kind {
        FileKind::Flac => Ok(Format::Flac),
        FileKind::Mpeg => Ok(Format::Mp3),
        FileKind::Aac => Ok(Format::Aac),
        FileKind::Vorbis => Ok(Format::Vorbis),
        FileKind::Opus => Ok(Format::Opus),
        FileKind::Wav => Ok(Format::Wav),
        FileKind::Aiff => Ok(Format::Aiff),
        FileKind::Mp4 => Ok(Format::Aac),
        FileKind::Other => Err(ReadError::Unsupported(owned(name))),
    }
}

/// The technical properties of a read file. The duration is cut to 64
/// bits; the audio bitrate is preferred to the overall one.
pub fn properties(
    format: Format,
    duration_ms: u128,
    sample_rate: Option<u32>,
    bit_depth: Option<u8>,
    channels: Option<u8>,
    audio_bitrate: Option<u32>,
    overall_bitrate: Option<u32>,
    file_size: u64,
) -> (p: AudioProperties)
    ensures
        p.format == format,
        p.duration_ms == duration_ms as u64,
        p.sample_rate == sample_rate,
        p.bit_depth == bit_depth,
        p.channels == channels,
        p.bitrate_kbps == if audio_bitrate is Some { audio_bitrate } else { overall_bitrate },
        p.file_size == file_size,
{
    AudioProperties {
        format,
        duration_ms: duration_ms as u64,
        sample_rate,
        bit_depth,
        channels,
        bitrate_kbps: if audio_bitrate.is_some() { audio_bitrate } else { overall_bitrate },
        file_size,
    }
}

/// One cause in a parse error's chain of sources, as far as the
/// classification needs it.
#[derive(Debug, Clone, PartialEq, Eq)]
pub enum Cause {
    /// The content is no format the reader knows.
    UnknownFormat,
    /// A tag the reader does not support.
    UnsupportedTag,
    /// An I/O failure: whether permission was denied, and its message.
    Io { permission_denied: bool, message: String },
    Other,
}

/// The classes of parse error.
pub enum ParseErrorClass {
    Unrecognized,
    Unsupported,
    Malformed,
    /// Permission was denied; the message of the I/O failure.
    PermissionDenied(Seq<char>),
}

/// What a parse error is, from its chain of causes, outermost first, and
/// its message: the first cause that decides (an unknown format, an
/// unsupported tag, a denied permission), else the message (read without
/// regard to ASCII case) naming an unknown format or something
/// unsupported, else malformed content.
pub open spec fn parse_error_of(causes: Seq<Cause>, text: Seq<char>) -> ParseErrorClass
    decreases causes.len(),
{
    if causes.len() == 0 {
        let lower = ascii_lower_seq(text);
        if contains_seq(lower, "unknown format"@) {
            ParseErrorClass::Unrecognized
        } else if contains_seq(lower, "unsupported"@) {
            ParseErrorClass::Unsupported
        } else {
            ParseErrorClass::Malformed
        }
    } else {
        match causes[0] {
            Cause::UnknownFormat => ParseErrorClass::Unrecognized,
            Cause::UnsupportedTag => ParseErrorClass::Unsupported,
            Cause::Io { permission_denied: true, message } => ParseErrorClass::PermissionDenied(message@),
            _ => parse_error_of(causes.drop_first(), text),
        }
    }
}

/// `r` is the error of that class: a denied permission as such, anything
/// else carrying the message.
pub open spec fn classified(r: ReadError, causes: Seq<Cause>, text: Seq<char>) -> bool {
    match parse_error_of(causes, text) {
        ParseErrorClass::PermissionDenied(m) => r matches ReadError::Io(e) && e.kind == IoErrorKind::PermissionDenied
            && e.message@ == m,
        ParseErrorClass::Unrecognized => r matches ReadError::Unrecognized(d) && d@ == text,
        ParseErrorClass::Unsupported => r matches ReadError::Unsupported(d) && d@ == text,
        ParseErrorClass::Malformed => r matches ReadError::Malformed(d) && d@ == text,
    }
}

/// Classify a parse error.
pub fn map_parse_error(causes: &Vec<Cause>, text: &str) -> (r: ReadError)
    ensures
        classified(r, causes@, text@),
{
    let mut i: usize = 0;
    proof {
        assert(causes@.skip(0) =~= causes@);
    }
    while i < causes.len()
        invariant
            i <= causes@.len(),
            parse_error_of(causes@, text@) == parse_error_of(causes@.skip(i as int), text@),
        decreases causes@.len() - i,
    {
        proof {
            assert(causes@.skip(i as int)[0] == causes@[i as int]);
            assert(causes@.skip(i as int).drop_first() =~= causes@.skip(i + 1));
        }
        match &causes[i] {
            Cause::UnknownFormat => return ReadError::Unrecognized(owned(text)),
            Cause::UnsupportedTag => return ReadError::Unsupported(owned(text)),
            Cause::Io { permission_denied, message } => {
                if *permission_denied {
                    return ReadError::Io(IoError { kind: IoErrorKind::PermissionDenied, message: message.clone() });
                }
            },
            Cause::Other => {},
        }
        i = i + 1;
    }
    proof {
        assert(causes@.skip(i as int).len() == 0);
        reveal_strlit("unknown format");
        reveal_strlit("unsupported");
    }
    let lower = ascii_lower_chars(&chars_of(text));
    if contains_chars(&lower, &chars_of("unknown format")) {
        ReadError::Unrecognized(owned(text))
    } else if contains_chars(&lower, &chars_of("unsupported")) {
        ReadError::Unsupported(owned(text))
    } else {
        ReadError::Malformed(owned(text))
    }
}

} // verus!
