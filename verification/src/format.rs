//! The supported audio formats: the single list the extension filter, the
//! probe and the decoder check derive from.
use vstd::prelude::*;

use crate::text::str_eq;

verus! {

/// One of the eight supported audio formats. WMA is deliberately absent.
#[derive(Debug, Clone, Copy, PartialEq, Eq, Hash, Structural)]
pub enum Format {
    Flac,
    Alac,
    Wav,
    Aiff,
    Mp3,
    Aac,
    Vorbis,
    Opus,
}

/// File extensions (lowercase, no dot) that may hold a supported format.
/// Several are ambiguous (`m4a` is AAC or ALAC, `ogg` is Vorbis or Opus), so
/// the probe settles the format from content, not from this list.
pub open spec fn is_candidate_extension(ext: Seq<char>) -> bool {
    ||| ext == "flac"@
    ||| ext == "m4a"@
    ||| ext == "m4b"@
    ||| ext == "mp4"@
    ||| ext == "wav"@
    ||| ext == "wave"@
    ||| ext == "aif"@
    ||| ext == "aiff"@
    ||| ext == "aifc"@
    ||| ext == "mp3"@
    ||| ext == "mp2"@
    ||| ext == "aac"@
    ||| ext == "ogg"@
    ||| ext == "oga"@
    ||| ext == "opus"@
}

impl Format {
    /// Every format, in a stable order.
    pub const ALL: [Format; 8] = [
        Format::Flac,
        Format::Alac,
        Format::Wav,
        Format::Aiff,
        Format::Mp3,
        Format::Aac,
        Format::Vorbis,
        Format::Opus,
    ];

    /// Whether a lowercase extension may be a supported format.
    pub fn extension_is_candidate(ext: &str) -> (r: bool)
        ensures
            r == is_candidate_extension(ext@),
    {
        str_eq(ext, "flac") || str_eq(ext, "m4a") || str_eq(ext, "m4b") || str_eq(ext, "mp4")
            || str_eq(ext, "wav") || str_eq(ext, "wave") || str_eq(ext, "aif") || str_eq(ext, "aiff")
            || str_eq(ext, "aifc") || str_eq(ext, "mp3") || str_eq(ext, "mp2") || str_eq(ext, "aac")
            || str_eq(ext, "ogg") || str_eq(ext, "oga") || str_eq(ext, "opus")
    }

    /// The name of the ffmpeg decoder this format needs, as a spec.
    pub open spec fn decoder_of(self) -> Seq<char> {
        match self {
            Format::Flac => "flac"@,
            Format::Alac => "alac"@,
            Format::Wav | Format::Aiff => "pcm_s16le"@,
            Format::Mp3 => "mp3"@,
            Format::Aac => "aac"@,
            Format::Vorbis => "vorbis"@,
            Format::Opus => "opus"@,
        }
    }

    /// The name of the ffmpeg decoder this format needs. PCM decoders are
    /// per sample width; the common one stands for WAV and AIFF.
    pub fn ffmpeg_decoder(self) -> (r: &'static str)
        ensures
            r@ == self.decoder_of(),
    {
        match self {
            Format::Flac => "flac",
            Format::Alac => "alac",
            Format::Wav | Format::Aiff => "pcm_s16le",
            Format::Mp3 => "mp3",
            Format::Aac => "aac",
            Format::Vorbis => "vorbis",
            Format::Opus => "opus",
        }
    }

    /// The codec name, in ffmpeg's vocabulary.
    pub fn codec_name(self) -> (r: &'static str)
        ensures
            r@ == match self {
                Format::Flac => "flac"@,
                Format::Alac => "alac"@,
                Format::Wav | Format::Aiff => "pcm"@,
                Format::Mp3 => "mp3"@,
                Format::Aac => "aac"@,
                Format::Vorbis => "vorbis"@,
                Format::Opus => "opus"@,
            },
    {
        match self {
            Format::Flac => "flac",
            Format::Alac => "alac",
            Format::Wav | Format::Aiff => "pcm",
            Format::Mp3 => "mp3",
            Format::Aac => "aac",
            Format::Vorbis => "vorbis",
            Format::Opus => "opus",
        }
    }

    /// The container name, in ffmpeg's vocabulary.
    pub fn container_name(self) -> (r: &'static str)
        ensures
            r@ == match self {
                Format::Flac => "flac"@,
                Format::Alac | Format::Aac => "mp4"@,
                Format::Wav => "wav"@,
                Format::Aiff => "aiff"@,
                Format::Mp3 => "mp3"@,
                Format::Vorbis | Format::Opus => "ogg"@,
            },
    {
        match self {
            Format::Flac => "flac",
            Format::Alac | Format::Aac => "mp4",
            Format::Wav => "wav",
            Format::Aiff => "aiff",
            Format::Mp3 => "mp3",
            Format::Vorbis | Format::Opus => "ogg",
        }
    }

    /// Whether the format is lossless.
    pub fn is_lossless(self) -> (r: bool)
        ensures
            r == (self is Flac || self is Alac || self is Wav || self is Aiff),
    {
        match self {
            Format::Flac | Format::Alac | Format::Wav | Format::Aiff => true,
            _ => false,
        }
    }

    /// Display name for clients.
    pub fn display_name(self) -> (r: &'static str)
        ensures
            r@ == match self {
                Format::Flac => "FLAC"@,
                Format::Alac => "ALAC"@,
                Format::Wav => "WAV"@,
                Format::Aiff => "AIFF"@,
                Format::Mp3 => "MP3"@,
                Format::Aac => "AAC"@,
                Format::Vorbis => "Ogg Vorbis"@,
                Format::Opus => "Opus"@,
            },
    {
        match self {
            Format::Flac => "FLAC",
            Format::Alac => "ALAC",
            Format::Wav => "WAV",
            Format::Aiff => "AIFF",
            Format::Mp3 => "MP3",
            Format::Aac => "AAC",
            Format::Vorbis => "Ogg Vorbis",
            Format::Opus => "Opus",
        }
    }
}

/// Every format names a decoder: none of the decoder names is empty.
pub proof fn every_format_has_a_decoder(f: Format)
    ensures
        f.decoder_of().len() > 0,
{
    reveal_strlit("flac");
    reveal_strlit("alac");
    reveal_strlit("pcm_s16le");
    reveal_strlit("mp3");
    reveal_strlit("aac");
    reveal_strlit("vorbis");
    reveal_strlit("opus");
}

} // verus!
