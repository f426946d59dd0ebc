//! ffmpeg as a child process: configuration, the errors an invocation ends
//! in, and reading what `ffmpeg -version` and `ffmpeg -decoders` print.
use vstd::prelude::*;

use crate::format::Format;
use crate::io::IoError;
use crate::lines::{lines, lines_of};
use crate::multi_value::{holds, string_views, to_strings, views};
use crate::registry::Registry;
use crate::sort::{split_whitespace, words};
use crate::tags::{dec_digits, padded, push_digits, push_padded};
use crate::text::{parse_unsigned, trim, ascii_lower_chars, ascii_lower_seq, chars_of, contains_chars, contains_seq, has_prefix_at, push_chars, push_str, slice_chars, starts_with, string_from_chars, trim_start, trim_start_chars};

verus! {

/// Where the binaries are and how patient to be with them.
#[derive(Debug, Clone)]
pub struct Config {
    pub ffmpeg: String,
    pub ffprobe: String,
    /// A child that produces no output for this long is killed.
    pub stall_timeout_ms: u64,
    /// Upper bound on concurrently running children.
    pub max_processes: usize,
}

impl Default for Config {
    fn default() -> (c: Config)
        ensures
            c.ffmpeg@ == "ffmpeg"@,
            c.ffprobe@ == "ffprobe"@,
            c.stall_timeout_ms == 30_000,
            c.max_processes == 2,
    {
        Config {
            ffmpeg: crate::text::owned("ffmpeg"),
            ffprobe: crate::text::owned("ffprobe"),
            stall_timeout_ms: 30_000,
            max_processes: 2,
        }
    }
}

/// What the installed ffmpeg can do, checked once at startup.
#[derive(Debug, Clone)]
pub struct Capabilities {
    pub version: String,
    /// Audio decoders present, from `ffmpeg -decoders`.
    pub decoders: Vec<String>,
    /// Formats whose decoder is missing. Empty means every supported format
    /// can be analyzed.
    pub missing: Vec<Format>,
}

/// Handle to the ffmpeg installation and its process pool.
pub struct Ffmpeg {
    config: Config,
    registry: Registry,
}

impl Ffmpeg {
    pub closed spec fn config_spec(&self) -> Config {
        self.config
    }

    pub closed spec fn registry_spec(&self) -> Registry {
        self.registry
    }

    /// The handle, with an empty pool sized and timed by `config`.
    pub fn new(config: Config) -> (f: Ffmpeg)
        ensures
            f.config_spec() == config,
            f.registry_spec().wf(),
            f.registry_spec().children() == Map::<u32, (u64, bool)>::empty(),
            !f.registry_spec().paused_spec(),
            f.registry_spec().timeout() == config.stall_timeout_ms,
            f.registry_spec().limit() == if config.max_processes >= 1 {
                config.max_processes as nat
            } else {
                1
            },
    {
        let registry = Registry::new(config.stall_timeout_ms, config.max_processes);
        Ffmpeg { config, registry }
    }

    pub fn config(&self) -> (c: &Config)
        ensures
            *c == self.config_spec(),
    {
        &self.config
    }

    /// The process pool, for the governor to pause and resume.
    pub fn registry(&self) -> (r: &Registry)
        ensures
            *r == self.registry_spec(),
    {
        &self.registry
    }
}

/// Why an ffmpeg invocation failed.
#[derive(Debug, Clone, PartialEq, Eq)]
pub enum Error {
    /// The binary could not be started.
    Spawn { binary: String, source: IoError },
    /// The process exited nonzero. `stderr` is what it said.
    Failed { status: Option<i32>, stderr: String },
    /// Killed by the watchdog after producing nothing for this many
    /// milliseconds.
    Stalled(u64),
    Probe(String),
    NoAudioStream,
    Io(IoError),
}

/// A signed number in decimal.
pub open spec fn int_text(n: int) -> Seq<char> {
    if n < 0 {
        seq!['-'] + dec_digits((-n) as nat)
    } else {
        dec_digits(n as nat)
    }
}

/// `s` with trailing zeros removed.
pub open spec fn strip_zeros(s: Seq<char>) -> Seq<char>
    decreases s.len(),
{
    if s.len() > 0 && s.last() == '0' {
        strip_zeros(s.drop_last())
    } else {
        s
    }
}

/// A whole number of milliseconds as `Duration`'s debug form prints it:
/// `1.5s`, `30s`, `250ms`, `0ns`.
pub open spec fn duration_text(ms: u64) -> Seq<char> {
    if ms >= 1000 {
        let frac = ms % 1000;
        dec_digits((ms / 1000) as nat) + (if frac > 0 {
            seq!['.'] + strip_zeros(padded(frac as nat, 3))
        } else {
            Seq::empty()
        }) + seq!['s']
    } else if ms > 0 {
        dec_digits(ms as nat) + seq!['m', 's']
    } else {
        seq!['0', 'n', 's']
    }
}

/// The message of each error.
pub open spec fn message_of(e: Error) -> Seq<char> {
    match e {
        Error::Spawn { binary, source } => "could not start "@ + binary@ + ": "@ + source.message@,
        Error::Failed { status, stderr } => "ffmpeg exited with status "@ + match status {
            Some(n) => "Some("@ + int_text(n as int) + ")"@,
            None => "None"@,
        } + ": "@ + stderr@,
        Error::Stalled(ms) => "ffmpeg produced no output for "@ + duration_text(ms)
            + " and was killed"@,
        Error::Probe(s) => "ffprobe output could not be parsed: "@ + s@,
        Error::NoAudioStream => "no audio stream in file"@,
        Error::Io(e) => "io error: "@ + e.message@,
    }
}

/// Whether an exit's stderr reads as a missing decoder rather than a
/// broken file.
pub open spec fn says_unsupported(stderr: Seq<char>) -> bool {
    let s = ascii_lower_seq(stderr);
    contains_seq(s, "decoder not found"@) || contains_seq(s, "unknown decoder"@) || contains_seq(
        s,
        "codec not currently supported"@,
    ) || contains_seq(s, "unsupported codec"@)
}

fn push_int(out: &mut Vec<char>, n: i32)
    ensures
        final(out)@ == old(out)@ + int_text(n as int),
{
    if n < 0 {
        out.push('-');
        let m: u64 = (-(n as i64)) as u64;
        push_digits(out, m);
        proof {
            assert(final(out)@ =~= old(out)@ + int_text(n as int));
        }
    } else {
        push_digits(out, n as u64);
    }
}

fn push_duration(out: &mut Vec<char>, ms: u64)
    ensures
        final(out)@ == old(out)@ + duration_text(ms),
{
    if ms >= 1000 {
        push_digits(out, ms / 1000);
        let frac = ms % 1000;
        if frac > 0 {
            out.push('.');
            let mut f: Vec<char> = Vec::new();
            push_padded(&mut f, frac, 3);
            proof {
                assert(f@ =~= padded(frac as nat, 3));
            }
            let mut n = f.len();
            proof {
                assert(f@.take(f.len() as int) =~= f@);
            }
            while n > 0 && f[n - 1] == '0'
                invariant
                    n <= f.len(),
                    strip_zeros(f@) == strip_zeros(f@.take(n as int)),
                decreases n,
            {
                proof {
                    assert(f@.take(n as int).drop_last() =~= f@.take(n - 1));
                }
                n = n - 1;
            }
            proof {
                assert(strip_zeros(f@.take(n as int)) == f@.take(n as int));
            }
            let kept = slice_chars(&f, 0, n);
            proof {
                assert(kept@ =~= f@.take(n as int));
            }
            push_chars(out, &kept);
        }
        out.push('s');
        proof {
            assert(final(out)@ =~= old(out)@ + duration_text(ms));
        }
    } else if ms > 0 {
        push_digits(out, ms);
        out.push('m');
        out.push('s');
        proof {
            assert(final(out)@ =~= old(out)@ + duration_text(ms));
        }
    } else {
        out.push('0');
        out.push('n');
        out.push('s');
        proof {
            assert(final(out)@ =~= old(out)@ + duration_text(ms));
        }
    }
}

impl Error {
    /// Whether stderr indicates a decoder is missing rather than a broken
    /// file.
    pub fn is_unsupported_encoding(&self) -> (r: bool)
        ensures
            r == match self {
                Error::Failed { stderr, .. } => says_unsupported(stderr@),
                _ => false,
            },
    {
        match self {
            Error::Failed { stderr, .. } => {
                let c = chars_of(stderr.as_str());
                let s = ascii_lower_chars(&c);
                contains_chars(&s, &chars_of("decoder not found")) || contains_chars(
                    &s,
                    &chars_of("unknown decoder"),
                ) || contains_chars(&s, &chars_of("codec not currently supported"))
                    || contains_chars(&s, &chars_of("unsupported codec"))
            },
            _ => false,
        }
    }

    /// The error's message.
    pub fn message(&self) -> (m: String)
        ensures
            m@ == message_of(*self),
    {
        let mut out: Vec<char> = Vec::new();
        match self {
            Error::Spawn { binary, source } => {
                push_str(&mut out, "could not start ");
                push_str(&mut out, binary.as_str());
                push_str(&mut out, ": ");
                push_str(&mut out, source.message.as_str());
            },
            Error::Failed { status, stderr } => {
                push_str(&mut out, "ffmpeg exited with status ");
                match status {
                    Some(n) => {
                        push_str(&mut out, "Some(");
                        push_int(&mut out, *n);
                        push_str(&mut out, ")");
                    },
                    None => push_str(&mut out, "None"),
                }
                push_str(&mut out, ": ");
                push_str(&mut out, stderr.as_str());
            },
            Error::Stalled(ms) => {
                push_str(&mut out, "ffmpeg produced no output for ");
                push_duration(&mut out, *ms);
                push_str(&mut out, " and was killed");
            },
            Error::Probe(s) => {
                push_str(&mut out, "ffprobe output could not be parsed: ");
                push_str(&mut out, s.as_str());
            },
            Error::NoAudioStream => push_str(&mut out, "no audio stream in file"),
            Error::Io(e) => {
                push_str(&mut out, "io error: ");
                push_str(&mut out, e.message.as_str());
            },
        }
        proof {
            assert(out@ =~= message_of(*self));
        }
        string_from_chars(&out)
    }
}

/// The separator line of the decoder table: six hyphens after leading
/// white space.
pub open spec fn is_table_separator(l: Seq<char>) -> bool {
    starts_with(trim_start(l), seq!['-', '-', '-', '-', '-', '-'])
}

/// An audio decoder's name, when the line lists one: its first column
/// (the flags) starts with `A` and a second column follows.
pub open spec fn decoder_entry(l: Seq<char>) -> Option<Seq<char>> {
    let w = words(trim_start(l));
    if w.len() >= 2 && w[0].len() > 0 && w[0][0] == 'A' {
        Some(w[1])
    } else {
        None
    }
}

pub open spec fn separator_before(ls: Seq<Seq<char>>, i: int) -> bool {
    exists|j: int| 0 <= j < i && is_table_separator(#[trigger] ls[j])
}

/// The decoders listed after the separator, in table order.
pub open spec fn decoders_in(ls: Seq<Seq<char>>) -> Seq<Seq<char>>
    decreases ls.len(),
{
    if ls.len() == 0 {
        Seq::empty()
    } else {
        let d = decoders_in(ls.drop_last());
        if separator_before(ls, ls.len() - 1) && decoder_entry(ls.last()) is Some {
            d.push(decoder_entry(ls.last())->0)
        } else {
            d
        }
    }
}

pub open spec fn decoders_of(table: Seq<char>) -> Seq<Seq<char>> {
    decoders_in(lines_of(table))
}

/// Parse the decoder table printed by `ffmpeg -decoders`. Lines look like
/// ` A....D flac  FLAC (Free Lossless Audio Codec)`; only audio decoders
/// (flag column starting with `A`) below the `------` separator are kept.
pub fn parse_decoders(table: &str) -> (out: Vec<String>)
    ensures
        string_views(out@) == decoders_of(table@),
{
    let chars = chars_of(table);
    let ls = lines(&chars);
    let ghost lv = views(ls@);
    let mut seen_separator = false;
    let mut out: Vec<Vec<char>> = Vec::new();
    let mut i: usize = 0;
    let dashes = vec!['-', '-', '-', '-', '-', '-'];
    proof {
        assert(dashes@ =~= seq!['-', '-', '-', '-', '-', '-']);
    }
    while i < ls.len()
        invariant
            i <= ls.len(),
            lv == views(ls@),
            lv == lines_of(table@),
            dashes@ == seq!['-', '-', '-', '-', '-', '-'],
            seen_separator == separator_before(lv, i as int),
            views(out@) == decoders_in(lv.take(i as int)),
        decreases ls.len() - i,
    {
        let l = trim_start_chars(&ls[i]);
        proof {
            assert(lv[i as int] == ls@[i as int]@);
            let t = lv.take(i + 1);
            assert(t.drop_last() =~= lv.take(i as int));
            assert(t.last() == lv[i as int]);
            assert(separator_before(t, i as int) == separator_before(lv, i as int)) by {
                if separator_before(lv, i as int) {
                    let j = choose|j: int| 0 <= j < i && is_table_separator(#[trigger] lv[j]);
                    assert(t[j] == lv[j]);
                }
                if separator_before(t, i as int) {
                    let j = choose|j: int| 0 <= j < i && is_table_separator(#[trigger] t[j]);
                    assert(t[j] == lv[j]);
                }
            }
        }
        if seen_separator {
            let cols = split_whitespace(&l);
            if cols.len() >= 2 && cols[0].len() > 0 && cols[0][0] == 'A' {
                proof {
                    assert(views(cols@)[0] == cols@[0]@);
                    assert(views(cols@)[1] == cols@[1]@);
                }
                let name = slice_chars(&cols[1], 0, cols[1].len());
                proof {
                    assert(name@ =~= cols@[1]@);
                }
                let ghost before = views(out@);
                out.push(name);
                proof {
                    assert(views(out@) =~= before.push(name@));
                }
            } else {
                proof {
                    if cols.len() >= 2 {
                        assert(views(cols@)[0] == cols@[0]@);
                    }
                }
            }
        } else {
            if has_prefix_at(&l, 0, &dashes) {
                seen_separator = true;
                proof {
                    assert(l@.subrange(0, 6) =~= l@.take(6));
                    assert(is_table_separator(lv[i as int]));
                }
            } else {
                proof {
                    assert(l@.subrange(0, 6) =~= l@.take(6));
                }
            }
        }
        proof {
            assert(separator_before(lv, i + 1) == (separator_before(lv, i as int) || is_table_separator(lv[i as int]))) by {
                if separator_before(lv, i + 1) {
                    let j = choose|j: int| 0 <= j < i + 1 && is_table_separator(#[trigger] lv[j]);
                }
            }
        }
        i = i + 1;
    }
    proof {
        assert(lv.take(ls.len() as int) =~= lv);
    }
    to_strings(&out)
}

/// Every supported format, in a stable order.
pub open spec fn all_formats() -> Seq<Format> {
    seq![
        Format::Flac,
        Format::Alac,
        Format::Wav,
        Format::Aiff,
        Format::Mp3,
        Format::Aac,
        Format::Vorbis,
        Format::Opus,
    ]
}

/// The formats, in `all_formats` order, whose decoder is not among
/// `decoders`.
pub open spec fn missing_of(decoders: Seq<Seq<char>>) -> Seq<Format> {
    all_formats().filter(|f: Format| !decoders.contains(f.decoder_of()))
}

/// The formats whose decoder the installation lacks.
pub fn missing_formats(decoders: &Vec<String>) -> (out: Vec<Format>)
    ensures
        out@ == missing_of(string_views(decoders@)),
{
    let mut dv: Vec<Vec<char>> = Vec::new();
    let mut k: usize = 0;
    while k < decoders.len()
        invariant
            k <= decoders.len(),
            views(dv@) == string_views(decoders@).take(k as int),
        decreases decoders.len() - k,
    {
        let ghost before = views(dv@);
        dv.push(chars_of(decoders[k].as_str()));
        proof {
            assert(views(dv@) =~= before.push(decoders@[k as int]@));
            assert(string_views(decoders@).take(k + 1) =~= string_views(decoders@).take(k as int).push(decoders@[k as int]@));
        }
        k = k + 1;
    }
    proof {
        assert(string_views(decoders@).take(decoders.len() as int) =~= string_views(decoders@));
    }
    let all = [
        Format::Flac,
        Format::Alac,
        Format::Wav,
        Format::Aiff,
        Format::Mp3,
        Format::Aac,
        Format::Vorbis,
        Format::Opus,
    ];
    proof {
        assert(all@ =~= all_formats());
    }
    let ghost pred = |f: Format| !string_views(decoders@).contains(f.decoder_of());
    let mut out: Vec<Format> = Vec::new();
    let mut i: usize = 0;
    while i < 8
        invariant
            i <= 8,
            all@ == all_formats(),
            views(dv@) == string_views(decoders@),
            pred == (|f: Format| !string_views(decoders@).contains(f.decoder_of())),
            out@ == all_formats().take(i as int).filter(pred),
        decreases 8 - i,
    {
        let f = all[i];
        let d = chars_of(f.ffmpeg_decoder());
        let present = holds(&dv, &d);
        proof {
            assert(all_formats().take(i + 1) =~= all_formats().take(i as int).push(f));
            all_formats().take(i as int).lemma_filter_push(f, pred);
        }
        if !present {
            out.push(f);
        }
        i = i + 1;
    }
    proof {
        assert(all_formats().take(8) =~= all_formats());
    }
    out
}

/// `s` with every leading copy of `p` removed, as `trim_start_matches`.
pub open spec fn strip_prefixes(s: Seq<char>, p: Seq<char>) -> Seq<char>
    decreases s.len(),
{
    if p.len() > 0 && starts_with(s, p) {
        strip_prefixes(s.skip(p.len() as int), p)
    } else {
        s
    }
}

/// The version `ffmpeg -version` reports: the first word of its first line
/// after `ffmpeg version `; empty when there is none.
pub open spec fn version_of(stdout: Seq<char>) -> Seq<char> {
    let ls = lines_of(stdout);
    let first = if ls.len() > 0 {
        ls[0]
    } else {
        Seq::empty()
    };
    let w = words(strip_prefixes(first, "ffmpeg version "@));
    if w.len() > 0 {
        w[0]
    } else {
        Seq::empty()
    }
}

/// The version string from the output of `ffmpeg -version`.
pub fn parse_version(stdout: &str) -> (v: String)
    ensures
        v@ == version_of(stdout@),
{
    let chars = chars_of(stdout);
    let ls = lines(&chars);
    let mut first: Vec<char> = if ls.len() > 0 {
        slice_chars(&ls[0], 0, ls[0].len())
    } else {
        Vec::new()
    };
    proof {
        if ls.len() > 0 {
            assert(views(ls@)[0] == ls@[0]@);
            assert(first@ =~= ls@[0]@);
        }
    }
    let p = chars_of("ffmpeg version ");
    let ghost whole = first@;
    while p.len() > 0 && has_prefix_at(&first, 0, &p)
        invariant
            strip_prefixes(whole, p@) == strip_prefixes(first@, p@),
        decreases first.len(),
    {
        proof {
            assert(first@.subrange(0, p.len() as int) =~= first@.take(p.len() as int));
        }
        let ghost before = first@;
        first = slice_chars(&first, p.len(), first.len());
        proof {
            assert(first@ =~= before.skip(p.len() as int));
        }
    }
    proof {
        if p.len() > 0 {
            assert(first@.subrange(0, p.len() as int) =~= first@.take(p.len() as int));
        }
    }
    let w = split_whitespace(&first);
    if w.len() > 0 {
        proof {
            assert(views(w@)[0] == w@[0]@);
        }
        string_from_chars(&w[0])
    } else {
        String::new()
    }
}

/// The computing half of the startup check: the version from the output of
/// `ffmpeg -version`, the audio decoders from the output of
/// `ffmpeg -decoders`, and the formats those decoders leave out.
pub fn capabilities(version_stdout: &str, decoders_stdout: &str) -> (c: Capabilities)
    ensures
        c.version@ == version_of(version_stdout@),
        string_views(c.decoders@) == decoders_of(decoders_stdout@),
        c.missing@ == missing_of(decoders_of(decoders_stdout@)),
{
    let version = parse_version(version_stdout);
    let decoders = parse_decoders(decoders_stdout);
    let missing = missing_formats(&decoders);
    Capabilities { version, decoders, missing }
}

/// One stream as `ffprobe -show_streams` describes it.
#[derive(Debug, Clone)]
pub struct ProbeStream {
    pub codec_type: Option<String>,
    pub codec_name: Option<String>,
    pub sample_rate: Option<String>,
    pub channels: Option<u32>,
    pub channel_layout: Option<String>,
}

/// What a raw PCM decode needs of the first audio stream.
#[derive(Debug, Clone, PartialEq, Eq)]
pub struct StreamFacts {
    pub codec_name: String,
    pub sample_rate: u32,
    pub channels: u32,
    /// ffmpeg's layout name (`stereo`, `5.1`, ...) when known.
    pub channel_layout: Option<String>,
}

pub open spec fn opt_text(s: Option<String>) -> Option<Seq<char>> {
    match s {
        Some(x) => Some(x@),
        None => None,
    }
}

pub open spec fn is_audio(s: ProbeStream) -> bool {
    opt_text(s.codec_type) == Some("audio"@)
}

/// The sample rate a stream states: a positive `u32`.
pub open spec fn rate_of(s: ProbeStream) -> Option<u32> {
    match s.sample_rate {
        Some(r) => match parse_unsigned(r@, u32::MAX as nat) {
            Some(v) => if v > 0 { Some(v as u32) } else { None },
            None => None,
        },
        None => None,
    }
}

/// What the first audio stream gives: no audio stream, no usable sample
/// rate, no channel count, or its facts (an unnamed codec named empty).
pub open spec fn stream_facts_ok(r: Result<StreamFacts, Error>, streams: Seq<ProbeStream>) -> bool {
    if exists|i: int| 0 <= i < streams.len() && is_audio(streams[i]) {
        let i = choose|i: int| 0 <= i < streams.len() && is_audio(streams[i]) && forall|k: int| 0 <= k < i ==> !is_audio(streams[k]);
        let s = streams[i];
        match rate_of(s) {
            None => r matches Err(Error::Probe(m)) && m@ == "missing sample_rate"@,
            Some(rate) => match s.channels {
                Some(c) if c > 0 => r matches Ok(f) && f.sample_rate == rate && f.channels == c && f.codec_name@ == (match s.codec_name {
                    Some(n) => n@,
                    None => Seq::<char>::empty(),
                }) && opt_text(f.channel_layout) == opt_text(s.channel_layout),
                _ => r matches Err(Error::Probe(m)) && m@ == "missing channels"@,
            },
        }
    } else {
        r matches Err(Error::NoAudioStream)
    }
}

/// The facts of the first audio stream of a probe.
pub fn audio_stream(streams: &Vec<ProbeStream>) -> (r: Result<StreamFacts, Error>)
    ensures
        stream_facts_ok(r, streams@),
{
    proof {
        reveal_strlit("audio");
        reveal_strlit("missing sample_rate");
        reveal_strlit("missing channels");
        reveal_strlit("");
    }
    let mut i: usize = 0;
    while i < streams.len()
        invariant
            i <= streams@.len(),
            forall|k: int| 0 <= k < i ==> !is_audio(streams@[k]),
        decreases streams@.len() - i,
    {
        let s = &streams[i];
        let audio = match &s.codec_type {
            Some(t) => crate::text::str_eq(t.as_str(), "audio"),
            None => false,
        };
        if audio {
            proof {
                assert(is_audio(streams@[i as int]));
                let j = choose|j: int| 0 <= j < streams@.len() && is_audio(streams@[j]) && forall|k: int| 0 <= k < j ==> !is_audio(streams@[k]);
                if j < i {
                    assert(!is_audio(streams@[j]));
                }
                if j > i {
                    assert(!is_audio(streams@[i as int]));
                }
                assert(j == i);
            }
            let rate = match &s.sample_rate {
                Some(r) => {
                    let rc = crate::text::chars_of(r.as_str());
                    proof {
                        assert(rc@.subrange(0, rc@.len() as int) =~= rc@);
                    }
                    match crate::text::parse_unsigned_chars(&rc, 0, rc.len(), 4294967295) {
                        Some(v) => if v > 0 { Some(v as u32) } else { None },
                        None => None,
                    }
                },
                None => None,
            };
            let rate = match rate {
                Some(r) => r,
                None => return Err(Error::Probe(crate::text::owned("missing sample_rate"))),
            };
            let channels = match s.channels {
                Some(c) => if c > 0 { c } else {
                    return Err(Error::Probe(crate::text::owned("missing channels")));
                },
                None => return Err(Error::Probe(crate::text::owned("missing channels"))),
            };
            let codec_name = match &s.codec_name {
                Some(n) => n.clone(),
                None => {
                    proof {
                        reveal_strlit("");
                    }
                    crate::text::owned("")
                },
            };
            let channel_layout = match &s.channel_layout {
                Some(l) => Some(l.clone()),
                None => None,
            };
            assert(rate_of(*s) == Some(rate));
            assert(s.channels == Some(channels) && channels > 0);
            assert(opt_text(channel_layout) == opt_text(s.channel_layout));
            assert(codec_name@ == match s.codec_name {
                Some(n) => n@,
                None => Seq::<char>::empty(),
            });
            return Ok(StreamFacts { codec_name, sample_rate: rate, channels, channel_layout });
        }
        i = i + 1;
    }
    Err(Error::NoAudioStream)
}

/// How a finished child ended for the caller: stalled if the watchdog
/// killed it, failed (with what it said on stderr, trimmed) if it exited
/// unsuccessfully, else fine.
pub fn child_outcome(stalled: bool, success: bool, status: Option<i32>, stderr: &str, stall_timeout_ms: u64) -> (r: Result<(), Error>)
    ensures
        stalled ==> r == Err::<(), Error>(Error::Stalled(stall_timeout_ms)),
        !stalled && !success ==> (r matches Err(Error::Failed { status: st, stderr: e }) && st == status && e@ == trim(stderr@)),
        !stalled && success ==> r is Ok,
{
    if stalled {
        return Err(Error::Stalled(stall_timeout_ms));
    }
    if !success {
        let t = crate::text::trim_chars(&crate::text::chars_of(stderr));
        return Err(Error::Failed { status, stderr: crate::text::string_from_chars(&t) });
    }
    Ok(())
}

/// How `ffmpeg -decoders` ended, before its listing is read: a nonzero exit
/// is `Failed` with its exit status and all it wrote to stderr.
pub fn decoders_outcome(success: bool, status: Option<i32>, stderr: &str) -> (r: Result<(), Error>)
    ensures
        !success ==> (r matches Err(Error::Failed { status: st, stderr: e }) && st == status && e@ == stderr@),
        success ==> r is Ok,
{
    if !success {
        return Err(Error::Failed { status, stderr: crate::text::owned(stderr) });
    }
    Ok(())
}

} // verus!
