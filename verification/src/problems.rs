//! Scan problems: what a failure becomes, and the key that groups a
//! systemic issue into one entry.
use vstd::prelude::*;

use crate::ffmpeg::{says_unsupported, message_of, Error as FfmpegError};
use crate::io::{IoError, IoErrorKind};
use crate::sort::{split_whitespace, words};
use crate::text::{ascii_lower, chars_of, is_white_space, push_str, push_chars, string_from_chars, to_ascii_lower, trim_end, trim_end_chars, is_digit};
use crate::scan_tags::ReadError;
use crate::types::{Problem, ProblemKind};

verus! {

/// Permission failures are their own kind; every other I/O failure reads
/// as unreadable.
pub open spec fn io_kind_of(e: IoError) -> ProblemKind {
    match e.kind {
        IoErrorKind::PermissionDenied => ProblemKind::PermissionDenied,
        _ => ProblemKind::Unreadable,
    }
}

pub fn io_kind(e: &IoError) -> (k: ProblemKind)
    ensures
        k == io_kind_of(*e),
{
    match e.kind {
        IoErrorKind::PermissionDenied => ProblemKind::PermissionDenied,
        _ => ProblemKind::Unreadable,
    }
}

/// A problem from an I/O failure at `path`, seen at `seen_at`.
pub fn from_io(path: &str, e: &IoError, seen_at: u64) -> (p: Problem)
    ensures
        p.path@ == path@,
        p.kind == io_kind_of(*e),
        p.detail@ == e.message@,
        p.seen_at == seen_at,
{
    Problem { path: crate::text::owned(path), kind: io_kind(e), detail: e.message.clone(), seen_at }
}

/// A problem from a failed tag read at `path`.
pub fn from_read_error(path: &str, e: &ReadError, seen_at: u64) -> (p: Problem)
    ensures
        p.path@ == path@,
        p.seen_at == seen_at,
        match e {
            ReadError::Io(io) => p.kind == io_kind_of(*io) && p.detail@ == io.message@,
            ReadError::Unsupported(d) => p.kind == ProblemKind::UnsupportedEncoding && p.detail@ == d@,
            ReadError::Unrecognized(d) => p.kind == ProblemKind::CorruptAudio && p.detail@ == d@,
            ReadError::Malformed(d) => p.kind == ProblemKind::MalformedTags && p.detail@ == d@,
        },
{
    let (kind, detail) = match e {
        ReadError::Io(io) => (io_kind(io), io.message.clone()),
        ReadError::Unsupported(d) => (ProblemKind::UnsupportedEncoding, d.clone()),
        ReadError::Unrecognized(d) => (ProblemKind::CorruptAudio, d.clone()),
        ReadError::Malformed(d) => (ProblemKind::MalformedTags, d.clone()),
    };
    Problem { path: crate::text::owned(path), kind, detail, seen_at }
}

/// The problem kind of an ffmpeg failure.
pub open spec fn ffmpeg_kind_of(e: FfmpegError) -> ProblemKind {
    match e {
        FfmpegError::Stalled(_) => ProblemKind::Stalled,
        FfmpegError::Failed { stderr, .. } => if says_unsupported(stderr@) {
            ProblemKind::UnsupportedEncoding
        } else {
            ProblemKind::CorruptAudio
        },
        FfmpegError::NoAudioStream | FfmpegError::Probe(_) => ProblemKind::CorruptAudio,
        FfmpegError::Spawn { .. } => ProblemKind::Unreadable,
        FfmpegError::Io(io) => io_kind_of(io),
    }
}

/// A problem from a failed analysis of `path`.
pub fn from_ffmpeg(path: &str, e: &FfmpegError, seen_at: u64) -> (p: Problem)
    ensures
        p.path@ == path@,
        p.kind == ffmpeg_kind_of(*e),
        p.detail@ == message_of(*e),
        p.seen_at == seen_at,
{
    let kind = match e {
        FfmpegError::Stalled(_) => ProblemKind::Stalled,
        FfmpegError::Failed { .. } => if e.is_unsupported_encoding() {
            ProblemKind::UnsupportedEncoding
        } else {
            ProblemKind::CorruptAudio
        },
        FfmpegError::NoAudioStream | FfmpegError::Probe(_) => ProblemKind::CorruptAudio,
        FfmpegError::Spawn { .. } => ProblemKind::Unreadable,
        FfmpegError::Io(io) => io_kind(io),
    };
    Problem { path: crate::text::owned(path), kind, detail: e.message(), seen_at }
}

/// The name of a problem kind, as its debug form prints it.
pub open spec fn kind_name(k: ProblemKind) -> Seq<char> {
    match k {
        ProblemKind::Unreadable => "Unreadable"@,
        ProblemKind::PermissionDenied => "PermissionDenied"@,
        ProblemKind::MalformedTags => "MalformedTags"@,
        ProblemKind::UnsupportedEncoding => "UnsupportedEncoding"@,
        ProblemKind::CorruptAudio => "CorruptAudio"@,
        ProblemKind::Stalled => "Stalled"@,
    }
}

/// One character of a detail: a run of digits becomes one `#`, anything
/// else is kept, ASCII-lowercased. The flag says whether the last thing
/// kept was a run of digits.
pub open spec fn norm_char(st: (Seq<char>, bool), ch: char) -> (Seq<char>, bool) {
    if is_digit(ch) {
        if st.1 {
            st
        } else {
            (st.0.push('#'), true)
        }
    } else {
        (st.0.push(ascii_lower(ch)), false)
    }
}

pub open spec fn norm_token(st: (Seq<char>, bool), t: Seq<char>) -> (Seq<char>, bool)
    decreases t.len(),
{
    if t.len() == 0 {
        st
    } else {
        norm_char(norm_token(st, t.drop_last()), t.last())
    }
}

/// Whether a token looks like a path.
pub open spec fn is_pathlike(t: Seq<char>) -> bool {
    t.contains('/') || t.contains('\\')
}

/// The detail's words, path-like ones dropped, each followed by a space.
pub open spec fn norm_words(ws: Seq<Seq<char>>) -> (Seq<char>, bool)
    decreases ws.len(),
{
    if ws.len() == 0 {
        (Seq::empty(), false)
    } else {
        let st = norm_words(ws.drop_last());
        if is_pathlike(ws.last()) {
            st
        } else {
            let s2 = norm_token(st, ws.last());
            (s2.0.push(' '), s2.1)
        }
    }
}

/// A detail with paths and numbers stripped, so one systemic issue reads
/// the same for every file.
pub open spec fn normalized_detail(detail: Seq<char>) -> Seq<char> {
    trim_end(norm_words(words(detail)).0)
}

/// The grouping key: kind, root, and the detail with paths and numbers
/// stripped.
pub open spec fn group_key_of(kind: ProblemKind, root: Seq<char>, detail: Seq<char>) -> Seq<char> {
    kind_name(kind) + "|"@ + root + "|"@ + normalized_detail(detail)
}

fn token_is_pathlike(t: &Vec<char>) -> (r: bool)
    ensures
        r == is_pathlike(t@),
{
    let mut i: usize = 0;
    while i < t.len()
        invariant
            i <= t.len(),
            forall|k: int| 0 <= k < i ==> t@[k] != '/' && t@[k] != '\\',
        decreases t.len() - i,
    {
        if t[i] == '/' || t[i] == '\\' {
            proof {
                assert(t@[i as int] == '/' ==> t@.contains('/'));
                assert(t@[i as int] == '\\' ==> t@.contains('\\'));
            }
            return true;
        }
        i = i + 1;
    }
    false
}

fn normalize_detail(detail: &str) -> (out: Vec<char>)
    ensures
        out@ == normalized_detail(detail@),
{
    let chars = chars_of(detail);
    let tokens = split_whitespace(&chars);
    let ghost tv = crate::multi_value::views(tokens@);
    let mut out: Vec<char> = Vec::new();
    let mut in_digits = false;
    let mut i: usize = 0;
    while i < tokens.len()
        invariant
            i <= tokens.len(),
            tv == crate::multi_value::views(tokens@),
            (out@, in_digits) == norm_words(tv.take(i as int)),
        decreases tokens.len() - i,
    {
        let tok = &tokens[i];
        proof {
            assert(tv[i as int] == tok@);
            assert(tv.take(i + 1).drop_last() =~= tv.take(i as int));
            assert(tv.take(i + 1).last() == tok@);
        }
        if !token_is_pathlike(tok) {
            let ghost st0 = (out@, in_digits);
            let mut k: usize = 0;
            while k < tok.len()
                invariant
                    k <= tok.len(),
                    (out@, in_digits) == norm_token(st0, tok@.take(k as int)),
                decreases tok.len() - k,
            {
                let ch = tok[k];
                proof {
                    assert(tok@.take(k + 1).drop_last() =~= tok@.take(k as int));
                    assert(tok@.take(k + 1).last() == ch);
                }
                if '0' <= ch && ch <= '9' {
                    if !in_digits {
                        out.push('#');
                        in_digits = true;
                    }
                } else {
                    in_digits = false;
                    out.push(to_ascii_lower(ch));
                }
                k = k + 1;
            }
            proof {
                assert(tok@.take(tok.len() as int) =~= tok@);
            }
            out.push(' ');
        }
        i = i + 1;
    }
    proof {
        assert(tv.take(tokens.len() as int) =~= tv);
    }
    trim_end_chars(&out)
}

fn kind_text(k: ProblemKind) -> (s: &'static str)
    ensures
        s@ == kind_name(k),
{
    match k {
        ProblemKind::Unreadable => "Unreadable",
        ProblemKind::PermissionDenied => "PermissionDenied",
        ProblemKind::MalformedTags => "MalformedTags",
        ProblemKind::UnsupportedEncoding => "UnsupportedEncoding",
        ProblemKind::CorruptAudio => "CorruptAudio",
        ProblemKind::Stalled => "Stalled",
    }
}

/// The grouping key: kind, root, and the detail with paths and numbers
/// stripped, so a systemic issue reads as one group.
pub fn group_key(kind: ProblemKind, root: &str, detail: &str) -> (key: String)
    ensures
        key@ == group_key_of(kind, root@, detail@),
{
    let mut out: Vec<char> = Vec::new();
    push_str(&mut out, kind_text(kind));
    push_str(&mut out, "|");
    push_str(&mut out, root);
    push_str(&mut out, "|");
    let d = normalize_detail(detail);
    push_chars(&mut out, &d);
    proof {
        assert(out@ =~= group_key_of(kind, root@, detail@));
    }
    string_from_chars(&out)
}

} // verus!
