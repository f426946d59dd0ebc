//! The canonical tag set. Whatever the tagging scheme, the scanner produces
//! exactly this.
use vstd::prelude::*;

use crate::lines::{lines, lines_of};
use crate::lrc::first_index;
use crate::multi_value::{split_parts, split_pieces, views};
use crate::text::{digit_value, is_white_space, lead_ws, lemma_lead_ws, lemma_trail_ws, lemma_trim_bounds, trail_ws, trim_end, all_digits, chars_of, dec_value, find_char, is_digit, is_first_at, parse_unsigned, parse_unsigned_chars, slice_chars, string_from_chars, trim, trim_chars, trim_start, trim_start_chars};

verus! {

/// A date at whatever precision the tag carried.
#[derive(Debug, Clone, Copy, PartialEq, Eq, Hash, PartialOrd, Ord, Structural)]
pub struct PartialDate {
    pub year: u16,
    pub month: Option<u8>,
    pub day: Option<u8>,
}

/// `s` up to (not including) the first `a` or `b`.
pub open spec fn until_either(s: Seq<char>, a: char, b: char) -> Seq<char>
    decreases s.len(),
{
    if s.len() == 0 || s[0] == a || s[0] == b {
        Seq::empty()
    } else {
        seq![s[0]] + until_either(s.drop_first(), a, b)
    }
}

/// A number in `lo..=hi` parsed as an unsigned type whose largest value
/// is `max`.
pub open spec fn parse_in(s: Seq<char>, max: nat, lo: nat, hi: nat) -> Option<nat> {
    match parse_unsigned(s, max) {
        Some(v) if lo <= v <= hi => Some(v),
        _ => None,
    }
}

/// What `PartialDate::parse` returns: `YYYY`, `YYYY-MM` or `YYYY-MM-DD`,
/// possibly followed by a time after `T` or a space. Anything else is not a
/// date.
pub open spec fn partial_date_of(raw: Seq<char>) -> Option<PartialDate> {
    let parts = split_parts(until_either(trim(raw), 'T', ' '), '-');
    match parse_in(parts[0], u16::MAX as nat, 1000, 9999) {
        None => None,
        Some(y) => if parts.len() < 2 {
            Some(PartialDate { year: y as u16, month: None, day: None })
        } else {
            match parse_in(parts[1], u8::MAX as nat, 1, 12) {
                None => None,
                Some(m) => if parts.len() < 3 {
                    Some(PartialDate { year: y as u16, month: Some(m as u8), day: None })
                } else {
                    match parse_in(parts[2], u8::MAX as nat, 1, 31) {
                        None => None,
                        Some(d) => if parts.len() > 3 {
                            None
                        } else {
                            Some(
                                PartialDate { year: y as u16, month: Some(m as u8), day: Some(d as u8) },
                            )
                        },
                    }
                },
            }
        },
    }
}

/// The decimal digits of `n`, most significant first.
pub open spec fn dec_digits(n: nat) -> Seq<char>
    decreases n,
{
    if n < 10 {
        seq![((n + 48) as u8) as char]
    } else {
        dec_digits(n / 10).push((((n % 10) + 48) as u8) as char)
    }
}

/// `n` in decimal, left-padded with zeros to at least `w` digits.
pub open spec fn padded(n: nat, w: nat) -> Seq<char> {
    let d = dec_digits(n);
    if d.len() < w {
        Seq::new((w - d.len()) as nat, |i: int| '0') + d
    } else {
        d
    }
}

/// `YYYY`, `YYYY-MM` or `YYYY-MM-DD`.
pub open spec fn date_text(d: PartialDate) -> Seq<char> {
    match d.month {
        None => padded(d.year as nat, 4),
        Some(m) => match d.day {
            None => padded(d.year as nat, 4) + seq!['-'] + padded(m as nat, 2),
            Some(dd) => padded(d.year as nat, 4) + seq!['-'] + padded(m as nat, 2) + seq!['-']
                + padded(dd as nat, 2),
        },
    }
}

/// Append the decimal digits of `n`.
pub fn push_digits(out: &mut Vec<char>, n: u64)
    ensures
        final(out)@ == old(out)@ + dec_digits(n as nat),
    decreases n,
{
    if n >= 10 {
        push_digits(out, n / 10);
    }
    let d = (n % 10) as u8;
    out.push((d + 48) as char);
    proof {
        if n >= 10 {
            assert(old(out)@ + dec_digits((n / 10) as nat) + seq![((d + 48) as u8) as char] =~= old(
                out,
            )@ + dec_digits(n as nat));
        } else {
            assert(n % 10 == n);
        }
    }
}

/// Append `n` padded to `w` digits.
pub fn push_padded(out: &mut Vec<char>, n: u64, w: usize)
    ensures
        final(out)@ == old(out)@ + padded(n as nat, w as nat),
{
    let mut digits: Vec<char> = Vec::new();
    push_digits(&mut digits, n);
    proof {
        assert(digits@ =~= dec_digits(n as nat));
    }
    let ghost start = out@;
    if digits.len() < w {
        let mut k: usize = 0;
        while k < w - digits.len()
            invariant
                digits.len() < w,
                k <= w - digits.len(),
                out@ == start + Seq::new(k as nat, |i: int| '0'),
            decreases w - digits.len() - k,
        {
            out.push('0');
            k = k + 1;
            proof {
                assert(out@ =~= start + Seq::new(k as nat, |i: int| '0'));
            }
        }
    }
    let ghost mid = out@;
    let mut i: usize = 0;
    while i < digits.len()
        invariant
            i <= digits.len(),
            out@ == mid + digits@.take(i as int),
        decreases digits.len() - i,
    {
        out.push(digits[i]);
        i = i + 1;
        proof {
            assert(digits@.take(i as int) =~= digits@.take(i - 1).push(digits@[i - 1]));
        }
    }
    proof {
        assert(digits@.take(digits.len() as int) =~= digits@);
        assert(out@ =~= start + padded(n as nat, w as nat));
    }
}


pub proof fn lemma_dec_digits(n: nat)
    ensures
        all_digits(dec_digits(n)),
        dec_value(dec_digits(n)) == n,
        dec_digits(n).len() >= 1,
    decreases n,
{
    if n < 10 {
        let c = ((n + 48) as u8) as char;
        assert(dec_digits(n) == seq![c]);
        assert(seq![c].drop_last() =~= Seq::<char>::empty());
        assert((c as u32) == n + 48);
        assert(digit_value(c) == n);
        assert(dec_value(seq![c]) == dec_value(Seq::<char>::empty()) * 10 + digit_value(c));
    } else {
        lemma_dec_digits(n / 10);
        let c = (((n % 10) + 48) as u8) as char;
        let d = dec_digits(n / 10);
        assert(dec_digits(n) == d.push(c));
        assert(d.push(c).drop_last() =~= d);
        assert((c as u32) == n % 10 + 48);
        assert(digit_value(c) == n % 10);
        assert(dec_value(d.push(c)) == dec_value(d) * 10 + digit_value(c));
        assert((n / 10) * 10 + n % 10 == n);
        assert(all_digits(d.push(c))) by {
            assert forall|i: int| 0 <= i < d.push(c).len() implies is_digit(#[trigger] d.push(c)[i]) by {
                if i < d.len() {
                    assert(d.push(c)[i] == d[i]);
                }
            }
        }
    }
}

proof fn lemma_zeros_value(k: nat, t: Seq<char>)
    ensures
        dec_value(Seq::new(k, |i: int| '0') + t) == dec_value(t),
    decreases t.len(), k,
{
    let z = Seq::new(k, |i: int| '0');
    if t.len() == 0 {
        assert(z + t =~= z);
        if k > 0 {
            lemma_zeros_value((k - 1) as nat, t);
            assert(z.drop_last() =~= Seq::new((k - 1) as nat, |i: int| '0') + t);
            assert(digit_value(z.last()) == 0);
        }
    } else {
        lemma_zeros_value(k, t.drop_last());
        assert((z + t).drop_last() =~= z + t.drop_last());
        assert((z + t).last() == t.last());
    }
}

proof fn lemma_padded(n: nat, w: nat)
    ensures
        all_digits(padded(n, w)),
        dec_value(padded(n, w)) == n,
        padded(n, w).len() >= 1,
{
    lemma_dec_digits(n);
    let d = dec_digits(n);
    if d.len() < w {
        let z = Seq::new((w - d.len()) as nat, |i: int| '0');
        lemma_zeros_value((w - d.len()) as nat, d);
        assert forall|i: int| 0 <= i < (z + d).len() implies is_digit(#[trigger] (z + d)[i]) by {
            if i >= z.len() {
                assert((z + d)[i] == d[i - z.len()]);
            }
        }
    }
}

/// Text made of digits and `-` only.
pub open spec fn date_like(s: Seq<char>) -> bool {
    forall|i: int| 0 <= i < s.len() ==> is_digit(#[trigger] s[i]) || s[i] == '-'
}

proof fn lemma_date_like_trim(s: Seq<char>)
    requires
        date_like(s),
    ensures
        trim(s) == s,
        until_either(s, 'T', ' ') == s,
    decreases s.len(),
{
    lemma_lead_ws(s);
    if lead_ws(s) > 0 {
        assert(is_white_space(s[0]));
        assert(is_digit(s[0]) || s[0] == '-');
    }
    assert(s.subrange(0, s.len() as int) =~= s);
    lemma_trail_ws(s);
    if trail_ws(s) > 0 {
        assert(is_white_space(s[s.len() - 1]));
        assert(is_digit(s[s.len() - 1]) || s[s.len() - 1] == '-');
    }
    lemma_trim_bounds(s);
    if s.len() > 0 {
        assert(date_like(s.drop_first())) by {
            assert forall|i: int| 0 <= i < s.drop_first().len() implies is_digit(#[trigger] s.drop_first()[i]) || s.drop_first()[i] == '-' by {
                assert(s.drop_first()[i] == s[i + 1]);
            }
        }
        lemma_date_like_trim(s.drop_first());
        assert(is_digit(s[0]) || s[0] == '-');
        assert(seq![s[0]] + s.drop_first() =~= s);
    } else {
        assert(until_either(s, 'T', ' ') =~= s);
    }
}

proof fn lemma_split_without(s: Seq<char>, sep: char)
    requires
        forall|i: int| 0 <= i < s.len() ==> s[i] != sep,
    ensures
        split_parts(s, sep) == seq![s],
    decreases s.len(),
{
    if s.len() > 0 {
        lemma_split_without(s.drop_last(), sep);
        assert(s.drop_last().push(s.last()) =~= s);
        assert(split_parts(s, sep) =~= seq![s]);
    } else {
        assert(s =~= Seq::<char>::empty());
    }
}

proof fn lemma_number_part(n: nat, w: nat, max: nat)
    requires
        n <= max,
    ensures
        parse_unsigned(padded(n, w), max) == Some(n),
        date_like(padded(n, w)),
        forall|i: int| 0 <= i < padded(n, w).len() ==> padded(n, w)[i] != '-',
{
    lemma_padded(n, w);
    let p = padded(n, w);
    assert(is_digit(p[0]));
    assert forall|i: int| 0 <= i < p.len() implies is_digit(#[trigger] p[i]) || p[i] == '-' by {
        assert(is_digit(p[i]));
    }
    assert forall|i: int| 0 <= i < p.len() implies p[i] != '-' by {
        assert(is_digit(p[i]));
    }
}

/// A date at any precision, written out, reads back as itself. A day
/// without a month is not written, so such a date does not.
pub proof fn dates_read_back(d: PartialDate)
    requires
        1000 <= d.year <= 9999,
        d.month matches Some(m) ==> 1 <= m <= 12,
        d.day matches Some(x) ==> 1 <= x <= 31 && d.month is Some,
    ensures
        partial_date_of(date_text(d)) == Some(d),
{
    let y = padded(d.year as nat, 4);
    lemma_number_part(d.year as nat, 4, u16::MAX as nat);
    let text = date_text(d);
    match d.month {
        None => {
            lemma_date_like_trim(text);
            lemma_split_without(y, '-');
        },
        Some(m) => {
            let mm = padded(m as nat, 2);
            lemma_number_part(m as nat, 2, u8::MAX as nat);
            match d.day {
                None => {
                    assert(date_like(text)) by {
                        assert forall|i: int| 0 <= i < text.len() implies is_digit(#[trigger] text[i]) || text[i] == '-' by {
                            if i < y.len() {
                                assert(text[i] == y[i]);
                            } else if i > y.len() {
                                assert(text[i] == mm[i - y.len() - 1]);
                            }
                        }
                    }
                    lemma_date_like_trim(text);
                    crate::multi_value::lemma_split_parts_concat(y, mm, '-');
                    lemma_split_without(y, '-');
                    lemma_split_without(mm, '-');
                    assert(split_parts(text, '-') =~= seq![y, mm]);
                },
                Some(x) => {
                    let dd = padded(x as nat, 2);
                    lemma_number_part(x as nat, 2, u8::MAX as nat);
                    let ym = y + seq!['-'] + mm;
                    assert(text == ym + seq!['-'] + dd);
                    assert(date_like(text)) by {
                        assert forall|i: int| 0 <= i < text.len() implies is_digit(#[trigger] text[i]) || text[i] == '-' by {
                            if i < y.len() {
                                assert(text[i] == y[i]);
                            } else if y.len() < i < y.len() + 1 + mm.len() {
                                assert(text[i] == mm[i - y.len() - 1]);
                            } else if i > y.len() + 1 + mm.len() {
                                assert(text[i] == dd[i - y.len() - 2 - mm.len()]);
                            }
                        }
                    }
                    lemma_date_like_trim(text);
                    crate::multi_value::lemma_split_parts_concat(ym, dd, '-');
                    crate::multi_value::lemma_split_parts_concat(y, mm, '-');
                    lemma_split_without(y, '-');
                    lemma_split_without(mm, '-');
                    lemma_split_without(dd, '-');
                    assert(split_parts(text, '-') =~= seq![y, mm, dd]);
                },
            }
        },
    }
}

impl PartialDate {
    /// Parse `YYYY`, `YYYY-MM`, `YYYY-MM-DD`, or any of those followed by a
    /// time. Anything else is `None`; a date is never guessed.
    pub fn parse(raw: &str) -> (r: Option<PartialDate>)
        ensures
            r == partial_date_of(raw@),
    {
        let chars = chars_of(raw);
        let t = trim_chars(&chars);
        let mut k: usize = 0;
        proof {
            assert(t@.skip(0) =~= t@);
            assert(t@.take(0) + until_either(t@, 'T', ' ') =~= until_either(t@, 'T', ' '));
        }
        while k < t.len() && t[k] != 'T' && t[k] != ' '
            invariant
                k <= t.len(),
                until_either(t@, 'T', ' ') == t@.take(k as int) + until_either(t@.skip(k as int), 'T', ' '),
            decreases t.len() - k,
        {
            proof {
                let rest = t@.skip(k as int);
                assert(rest.drop_first() =~= t@.skip(k + 1));
                assert(t@.take(k + 1) =~= t@.take(k as int) + seq![t@[k as int]]);
            }
            k = k + 1;
        }
        let date_part = slice_chars(&t, 0, k);
        proof {
            assert(date_part@ =~= until_either(t@, 'T', ' '));
        }
        let parts = split_pieces(&date_part, '-');
        proof {
            crate::multi_value::lemma_split_parts_nonempty(date_part@, '-');
            assert(views(parts@)[0] == parts@[0]@);
        }
        let year = match parse_unsigned_chars(&parts[0], 0, parts[0].len(), 65535) {
            Some(y) if 1000 <= y && y <= 9999 => y as u16,
            _ => {
                proof {
                    assert(parts@[0]@.subrange(0, parts@[0]@.len() as int) =~= parts@[0]@);
                }
                return None;
            },
        };
        proof {
            assert(parts@[0]@.subrange(0, parts@[0]@.len() as int) =~= parts@[0]@);
        }
        if parts.len() < 2 {
            return Some(PartialDate { year, month: None, day: None });
        }
        proof {
            assert(views(parts@)[1] == parts@[1]@);
            assert(parts@[1]@.subrange(0, parts@[1]@.len() as int) =~= parts@[1]@);
        }
        let month = match parse_unsigned_chars(&parts[1], 0, parts[1].len(), 255) {
            Some(m) if 1 <= m && m <= 12 => m as u8,
            _ => return None,
        };
        if parts.len() < 3 {
            return Some(PartialDate { year, month: Some(month), day: None });
        }
        proof {
            assert(views(parts@)[2] == parts@[2]@);
            assert(parts@[2]@.subrange(0, parts@[2]@.len() as int) =~= parts@[2]@);
        }
        let day = match parse_unsigned_chars(&parts[2], 0, parts[2].len(), 255) {
            Some(d) if 1 <= d && d <= 31 => d as u8,
            _ => return None,
        };
        if parts.len() > 3 {
            return None;
        }
        Some(PartialDate { year, month: Some(month), day: Some(day) })
    }

    /// `YYYY`, `YYYY-MM`, or `YYYY-MM-DD`: the shape the database and API
    /// carry.
    pub fn to_string(&self) -> (s: String)
        ensures
            s@ == date_text(*self),
    {
        let mut out: Vec<char> = Vec::new();
        push_padded(&mut out, self.year as u64, 4);
        if let Some(m) = self.month {
            out.push('-');
            push_padded(&mut out, m as u64, 2);
            if let Some(d) = self.day {
                out.push('-');
                push_padded(&mut out, d as u64, 2);
            }
        }
        proof {
            assert(out@ =~= date_text(*self));
        }
        string_from_chars(&out)
    }
}

/// Lyrics as read from the file or a sidecar.
#[derive(Debug, Clone, PartialEq, Eq)]
pub struct Lyrics {
    pub text: String,
    /// True when the text carries LRC-style timestamps.
    pub synced: bool,
}

/// Whether a line starts (after white space) with an LRC time stamp: a
/// bracket holding digits, a colon, and two digits of seconds.
pub open spec fn is_lrc_line_of(line: Seq<char>) -> bool {
    let l = trim_start(line);
    if l.len() == 0 || l[0] != '[' {
        false
    } else {
        let rest = l.drop_first();
        match first_index(rest, ']') {
            None => false,
            Some(e) => {
                let pieces = split_parts(rest.take(e), ':');
                if pieces.len() < 2 {
                    false
                } else {
                    let m = pieces[0];
                    let sec = split_parts(pieces[1], '.')[0];
                    all_digits(m) && m.len() > 0 && sec.len() == 2 && all_digits(sec)
                }
            },
        }
    }
}

/// Whether any of the first fifty lines of `text` is an LRC line.
pub open spec fn looks_synced(text: Seq<char>) -> bool {
    exists|i: int| 0 <= i < 50 && i < lines_of(text).len() && is_lrc_line_of(#[trigger] lines_of(text)[i])
}

fn all_digit_chars(s: &Vec<char>) -> (r: bool)
    ensures
        r == all_digits(s@),
{
    let mut i: usize = 0;
    while i < s.len()
        invariant
            i <= s.len(),
            forall|k: int| 0 <= k < i ==> is_digit(#[trigger] s@[k]),
        decreases s.len() - i,
    {
        if !('0' <= s[i] && s[i] <= '9') {
            return false;
        }
        i = i + 1;
    }
    true
}

fn is_lrc_line(line: &Vec<char>) -> (r: bool)
    ensures
        r == is_lrc_line_of(line@),
{
    let l = trim_start_chars(line);
    if l.len() == 0 || l[0] != '[' {
        return false;
    }
    let ghost rest = l@.drop_first();
    let e = match find_char(&l, ']', 1) {
        Some(e) => e,
        None => {
            proof {
                assert forall|k: int| 0 <= k < rest.len() implies rest[k] != ']' by {
                    assert(rest[k] == l@[k + 1]);
                }
                crate::lrc::lemma_first_index_none(rest, ']');
            }
            return false;
        },
    };
    proof {
        assert(is_first_at(rest, ']', 0, e - 1)) by {
            assert forall|k: int| 0 <= k < e - 1 implies rest[k] != ']' by {
                assert(rest[k] == l@[k + 1]);
            }
        }
        crate::lrc::lemma_first_index(rest, ']', e - 1);
    }
    let stamp = slice_chars(&l, 1, e);
    proof {
        assert(stamp@ =~= rest.take(e - 1));
    }
    let pieces = split_pieces(&stamp, ':');
    if pieces.len() < 2 {
        return false;
    }
    proof {
        assert(views(pieces@)[0] == pieces@[0]@);
        assert(views(pieces@)[1] == pieces@[1]@);
    }
    let secs = split_pieces(&pieces[1], '.');
    proof {
        crate::multi_value::lemma_split_parts_nonempty(pieces@[1]@, '.');
        assert(views(secs@)[0] == secs@[0]@);
    }
    let m_ok = all_digit_chars(&pieces[0]);
    let s_ok = all_digit_chars(&secs[0]);
    m_ok && pieces[0].len() > 0 && secs[0].len() == 2 && s_ok
}

impl Lyrics {
    /// Wrap text, detecting synchronization from `[mm:ss.xx]` markers in its
    /// first fifty lines.
    pub fn from_text(text: String) -> (r: Lyrics)
        ensures
            r.text == text,
            r.synced == looks_synced(text@),
    {
        let chars = chars_of(text.as_str());
        let ls = lines(&chars);
        let mut synced = false;
        let mut i: usize = 0;
        while i < ls.len() && i < 50 && !synced
            invariant
                i <= ls.len(),
                views(ls@) == lines_of(text@),
                synced ==> looks_synced(text@),
                !synced ==> forall|k: int| 0 <= k < i ==> !is_lrc_line_of(#[trigger] lines_of(text@)[k]),
            decreases ls.len() - i,
        {
            proof {
                assert(views(ls@)[i as int] == ls@[i as int]@);
            }
            if is_lrc_line(&ls[i]) {
                synced = true;
            }
            i = i + 1;
        }
        Lyrics { text, synced }
    }
}

/// Everything read from a file's tags. Every field is optional or empty by
/// default; an untagged file is a valid `TagSet`.
#[derive(Debug, Clone, PartialEq, Eq, Default)]
pub struct TagSet {
    /// Track title. `None` means the scanner names the track after its file.
    pub title: Option<String>,
    /// Ordered track artists; the first is the primary credit.
    pub artists: Vec<String>,
    pub album: Option<String>,
    /// Ordered album artists; they take part in album identity.
    pub album_artists: Vec<String>,
    pub compilation: bool,
    pub track_number: Option<u32>,
    pub track_total: Option<u32>,
    pub disc_number: Option<u32>,
    pub disc_total: Option<u32>,
    pub release_date: Option<PartialDate>,
    /// Genres, multi-valued and unranked.
    pub genres: Vec<String>,
    /// The release-type tag, authoritative for album type.
    pub release_type: Option<String>,
    /// Explicit-content flag where tagged.
    pub explicit: Option<bool>,
    pub isrc: Option<String>,
    pub musicbrainz_recording_id: Option<String>,
    pub musicbrainz_release_id: Option<String>,
    /// Embedded lyrics. Sidecar lyrics are resolved separately.
    pub lyrics: Option<Lyrics>,
    /// Whether the file carries embedded artwork.
    pub has_embedded_art: bool,
    pub title_sort: Option<String>,
    pub artist_sort: Option<String>,
    pub album_sort: Option<String>,
    pub album_artist_sort: Option<String>,
}

} // verus!
