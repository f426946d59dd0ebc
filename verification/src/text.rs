//! Character-level primitives the rest of the library is written in:
//! Unicode white space, trimming, case folding, decimal numbers.
use vstd::prelude::*;

verus! {

// ───────────────────────────── White space ─────────────────────────────

/// The Unicode `White_Space` property, the set `char::is_whitespace`
/// documents: tab through carriage return, space, next line, no-break
/// space, ogham space mark, the spaces U+2000..U+200A, line and paragraph
/// separators, narrow no-break space, medium mathematical space, and
/// ideographic space.
pub open spec fn is_white_space(c: char) -> bool {
    let u = c as u32;
    ||| 0x9 <= u <= 0xD
    ||| u == 0x20
    ||| u == 0x85
    ||| u == 0xA0
    ||| u == 0x1680
    ||| 0x2000 <= u <= 0x200A
    ||| u == 0x2028
    ||| u == 0x2029
    ||| u == 0x202F
    ||| u == 0x205F
    ||| u == 0x3000
}

pub fn is_whitespace(c: char) -> (b: bool)
    ensures
        b == is_white_space(c),
{
    let u = c as u32;
    (0x9 <= u && u <= 0xD) || u == 0x20 || u == 0x85 || u == 0xA0 || u == 0x1680 || (0x2000 <= u
        && u <= 0x200A) || u == 0x2028 || u == 0x2029 || u == 0x202F || u == 0x205F || u == 0x3000
}

/// Leading white space removed.
pub open spec fn trim_start(s: Seq<char>) -> Seq<char>
    decreases s.len(),
{
    if s.len() > 0 && is_white_space(s[0]) {
        trim_start(s.drop_first())
    } else {
        s
    }
}

/// Trailing white space removed.
pub open spec fn trim_end(s: Seq<char>) -> Seq<char>
    decreases s.len(),
{
    if s.len() > 0 && is_white_space(s.last()) {
        trim_end(s.drop_last())
    } else {
        s
    }
}

/// White space removed at both ends, as `str::trim` does.
pub open spec fn trim(s: Seq<char>) -> Seq<char> {
    trim_end(trim_start(s))
}

/// Number of leading white-space characters.
pub open spec fn lead_ws(s: Seq<char>) -> nat
    decreases s.len(),
{
    if s.len() > 0 && is_white_space(s[0]) {
        1 + lead_ws(s.drop_first())
    } else {
        0
    }
}

/// Number of trailing white-space characters.
pub open spec fn trail_ws(s: Seq<char>) -> nat
    decreases s.len(),
{
    if s.len() > 0 && is_white_space(s.last()) {
        1 + trail_ws(s.drop_last())
    } else {
        0
    }
}

pub proof fn lemma_lead_ws(s: Seq<char>)
    ensures
        lead_ws(s) <= s.len(),
        trim_start(s) == s.subrange(lead_ws(s) as int, s.len() as int),
        forall|i: int| 0 <= i < lead_ws(s) ==> is_white_space(#[trigger] s[i]),
        lead_ws(s) < s.len() ==> !is_white_space(s[lead_ws(s) as int]),
    decreases s.len(),
{
    if s.len() > 0 && is_white_space(s[0]) {
        lemma_lead_ws(s.drop_first());
        assert forall|i: int| 0 <= i < lead_ws(s) implies is_white_space(#[trigger] s[i]) by {
            if i > 0 {
                assert(s[i] == s.drop_first()[i - 1]);
            }
        }
        assert(s.drop_first().subrange(lead_ws(s.drop_first()) as int, s.drop_first().len() as int)
            =~= s.subrange(lead_ws(s) as int, s.len() as int));
    } else {
        assert(s.subrange(0, s.len() as int) =~= s);
    }
}

pub proof fn lemma_trail_ws(s: Seq<char>)
    ensures
        trail_ws(s) <= s.len(),
        trim_end(s) == s.subrange(0, s.len() - trail_ws(s)),
        forall|i: int| s.len() - trail_ws(s) <= i < s.len() ==> is_white_space(#[trigger] s[i]),
        trail_ws(s) < s.len() ==> !is_white_space(s[s.len() - trail_ws(s) - 1]),
    decreases s.len(),
{
    if s.len() > 0 && is_white_space(s.last()) {
        lemma_trail_ws(s.drop_last());
        assert forall|i: int| s.len() - trail_ws(s) <= i < s.len() implies is_white_space(
            #[trigger] s[i],
        ) by {
            if i < s.len() - 1 {
                assert(s[i] == s.drop_last()[i]);
            }
        }
        assert(s.drop_last().subrange(0, s.drop_last().len() - trail_ws(s.drop_last()))
            =~= s.subrange(0, s.len() - trail_ws(s)));
    } else {
        assert(s.subrange(0, s.len() as int) =~= s);
    }
}

/// Index of the first character that is not white space (the length when
/// there is none).
pub fn first_non_ws(s: &Vec<char>, from: usize) -> (i: usize)
    requires
        from <= s.len(),
    ensures
        from <= i <= s.len(),
        i == from + lead_ws(s@.subrange(from as int, s.len() as int)),
{
    let mut i = from;
    proof {
        lemma_lead_ws(s@.subrange(from as int, s.len() as int));
    }
    while i < s.len() && is_whitespace(s[i])
        invariant
            from <= i <= s.len(),
            lead_ws(s@.subrange(from as int, s.len() as int)) <= s.len() - from,
            forall|k: int| from <= k < i ==> is_white_space(#[trigger] s@[k]),
            i - from <= lead_ws(s@.subrange(from as int, s.len() as int)),
        decreases s.len() - i,
    {
        proof {
            let t = s@.subrange(from as int, s.len() as int);
            lemma_lead_ws(t);
            if i - from == lead_ws(t) {
                assert(t[i - from] == s@[i as int]);
            }
        }
        i = i + 1;
    }
    proof {
        let t = s@.subrange(from as int, s.len() as int);
        lemma_lead_ws(t);
        if i - from < lead_ws(t) {
            assert(t[i - from] == s@[i as int]);
            assert(is_white_space(t[i - from]));
        }
    }
    i
}

/// One past the last character that is not white space, looking no further
/// left than `from`.
pub fn last_non_ws_end(s: &Vec<char>, from: usize) -> (j: usize)
    requires
        from <= s.len(),
    ensures
        from <= j <= s.len(),
        j == s.len() - trail_ws(s@.subrange(from as int, s.len() as int)),
{
    let mut j = s.len();
    proof {
        lemma_trail_ws(s@.subrange(from as int, s.len() as int));
    }
    while j > from && is_whitespace(s[j - 1])
        invariant
            from <= j <= s.len(),
            trail_ws(s@.subrange(from as int, s.len() as int)) <= s.len() - from,
            s.len() - j <= trail_ws(s@.subrange(from as int, s.len() as int)),
        decreases j,
    {
        proof {
            let t = s@.subrange(from as int, s.len() as int);
            lemma_trail_ws(t);
            if s.len() - j == trail_ws(t) {
                assert(t[t.len() - trail_ws(t) - 1] == s@[j - 1]);
            }
        }
        j = j - 1;
    }
    proof {
        let t = s@.subrange(from as int, s.len() as int);
        lemma_trail_ws(t);
        if s.len() - j < trail_ws(t) {
            assert(t[j - 1 - from] == s@[j - 1]);
            assert(is_white_space(t[j - 1 - from]));
        }
    }
    j
}

/// A copy of `s[from..to]`.
pub fn slice_chars(s: &Vec<char>, from: usize, to: usize) -> (out: Vec<char>)
    requires
        from <= to <= s.len(),
    ensures
        out@ == s@.subrange(from as int, to as int),
{
    let mut out: Vec<char> = Vec::new();
    let mut i = from;
    while i < to
        invariant
            from <= i <= to <= s.len(),
            out@ == s@.subrange(from as int, i as int),
        decreases to - i,
    {
        out.push(s[i]);
        i = i + 1;
    }
    out
}

pub proof fn lemma_trim_bounds(s: Seq<char>)
    ensures
        trim(s) == s.subrange(
            lead_ws(s) as int,
            s.len() - trail_ws(s.subrange(lead_ws(s) as int, s.len() as int)),
        ),
{
    lemma_lead_ws(s);
    let t = s.subrange(lead_ws(s) as int, s.len() as int);
    lemma_trail_ws(t);
    assert(t.subrange(0, t.len() - trail_ws(t)) =~= s.subrange(
        lead_ws(s) as int,
        s.len() - trail_ws(t),
    ));
}

/// `str::trim` on characters.
pub fn trim_chars(s: &Vec<char>) -> (out: Vec<char>)
    ensures
        out@ == trim(s@),
{
    let i = first_non_ws(s, 0);
    proof {
        assert(s@.subrange(0, s.len() as int) =~= s@);
    }
    let j = last_non_ws_end(s, i);
    proof {
        lemma_trim_bounds(s@);
    }
    slice_chars(s, i, j)
}

/// `str::trim_start` on characters.
pub fn trim_start_chars(s: &Vec<char>) -> (out: Vec<char>)
    ensures
        out@ == trim_start(s@),
{
    let i = first_non_ws(s, 0);
    proof {
        assert(s@.subrange(0, s.len() as int) =~= s@);
        lemma_lead_ws(s@);
    }
    slice_chars(s, i, s.len())
}

/// `str::trim_end` on characters.
pub fn trim_end_chars(s: &Vec<char>) -> (out: Vec<char>)
    ensures
        out@ == trim_end(s@),
{
    let j = last_non_ws_end(s, 0);
    proof {
        assert(s@.subrange(0, s.len() as int) =~= s@);
        lemma_trail_ws(s@);
    }
    slice_chars(s, 0, j)
}

// ───────────────────────────── Case ─────────────────────────────

/// What `char::to_lowercase` yields for `c`: the Unicode lowercase mapping,
/// one or more characters.
pub uninterp spec fn lowercase_of(c: char) -> Seq<char>;

/// Whether `c` is white space, a hyphen or an underscore: characters
/// without a lowercase mapping that no mapping produces.
pub open spec fn is_spacing(c: char) -> bool {
    is_white_space(c) || c == '-' || c == '_'
}

/// `char::to_lowercase`, collected. Its documentation promises one or more
/// characters, the character itself where it has no lowercase mapping, and
/// otherwise the mapping of the Unicode character database. From that
/// database: an ASCII character maps to its ASCII lowercase (an uppercase
/// letter to its small letter, anything else to itself); white space, `-`
/// and `_` have no mapping; and no mapping yields white space, `-` or `_`.
#[verifier::external_body]
fn char_to_lowercase(c: char) -> (out: Vec<char>)
    ensures
        out@ == lowercase_of(c),
        out@.len() >= 1,
        (c as u32) < 128 ==> out@ == seq![ascii_lower(c)],
        is_spacing(c) ==> out@ == seq![c],
        !is_spacing(c) ==> forall|k: int| 0 <= k < out@.len() ==> !is_spacing(#[trigger] out@[k]),
{
    c.to_lowercase().collect()
}

/// What `str::to_lowercase` gives for `s`: the Unicode lowercase mapping of
/// the whole text, which unlike the per-character one knows a word-final
/// capital sigma.
pub uninterp spec fn lowercase_str_of(s: Seq<char>) -> Seq<char>;

/// `str::to_lowercase`.
#[verifier::external_body]
pub(crate) fn str_to_lowercase(s: &str) -> (out: String)
    ensures
        out@ == lowercase_str_of(s@),
{
    s.to_lowercase()
}

/// Every character replaced by its lowercase mapping.
pub open spec fn lowercase(s: Seq<char>) -> Seq<char>
    decreases s.len(),
{
    if s.len() == 0 {
        Seq::empty()
    } else {
        lowercase(s.drop_last()) + lowercase_of(s.last())
    }
}

pub proof fn lemma_lowercase_append(a: Seq<char>, b: Seq<char>)
    ensures
        lowercase(a + b) == lowercase(a) + lowercase(b),
    decreases b.len(),
{
    if b.len() == 0 {
        assert(a + b =~= a);
    } else {
        lemma_lowercase_append(a, b.drop_last());
        assert((a + b).drop_last() =~= a + b.drop_last());
        assert((a + b).last() == b.last());
    }
}

pub proof fn lemma_lowercase_push(a: Seq<char>, c: char)
    ensures
        lowercase(a.push(c)) == lowercase(a) + lowercase_of(c),
{
    assert(a.push(c).drop_last() =~= a);
}

/// Append the lowercase mapping of `c` to `out`: at least one character;
/// `c` itself for white space, `-` and `_`; none of those for any other
/// character.
pub fn push_lowercase(out: &mut Vec<char>, c: char)
    ensures
        final(out)@ == old(out)@ + lowercase_of(c),
        lowercase_of(c).len() >= 1,
        (c as u32) < 128 ==> final(out)@ == old(out)@.push(ascii_lower(c)),
        is_spacing(c) ==> lowercase_of(c) == seq![c],
        !is_spacing(c) ==> forall|k: int| 0 <= k < lowercase_of(c).len() ==> !is_spacing(#[trigger] lowercase_of(c)[k]),
{
    let low = char_to_lowercase(c);
    let mut k: usize = 0;
    while k < low.len()
        invariant
            k <= low.len(),
            low@ == lowercase_of(c),
            out@ == old(out)@ + low@.take(k as int),
        decreases low.len() - k,
    {
        out.push(low[k]);
        k = k + 1;
        proof {
            assert(low@.take(k as int) =~= low@.take(k - 1).push(low@[k - 1]));
        }
    }
    proof {
        assert(low@.take(low.len() as int) =~= low@);
    }
}

/// Whether every character of `s` is ASCII.
pub open spec fn is_ascii_text(s: Seq<char>) -> bool {
    forall|i: int| 0 <= i < s.len() ==> (#[trigger] s[i] as u32) < 128
}

/// Trimmed ASCII text is ASCII.
pub proof fn lemma_trim_ascii(s: Seq<char>)
    requires
        is_ascii_text(s),
    ensures
        is_ascii_text(trim(s)),
{
    lemma_trim_bounds(s);
    lemma_lead_ws(s);
    let lo = lead_ws(s) as int;
    lemma_trail_ws(s.subrange(lo, s.len() as int));
    assert forall|i: int| 0 <= i < trim(s).len() implies (#[trigger] trim(s)[i] as u32) < 128 by {
        assert(trim(s)[i] == s[lo + i]);
    }
}

/// ASCII uppercase letters mapped to lowercase; everything else kept.
pub open spec fn ascii_lower(c: char) -> char {
    if 'A' <= c <= 'Z' {
        ((c as u32) + 32) as char
    } else {
        c
    }
}

pub fn to_ascii_lower(c: char) -> (r: char)
    ensures
        r == ascii_lower(c),
{
    if 'A' <= c && c <= 'Z' {
        ((c as u8) + 32) as char
    } else {
        c
    }
}

pub open spec fn ascii_lower_seq(s: Seq<char>) -> Seq<char> {
    s.map_values(|c: char| ascii_lower(c))
}

/// `to_ascii_lowercase` on characters.
pub fn ascii_lower_chars(s: &Vec<char>) -> (out: Vec<char>)
    ensures
        out@ == ascii_lower_seq(s@),
{
    let mut out: Vec<char> = Vec::new();
    let mut i: usize = 0;
    while i < s.len()
        invariant
            i <= s.len(),
            out@ == ascii_lower_seq(s@.take(i as int)),
        decreases s.len() - i,
    {
        out.push(to_ascii_lower(s[i]));
        i = i + 1;
        proof {
            assert(ascii_lower_seq(s@.take(i as int)) =~= ascii_lower_seq(s@.take(i - 1)).push(
                ascii_lower(s@[i - 1]),
            ));
        }
    }
    proof {
        assert(s@.take(s.len() as int) =~= s@);
    }
    out
}

// ───────────────────────────── Strings ─────────────────────────────

/// The characters of a string slice, in order.
pub fn chars_of(s: &str) -> (out: Vec<char>)
    ensures
        out@ == s@,
{
    let mut out: Vec<char> = Vec::new();
    for c in it: s.chars()
        invariant
            out@ == it.seq().take(it.index() as int),
    {
        out.push(c);
    }
    out
}

/// A `String` holding exactly `chars`.
#[verifier::external_body]
pub(crate) fn string_from_chars(chars: &Vec<char>) -> (s: String)
    ensures
        s@ == chars@,
{
    chars.iter().collect()
}

/// A string literal or slice copied into a `String`.
pub fn owned(s: &str) -> (out: String)
    ensures
        out@ == s@,
{
    s.to_owned()
}

/// Whether two character sequences are equal.
pub fn chars_eq(a: &Vec<char>, b: &Vec<char>) -> (r: bool)
    ensures
        r == (a@ == b@),
{
    if a.len() != b.len() {
        return false;
    }
    let mut i: usize = 0;
    while i < a.len()
        invariant
            a.len() == b.len(),
            i <= a.len(),
            forall|k: int| 0 <= k < i ==> a@[k] == b@[k],
        decreases a.len() - i,
    {
        if a[i] != b[i] {
            return false;
        }
        i = i + 1;
    }
    proof {
        assert(a@ =~= b@);
    }
    true
}

/// Append the characters of `s`.
pub fn push_str(out: &mut Vec<char>, s: &str)
    ensures
        final(out)@ == old(out)@ + s@,
{
    let c = chars_of(s);
    push_chars(out, &c);
}

/// Append `c`.
pub fn push_chars(out: &mut Vec<char>, c: &Vec<char>)
    ensures
        final(out)@ == old(out)@ + c@,
{
    let mut i: usize = 0;
    while i < c.len()
        invariant
            i <= c.len(),
            out@ == old(out)@ + c@.take(i as int),
        decreases c.len() - i,
    {
        out.push(c[i]);
        i = i + 1;
        proof {
            assert(c@.take(i as int) =~= c@.take(i - 1).push(c@[i - 1]));
        }
    }
    proof {
        assert(c@.take(c.len() as int) =~= c@);
    }
}

/// Whether `s` begins with `p`.
pub open spec fn starts_with(s: Seq<char>, p: Seq<char>) -> bool {
    s.len() >= p.len() && s.take(p.len() as int) == p
}

/// Whether two string slices hold the same characters.
pub fn str_eq(a: &str, b: &str) -> (r: bool)
    ensures
        r == (a@ == b@),
{
    let x = chars_of(a);
    let y = chars_of(b);
    chars_eq(&x, &y)
}

/// Whether `s[at..]` begins with `p`.
pub fn has_prefix_at(s: &Vec<char>, at: usize, p: &Vec<char>) -> (r: bool)
    requires
        at <= s.len(),
    ensures
        r == (at + p.len() <= s.len() && s@.subrange(at as int, at + p.len()) == p@),
{
    if p.len() > s.len() - at {
        return false;
    }
    let mut i: usize = 0;
    while i < p.len()
        invariant
            at + p.len() <= s.len(),
            i <= p.len(),
            forall|k: int| 0 <= k < i ==> s@[at + k] == p@[k],
        decreases p.len() - i,
    {
        if s[at + i] != p[i] {
            proof {
                assert(s@.subrange(at as int, at + p.len())[i as int] != p@[i as int]);
            }
            return false;
        }
        i = i + 1;
    }
    proof {
        assert(s@.subrange(at as int, at + p.len()) =~= p@);
    }
    true
}

/// Whether `p` occurs anywhere in `s`.
pub open spec fn contains_seq(s: Seq<char>, p: Seq<char>) -> bool {
    exists|i: int| 0 <= i && i + p.len() <= s.len() && #[trigger] s.subrange(i, i + p.len()) == p
}

pub fn contains_chars(s: &Vec<char>, p: &Vec<char>) -> (r: bool)
    ensures
        r == contains_seq(s@, p@),
{
    if p.len() > s.len() {
        return false;
    }
    if p.len() == 0 {
        proof {
            assert(s@.subrange(0, 0 + p.len()) =~= p@);
        }
        return true;
    }
    let last = s.len() - p.len();
    let mut i: usize = 0;
    while i <= last
        invariant
            last == s.len() - p.len(),
            p.len() > 0,
            i <= last + 1,
            forall|k: int| 0 <= k < i ==> #[trigger] s@.subrange(k, k + p.len()) != p@,
        decreases last + 1 - i,
    {
        if has_prefix_at(s, i, p) {
            return true;
        }
        i = i + 1;
    }
    false
}

/// The characters of `s` that equal `c`'s position, searched from `from`.
pub open spec fn is_first_at(s: Seq<char>, c: char, from: int, i: int) -> bool {
    &&& from <= i < s.len()
    &&& s[i] == c
    &&& forall|k: int| from <= k < i ==> s[k] != c
}

/// Index of the first `c` in `s[from..]`.
pub fn find_char(s: &Vec<char>, c: char, from: usize) -> (r: Option<usize>)
    requires
        from <= s.len(),
    ensures
        r matches Some(i) ==> is_first_at(s@, c, from as int, i as int),
        r is None ==> forall|k: int| from <= k < s.len() ==> s@[k] != c,
{
    let mut i = from;
    while i < s.len()
        invariant
            from <= i <= s.len(),
            forall|k: int| from <= k < i ==> s@[k] != c,
        decreases s.len() - i,
    {
        if s[i] == c {
            return Some(i);
        }
        i = i + 1;
    }
    None
}

// ───────────────────────────── Numbers ─────────────────────────────

pub open spec fn is_digit(c: char) -> bool {
    '0' <= c <= '9'
}

pub open spec fn digit_value(c: char) -> nat {
    ((c as u32) - ('0' as u32)) as nat
}

pub open spec fn all_digits(s: Seq<char>) -> bool {
    forall|i: int| 0 <= i < s.len() ==> is_digit(#[trigger] s[i])
}

/// The value of a string of decimal digits.
pub open spec fn dec_value(s: Seq<char>) -> nat
    decreases s.len(),
{
    if s.len() == 0 {
        0
    } else {
        dec_value(s.drop_last()) * 10 + digit_value(s.last())
    }
}

/// Rust's `FromStr` for an unsigned integer type whose largest value is
/// `max`: an optional `+`, then one or more decimal digits, the value at
/// most `max`.
pub open spec fn parse_unsigned(s: Seq<char>, max: nat) -> Option<nat> {
    let d = if s.len() > 0 && s[0] == '+' {
        s.drop_first()
    } else {
        s
    };
    if d.len() > 0 && all_digits(d) && dec_value(d) <= max {
        Some(dec_value(d))
    } else {
        None
    }
}

pub proof fn lemma_dec_value_mono(s: Seq<char>, j: int)
    requires
        0 <= j <= s.len(),
        all_digits(s),
    ensures
        dec_value(s.take(j)) <= dec_value(s),
    decreases s.len() - j,
{
    if j < s.len() {
        lemma_dec_value_mono(s, j + 1);
        assert(s.take(j + 1).drop_last() =~= s.take(j));
        assert(is_digit(s[j]));
    } else {
        assert(s.take(j) =~= s);
    }
}

pub proof fn lemma_dec_value_bound(t: Seq<char>)
    requires
        all_digits(t),
        t.len() <= 3,
    ensures
        dec_value(t) <= 999,
{
    if t.len() > 0 {
        assert(is_digit(t.last()));
        let t1 = t.drop_last();
        if t1.len() > 0 {
            assert(t1.last() == t[t1.len() - 1]);
            assert(is_digit(t1.last()));
            let t2 = t1.drop_last();
            if t2.len() > 0 {
                assert(t2.last() == t[0]);
                assert(is_digit(t2.last()));
                assert(t2.drop_last().len() == 0);
                assert(dec_value(t2.drop_last()) == 0);
                assert(dec_value(t2) <= 9);
            } else {
                assert(dec_value(t2) == 0);
            }
            assert(dec_value(t1) <= 99);
        } else {
            assert(dec_value(t1) == 0);
        }
        assert(dec_value(t) <= 999);
    }
}

/// Parse `s[from..to]` with `parse_unsigned` for the bound `max`.
pub fn parse_unsigned_chars(s: &Vec<char>, from: usize, to: usize, max: u64) -> (r: Option<u64>)
    requires
        from <= to <= s.len(),
    ensures
        r matches Some(v) ==> parse_unsigned(s@.subrange(from as int, to as int), max as nat)
            == Some(v as nat),
        r is None ==> parse_unsigned(s@.subrange(from as int, to as int), max as nat) is None,
{
    let ghost t = s@.subrange(from as int, to as int);
    let mut start = from;
    if from < to && s[from] == '+' {
        start = from + 1;
    }
    let ghost d = s@.subrange(start as int, to as int);
    proof {
        if from < to && s@[from as int] == '+' {
            assert(t.drop_first() =~= d);
        } else {
            assert(t =~= d);
        }
    }
    assert(parse_unsigned(t, max as nat) == (if d.len() > 0 && all_digits(d) && dec_value(d)
        <= max as nat {
        Some(dec_value(d))
    } else {
        None::<nat>
    }));
    if start == to {
        return None;
    }
    let mut acc: u64 = 0;
    let mut i = start;
    while i < to
        invariant
            start <= i <= to <= s.len(),
            d == s@.subrange(start as int, to as int),
            parse_unsigned(s@.subrange(from as int, to as int), max as nat) == (if d.len() > 0
                && all_digits(d) && dec_value(d) <= max as nat {
                Some(dec_value(d))
            } else {
                None::<nat>
            }),
            acc as nat == dec_value(d.take(i - start)),
            all_digits(d.take(i - start)),
            acc <= max,
        decreases to - i,
    {
        let c = s[i];
        if !('0' <= c && c <= '9') {
            proof {
                assert(d[i - start] == c);
            }
            return None;
        }
        let dv = (c as u32 - '0' as u32) as u64;
        proof {
            assert(d.take(i - start + 1).drop_last() =~= d.take(i - start));
            assert(d.take(i - start + 1).last() == c);
        }
        if dv > max || acc > (max - dv) / 10 {
            proof {
                assert(acc * 10 + dv > max) by (nonlinear_arith)
                    requires
                        dv > max || acc > (max - dv) / 10,
                        dv <= 9,
                ;
                assert(all_digits(d.take(i - start + 1)));
                if all_digits(d) {
                    lemma_dec_value_mono(d, i - start + 1);
                }
            }
            return None;
        }
        proof {
            assert(acc * 10 + dv <= max) by (nonlinear_arith)
                requires
                    acc <= (max - dv) / 10,
                    dv <= max,
            ;
        }
        acc = acc * 10 + dv;
        i = i + 1;
        proof {
            assert(all_digits(d.take(i - start)));
        }
    }
    proof {
        assert(d.take(to - start) =~= d);
    }
    Some(acc)
}

} // verus!
