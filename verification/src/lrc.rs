//! LRC parsing: `[mm:ss.xx]text` lines become timestamped lines. Lines
//! without a timestamp are dropped from the synced view; the caller keeps
//! the full text as the plain fallback.
use vstd::prelude::*;

use crate::lines::{lines, lines_of};
use crate::multi_value::views;
use crate::text::{all_digits, chars_of, dec_value, find_char, is_first_at, lemma_lead_ws, parse_unsigned, parse_unsigned_chars, slice_chars, string_from_chars, trim_end, trim_end_chars, trim_start, trim_start_chars};

verus! {

/// One timed line.
#[derive(Debug, Clone, PartialEq, Eq)]
pub struct SyncedLine {
    pub start_ms: u64,
    pub text: String,
}

impl SyncedLine {
    pub open spec fn view_pair(self) -> (nat, Seq<char>) {
        (self.start_ms as nat, self.text@)
    }
}

/// The index of the first `c` in `s`, if any.
pub open spec fn first_index(s: Seq<char>, c: char) -> Option<int> {
    if exists|i: int| is_first_at(s, c, 0, i) {
        Some(choose|i: int| is_first_at(s, c, 0, i))
    } else {
        None
    }
}

pub proof fn lemma_first_index(s: Seq<char>, c: char, i: int)
    requires
        is_first_at(s, c, 0, i),
    ensures
        first_index(s, c) == Some(i),
{
    let j = choose|j: int| is_first_at(s, c, 0, j);
    if j < i {
        assert(s[j] != c);
    }
    if i < j {
        assert(s[i] != c);
    }
}

pub proof fn lemma_first_index_none(s: Seq<char>, c: char)
    requires
        forall|k: int| 0 <= k < s.len() ==> s[k] != c,
    ensures
        first_index(s, c) is None,
{
}

pub open spec fn pow10(n: nat) -> nat
    decreases n,
{
    if n == 0 {
        1
    } else {
        10 * pow10((n - 1) as nat)
    }
}

/// The milliseconds a fraction of a second stands for: `x` is a tenth, `xx`
/// a hundredth, `xxx` a thousandth.
pub open spec fn frac_ms_of(f: Seq<char>) -> Option<nat> {
    if 0 < f.len() <= 3 && all_digits(f) {
        Some(dec_value(f) * pow10((3 - f.len()) as nat))
    } else {
        None
    }
}

/// The time an LRC stamp stands for: `mm:ss`, `mm:ss.x`, `mm:ss.xx` or
/// `mm:ss.xxx`, minutes any decimal number, seconds exactly two digits
/// below 60. A time too large for `u64` milliseconds is not a time.
pub open spec fn stamp_of(s: Seq<char>) -> Option<nat> {
    match first_index(s, ':') {
        None => None,
        Some(c) => {
            let rest = s.skip(c + 1);
            let (sec, frac) = match first_index(rest, '.') {
                Some(d) => (rest.take(d), Some(rest.skip(d + 1))),
                None => (rest, None),
            };
            let frac_ms = match frac {
                None => Some(0nat),
                Some(f) => frac_ms_of(f),
            };
            match parse_unsigned(s.take(c), u64::MAX as nat) {
                None => None,
                Some(min) => if sec.len() == 2 && all_digits(sec) && dec_value(sec) < 60
                    && frac_ms is Some && min * 60000 + dec_value(sec) * 1000 + frac_ms->0
                    <= u64::MAX {
                    Some(min * 60000 + dec_value(sec) * 1000 + frac_ms->0)
                } else {
                    None
                },
            }
        },
    }
}

/// The stamps at the start of a line (after leading white space), and what
/// follows them. A bracket that is not a time (`[Chorus]`) ends the stamps.
pub open spec fn line_stamps(rest: Seq<char>) -> (Seq<nat>, Seq<char>)
    decreases rest.len(),
{
    if rest.len() > 0 && rest[0] == '[' {
        let after = rest.drop_first();
        match first_index(after, ']') {
            Some(e) => match stamp_of(after.take(e)) {
                Some(ms) => {
                    proof {
                        lemma_first_index_bounds(after, ']');
                        lemma_lead_ws(after.skip(e + 1));
                    }
                    let (st, r) = line_stamps(trim_start(after.skip(e + 1)));
                    (seq![ms] + st, r)
                },
                None => (Seq::empty(), rest),
            },
            None => (Seq::empty(), rest),
        }
    } else {
        (Seq::empty(), rest)
    }
}

pub proof fn lemma_first_index_bounds(s: Seq<char>, c: char)
    ensures
        first_index(s, c) matches Some(i) ==> 0 <= i < s.len() && s[i] == c,
{
}

/// The timed lines one line of text contributes: one per stamp, each with
/// the text after the stamps, trailing white space removed.
pub open spec fn line_entries(raw: Seq<char>) -> Seq<(nat, Seq<char>)> {
    let (st, r) = line_stamps(trim_start(raw));
    st.map_values(|ms: nat| (ms, trim_end(r)))
}

/// The timed lines of all lines, in text order.
pub open spec fn all_entries(ls: Seq<Seq<char>>) -> Seq<(nat, Seq<char>)>
    decreases ls.len(),
{
    if ls.len() == 0 {
        Seq::empty()
    } else {
        all_entries(ls.drop_last()) + line_entries(ls.last())
    }
}

/// Insert `x` after every element whose time is not later than its own.
pub open spec fn insert_by_time(s: Seq<(nat, Seq<char>)>, x: (nat, Seq<char>)) -> Seq<
    (nat, Seq<char>),
>
    decreases s.len(),
{
    if s.len() == 0 {
        seq![x]
    } else if s.last().0 <= x.0 {
        s.push(x)
    } else {
        insert_by_time(s.drop_last(), x).push(s.last())
    }
}

/// Stable sort by time.
pub open spec fn sort_by_time(s: Seq<(nat, Seq<char>)>) -> Seq<(nat, Seq<char>)>
    decreases s.len(),
{
    if s.len() == 0 {
        Seq::empty()
    } else {
        insert_by_time(sort_by_time(s.drop_last()), s.last())
    }
}

/// What `parse` returns: every timed line of the text, stably sorted by
/// time.
pub open spec fn parse_of(text: Seq<char>) -> Seq<(nat, Seq<char>)> {
    sort_by_time(all_entries(lines_of(text)))
}

pub open spec fn sorted_by_time(s: Seq<(nat, Seq<char>)>) -> bool {
    forall|i: int, j: int| 0 <= i <= j < s.len() ==> (#[trigger] s[i]).0 <= (#[trigger] s[j]).0
}

pub proof fn lemma_insert_sorted(s: Seq<(nat, Seq<char>)>, x: (nat, Seq<char>))
    requires
        sorted_by_time(s),
    ensures
        sorted_by_time(insert_by_time(s, x)),
        insert_by_time(s, x).len() == s.len() + 1,
        forall|k: int|
            0 <= k < insert_by_time(s, x).len() ==> (#[trigger] insert_by_time(s, x)[k]).0
                == x.0 || exists|m: int| 0 <= m < s.len() && s[m].0 == insert_by_time(s, x)[k].0,
    decreases s.len(),
{
    if s.len() > 0 && s.last().0 > x.0 {
        let t = s.drop_last();
        lemma_insert_sorted(t, x);
        let r = insert_by_time(t, x);
        assert forall|i: int, j: int| 0 <= i <= j < r.push(s.last()).len() implies (#[trigger] r.push(
            s.last(),
        )[i]).0 <= (#[trigger] r.push(s.last())[j]).0 by {
            if j == r.len() && i < r.len() {
                if r[i].0 == x.0 {
                } else {
                    let m = choose|m: int| 0 <= m < t.len() && t[m].0 == r[i].0;
                    assert(s[m] == t[m]);
                }
            }
        }
        assert forall|k: int| 0 <= k < r.push(s.last()).len() implies (#[trigger] r.push(
            s.last(),
        )[k]).0 == x.0 || exists|m: int| 0 <= m < s.len() && s[m].0 == r.push(s.last())[k].0 by {
            if k == r.len() {
                assert(s[s.len() - 1].0 == r.push(s.last())[k].0);
            } else if r[k].0 != x.0 {
                let m = choose|m: int| 0 <= m < t.len() && t[m].0 == r[k].0;
                assert(s[m] == t[m]);
            }
        }
    } else {
        assert forall|k: int| 0 <= k < insert_by_time(s, x).len() implies (#[trigger] insert_by_time(
            s,
            x,
        )[k]).0 == x.0 || exists|m: int| 0 <= m < s.len() && s[m].0 == insert_by_time(s, x)[k].0 by {
            if k < s.len() {
                assert(s[k].0 == insert_by_time(s, x)[k].0);
            }
        }
    }
}

pub proof fn lemma_sort_sorted(s: Seq<(nat, Seq<char>)>)
    ensures
        sorted_by_time(sort_by_time(s)),
        sort_by_time(s).len() == s.len(),
    decreases s.len(),
{
    if s.len() > 0 {
        lemma_sort_sorted(s.drop_last());
        lemma_insert_sorted(sort_by_time(s.drop_last()), s.last());
    }
}

/// What `parse` returns is in time order, one entry per stamp.
pub proof fn parse_is_sorted_by_time(text: Seq<char>)
    ensures
        sorted_by_time(parse_of(text)),
        parse_of(text).len() == all_entries(lines_of(text)).len(),
{
    lemma_sort_sorted(all_entries(lines_of(text)));
}

/// Inserting at the position found by walking back over later times is
/// `insert_by_time`.
pub proof fn lemma_insert_at(s: Seq<(nat, Seq<char>)>, x: (nat, Seq<char>), j: int)
    requires
        0 <= j <= s.len(),
        forall|k: int| j <= k < s.len() ==> (#[trigger] s[k]).0 > x.0,
        j == 0 || s[j - 1].0 <= x.0,
    ensures
        insert_by_time(s, x) == s.insert(j, x),
    decreases s.len(),
{
    if s.len() == 0 {
        assert(s.insert(j, x) =~= seq![x]);
    } else if j == s.len() {
        assert(s.insert(j, x) =~= s.push(x));
    } else {
        lemma_insert_at(s.drop_last(), x, j);
        assert(s.drop_last().insert(j, x).push(s.last()) =~= s.insert(j, x));
    }
}

/// Milliseconds for one `mm:ss[.f]` stamp.
fn parse_stamp(s: &Vec<char>) -> (r: Option<u64>)
    ensures
        r matches Some(v) ==> stamp_of(s@) == Some(v as nat),
        r is None ==> stamp_of(s@) is None,
{
    let c = match find_char(s, ':', 0) {
        Some(c) => c,
        None => {
            proof {
                lemma_first_index_none(s@, ':');
            }
            return None;
        },
    };
    proof {
        lemma_first_index(s@, ':', c as int);
    }
    assert(c < s.len());
    let min = parse_unsigned_chars(s, 0, c, u64::MAX);
    proof {
        assert(s@.subrange(0, c as int) =~= s@.take(c as int));
    }
    let rest = slice_chars(s, c + 1, s.len());
    proof {
        assert(rest@ =~= s@.skip(c + 1));
    }
    let (sec_end, frac_start) = match find_char(&rest, '.', 0) {
        Some(d) => {
            proof {
                lemma_first_index(rest@, '.', d as int);
            }
            (d, Some(d + 1))
        },
        None => {
            proof {
                lemma_first_index_none(rest@, '.');
            }
            (rest.len(), None)
        },
    };
    proof {
        assert(rest@.subrange(0, sec_end as int) =~= if frac_start is Some {
            rest@.take(sec_end as int)
        } else {
            rest@
        });
    }
    let frac_ms: u64 = match frac_start {
        None => 0,
        Some(f) => {
            let flen = rest.len() - f;
            proof {
                assert(rest@.subrange(f as int, rest.len() as int) =~= rest@.skip(f as int));
            }
            if flen == 0 || flen > 3 || rest[f] == '+' {
                proof {
                    let t = rest@.subrange(f as int, rest.len() as int);
                    if flen > 0 && rest@[f as int] == '+' {
                        assert(t[0] == '+');
                        assert(!crate::text::is_digit(t[0]));
                    }
                }
                return None;
            }
            let n = match parse_unsigned_chars(&rest, f, rest.len(), 999) {
                Some(n) => n,
                None => {
                    proof {
                        let t = rest@.subrange(f as int, rest.len() as int);
                        assert(t[0] == rest@[f as int]);
                        if all_digits(t) {
                            crate::text::lemma_dec_value_bound(t);
                        }
                    }
                    return None;
                },
            };
            proof {
                let t = rest@.subrange(f as int, rest.len() as int);
                assert(t[0] == rest@[f as int]);
                assert(n == dec_value(t));
            }
            let scale: u64 = if flen == 1 {
                100
            } else if flen == 2 {
                10
            } else {
                1
            };
            proof {
                assert(pow10(0) == 1);
                assert(pow10(1) == 10);
                assert(pow10(2) == 100);
            }
            n * scale
        },
    };
    let m = match min {
        Some(m) => m,
        None => return None,
    };
    if sec_end != 2 || !('0' <= rest[0] && rest[0] <= '9') || !('0' <= rest[1] && rest[1] <= '9') {
        proof {
            if sec_end == 2 {
                let sec = rest@.take(2);
                assert(sec[0] == rest@[0] && sec[1] == rest@[1]);
            }
        }
        return None;
    }
    let sec = ((rest[0] as u32 - '0' as u32) * 10 + (rest[1] as u32 - '0' as u32)) as u64;
    proof {
        let sq = rest@.take(2);
        let s0 = seq![rest@[0]];
        assert(sq.drop_last() =~= s0);
        assert(s0.drop_last() =~= Seq::<char>::empty());
        assert(dec_value(Seq::<char>::empty()) == 0);
        assert(dec_value(s0) == crate::text::digit_value(rest@[0]));
        assert(sq.last() == rest@[1]);
        assert(dec_value(sq) == dec_value(s0) * 10 + crate::text::digit_value(rest@[1]));
        assert(dec_value(sq) == sec);
        assert(all_digits(sq));
    }
    if sec >= 60 {
        return None;
    }
    if m > (u64::MAX - frac_ms - sec * 1000) / 60000 {
        proof {
            assert(m * 60000 + sec * 1000 + frac_ms > u64::MAX) by (nonlinear_arith)
                requires
                    m > (u64::MAX - frac_ms - sec * 1000) / 60000,
                    sec * 1000 + frac_ms <= u64::MAX,
            ;
        }
        return None;
    }
    proof {
        assert(m * 60000 + sec * 1000 + frac_ms <= u64::MAX) by (nonlinear_arith)
            requires
                m <= (u64::MAX - frac_ms - sec * 1000) / 60000,
                sec * 1000 + frac_ms <= u64::MAX,
        ;
    }
    Some(m * 60000 + sec * 1000 + frac_ms)
}

/// The stamps at the start of `line` and the text after them.
fn stamps_of_line(line: &Vec<char>) -> (r: (Vec<u64>, Vec<char>))
    ensures
        r.0@.map_values(|v: u64| v as nat) == line_stamps(trim_start(line@)).0,
        r.1@ == line_stamps(trim_start(line@)).1,
{
    let mut rest = trim_start_chars(line);
    let ghost start = rest@;
    let mut stamps: Vec<u64> = Vec::new();
    loop
        invariant
            line_stamps(start).0 == stamps@.map_values(|v: u64| v as nat) + line_stamps(rest@).0,
            line_stamps(start).1 == line_stamps(rest@).1,
        ensures
            line_stamps(start).0 == stamps@.map_values(|v: u64| v as nat) + line_stamps(rest@).0,
            line_stamps(start).1 == line_stamps(rest@).1,
            line_stamps(rest@).0.len() == 0,
            line_stamps(rest@).1 == rest@,
        decreases rest.len(),
    {
        if !(rest.len() > 0 && rest[0] == '[') {
            break;
        }
        let ghost after = rest@.drop_first();
        let e = match find_char(&rest, ']', 1) {
            Some(e) => e,
            None => {
                proof {
                    assert forall|k: int| 0 <= k < after.len() implies after[k] != ']' by {
                        assert(after[k] == rest@[k + 1]);
                    }
                    lemma_first_index_none(after, ']');
                }
                break;
            },
        };
        proof {
            assert(is_first_at(after, ']', 0, e - 1)) by {
                assert forall|k: int| 0 <= k < e - 1 implies after[k] != ']' by {
                    assert(after[k] == rest@[k + 1]);
                }
            }
            lemma_first_index(after, ']', e - 1);
        }
        let stamp = slice_chars(&rest, 1, e);
        proof {
            assert(stamp@ =~= after.take(e - 1));
        }
        let ms = match parse_stamp(&stamp) {
            Some(ms) => ms,
            None => break,
        };
        let tail = slice_chars(&rest, e + 1, rest.len());
        proof {
            assert(tail@ =~= after.skip(e as int));
            lemma_lead_ws(tail@);
        }
        let next = trim_start_chars(&tail);
        proof {
            let (st, r) = line_stamps(next@);
            assert(line_stamps(rest@) == (seq![ms as nat] + st, r));
            assert(stamps@.push(ms).map_values(|v: u64| v as nat) =~= stamps@.map_values(|v: u64| v as nat).push(ms as nat));
            assert(stamps@.map_values(|v: u64| v as nat) + (seq![ms as nat] + st) =~= stamps@.push(ms).map_values(|v: u64| v as nat) + st);
        }
        stamps.push(ms);
        rest = next;
    }
    proof {
        assert(line_stamps(rest@).0 =~= Seq::<nat>::empty());
        assert(stamps@.map_values(|v: u64| v as nat) + Seq::<nat>::empty() =~= stamps@.map_values(|v: u64| v as nat));
    }
    (stamps, rest)
}

/// The views of timed lines.
pub open spec fn line_views(v: Seq<SyncedLine>) -> Seq<(nat, Seq<char>)> {
    v.map_values(|l: SyncedLine| l.view_pair())
}

/// Parse LRC text. Handles several timestamps on one line, `mm:ss`,
/// `mm:ss.x`, `mm:ss.xx` and `mm:ss.xxx`. Returns lines sorted by time;
/// empty when nothing had a timestamp.
pub fn parse(text: &str) -> (out: Vec<SyncedLine>)
    ensures
        line_views(out@) == parse_of(text@),
{
    let chars = chars_of(text);
    let ls = lines(&chars);
    let ghost lv = views(ls@);
    let ghost mut seen: Seq<(nat, Seq<char>)> = Seq::empty();
    let mut out: Vec<SyncedLine> = Vec::new();
    let mut i: usize = 0;
    while i < ls.len()
        invariant
            i <= ls.len(),
            lv == views(ls@),
            seen == all_entries(lv.take(i as int)),
            line_views(out@) == sort_by_time(seen),
        decreases ls.len() - i,
    {
        let (stamps, rest) = stamps_of_line(&ls[i]);
        proof {
            assert(lv[i as int] == ls@[i as int]@);
            assert(lv.take(i + 1).drop_last() =~= lv.take(i as int));
            assert(lv.take(i + 1).last() == lv[i as int]);
        }
        let text_line = trim_end_chars(&rest);
        let ghost base = seen;
        let mut k: usize = 0;
        while k < stamps.len()
            invariant
                k <= stamps.len(),
                seen == base + stamps@.take(k as int).map_values(
                    |ms: u64| (ms as nat, text_line@),
                ),
                line_views(out@) == sort_by_time(seen),
            decreases stamps.len() - k,
        {
            let x = SyncedLine { start_ms: stamps[k], text: string_from_chars(&text_line) };
            let mut j = out.len();
            while j > 0 && out[j - 1].start_ms > x.start_ms
                invariant
                    j <= out.len(),
                    forall|q: int| j <= q < out.len() ==> (#[trigger] out@[q]).start_ms > x.start_ms,
                decreases j,
            {
                j = j - 1;
            }
            let ghost before = line_views(out@);
            proof {
                lemma_insert_at(before, x.view_pair(), j as int);
                assert(seen.push(x.view_pair()).drop_last() =~= seen);
            }
            out.insert(j, x);
            proof {
                assert(line_views(out@) =~= before.insert(j as int, x.view_pair()));
                assert(stamps@.take(k + 1).map_values(|ms: u64| (ms as nat, text_line@)) =~= stamps@.take(k as int).map_values(|ms: u64| (ms as nat, text_line@)).push((stamps[k as int] as nat, text_line@)));
                seen = seen.push(x.view_pair());
            }
            k = k + 1;
        }
        proof {
            assert(stamps@.take(stamps.len() as int) =~= stamps@);
            assert(stamps@.map_values(|ms: u64| (ms as nat, text_line@)) =~= stamps@.map_values(|v: u64| v as nat).map_values(|ms: nat| (ms, trim_end(rest@))));
        }
        i = i + 1;
    }
    proof {
        assert(lv.take(ls.len() as int) =~= lv);
    }
    out
}

} // verus!
