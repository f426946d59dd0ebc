//! Lines of text, as `str::lines` yields them.
use vstd::prelude::*;

use crate::multi_value::{split_parts, split_pieces, views};
use crate::text::slice_chars;

verus! {

/// `s` without one trailing carriage return.
pub open spec fn strip_cr(s: Seq<char>) -> Seq<char> {
    if s.len() > 0 && s.last() == '\r' {
        s.drop_last()
    } else {
        s
    }
}

/// The lines of `s`: the pieces between line feeds, a carriage return
/// before a line feed removed, and no final empty line after a last line
/// feed.
pub open spec fn lines_of(s: Seq<char>) -> Seq<Seq<char>> {
    let ps = split_parts(s, '\n');
    let n = if ps.last().len() == 0 {
        ps.len() - 1
    } else {
        ps.len() as int
    };
    Seq::new(
        n as nat,
        |i: int|
            if i < ps.len() - 1 {
                strip_cr(ps[i])
            } else {
                ps[i]
            },
    )
}

/// `str::lines` on characters.
pub fn lines(s: &Vec<char>) -> (out: Vec<Vec<char>>)
    ensures
        views(out@) == lines_of(s@),
{
    let ps = split_pieces(s, '\n');
    proof {
        crate::multi_value::lemma_split_parts_nonempty(s@, '\n');
    }
    let total = ps.len();
    let n = if ps[total - 1].len() == 0 {
        total - 1
    } else {
        total
    };
    let mut out: Vec<Vec<char>> = Vec::new();
    let mut i: usize = 0;
    while i < n
        invariant
            n <= total == ps.len(),
            views(ps@) == split_parts(s@, '\n'),
            n == (if split_parts(s@, '\n').last().len() == 0 {
                total - 1
            } else {
                total as int
            }),
            i <= n,
            views(out@) == lines_of(s@).take(i as int),
        decreases n - i,
    {
        let p = &ps[i];
        let line = if i + 1 < total && p.len() > 0 && p[p.len() - 1] == '\r' {
            slice_chars(p, 0, p.len() - 1)
        } else {
            slice_chars(p, 0, p.len())
        };
        proof {
            assert(views(ps@)[i as int] == p@);
            assert(p@.subrange(0, p.len() as int) =~= p@);
            if p.len() > 0 {
                assert(p@.subrange(0, p.len() - 1) =~= p@.drop_last());
            }
            assert(line@ == lines_of(s@)[i as int]);
        }
        let ghost before = out@;
        out.push(line);
        proof {
            assert(views(out@) =~= views(before).push(line@));
            assert(lines_of(s@).take(i + 1) =~= lines_of(s@).take(i as int).push(lines_of(s@)[i as int]));
        }
        i = i + 1;
    }
    proof {
        assert(lines_of(s@).take(n as int) =~= lines_of(s@));
    }
    out
}

} // verus!
