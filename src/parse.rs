use vstd::prelude::*;

use crate::grid::{rows_of, rows_wf, Grid};
use vstd::string::StringSliceAdditionalSpecFns;

verus! {

pub open spec fn is_digit(c: u8) -> bool {
    48 <= c <= 57
}

/// The value of each digit byte of `s`.
pub open spec fn digit_values(s: Seq<u8>) -> Seq<u8> {
    s.map_values(|c: u8| (c - 48) as u8)
}

/// How many digit bytes `s` begins with.
pub open spec fn leading_digits(s: Seq<u8>) -> nat
    decreases s.len(),
{
    if s.len() > 0 && is_digit(s[0]) {
        1 + leading_digits(s.drop_first())
    } else {
        0
    }
}

/// The rows of digits that `s` spells: lines of one or more digits, each
/// ended by `\n` or `\r\n`; `None` where `s` is not of that form.
pub open spec fn lines_of(s: Seq<u8>) -> Option<Seq<Seq<u8>>>
    decreases s.len(),
{
    if s.len() == 0 {
        Some(Seq::empty())
    } else {
        let n = leading_digits(s) as int;
        let row = digit_values(s.take(n));
        if n == 0 {
            None
        } else if n < s.len() && s[n] == 10 {
            match lines_of(s.skip(n + 1)) {
                Some(rest) => Some(seq![row] + rest),
                None => None,
            }
        } else if n + 1 < s.len() && s[n] == 13 && s[n + 1] == 10 {
            match lines_of(s.skip(n + 2)) {
                Some(rest) => Some(seq![row] + rest),
                None => None,
            }
        } else {
            None
        }
    }
}

proof fn lemma_leading_digits(s: Seq<u8>, k: int)
    requires
        0 <= k <= s.len(),
        forall|i: int| 0 <= i < k ==> is_digit(#[trigger] s[i]),
        k == s.len() || !is_digit(s[k]),
    ensures
        leading_digits(s) == k,
    decreases k,
{
    if k > 0 {
        let t = s.drop_first();
        assert forall|i: int| 0 <= i < k - 1 implies is_digit(#[trigger] t[i]) by {
            assert(t[i] == s[i + 1]);
        }
        if k < s.len() {
            assert(t[k - 1] == s[k]);
        }
        lemma_leading_digits(t, k - 1);
    }
}

/// The values of the digits that begin `bytes[pos..]`, and where they end.
fn read_digits(bytes: &[u8], pos: usize) -> (r: (Vec<u8>, usize))
    requires
        pos <= bytes@.len(),
    ensures
        pos <= r.1 <= bytes@.len(),
        r.1 - pos == leading_digits(bytes@.skip(pos as int)),
        r.0@ == digit_values(bytes@.skip(pos as int).take(r.1 - pos)),
{
    let ghost b = bytes@;
    let ghost s = b.skip(pos as int);
    let n = bytes.len();
    let mut row: Vec<u8> = Vec::new();
    let mut k: usize = pos;
    while k < n && 48 <= bytes[k] && bytes[k] <= 57
        invariant
            n == b.len(),
            b == bytes@,
            s == b.skip(pos as int),
            pos <= k <= n,
            row@ == digit_values(s.take(k - pos)),
            forall|i: int| 0 <= i < k - pos ==> is_digit(#[trigger] s[i]),
        decreases n - k,
    {
        proof {
            assert(s[k - pos] == b[k as int]);
            assert(s.take(k - pos + 1) =~= s.take(k - pos).push(b[k as int]));
        }
        row.push(bytes[k] - 48);
        k += 1;
        proof {
            assert(row@ =~= digit_values(s.take(k - pos)));
        }
    }
    proof {
        if k < n {
            assert(s[k - pos] == b[k as int]);
        }
        lemma_leading_digits(s, k - pos);
    }
    (row, k)
}

/// Where the text resumes after a line ending at `k`: past `\n` or past
/// `\r\n`; `None` where no line ending stands at `k`.
fn skip_line_end(bytes: &[u8], k: usize) -> (r: Option<usize>)
    requires
        k <= bytes@.len(),
    ensures
        r == (if k < bytes@.len() && bytes@[k as int] == 10 {
            Some((k + 1) as usize)
        } else if k + 1 < bytes@.len() && bytes@[k as int] == 13 && bytes@[k + 1] == 10 {
            Some((k + 2) as usize)
        } else {
            None::<usize>
        }),
{
    let n = bytes.len();
    if k < n && bytes[k] == 10 {
        Some(k + 1)
    } else if n - k > 1 && bytes[k] == 13 && bytes[k + 1] == 10 {
        Some(k + 2)
    } else {
        None
    }
}

impl Grid {
    /// Reads a grid from its text: one line per row, one digit per cell, each
    /// line ended by `\n` or `\r\n`. `None` unless the text has that form and
    /// its rows make a usable grid.
    pub fn parse(input: &str) -> (r: Option<Grid>)
        ensures
            r is Some <==> (lines_of(input.spec_bytes()) matches Some(rows) && rows_wf(rows)),
            r matches Some(g) ==> lines_of(input.spec_bytes()) == Some(g@),
    {
        Grid::parse_bytes(input.as_bytes())
    }

    /// Reads a grid from the bytes of its text; see `parse`.
    pub fn parse_bytes(bytes: &[u8]) -> (r: Option<Grid>)
        ensures
            r is Some <==> (lines_of(bytes@) matches Some(rows) && rows_wf(rows)),
            r matches Some(g) ==> lines_of(bytes@) == Some(g@),
    {
        let ghost b = bytes@;
        let n = bytes.len();
        let mut points: Vec<Vec<u8>> = Vec::new();
        let mut pos: usize = 0;
        proof {
            assert(b.skip(0) =~= b);
            match lines_of(b) {
                Some(rest) => {
                    assert(rows_of(points@) + rest =~= rest);
                },
                None => {},
            }
        }
        while pos < n
            invariant
                n == b.len(),
                b == bytes@,
                pos <= n,
                lines_of(b) == match lines_of(b.skip(pos as int)) {
                    Some(rest) => Some(rows_of(points@) + rest),
                    None => None,
                },
            decreases n - pos,
        {
            let ghost s = b.skip(pos as int);
            let (row, k) = read_digits(bytes, pos);
            if k == pos {
                return None;
            }
            let ghost d = (k - pos) as int;
            let next = match skip_line_end(bytes, k) {
                Some(next) => next,
                None => {
                    proof {
                        if k < n {
                            assert(s[d] == b[k as int]);
                        }
                        if k + 1 < n {
                            assert(s[d + 1] == b[k + 1]);
                        }
                    }
                    return None;
                },
            };
            proof {
                assert(s[d] == b[k as int]);
                if next == k + 1 {
                    assert(s.skip(d + 1) =~= b.skip(next as int));
                } else {
                    assert(s[d + 1] == b[k + 1]);
                    assert(s.skip(d + 2) =~= b.skip(next as int));
                }
            }
            let ghost before = points@;
            points.push(row);
            proof {
                assert(rows_of(points@) =~= rows_of(before) + seq![row@]);
                match lines_of(b.skip(next as int)) {
                    Some(rest) => {
                        assert(rows_of(points@) + rest =~= rows_of(before) + (seq![row@] + rest));
                    },
                    None => {},
                }
            }
            pos = next;
        }
        proof {
            assert(b.skip(pos as int).len() == 0);
            assert(rows_of(points@) + Seq::<Seq<u8>>::empty() =~= rows_of(points@));
        }
        Grid::new(points)
    }
}

} // verus!
