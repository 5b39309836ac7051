//! Lines of known results: a position and, after semicolons, the number of
//! lines of play for each depth from one upwards, as in
//! `<position> ;D1 20 ;D2 400 ;D3 8902`.

use vstd::prelude::*;
use vstd::slice::slice_subrange;
use vstd::string::StringSliceAdditionalSpecFns;
use crate::fen::end_of;
use crate::fen::fen_position;
use crate::fen::field_end;
use crate::fen::skip;
use crate::fen::skip_spaces;
use crate::position::Position;

verus! {

/// The first place at or after `i` that holds a semicolon, or the end.
pub open spec fn part_end(s: Seq<u8>, i: int) -> int
    decreases s.len() - i,
{
    if 0 <= i < s.len() && s[i] != 59 {
        part_end(s, i + 1)
    } else {
        i
    }
}

/// All of `t` are decimal digits.
pub open spec fn all_digits(t: Seq<u8>) -> bool {
    forall|k: int| 0 <= k < t.len() ==> 48 <= #[trigger] t[k] <= 57
}

/// The number that the digits `t` stand for.
pub open spec fn digits_value(t: Seq<u8>) -> nat
    decreases t.len(),
{
    if t.len() == 0 {
        0
    } else {
        10 * digits_value(t.drop_last()) + (t.last() - 48) as nat
    }
}

/// The number that a word stands for: digits, with or without a plus sign
/// before them; 0 for any other word and for a number that is too large.
pub open spec fn word_number(t: Seq<u8>) -> u64 {
    let d = if t.len() >= 2 && t[0] == 43 {
        t.drop_first()
    } else {
        t
    };
    if d.len() > 0 && all_digits(d) && digits_value(d) <= u64::MAX {
        digits_value(d) as u64
    } else {
        0
    }
}

/// The count that a part of the line gives: the number that its second
/// word stands for; 0 where it has none.
pub open spec fn part_count(part: Seq<u8>) -> u64 {
    let a0 = skip_spaces(part, 0);
    let e0 = field_end(part, a0);
    let a1 = skip_spaces(part, e0);
    let e1 = field_end(part, a1);
    word_number(part.subrange(a1, e1))
}

/// The counts of the parts of `s` from place `i` on, where a part begins.
pub open spec fn counts_from(s: Seq<u8>, i: int) -> Seq<u64>
    decreases s.len() - i,
{
        let e = part_end(s, i);
    if !(0 <= i <= e <= s.len()) {
        Seq::empty()
    } else if e < s.len() {
        seq![part_count(s.subrange(i, e))] + counts_from(s, e + 1)
    } else {
        seq![part_count(s.subrange(i, e))]
    }
}

/// The counts that a line gives: those of all parts but the first.
pub open spec fn epd_counts(s: Seq<u8>) -> Seq<u64> {
    if part_end(s, 0) < s.len() {
        counts_from(s, part_end(s, 0) + 1)
    } else {
        Seq::empty()
    }
}

/// The digits read so far stand for no more than all of them do.
proof fn lemma_digits_grow(t: Seq<u8>, k: int)
    requires
        all_digits(t),
        0 <= k <= t.len(),
    ensures
        digits_value(t.subrange(0, k)) <= digits_value(t),
    decreases t.len() - k,
{
    if k == t.len() {
        assert(t.subrange(0, k) =~= t);
    } else {
        lemma_digits_grow(t, k + 1);
        assert(t.subrange(0, k + 1).drop_last() =~= t.subrange(0, k));
    }
}

fn semicolon(s: &[u8], i: usize) -> (r: usize)
    requires
        i <= s@.len(),
    ensures
        r == part_end(s@, i as int),
        i <= r <= s@.len(),
{
    let mut j = i;
    while j < s.len() && s[j] != 59
        invariant
            i <= j <= s@.len(),
            part_end(s@, j as int) == part_end(s@, i as int),
        decreases s@.len() - j,
    {
        j += 1;
    }
    j
}

fn number(t: &[u8]) -> (r: u64)
    ensures
        r == word_number(t@),
{
    let start: usize = if t.len() >= 2 && t[0] == 43 {
        1
    } else {
        0
    };
    let ghost d = t@.subrange(start as int, t@.len() as int);
    proof {
        assert(start == 1 ==> d =~= t@.drop_first());
        assert(start == 0 ==> d =~= t@);
    }
    if start >= t.len() {
        return 0;
    }
    let mut acc: u64 = 0;
    let mut k = start;
    while k < t.len()
        invariant
                        start <= k <= t@.len(),
            start == 1 ==> t@.len() >= 2 && t@[0] == 43 && d == t@.drop_first(),
            start == 0 ==> !(t@.len() >= 2 && t@[0] == 43) && d == t@,
            start <= 1,
            d == t@.subrange(start as int, t@.len() as int),
            all_digits(d.subrange(0, k - start)),
            acc == digits_value(d.subrange(0, k - start)),
        decreases t@.len() - k,
    {
        let c = t[k];
        if c < 48 || c > 57 {
            proof {
                assert(d[k - start] == c);
            }
            return 0;
        }
        let ghost seen = d.subrange(0, k - start + 1);
        proof {
            assert(seen.drop_last() =~= d.subrange(0, k - start));
            assert(seen.last() == c);
            assert(digits_value(seen) == 10 * acc + (c - 48));
            if all_digits(d) {
                lemma_digits_grow(d, k - start + 1);
            }
        }
        let tens = match acc.checked_mul(10) {
            Some(x) => x,
            None => {
                return 0;
            },
        };
        acc = match tens.checked_add((c - 48) as u64) {
            Some(x) => x,
            None => {
                return 0;
            },
        };
        k += 1;
    }
    proof {
        assert(d.subrange(0, k - start) =~= d);
    }
    acc
}

fn count_of(part: &[u8]) -> (r: u64)
    ensures
        r == part_count(part@),
{
    let a0 = skip(part, 0);
    let e0 = end_of(part, a0);
    let a1 = skip(part, e0);
    let e1 = end_of(part, a1);
    number(slice_subrange(part, a1, e1))
}

/// A position and the numbers of lines of play that are known for it.
pub struct PerftResult {
    pub pos: Position,
    pub results: Vec<u64>,
}

impl PerftResult {
    /// Reads a line of known results: the position from the part before
    /// the first semicolon, and from each part after a semicolon the count
    /// that its second word gives.
    pub fn from_epd(epd: &str) -> (r: Self)
        ensures
            r.pos == fen_position(
                epd.spec_bytes().subrange(0, part_end(epd.spec_bytes(), 0)),
            ),
            r.results@ == epd_counts(epd.spec_bytes()),
    {
        let s = epd.as_bytes();
        let first = semicolon(s, 0);
        let pos = Position::parse_bytes(slice_subrange(s, 0, first));
        let mut results: Vec<u64> = Vec::new();
        if first < s.len() {
            let mut i = first + 1;
            let mut done = false;
            while !done
                invariant
                    first < i <= s@.len() || done,
                    !done ==> results@ + counts_from(s@, i as int) == counts_from(
                        s@,
                        first + 1,
                    ),
                    done ==> results@ == counts_from(s@, first + 1),
                decreases s@.len() - i + if done {
                    0int
                } else {
                    1int
                },
            {
                let e = semicolon(s, i);
                let ghost before = results@;
                results.push(count_of(slice_subrange(s, i, e)));
                proof {
                    let here = seq![part_count(s@.subrange(i as int, e as int))];
                    assert(results@ =~= before + here);
                    if e < s@.len() {
                        assert(results@ + counts_from(s@, e + 1) =~= before + (here + counts_from(
                            s@,
                            e + 1,
                        )));
                    }
                }
                if e < s.len() {
                    i = e + 1;
                } else {
                    done = true;
                }
            }
        }
        PerftResult { pos, results }
    }
}

} // verus!
