//! Dot-splitting of a path-like string where double-quoted pieces
//! protect embedded dots: `1.b."hello world".d[9]` splits into `1`, `b`,
//! `hello world`, `d[9]`. Quoted pieces lose their quotes; an unquoted
//! piece runs to the next dot.

use vstd::prelude::*;
use vstd::string::StrSliceExecFns;
use crate::flatten::lines_model;
use crate::unflatten::find_char;

verus! {

pub proof fn lemma_find_char(s: Seq<char>, c: char, pos: int)
    requires
        0 <= pos <= s.len(),
    ensures
        find_char(s, c, pos) == -1 || pos <= find_char(s, c, pos) < s.len(),
        find_char(s, c, pos) >= 0 ==> s[find_char(s, c, pos)] == c,
    decreases s.len() - pos,
{
    if pos < s.len() && s[pos] != c {
        lemma_find_char(s, c, pos + 1);
    }
}

/// One piece starting at `pos`: a quoted piece (its content, without the
/// quotes) when a `"` opens here and another closes it, else the run of
/// characters up to the next dot. Returns the piece and the position
/// just past it.
pub open spec fn spec_piece(s: Seq<char>, pos: int) -> (Seq<char>, int) {
    let q = if pos < s.len() && s[pos] == '"' {
        find_char(s, '"', pos + 1)
    } else {
        -1
    };
    if q >= 0 {
        (s.subrange(pos + 1, q), q + 1)
    } else {
        let d = find_char(s, '.', pos);
        let end = if d == -1 {
            s.len() as int
        } else {
            d
        };
        (s.subrange(pos, end), end)
    }
}

/// The pieces from `pos` on: a piece, then, after each dot, another
/// piece. Returns the pieces and the position where splitting stopped
/// (any text after the last piece that no dot precedes is ignored).
pub open spec fn spec_split_from(s: Seq<char>, pos: int) -> (Seq<Seq<char>>, int)
    decreases s.len() - pos,
        when 0 <= pos <= s.len()
        via spec_split_from_decreases
{
    let (piece, next) = spec_piece(s, pos);
    if next < s.len() && s[next] == '.' {
        let rest = spec_split_from(s, next + 1);
        (seq![piece] + rest.0, rest.1)
    } else {
        (seq![piece], next)
    }
}

#[via_fn]
proof fn spec_split_from_decreases(s: Seq<char>, pos: int) {
    lemma_piece_bounds(s, pos);
}

pub proof fn lemma_piece_bounds(s: Seq<char>, pos: int)
    requires
        0 <= pos <= s.len(),
    ensures
        pos <= spec_piece(s, pos).1 <= s.len(),
{
    lemma_find_char(s, '"', if pos < s.len() {
        pos + 1
    } else {
        pos
    });
    lemma_find_char(s, '.', pos);
}

fn find_char_at(input: &str, c: char, pos: usize, n: usize) -> (r: Option<usize>)
    requires
        n == input@.len(),
        pos <= n,
    ensures
        match r {
            Some(d) => find_char(input@, c, pos as int) == d as int && pos <= d < n,
            None => find_char(input@, c, pos as int) == -1,
        },
{
    let mut i: usize = pos;
    loop
        invariant
            n == input@.len(),
            pos <= i <= n,
            find_char(input@, c, pos as int) == find_char(input@, c, i as int),
        decreases n - i,
    {
        if i >= n {
            return None;
        }
        if input.get_char(i) == c {
            return Some(i);
        }
        proof {
            assert(find_char(input@, c, i as int) == find_char(input@, c, i + 1));
        }
        i = i + 1;
    }
}

/// Splits the input into dot-separated pieces, honouring quoted pieces;
/// returns the pieces and the number of characters consumed.
pub fn parse_split_smart(input: &str) -> (r: (Vec<String>, usize))
    ensures
        lines_model(r.0@) == spec_split_from(input@, 0).0,
        r.1 as int == spec_split_from(input@, 0).1,
{
    let n = input.unicode_len();
    let mut out: Vec<String> = Vec::new();
    let mut pos: usize = 0;
    proof {
        assert(lines_model(out@) =~= Seq::<Seq<char>>::empty());
    }
    loop
        invariant_except_break
            spec_split_from(input@, 0).0 == lines_model(out@) + spec_split_from(
                input@,
                pos as int,
            ).0,
            spec_split_from(input@, 0).1 == spec_split_from(input@, pos as int).1,
        invariant
            n == input@.len(),
            pos <= n,
        ensures
            pos <= n,
            spec_split_from(input@, 0).0 == lines_model(out@),
            spec_split_from(input@, 0).1 == pos as int,
        decreases n - pos,
    {
        let ghost pre = out@;
        let quoted_end = if pos < n && input.get_char(pos) == '"' {
            find_char_at(input, '"', pos + 1, n)
        } else {
            None
        };
        let next: usize = match quoted_end {
            Some(q) => {
                let piece = input.substring_char(pos + 1, q).to_owned();
                out.push(piece);
                q + 1
            },
            None => {
                let end = match find_char_at(input, '.', pos, n) {
                    Some(d) => d,
                    None => n,
                };
                let piece = input.substring_char(pos, end).to_owned();
                out.push(piece);
                end
            },
        };
        proof {
            assert(spec_piece(input@, pos as int).0 == out@[out@.len() - 1]@);
            assert(spec_piece(input@, pos as int).1 == next as int);
            assert(lines_model(out@) =~= lines_model(pre) + seq![
                spec_piece(input@, pos as int).0,
            ]);
        }
        if next < n && input.get_char(next) == '.' {
            proof {
                assert(spec_split_from(input@, pos as int).0 =~= seq![
                    spec_piece(input@, pos as int).0,
                ] + spec_split_from(input@, next + 1).0);
                assert(lines_model(pre) + (seq![spec_piece(input@, pos as int).0]
                    + spec_split_from(input@, next + 1).0) =~= lines_model(out@)
                    + spec_split_from(input@, next + 1).0);
            }
            pos = next + 1;
        } else {
            proof {
                assert(spec_split_from(input@, pos as int).0 =~= seq![
                    spec_piece(input@, pos as int).0,
                ]);
                assert(lines_model(pre) + seq![spec_piece(input@, pos as int).0]
                    =~= lines_model(out@));
                assert(spec_split_from(input@, pos as int).1 == next as int);
            }
            pos = next;
            break;
        }
    }
    (out, pos)
}

/// Splits the input into dot-separated pieces, honouring quoted pieces.
pub fn split_smart(input: &str) -> (r: Vec<String>)
    ensures
        lines_model(r@) == spec_split_from(input@, 0).0,
{
    let (pieces, _) = parse_split_smart(input);
    pieces
}

} // verus!
