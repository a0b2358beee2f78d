//! The path grammar: parsing a textual address such as
//! `arrays[2]["special-things"].special` into typed segments, and
//! serializing segments back to text.
//!
//! The grammar, parsed left to right with no backtracking across a chosen
//! alternative:
//!
//! ```text
//! path            := segment ("." segment)*      (trailing "." ignored)
//! segment         := index_segment | quoted_segment | name_segment
//! index_segment   := "[" digit+ "]"
//! quoted_segment  := "[\"" quoted_body "\"]"
//! quoted_body     := (escaped_char | normal_char)*
//! escaped_char    := "\" ("\"" | "n" | "\")
//! name_segment    := (any char except "[" and ".")+
//! ```
//!
//! A quoted body is kept in its escaped spelling: the segment for
//! `["a \"b\""]` carries the characters `a \"b\"`.

use vstd::prelude::*;
use vstd::string::StrSliceExecFns;
use crate::PathParseError;
use crate::escape::needs_quotes;
use crate::text::chars_to_string;

verus! {

/// One atomic step of a path: a named object key or a numeric array index.
#[derive(Debug)]
pub enum PathSegment {
    Name(String),
    Index(usize),
}

/// Mathematical model of a segment: the key as a character sequence, or
/// the index as an unbounded integer.
#[verifier::ext_equal]
pub enum SegModel {
    Name(Seq<char>),
    Index(int),
}

impl View for PathSegment {
    type V = SegModel;

    open spec fn view(&self) -> SegModel {
        match self {
            PathSegment::Name(s) => SegModel::Name(s@),
            PathSegment::Index(i) => SegModel::Index(*i as int),
        }
    }
}

/// The model of a whole path.
pub open spec fn path_model(p: Seq<PathSegment>) -> Seq<SegModel> {
    p.map_values(|seg: PathSegment| seg@)
}

pub open spec fn is_digit(c: char) -> bool {
    0x30 <= c as u32 && c as u32 <= 0x39
}

pub open spec fn digit_val(c: char) -> int {
    c as u32 - 0x30
}

/// Length of the run of bare-name characters (anything but `[` and `.`)
/// starting at `pos`.
pub open spec fn name_run(s: Seq<char>, pos: int) -> int
    decreases s.len() - pos,
{
    if pos < 0 || pos >= s.len() || s[pos] == '[' || s[pos] == '.' {
        0
    } else {
        1 + name_run(s, pos + 1)
    }
}

/// Length of the run of decimal digits starting at `pos`.
pub open spec fn digit_run(s: Seq<char>, pos: int) -> int
    decreases s.len() - pos,
{
    if pos < 0 || pos >= s.len() || !is_digit(s[pos]) {
        0
    } else {
        1 + digit_run(s, pos + 1)
    }
}

/// The numeric value of a sequence of decimal digits.
pub open spec fn digits_val(ds: Seq<char>) -> int
    decreases ds.len(),
{
    if ds.len() == 0 {
        0
    } else {
        digits_val(ds.drop_last()) * 10 + digit_val(ds.last())
    }
}

/// Position of the unescaped closing `"` of a quoted body that starts at
/// `pos`, or `None` when the body is malformed or unterminated.
pub open spec fn body_end(s: Seq<char>, pos: int) -> Option<int>
    decreases s.len() - pos,
{
    if pos < 0 || pos >= s.len() {
        None
    } else if s[pos] == '"' {
        Some(pos)
    } else if s[pos] == '\\' {
        if pos + 1 < s.len() && (s[pos + 1] == '"' || s[pos + 1] == 'n' || s[pos + 1] == '\\') {
            body_end(s, pos + 2)
        } else {
            None
        }
    } else {
        body_end(s, pos + 1)
    }
}

/// An index segment at `pos`: `[` digit+ `]`, whose value fits in `usize`.
pub open spec fn spec_index_segment(s: Seq<char>, pos: int) -> Option<(SegModel, int)> {
    if 0 <= pos && pos < s.len() && s[pos] == '[' {
        let d = digit_run(s, pos + 1);
        let v = digits_val(s.subrange(pos + 1, pos + 1 + d));
        if d >= 1 && pos + 1 + d < s.len() && s[pos + 1 + d] == ']' && v <= usize::MAX as int {
            Some((SegModel::Index(v), pos + d + 2))
        } else {
            None
        }
    } else {
        None
    }
}

/// A quoted name segment at `pos`: `["` quoted_body `"]`, carrying the
/// body in its escaped spelling.
pub open spec fn spec_quoted_segment(s: Seq<char>, pos: int) -> Option<(SegModel, int)> {
    if 0 <= pos && pos + 1 < s.len() && s[pos] == '[' && s[pos + 1] == '"' {
        match body_end(s, pos + 2) {
            Some(e) => {
                if e + 1 < s.len() && s[e + 1] == ']' {
                    Some((SegModel::Name(s.subrange(pos + 2, e)), e + 2))
                } else {
                    None
                }
            },
            None => None,
        }
    } else {
        None
    }
}

/// A bare name segment at `pos`: one or more characters other than `[`
/// and `.`.
pub open spec fn spec_name_segment(s: Seq<char>, pos: int) -> Option<(SegModel, int)> {
    let r = name_run(s, pos);
    if 0 <= pos && r >= 1 {
        Some((SegModel::Name(s.subrange(pos, pos + r)), pos + r))
    } else {
        None
    }
}

/// One segment at `pos`: the alternatives are tried in the order index,
/// quoted name, bare name.
pub open spec fn spec_segment(s: Seq<char>, pos: int) -> Option<(SegModel, int)> {
    if spec_index_segment(s, pos) is Some {
        spec_index_segment(s, pos)
    } else if spec_quoted_segment(s, pos) is Some {
        spec_quoted_segment(s, pos)
    } else {
        spec_name_segment(s, pos)
    }
}

pub proof fn lemma_name_run(s: Seq<char>, pos: int)
    requires
        0 <= pos <= s.len(),
    ensures
        0 <= name_run(s, pos),
        pos + name_run(s, pos) <= s.len(),
        forall|j: int|
            pos <= j < pos + name_run(s, pos) ==> s[j] != '[' && s[j] != '.',
        pos + name_run(s, pos) < s.len() ==> (s[pos + name_run(s, pos)] == '[' || s[pos
            + name_run(s, pos)] == '.'),
    decreases s.len() - pos,
{
    if pos < s.len() && s[pos] != '[' && s[pos] != '.' {
        lemma_name_run(s, pos + 1);
    }
}

pub proof fn lemma_digit_run(s: Seq<char>, pos: int)
    requires
        0 <= pos <= s.len(),
    ensures
        0 <= digit_run(s, pos),
        pos + digit_run(s, pos) <= s.len(),
        forall|j: int| pos <= j < pos + digit_run(s, pos) ==> is_digit(s[j]),
        pos + digit_run(s, pos) < s.len() ==> !is_digit(s[pos + digit_run(s, pos)]),
    decreases s.len() - pos,
{
    if pos < s.len() && is_digit(s[pos]) {
        lemma_digit_run(s, pos + 1);
    }
}

pub proof fn lemma_body_end_bounds(s: Seq<char>, pos: int)
    requires
        0 <= pos <= s.len(),
    ensures
        body_end(s, pos) is Some ==> pos <= body_end(s, pos).unwrap() < s.len() && s[body_end(
            s,
            pos,
        ).unwrap()] == '"',
    decreases s.len() - pos,
{
    if pos < s.len() {
        if s[pos] == '"' {
        } else if s[pos] == '\\' {
            if pos + 1 < s.len() && (s[pos + 1] == '"' || s[pos + 1] == 'n' || s[pos + 1]
                == '\\') {
                lemma_body_end_bounds(s, pos + 2);
            }
        } else {
            lemma_body_end_bounds(s, pos + 1);
        }
    }
}

/// The value of a digit sequence is non-negative and grows (weakly) as the
/// sequence is extended on the right.
pub proof fn lemma_digits_val_nonneg(ds: Seq<char>)
    requires
        forall|j: int| 0 <= j < ds.len() ==> is_digit(ds[j]),
    ensures
        digits_val(ds) >= 0,
    decreases ds.len(),
{
    if ds.len() > 0 {
        lemma_digits_val_nonneg(ds.drop_last());
    }
}

pub proof fn lemma_digits_val_extend(ds: Seq<char>, k: int)
    requires
        forall|j: int| 0 <= j < ds.len() ==> is_digit(ds[j]),
        0 <= k <= ds.len(),
    ensures
        digits_val(ds) >= digits_val(ds.subrange(0, k)),
    decreases ds.len() - k,
{
    if k < ds.len() {
        lemma_digits_val_extend(ds, k + 1);
        let a = ds.subrange(0, k);
        let b = ds.subrange(0, k + 1);
        assert(b.drop_last() =~= a);
        assert(forall|j: int| 0 <= j < a.len() ==> is_digit(a[j]));
        lemma_digits_val_nonneg(a);
        assert(digits_val(b) == digits_val(a) * 10 + digit_val(b.last()));
        assert(digit_val(b.last()) >= 0);
        assert(digits_val(a) * 10 >= digits_val(a));
    } else {
        assert(ds.subrange(0, k) =~= ds);
    }
}

/// Any successfully parsed segment consumes at least one character and
/// stays inside the input.
pub proof fn lemma_segment_bounds(s: Seq<char>, pos: int)
    requires
        0 <= pos <= s.len(),
    ensures
        spec_segment(s, pos) is Some ==> pos < spec_segment(s, pos).unwrap().1 <= s.len(),
{
    lemma_name_run(s, pos);
    if pos < s.len() {
        lemma_digit_run(s, pos + 1);
        if pos + 2 <= s.len() {
            lemma_body_end_bounds(s, pos + 2);
        }
    }
}

/// The greedy segment run from `pos`: the segments parsed, and the
/// position where parsing stopped (dots after segments are consumed).
pub open spec fn spec_run(s: Seq<char>, pos: int) -> (Seq<SegModel>, int)
    decreases s.len() - pos,
        when 0 <= pos <= s.len()
        via spec_run_decreases
{
    match spec_segment(s, pos) {
        None => (Seq::empty(), pos),
        Some((seg, seg_end)) => {
            let next_pos = if seg_end < s.len() && s[seg_end] == '.' {
                seg_end + 1
            } else {
                seg_end
            };
            let rest = spec_run(s, next_pos);
            (seq![seg] + rest.0, rest.1)
        },
    }
}

#[via_fn]
proof fn spec_run_decreases(s: Seq<char>, pos: int) {
    lemma_segment_bounds(s, pos);
}

/// The whole-path parse: succeeds exactly when the greedy run consumes
/// the entire input.
pub open spec fn spec_parse_path(s: Seq<char>) -> Option<Seq<SegModel>> {
    let (segs, end) = spec_run(s, 0);
    if end == s.len() {
        Some(segs)
    } else {
        None
    }
}

impl PartialEq for PathSegment {
    fn eq(&self, other: &PathSegment) -> (r: bool) {
        match (self, other) {
            (PathSegment::Name(a), PathSegment::Name(b)) => a.eq(b),
            (PathSegment::Index(a), PathSegment::Index(b)) => a == b,
            _ => false,
        }
    }
}

impl vstd::std_specs::cmp::PartialEqSpecImpl for PathSegment {
    open spec fn obeys_eq_spec() -> bool {
        true
    }

    open spec fn eq_spec(&self, other: &PathSegment) -> bool {
        self@ == other@
    }
}

pub(crate) fn scan_body_at(input: &str, pos: usize, n: usize) -> (r: Option<usize>)
    requires
        n == input@.len(),
        pos <= n,
    ensures
        match r {
            Some(e) => body_end(input@, pos as int) == Some(e as int) && pos <= e < n,
            None => body_end(input@, pos as int) is None,
        },
{
    let mut i: usize = pos;
    loop
        invariant
            n == input@.len(),
            pos <= i <= n,
            body_end(input@, pos as int) == body_end(input@, i as int),
        decreases n - i,
    {
        if i >= n {
            return None;
        }
        let c = input.get_char(i);
        if c == '"' {
            return Some(i);
        }
        if c == '\\' {
            if i + 1 < n {
                let c2 = input.get_char(i + 1);
                if c2 == '"' || c2 == 'n' || c2 == '\\' {
                    i = i + 2;
                } else {
                    return None;
                }
            } else {
                return None;
            }
        } else {
            i = i + 1;
        }
    }
}

fn name_at(input: &str, pos: usize, n: usize) -> (r: Option<(PathSegment, usize)>)
    requires
        n == input@.len(),
        pos <= n,
    ensures
        match r {
            Some(t) => spec_name_segment(input@, pos as int) == Some((t.0@, t.1 as int)) && pos
                < t.1 <= n,
            None => spec_name_segment(input@, pos as int) is None,
        },
{
    proof {
        lemma_name_run(input@, pos as int);
    }
    let mut j: usize = pos;
    loop
        invariant
            n == input@.len(),
            pos <= j <= n,
            name_run(input@, pos as int) == j - pos + name_run(input@, j as int),
        ensures
            pos <= j <= n,
            j == pos + name_run(input@, pos as int),
        decreases n - j,
    {
        if j >= n {
            break;
        }
        let c = input.get_char(j);
        if c == '[' || c == '.' {
            break;
        }
        proof {
            assert(name_run(input@, j as int) == 1 + name_run(input@, j + 1));
        }
        j = j + 1;
    }
    if j == pos {
        None
    } else {
        let t = input.substring_char(pos, j);
        let k = t.to_owned();
        let r = Some((PathSegment::Name(k), j));
        proof {
            assert(spec_name_segment(input@, pos as int) =~= Some(
                (r.unwrap().0@, r.unwrap().1 as int),
            ));
        }
        r
    }
}

fn quoted_at(input: &str, pos: usize, n: usize) -> (r: Option<(PathSegment, usize)>)
    requires
        n == input@.len(),
        pos <= n,
    ensures
        match r {
            Some(t) => spec_quoted_segment(input@, pos as int) == Some((t.0@, t.1 as int)) && pos
                < t.1 <= n,
            None => spec_quoted_segment(input@, pos as int) is None,
        },
{
    if pos >= n {
        return None;
    }
    if pos + 1 >= n {
        return None;
    }
    if !(input.get_char(pos) == '[' && input.get_char(pos + 1) == '"') {
        return None;
    }
    proof {
        lemma_body_end_bounds(input@, pos + 2);
    }
    match scan_body_at(input, pos + 2, n) {
        None => None,
        Some(e) => {
            if e + 1 < n && input.get_char(e + 1) == ']' {
                let t = input.substring_char(pos + 2, e);
                let k = t.to_owned();
                let r = Some((PathSegment::Name(k), e + 2));
                proof {
                    assert(spec_quoted_segment(input@, pos as int) =~= Some(
                        (r.unwrap().0@, r.unwrap().1 as int),
                    ));
                }
                r
            } else {
                None
            }
        },
    }
}

fn index_at(input: &str, pos: usize, n: usize) -> (r: Option<(PathSegment, usize)>)
    requires
        n == input@.len(),
        pos <= n,
    ensures
        match r {
            Some(t) => spec_index_segment(input@, pos as int) == Some((t.0@, t.1 as int)) && pos
                < t.1 <= n,
            None => spec_index_segment(input@, pos as int) is None,
        },
{
    if pos >= n {
        return None;
    }
    if input.get_char(pos) != '[' {
        return None;
    }
    proof {
        lemma_digit_run(input@, pos + 1);
    }
    let ghost drun = digit_run(input@, pos + 1);
    let ghost full = input@.subrange(pos + 1, pos + 1 + drun);
    proof {
        assert(forall|t: int| 0 <= t < full.len() ==> is_digit(full[t]));
    }
    let mut j: usize = pos + 1;
    let mut acc: usize = 0;
    let mut overflow = false;
    proof {
        assert(input@.subrange(pos + 1, pos + 1) =~= Seq::<char>::empty());
    }
    loop
        invariant
            n == input@.len(),
            pos + 1 <= j <= n,
            drun == digit_run(input@, pos + 1),
            pos + 1 + drun <= n,
            full == input@.subrange(pos + 1, pos + 1 + drun),
            forall|t: int| 0 <= t < full.len() ==> is_digit(full[t]),
            digit_run(input@, pos + 1) == j - pos - 1 + digit_run(input@, j as int),
            !overflow ==> acc == digits_val(input@.subrange(pos + 1, j as int)),
            overflow ==> digits_val(full) > usize::MAX as int,
        ensures
            pos + 1 <= j <= n,
            j == pos + 1 + drun,
            !overflow ==> acc == digits_val(full),
            overflow ==> digits_val(full) > usize::MAX as int,
        decreases n - j,
    {
        if j >= n {
            break;
        }
        let c = input.get_char(j);
        let u = c as u32;
        if !(0x30 <= u && u <= 0x39) {
            proof {
                assert(!is_digit(input@[j as int]));
            }
            break;
        }
        let d = (u - 0x30) as usize;
        let ghost pre = input@.subrange(pos + 1, j as int);
        let ghost cur = input@.subrange(pos + 1, j + 1);
        proof {
            assert(is_digit(input@[j as int]));
            assert(digit_run(input@, j as int) == 1 + digit_run(input@, j + 1));
            assert(cur.drop_last() =~= pre);
            assert(cur.last() == input@[j as int]);
            assert(digits_val(cur) == digits_val(pre) * 10 + digit_val(input@[j as int]));
            assert(digit_val(input@[j as int]) == d as int);
            // this step is still inside the digit run
            lemma_digit_run(input@, j + 1);
            assert(j + 1 - pos - 1 <= drun);
            assert(cur =~= full.subrange(0, j + 1 - pos - 1));
        }
        if !overflow {
            let next = match acc.checked_mul(10) {
                Some(m) => m.checked_add(d),
                None => None,
            };
            match next {
                Some(v) => {
                    acc = v;
                },
                None => {
                    overflow = true;
                    proof {
                        assert(digits_val(cur) > usize::MAX as int);
                        lemma_digits_val_extend(full, j + 1 - pos - 1);
                    }
                },
            }
        }
        j = j + 1;
    }
    if overflow {
        return None;
    }
    if j == pos + 1 {
        return None;
    }
    if j < n && input.get_char(j) == ']' {
        let r = Some((PathSegment::Index(acc), j + 1));
        proof {
            assert(spec_index_segment(input@, pos as int) =~= Some(
                (r.unwrap().0@, r.unwrap().1 as int),
            ));
        }
        r
    } else {
        None
    }
}

fn segment_at(input: &str, pos: usize, n: usize) -> (r: Option<(PathSegment, usize)>)
    requires
        n == input@.len(),
        pos <= n,
    ensures
        match r {
            Some(t) => spec_segment(input@, pos as int) == Some((t.0@, t.1 as int)) && pos < t.1
                <= n,
            None => spec_segment(input@, pos as int) is None,
        },
{
    let ix = index_at(input, pos, n);
    if let Some(t) = ix {
        return Some(t);
    }
    let q = quoted_at(input, pos, n);
    if let Some(t) = q {
        return Some(t);
    }
    name_at(input, pos, n)
}

/// Parses an index segment (`[` digit+ `]`) at the start of the input,
/// returning the segment and the number of characters consumed.
pub fn index_segment(input: &str) -> (r: Option<(PathSegment, usize)>)
    ensures
        match r {
            Some(t) => spec_index_segment(input@, 0) == Some((t.0@, t.1 as int)),
            None => spec_index_segment(input@, 0) is None,
        },
{
    let n = input.unicode_len();
    index_at(input, 0, n)
}

/// Parses a quoted name segment (`["` quoted_body `"]`) at the start of
/// the input, returning the segment (with the body kept in its escaped
/// spelling) and the number of characters consumed.
pub fn quoted_name_segment(input: &str) -> (r: Option<(PathSegment, usize)>)
    ensures
        match r {
            Some(t) => spec_quoted_segment(input@, 0) == Some((t.0@, t.1 as int)),
            None => spec_quoted_segment(input@, 0) is None,
        },
{
    let n = input.unicode_len();
    quoted_at(input, 0, n)
}

/// Parses a bare name segment (characters other than `[` and `.`) at the
/// start of the input, returning the segment and the number of characters
/// consumed.
pub fn name_segment(input: &str) -> (r: Option<(PathSegment, usize)>)
    ensures
        match r {
            Some(t) => spec_name_segment(input@, 0) == Some((t.0@, t.1 as int)),
            None => spec_name_segment(input@, 0) is None,
        },
{
    let n = input.unicode_len();
    name_at(input, 0, n)
}

/// Parses one segment at the start of the input, trying the alternatives
/// in the order index, quoted name, bare name.
pub fn path_segment(input: &str) -> (r: Option<(PathSegment, usize)>)
    ensures
        match r {
            Some(t) => spec_segment(input@, 0) == Some((t.0@, t.1 as int)),
            None => spec_segment(input@, 0) is None,
        },
{
    let n = input.unicode_len();
    segment_at(input, 0, n)
}

/// Parses segments greedily from the start of the input, consuming an
/// optional `.` after each segment; returns the segments together with
/// the number of characters consumed.
pub fn path_segments(input: &str) -> (r: (Vec<PathSegment>, usize))
    ensures
        path_model(r.0@) == spec_run(input@, 0).0,
        r.1 as int == spec_run(input@, 0).1,
        r.1 <= input@.len(),
{
    let n = input.unicode_len();
    let mut segs: Vec<PathSegment> = Vec::new();
    let mut pos: usize = 0;
    proof {
        assert(path_model(segs@) =~= Seq::<SegModel>::empty());
    }
    loop
        invariant
            n == input@.len(),
            pos <= n,
            spec_run(input@, 0).0 == path_model(segs@) + spec_run(input@, pos as int).0,
            spec_run(input@, 0).1 == spec_run(input@, pos as int).1,
        ensures
            pos <= n,
            spec_run(input@, 0).0 == path_model(segs@),
            spec_run(input@, 0).1 == pos as int,
        decreases n - pos,
    {
        match segment_at(input, pos, n) {
            None => {
                proof {
                    assert(spec_run(input@, pos as int).0 =~= Seq::<SegModel>::empty());
                    assert(path_model(segs@) + Seq::<SegModel>::empty() =~= path_model(segs@));
                }
                break;
            },
            Some((seg, seg_end)) => {
                let ghost pre = segs@;
                let ghost m = seg@;
                segs.push(seg);
                let next_pos = if seg_end < n && input.get_char(seg_end) == '.' {
                    seg_end + 1
                } else {
                    seg_end
                };
                proof {
                    assert(path_model(segs@) =~= path_model(pre) + seq![m]);
                    assert(spec_run(input@, pos as int).0 =~= seq![m] + spec_run(
                        input@,
                        next_pos as int,
                    ).0);
                    assert(spec_run(input@, pos as int).1 == spec_run(input@, next_pos as int).1);
                    assert(path_model(pre) + (seq![m] + spec_run(input@, next_pos as int).0) =~= (
                    path_model(pre) + seq![m]) + spec_run(input@, next_pos as int).0);
                }
                pos = next_pos;
            },
        }
    }
    (segs, pos)
}

/// The total path parser: parses the whole input as a path, failing on
/// any grammar violation, including trailing unconsumed input.
pub fn parse_path(input: &str) -> (r: Result<Vec<PathSegment>, PathParseError>)
    ensures
        match r {
            Ok(v) => spec_parse_path(input@) == Some(path_model(v@)),
            Err(e) => spec_parse_path(input@) is None && e == PathParseError::Malformed,
        },
{
    let n = input.unicode_len();
    let (segs, consumed) = path_segments(input);
    if consumed == n {
        Ok(segs)
    } else {
        Err(PathParseError::Malformed)
    }
}

/// A key is rendered quoted when the escaping policy asks for it, or when
/// it is empty: an empty key has no bare spelling in the grammar.
pub open spec fn key_quoted(k: Seq<char>) -> bool {
    crate::escape::needs_quoting_seq(k) || k.len() == 0
}

pub open spec fn digit_char(d: int) -> char {
    if d == 0 {
        '0'
    } else if d == 1 {
        '1'
    } else if d == 2 {
        '2'
    } else if d == 3 {
        '3'
    } else if d == 4 {
        '4'
    } else if d == 5 {
        '5'
    } else if d == 6 {
        '6'
    } else if d == 7 {
        '7'
    } else if d == 8 {
        '8'
    } else {
        '9'
    }
}

/// The decimal digits of a non-negative integer.
pub open spec fn dec_rep(n: int) -> Seq<char>
    decreases n,
{
    if n < 10 {
        seq![digit_char(n)]
    } else {
        dec_rep(n / 10) + seq![digit_char(n % 10)]
    }
}

/// The rendered text of one segment, without any separator. A quoted
/// name's payload is emitted as it stands: payloads carry their escaped
/// spelling.
pub open spec fn fmt_segment(m: SegModel) -> Seq<char> {
    match m {
        SegModel::Index(i) => seq!['['] + dec_rep(i) + seq![']'],
        SegModel::Name(k) => if key_quoted(k) {
            seq!['[', '"'] + k + seq!['"', ']']
        } else {
            k
        },
    }
}

/// Whether a `.` separator precedes this segment when it is not first:
/// only bare names are preceded by a dot; brackets separate on their own.
pub open spec fn seg_dotted(m: SegModel) -> bool {
    match m {
        SegModel::Name(k) => !key_quoted(k),
        SegModel::Index(_) => false,
    }
}

/// The rendered text of the path from segment `i` on.
pub open spec fn fmt_path_from(p: Seq<SegModel>, i: int) -> Seq<char>
    decreases p.len() - i,
{
    if i < 0 || i >= p.len() {
        Seq::empty()
    } else {
        (if i > 0 && seg_dotted(p[i]) {
            seq!['.']
        } else {
            Seq::<char>::empty()
        }) + fmt_segment(p[i]) + fmt_path_from(p, i + 1)
    }
}

/// The rendered text of a whole path.
pub open spec fn spec_format_path(p: Seq<SegModel>) -> Seq<char> {
    fmt_path_from(p, 0)
}

fn push_digit(out: &mut Vec<char>, d: usize)
    requires
        d < 10,
    ensures
        final(out)@ == old(out)@ + seq![digit_char(d as int)],
{
    let c = if d == 0 {
        '0'
    } else if d == 1 {
        '1'
    } else if d == 2 {
        '2'
    } else if d == 3 {
        '3'
    } else if d == 4 {
        '4'
    } else if d == 5 {
        '5'
    } else if d == 6 {
        '6'
    } else if d == 7 {
        '7'
    } else if d == 8 {
        '8'
    } else {
        '9'
    };
    out.push(c);
    proof {
        assert(out@ =~= old(out)@ + seq![digit_char(d as int)]);
    }
}

pub(crate) fn push_dec(out: &mut Vec<char>, n: usize)
    ensures
        final(out)@ == old(out)@ + dec_rep(n as int),
    decreases n,
{
    if n < 10 {
        push_digit(out, n);
    } else {
        push_dec(out, n / 10);
        push_digit(out, n % 10);
        proof {
            assert(out@ =~= old(out)@ + dec_rep(n as int));
        }
    }
}

pub(crate) fn push_str_chars(out: &mut Vec<char>, s: &str)
    ensures
        final(out)@ == old(out)@ + s@,
{
    let n = s.unicode_len();
    let mut i: usize = 0;
    proof {
        assert(out@ =~= old(out)@ + s@.subrange(0, 0));
    }
    while i < n
        invariant
            n == s@.len(),
            i <= n,
            out@ == old(out)@ + s@.subrange(0, i as int),
        decreases n - i,
    {
        out.push(s.get_char(i));
        proof {
            assert(s@.subrange(0, i + 1) =~= s@.subrange(0, i as int) + seq![s@[i as int]]);
            assert(out@ =~= old(out)@ + s@.subrange(0, i + 1));
        }
        i = i + 1;
    }
    proof {
        assert(s@.subrange(0, n as int) =~= s@);
    }
}

/// The inverse serializer: renders segments back to path text, quoting a
/// key exactly when the escaping policy requires it or the key is empty.
pub fn format_path(p: &Vec<PathSegment>) -> (r: String)
    ensures
        r@ == spec_format_path(path_model(p@)),
{
    let ghost pm = path_model(p@);
    let mut out: Vec<char> = Vec::new();
    let mut i: usize = 0;
    proof {
        assert(fmt_path_from(pm, 0) =~= out@ + fmt_path_from(pm, 0));
    }
    while i < p.len()
        invariant
            pm == path_model(p@),
            i <= p.len(),
            pm.len() == p@.len(),
            fmt_path_from(pm, 0) == out@ + fmt_path_from(pm, i as int),
        decreases p.len() - i,
    {
        let ghost pre = out@;
        proof {
            assert(pm[i as int] == p@[i as int]@);
        }
        match &p[i] {
            PathSegment::Index(ix) => {
                out.push('[');
                push_dec(&mut out, *ix);
                out.push(']');
                proof {
                    assert(out@ =~= pre + fmt_segment(pm[i as int]));
                }
            },
            PathSegment::Name(k) => {
                let quoted = needs_quotes(k.as_str()) || k.as_str().is_empty();
                if quoted {
                    out.push('[');
                    out.push('"');
                    push_str_chars(&mut out, k.as_str());
                    out.push('"');
                    out.push(']');
                    proof {
                        assert(key_quoted(k@));
                        assert(out@ =~= pre + fmt_segment(pm[i as int]));
                    }
                } else {
                    if i > 0 {
                        out.push('.');
                    }
                    push_str_chars(&mut out, k.as_str());
                    proof {
                        assert(!key_quoted(k@));
                        if i > 0 {
                            assert(out@ =~= pre + (seq!['.'] + fmt_segment(pm[i as int])));
                        } else {
                            assert(out@ =~= pre + fmt_segment(pm[i as int]));
                        }
                    }
                }
            },
        }
        proof {
            let dot: Seq<char> = if i > 0 && seg_dotted(pm[i as int]) {
                seq!['.']
            } else {
                Seq::<char>::empty()
            };
            assert(out@ =~= pre + (dot + fmt_segment(pm[i as int])));
            assert(fmt_path_from(pm, i as int) =~= (dot + fmt_segment(pm[i as int]))
                + fmt_path_from(pm, i + 1));
            assert(fmt_path_from(pm, 0) =~= out@ + fmt_path_from(pm, i + 1));
        }
        i = i + 1;
    }
    proof {
        assert(fmt_path_from(pm, i as int) =~= Seq::<char>::empty());
        assert(fmt_path_from(pm, 0) =~= out@);
    }
    chars_to_string(&out)
}

/// Parses an input that is known to be a well-formed path.
pub fn parse(input: &str) -> (r: Vec<PathSegment>)
    requires
        spec_parse_path(input@) is Some,
    ensures
        path_model(r@) == spec_parse_path(input@).unwrap(),
{
    match parse_path(input) {
        Ok(v) => v,
        Err(_) => {
            proof {
                assert(false);
            }
            Vec::new()
        },
    }
}

/// A well-formed quoted body: `"` never appears bare, and `\` is always
/// followed by `"`, `n` or `\`.
pub open spec fn body_ok(k: Seq<char>) -> bool
    decreases k.len(),
{
    if k.len() == 0 {
        true
    } else if k[0] == '\\' {
        k.len() >= 2 && (k[1] == '"' || k[1] == 'n' || k[1] == '\\') && body_ok(
            k.subrange(2, k.len() as int),
        )
    } else {
        k[0] != '"' && body_ok(k.drop_first())
    }
}

/// A segment whose rendered text parses back to the segment itself: an
/// index that fits in `usize`; a quoted key that is a well-formed escaped
/// body; a bare key with no `[` in it.
pub open spec fn seg_wf(m: SegModel) -> bool {
    match m {
        SegModel::Index(i) => 0 <= i <= usize::MAX as int,
        SegModel::Name(k) => if key_quoted(k) {
            body_ok(k)
        } else {
            forall|j: int| 0 <= j < k.len() ==> k[j] != '['
        },
    }
}

pub proof fn lemma_dec_rep(n: int)
    requires
        n >= 0,
    ensures
        dec_rep(n).len() >= 1,
        forall|j: int| 0 <= j < dec_rep(n).len() ==> is_digit(dec_rep(n)[j]),
        digits_val(dec_rep(n)) == n,
    decreases n,
{
    if n < 10 {
        let ds = dec_rep(n);
        assert(ds =~= seq![digit_char(n)]);
        assert(ds.drop_last() =~= Seq::<char>::empty());
        assert(digits_val(Seq::<char>::empty()) == 0);
        assert(digits_val(ds) == digit_val(digit_char(n)));
        assert(is_digit(digit_char(n)));
        assert(digit_val(digit_char(n)) == n);
    } else {
        lemma_dec_rep(n / 10);
        let a = dec_rep(n / 10);
        let ds = dec_rep(n);
        assert(ds == a + seq![digit_char(n % 10)]);
        assert(ds.drop_last() =~= a);
        assert(ds.last() == digit_char(n % 10));
        assert(digits_val(ds) == digits_val(a) * 10 + digit_val(digit_char(n % 10)));
        vstd::arithmetic::div_mod::lemma_fundamental_div_mod(n, 10);
        assert(digits_val(ds) == n);
        assert forall|j: int| 0 <= j < ds.len() implies is_digit(ds[j]) by {
            if j < a.len() {
                assert(ds[j] == a[j]);
            } else {
                assert(ds[j] == digit_char(n % 10));
            }
        }
    }
}

pub proof fn lemma_name_run_exact(s: Seq<char>, pos: int, k: Seq<char>)
    requires
        0 <= pos,
        pos + k.len() <= s.len(),
        s.subrange(pos, pos + k.len()) == k,
        forall|j: int| 0 <= j < k.len() ==> k[j] != '[' && k[j] != '.',
        pos + k.len() == s.len() || s[pos + k.len()] == '[' || s[pos + k.len()] == '.',
    ensures
        name_run(s, pos) == k.len(),
    decreases k.len(),
{
    if k.len() == 0 {
    } else {
        assert(s[pos] == s.subrange(pos, pos + k.len())[0]);
        assert(s[pos] == k[0]);
        let k2 = k.drop_first();
        assert(s.subrange(pos + 1, pos + 1 + k2.len()) =~= k2) by {
            assert forall|j: int| 0 <= j < k2.len() implies s.subrange(
                pos + 1,
                pos + 1 + k2.len(),
            )[j] == k2[j] by {
                assert(s[pos + 1 + j] == s.subrange(pos, pos + k.len())[j + 1]);
            }
        }
        lemma_name_run_exact(s, pos + 1, k2);
        assert(name_run(s, pos) == 1 + name_run(s, pos + 1));
    }
}

pub proof fn lemma_digit_run_exact(s: Seq<char>, pos: int, ds: Seq<char>)
    requires
        0 <= pos,
        pos + ds.len() <= s.len(),
        s.subrange(pos, pos + ds.len()) == ds,
        forall|j: int| 0 <= j < ds.len() ==> is_digit(ds[j]),
        pos + ds.len() == s.len() || !is_digit(s[pos + ds.len()]),
    ensures
        digit_run(s, pos) == ds.len(),
    decreases ds.len(),
{
    if ds.len() == 0 {
    } else {
        assert(s[pos] == s.subrange(pos, pos + ds.len())[0]);
        assert(s[pos] == ds[0]);
        let d2 = ds.drop_first();
        assert(s.subrange(pos + 1, pos + 1 + d2.len()) =~= d2) by {
            assert forall|j: int| 0 <= j < d2.len() implies s.subrange(
                pos + 1,
                pos + 1 + d2.len(),
            )[j] == d2[j] by {
                assert(s[pos + 1 + j] == s.subrange(pos, pos + ds.len())[j + 1]);
            }
        }
        lemma_digit_run_exact(s, pos + 1, d2);
        assert(digit_run(s, pos) == 1 + digit_run(s, pos + 1));
    }
}

pub proof fn lemma_body_end_exact(s: Seq<char>, pos: int, k: Seq<char>)
    requires
        0 <= pos,
        pos + k.len() < s.len(),
        s.subrange(pos, pos + k.len()) == k,
        body_ok(k),
        s[pos + k.len()] == '"',
    ensures
        body_end(s, pos) == Some(pos + k.len()),
    decreases k.len(),
{
    if k.len() == 0 {
        assert(s[pos] == '"');
    } else if k[0] == '\\' {
        assert(s[pos] == s.subrange(pos, pos + k.len())[0]);
        assert(s[pos] == '\\');
        assert(s[pos + 1] == s.subrange(pos, pos + k.len())[1]);
        assert(s[pos + 1] == k[1]);
        let k2 = k.subrange(2, k.len() as int);
        assert(s.subrange(pos + 2, pos + 2 + k2.len()) =~= k2) by {
            assert forall|j: int| 0 <= j < k2.len() implies s.subrange(
                pos + 2,
                pos + 2 + k2.len(),
            )[j] == k2[j] by {
                assert(s[pos + 2 + j] == s.subrange(pos, pos + k.len())[j + 2]);
            }
        }
        lemma_body_end_exact(s, pos + 2, k2);
        assert(body_end(s, pos) == body_end(s, pos + 2));
    } else {
        assert(s[pos] == s.subrange(pos, pos + k.len())[0]);
        assert(s[pos] == k[0]);
        assert(k[0] != '"');
        let k2 = k.drop_first();
        assert(s.subrange(pos + 1, pos + 1 + k2.len()) =~= k2) by {
            assert forall|j: int| 0 <= j < k2.len() implies s.subrange(
                pos + 1,
                pos + 1 + k2.len(),
            )[j] == k2[j] by {
                assert(s[pos + 1 + j] == s.subrange(pos, pos + k.len())[j + 1]);
            }
        }
        lemma_body_end_exact(s, pos + 1, k2);
        assert(body_end(s, pos) == body_end(s, pos + 1));
    }
}

/// The rendered text of any non-first segment starts with `.` (bare
/// names) or `[` (indices and quoted names), and is never empty.
pub proof fn lemma_fmt_head(p: Seq<SegModel>, j: int)
    requires
        1 <= j < p.len(),
        seg_wf(p[j]),
    ensures
        fmt_path_from(p, j).len() >= 1,
        fmt_path_from(p, j)[0] == (if seg_dotted(p[j]) {
            '.'
        } else {
            '['
        }),
{
    let f = fmt_segment(p[j]);
    match p[j] {
        SegModel::Index(i) => {
            lemma_dec_rep(i);
            assert(f[0] == '[');
        },
        SegModel::Name(k) => {
            if key_quoted(k) {
                assert(f[0] == '[');
            } else {
                assert(k.len() >= 1);
                assert(f[0] == k[0]);
            }
        },
    }
    if seg_dotted(p[j]) {
        assert(fmt_path_from(p, j)[0] == '.');
    } else {
        assert(fmt_path_from(p, j) =~= f + fmt_path_from(p, j + 1));
        assert(fmt_path_from(p, j)[0] == f[0]);
    }
}

proof fn lemma_run_fmt(s: Seq<char>, p: Seq<SegModel>, i: int, pos: int)
    requires
        forall|j: int| 0 <= j < p.len() ==> seg_wf(p[j]),
        0 <= i <= p.len(),
        0 <= pos <= s.len(),
        s.subrange(pos, s.len() as int) == (if i == p.len() {
            Seq::<char>::empty()
        } else {
            fmt_segment(p[i]) + fmt_path_from(p, i + 1)
        }),
    ensures
        spec_run(s, pos) == (p.subrange(i, p.len() as int), s.len() as int),
    decreases p.len() - i,
{
    let suffix = s.subrange(pos, s.len() as int);
    assert forall|t: int| 0 <= t < suffix.len() implies #[trigger] suffix[t] == s[pos + t] by {
        assert(suffix[t] == s.subrange(pos, s.len() as int)[t]);
    }
    if i == p.len() {
        assert(suffix.len() == 0);
        assert(pos == s.len());
        assert(spec_index_segment(s, pos) is None);
        assert(spec_quoted_segment(s, pos) is None);
        assert(name_run(s, pos) == 0);
        assert(spec_name_segment(s, pos) is None);
        assert(spec_segment(s, pos) is None);
        assert(spec_run(s, pos) =~= (p.subrange(i, p.len() as int), s.len() as int));
    } else {
        let f0 = fmt_segment(p[i]);
        let rest = fmt_path_from(p, i + 1);
        assert(suffix == f0 + rest);
        assert(suffix.len() == s.len() - pos);
        assert((f0 + rest).len() == f0.len() + rest.len());
        assert(s.len() == pos + f0.len() + rest.len());
        let seg_end = pos + f0.len();
        match p[i] {
            SegModel::Index(ix) => {
                let ds = dec_rep(ix);
                lemma_dec_rep(ix);
                assert(f0 == seq!['['] + ds + seq![']']);
                assert(suffix[0] == f0[0]);
                assert(s[pos + 0] == suffix[0]);
                assert(s[pos] == '[');
                assert(s.subrange(pos + 1, pos + 1 + ds.len()) =~= ds) by {
                    assert forall|j: int| 0 <= j < ds.len() implies s.subrange(
                        pos + 1,
                        pos + 1 + ds.len(),
                    )[j] == ds[j] by {
                        assert(s.subrange(pos + 1, pos + 1 + ds.len())[j] == s[pos + 1 + j]);
                        assert(suffix[1 + j] == s[pos + (1 + j)]);
                        assert(suffix[1 + j] == f0[1 + j]);
                        assert(f0[1 + j] == ds[j]);
                    }
                }
                assert(suffix[1 + ds.len() as int] == f0[1 + ds.len() as int]);
                assert(s[pos + (1 + ds.len() as int)] == suffix[1 + ds.len() as int]);
                assert(s[pos + 1 + ds.len()] == ']');
                assert(!is_digit(']'));
                lemma_digit_run_exact(s, pos + 1, ds);
                assert(digit_run(s, pos + 1) == ds.len());
                assert(spec_index_segment(s, pos) =~= Some(
                    (SegModel::Index(ix), pos + ds.len() + 2),
                ));
                assert(spec_segment(s, pos) == Some((p[i], seg_end)));
            },
            SegModel::Name(k) => {
                if key_quoted(k) {
                    assert(f0 == seq!['[', '"'] + k + seq!['"', ']']);
                    assert(suffix[0] == f0[0]);
                    assert(s[pos + 0] == suffix[0]);
                    assert(s[pos] == '[');
                    assert(suffix[1] == f0[1]);
                    assert(s[pos + 1] == suffix[1]);
                    assert(s[pos + 1] == '"');
                    assert(!is_digit('"'));
                    assert(digit_run(s, pos + 1) == 0);
                    assert(spec_index_segment(s, pos) is None);
                    assert(s.subrange(pos + 2, pos + 2 + k.len()) =~= k) by {
                        assert forall|j: int| 0 <= j < k.len() implies s.subrange(
                            pos + 2,
                            pos + 2 + k.len(),
                        )[j] == k[j] by {
                            assert(s.subrange(pos + 2, pos + 2 + k.len())[j] == s[pos + 2 + j]);
                            assert(suffix[2 + j] == s[pos + (2 + j)]);
                            assert(suffix[2 + j] == f0[2 + j]);
                            assert(f0[2 + j] == k[j]);
                        }
                    }
                    assert(suffix[2 + k.len() as int] == f0[2 + k.len() as int]);
                    assert(s[pos + (2 + k.len() as int)] == suffix[2 + k.len() as int]);
                    assert(s[pos + 2 + k.len()] == '"');
                    lemma_body_end_exact(s, pos + 2, k);
                    let e = pos + 2 + k.len();
                    assert(body_end(s, pos + 2) == Some(e));
                    assert(suffix[3 + k.len() as int] == f0[3 + k.len() as int]);
                    assert(s[pos + (3 + k.len() as int)] == suffix[3 + k.len() as int]);
                    assert(s[e + 1] == ']');
                    assert(spec_quoted_segment(s, pos) =~= Some((SegModel::Name(k), e + 2)));
                    assert(spec_segment(s, pos) == Some((p[i], seg_end)));
                } else {
                    assert(f0 == k);
                    assert(k.len() >= 1);
                    assert(suffix[0] == f0[0]);
                    assert(s[pos + 0] == suffix[0]);
                    assert(s[pos] == k[0]);
                    assert(k[0] != '[');
                    assert(spec_index_segment(s, pos) is None);
                    assert(spec_quoted_segment(s, pos) is None);
                    assert(crate::escape::is_quote_trigger('.'));
                    assert(forall|j: int| 0 <= j < k.len() ==> !crate::escape::is_quote_trigger(k[j]));
                    assert(forall|j: int| 0 <= j < k.len() ==> k[j] != '[' && k[j] != '.');
                    assert(s.subrange(pos, pos + k.len()) =~= k) by {
                        assert forall|j: int| 0 <= j < k.len() implies s.subrange(
                            pos,
                            pos + k.len(),
                        )[j] == k[j] by {
                            assert(s.subrange(pos, pos + k.len())[j] == s[pos + j]);
                            assert(suffix[j] == s[pos + j]);
                            assert(suffix[j] == f0[j]);
                        }
                    }
                    if rest.len() > 0 {
                        lemma_fmt_head(p, i + 1);
                        assert(suffix[k.len() as int] == rest[0]);
                        assert(s[pos + k.len() as int] == suffix[k.len() as int]);
                        assert(rest[0] == '.' || rest[0] == '[');
                    }
                    lemma_name_run_exact(s, pos, k);
                    assert(name_run(s, pos) == k.len());
                    assert(spec_name_segment(s, pos) =~= Some((SegModel::Name(k), pos + k.len())));
                    assert(spec_segment(s, pos) == Some((p[i], seg_end)));
                }
            },
        }
        // the dot after the segment, and the recursive step
        if i + 1 == p.len() {
            assert(rest.len() == 0);
            assert(seg_end == s.len());
            assert(s.subrange(seg_end, s.len() as int) =~= Seq::<char>::empty());
            lemma_run_fmt(s, p, i + 1, seg_end);
            assert(spec_run(s, pos) =~= (
                seq![p[i]] + spec_run(s, seg_end).0,
                spec_run(s, seg_end).1,
            ));
        } else {
            lemma_fmt_head(p, i + 1);
            assert(suffix[f0.len() as int] == rest[0]);
            assert(s[pos + f0.len() as int] == suffix[f0.len() as int]);
            assert(s[seg_end] == rest[0]);
            if seg_dotted(p[i + 1]) {
                assert(rest =~= seq!['.'] + (fmt_segment(p[i + 1]) + fmt_path_from(p, i + 2)));
                assert(s[seg_end] == '.');
                let next_pos = seg_end + 1;
                assert(s.subrange(next_pos, s.len() as int) =~= fmt_segment(p[i + 1]) + fmt_path_from(
                    p,
                    i + 2,
                )) by {
                    assert forall|t: int| 0 <= t < s.len() - next_pos implies s.subrange(
                        next_pos,
                        s.len() as int,
                    )[t] == (fmt_segment(p[i + 1]) + fmt_path_from(p, i + 2))[t] by {
                        assert(s[next_pos + t] == suffix[f0.len() + 1 + t]);
                        assert(suffix[f0.len() + 1 + t] == rest[1 + t]);
                    }
                }
                lemma_run_fmt(s, p, i + 1, next_pos);
                assert(spec_run(s, pos) =~= (
                    seq![p[i]] + spec_run(s, next_pos).0,
                    spec_run(s, next_pos).1,
                ));
            } else {
                assert(rest =~= Seq::<char>::empty() + fmt_segment(p[i + 1]) + fmt_path_from(
                    p,
                    i + 2,
                ));
                assert(s[seg_end] == '[');
                let next_pos = seg_end;
                assert(s.subrange(next_pos, s.len() as int) =~= fmt_segment(p[i + 1]) + fmt_path_from(
                    p,
                    i + 2,
                )) by {
                    assert forall|t: int| 0 <= t < s.len() - next_pos implies s.subrange(
                        next_pos,
                        s.len() as int,
                    )[t] == (fmt_segment(p[i + 1]) + fmt_path_from(p, i + 2))[t] by {
                        assert(s[next_pos + t] == suffix[f0.len() + t]);
                        assert(suffix[f0.len() + t] == rest[t]);
                    }
                }
                lemma_run_fmt(s, p, i + 1, next_pos);
                assert(spec_run(s, pos) =~= (
                    seq![p[i]] + spec_run(s, next_pos).0,
                    spec_run(s, next_pos).1,
                ));
            }
        }
        assert(seq![p[i]] + p.subrange(i + 1, p.len() as int) =~= p.subrange(i, p.len() as int));
        assert(spec_run(s, pos) =~= (p.subrange(i, p.len() as int), s.len() as int));
    }
}

/// Law: parsing inverts formatting. For every path whose segments are
/// well-formed in the sense of `seg_wf` -- indices fit in `usize`, quoted
/// keys are well-formed escaped bodies, bare keys contain no `[` -- the
/// text produced by the formatter parses back to exactly that path.
pub proof fn lemma_parse_format_path(p: Seq<SegModel>)
    requires
        forall|j: int| 0 <= j < p.len() ==> seg_wf(p[j]),
    ensures
        spec_parse_path(spec_format_path(p)) == Some(p),
{
    let s = spec_format_path(p);
    if p.len() == 0 {
        assert(s =~= Seq::<char>::empty());
        assert(s.subrange(0, s.len() as int) =~= Seq::<char>::empty());
        lemma_run_fmt(s, p, 0, 0);
        assert(p.subrange(0, p.len() as int) =~= p);
    } else {
        assert(s =~= fmt_segment(p[0]) + fmt_path_from(p, 1));
        assert(s.subrange(0, s.len() as int) =~= s);
        lemma_run_fmt(s, p, 0, 0);
        assert(p.subrange(0, p.len() as int) =~= p);
    }
}

} // verus!
