//! The unflattener: rebuilds a tree value from an ordered sequence of
//! `path = value` lines, creating intermediate containers on demand.

use vstd::prelude::*;
use vstd::string::StrSliceExecFns;
use crate::PathParseError;
use crate::path_segments::{parse_path, path_model, spec_parse_path, PathSegment, SegModel};
use crate::value::{parse_literal, spec_parse_literal, ValModel, Value};

verus! {

/// An error while rebuilding a tree from lines.
#[derive(Debug, Clone, Copy, PartialEq, Eq, Structural)]
pub enum UnflattenError {
    /// A line's path does not follow the path grammar.
    Path(PathParseError),
    /// A line has a path but no `=`-delimited value.
    MissingValue,
    /// A path addresses a position already materialized with an
    /// incompatible container kind, or a leaf where a container was
    /// expected.
    ShapeConflict,
    /// The same full path appears twice as a terminal leaf assignment.
    DuplicatePath,
    /// The value side of a line is not a valid literal.
    LiteralParse,
}

/// Whitespace as trimmed around paths and values: space and the
/// 0x09..=0x0d control range.
pub open spec fn is_ws(c: char) -> bool {
    c == ' ' || (0x09 <= c as u32 && c as u32 <= 0x0d)
}

/// Length of the whitespace run starting at `pos`.
pub open spec fn ws_run(s: Seq<char>, pos: int) -> int
    decreases s.len() - pos,
{
    if pos < 0 || pos >= s.len() || !is_ws(s[pos]) {
        0
    } else {
        1 + ws_run(s, pos + 1)
    }
}

/// Length of the whitespace run that ends just before `end`.
pub open spec fn ws_run_back(s: Seq<char>, end: int) -> int
    decreases end,
{
    if end <= 0 || end > s.len() || !is_ws(s[end - 1]) {
        0
    } else {
        1 + ws_run_back(s, end - 1)
    }
}

/// The string with leading and trailing whitespace removed.
pub open spec fn spec_trim(s: Seq<char>) -> Seq<char> {
    let a = ws_run(s, 0);
    if a == s.len() {
        Seq::empty()
    } else {
        s.subrange(a, s.len() - ws_run_back(s, s.len() as int))
    }
}

/// First position of `c` at or after `pos`, or -1.
pub open spec fn find_char(s: Seq<char>, c: char, pos: int) -> int
    decreases s.len() - pos,
{
    if pos < 0 || pos >= s.len() {
        -1
    } else if s[pos] == c {
        pos
    } else {
        find_char(s, c, pos + 1)
    }
}

/// Splitting a line at the first occurrence of a delimiter: both sides
/// trimmed; a line without the delimiter gives the whole line, trimmed,
/// and no value.
pub open spec fn spec_pair_or_single(s: Seq<char>, c: char) -> (Seq<char>, Option<Seq<char>>) {
    let i = find_char(s, c, 0);
    if i == -1 {
        (spec_trim(s), None)
    } else {
        (spec_trim(s.subrange(0, i)), Some(spec_trim(s.subrange(i + 1, s.len() as int))))
    }
}

pub proof fn lemma_ws_run(s: Seq<char>, pos: int)
    requires
        0 <= pos <= s.len(),
    ensures
        0 <= ws_run(s, pos),
        pos + ws_run(s, pos) <= s.len(),
        forall|j: int| pos <= j < pos + ws_run(s, pos) ==> is_ws(s[j]),
        pos + ws_run(s, pos) < s.len() ==> !is_ws(s[pos + ws_run(s, pos)]),
    decreases s.len() - pos,
{
    if pos < s.len() && is_ws(s[pos]) {
        lemma_ws_run(s, pos + 1);
    }
}

pub proof fn lemma_ws_run_back(s: Seq<char>, end: int)
    requires
        0 <= end <= s.len(),
    ensures
        0 <= ws_run_back(s, end) <= end,
        forall|j: int| end - ws_run_back(s, end) <= j < end ==> is_ws(s[j]),
        end - ws_run_back(s, end) > 0 ==> !is_ws(s[end - ws_run_back(s, end) - 1]),
    decreases end,
{
    if end > 0 && is_ws(s[end - 1]) {
        lemma_ws_run_back(s, end - 1);
    }
}

fn ws_run_end(input: &str, pos: usize, n: usize) -> (r: usize)
    requires
        n == input@.len(),
        pos <= n,
    ensures
        r as int == pos + ws_run(input@, pos as int),
        pos <= r <= n,
{
    proof {
        lemma_ws_run(input@, pos as int);
    }
    let mut j: usize = pos;
    loop
        invariant
            n == input@.len(),
            pos <= j <= n,
            ws_run(input@, pos as int) == j - pos + ws_run(input@, j as int),
        ensures
            pos <= j <= n,
            j == pos + ws_run(input@, pos as int),
        decreases n - j,
    {
        if j >= n {
            break;
        }
        let c = input.get_char(j);
        let u = c as u32;
        if !(c == ' ' || (0x09 <= u && u <= 0x0d)) {
            proof {
                assert(!is_ws(input@[j as int]));
            }
            break;
        }
        proof {
            assert(is_ws(input@[j as int]));
            assert(ws_run(input@, j as int) == 1 + ws_run(input@, j + 1));
        }
        j = j + 1;
    }
    j
}

/// Removes leading and trailing whitespace.
pub fn trim(input: &str) -> (r: String)
    ensures
        r@ == spec_trim(input@),
{
    let n = input.unicode_len();
    let a = ws_run_end(input, 0, n);
    if a == n {
        let s = String::new();
        proof {
            assert(s@ =~= spec_trim(input@));
        }
        return s;
    }
    proof {
        lemma_ws_run(input@, 0);
        lemma_ws_run_back(input@, n as int);
        // the trailing run cannot reach the first non-whitespace character
        assert(!is_ws(input@[a as int]));
        assert(n as int - ws_run_back(input@, n as int) > a as int);
    }
    let mut b: usize = n;
    let ghost back = ws_run_back(input@, n as int);
    loop
        invariant
            n == input@.len(),
            a < b <= n,
            back == ws_run_back(input@, n as int),
            n - b <= back,
            a as int + ws_run(input@, a as int) == a as int,
            n as int - back > a as int,
            ws_run_back(input@, n as int) == n - b + ws_run_back(input@, b as int),
        ensures
            a < b <= n,
            b as int == n as int - back,
        decreases b,
    {
        let c = input.get_char(b - 1);
        let u = c as u32;
        if !(c == ' ' || (0x09 <= u && u <= 0x0d)) {
            proof {
                assert(!is_ws(input@[b - 1]));
                assert(ws_run_back(input@, b as int) == 0);
            }
            break;
        }
        proof {
            assert(is_ws(input@[b - 1]));
            assert(ws_run_back(input@, b as int) == 1 + ws_run_back(input@, b - 1));
            lemma_ws_run_back(input@, n as int);
            assert(b - 1 > a) by {
                if b - 1 <= a {
                    assert(n - (b - 1) <= back + 1);
                }
            }
        }
        b = b - 1;
    }
    let t = input.substring_char(a, b);
    let r = t.to_owned();
    proof {
        assert(r@ =~= spec_trim(input@));
    }
    r
}

/// Splits a line at the first occurrence of `delimiter`, trimming both
/// sides; a line without the delimiter gives the whole line, trimmed,
/// and no value.
pub fn pair_or_single(line: &str, delimiter: char) -> (r: (String, Option<String>))
    ensures
        r.0@ == spec_pair_or_single(line@, delimiter).0,
        match (r.1, spec_pair_or_single(line@, delimiter).1) {
            (Some(a), Some(b)) => a@ == b,
            (None, None) => true,
            _ => false,
        },
{
    let n = line.unicode_len();
    let mut i: usize = 0;
    let mut at: usize = 0;
    let mut found = false;
    loop
        invariant_except_break
            !found,
        invariant
            n == line@.len(),
            i <= n,
            find_char(line@, delimiter, 0) == find_char(line@, delimiter, i as int),
        ensures
            if found {
                at < n && find_char(line@, delimiter, 0) == at as int
            } else {
                find_char(line@, delimiter, 0) == -1
            },
        decreases n - i,
    {
        if i >= n {
            break;
        }
        let c = line.get_char(i);
        if c == delimiter {
            found = true;
            at = i;
            break;
        }
        proof {
            assert(find_char(line@, delimiter, i as int) == find_char(line@, delimiter, i + 1));
        }
        i = i + 1;
    }
    if found {
        let left = line.substring_char(0, at);
        let right = line.substring_char(at + 1, n);
        let lt = trim(left);
        let rt = trim(right);
        proof {
            assert(left@ =~= line@.subrange(0, at as int));
            assert(right@ =~= line@.subrange(at as int + 1, n as int));
        }
        (lt, Some(rt))
    } else {
        let lt = trim(line);
        (lt, None)
    }
}

/// First index of a field with the given key, or -1.
pub open spec fn find_key(fields: Seq<(Seq<char>, ValModel)>, k: Seq<char>) -> int
    decreases fields.len(),
{
    if fields.len() == 0 {
        -1
    } else if fields[0].0 == k {
        0
    } else {
        let r = find_key(fields.drop_first(), k);
        if r == -1 {
            -1
        } else {
            r + 1
        }
    }
}

pub proof fn lemma_find_key_at(fields: Seq<(Seq<char>, ValModel)>, k: Seq<char>, j: int)
    requires
        0 <= j < fields.len(),
        fields[j].0 == k,
        forall|t: int| 0 <= t < j ==> fields[t].0 != k,
    ensures
        find_key(fields, k) == j,
    decreases fields.len(),
{
    if j == 0 {
    } else {
        assert(fields[0].0 != k);
        let rest = fields.drop_first();
        assert(rest[j - 1] == fields[j]);
        assert(forall|t: int| 0 <= t < j - 1 ==> rest[t] == fields[t + 1] && fields[t + 1].0 != k);
        lemma_find_key_at(rest, k, j - 1);
    }
}

pub proof fn lemma_find_key_none(fields: Seq<(Seq<char>, ValModel)>, k: Seq<char>)
    requires
        forall|t: int| 0 <= t < fields.len() ==> fields[t].0 != k,
    ensures
        find_key(fields, k) == -1,
    decreases fields.len(),
{
    if fields.len() > 0 {
        let rest = fields.drop_first();
        assert(forall|t: int| 0 <= t < rest.len() ==> rest[t] == fields[t + 1] && fields[t
            + 1].0 != k);
        lemma_find_key_none(rest, k);
    }
}

/// Inserting one parsed leaf along a path suffix, walking segments from
/// position `at`: a missing child is created (`Object` before a `Name`,
/// `Array` before an `Index`, the leaf itself at the last segment); an
/// existing child must be a container to walk into (array children exist
/// by their literal index; new array entries are appended); an existing
/// child at the last segment is a duplicate.
pub open spec fn spec_insert(
    cur: ValModel,
    segs: Seq<SegModel>,
    at: int,
    leaf: ValModel,
) -> Result<ValModel, UnflattenError>
    decreases segs.len() - at,
{
    if at < 0 || at >= segs.len() {
        Err(UnflattenError::ShapeConflict)
    } else {
        let last = at == segs.len() - 1;
        match (cur, segs[at]) {
            (ValModel::Object(fields), SegModel::Name(k)) => {
                let j = find_key(fields, k);
                if j == -1 {
                    if last {
                        Ok(ValModel::Object(fields.push((k, leaf))))
                    } else {
                        let child0 = if segs[at + 1] is Name {
                            ValModel::Object(Seq::empty())
                        } else {
                            ValModel::Array(Seq::empty())
                        };
                        match spec_insert(child0, segs, at + 1, leaf) {
                            Ok(c) => Ok(ValModel::Object(fields.push((k, c)))),
                            Err(e) => Err(e),
                        }
                    }
                } else if last {
                    Err(UnflattenError::DuplicatePath)
                } else {
                    let child = fields[j].1;
                    if child is Object || child is Array {
                        match spec_insert(child, segs, at + 1, leaf) {
                            Ok(c) => Ok(ValModel::Object(fields.update(j, (k, c)))),
                            Err(e) => Err(e),
                        }
                    } else {
                        Err(UnflattenError::ShapeConflict)
                    }
                }
            },
            (ValModel::Array(items), SegModel::Index(i)) => {
                if 0 <= i < items.len() {
                    if last {
                        Err(UnflattenError::DuplicatePath)
                    } else {
                        let child = items[i];
                        if child is Object || child is Array {
                            match spec_insert(child, segs, at + 1, leaf) {
                                Ok(c) => Ok(ValModel::Array(items.update(i, c))),
                                Err(e) => Err(e),
                            }
                        } else {
                            Err(UnflattenError::ShapeConflict)
                        }
                    }
                } else if last {
                    Ok(ValModel::Array(items.push(leaf)))
                } else {
                    let child0 = if segs[at + 1] is Name {
                        ValModel::Object(Seq::empty())
                    } else {
                        ValModel::Array(Seq::empty())
                    };
                    match spec_insert(child0, segs, at + 1, leaf) {
                        Ok(c) => Ok(ValModel::Array(items.push(c))),
                        Err(e) => Err(e),
                    }
                }
            },
            _ => Err(UnflattenError::ShapeConflict),
        }
    }
}

/// Inserts one parsed leaf along the path's segments from position `at`.
pub fn insert_value(cur: Value, segs: &Vec<PathSegment>, at: usize, leaf: Value) -> (r: Result<
    Value,
    UnflattenError,
>)
    ensures
        match r {
            Ok(v) => spec_insert(cur@, path_model(segs@), at as int, leaf@) == Ok::<
                ValModel,
                UnflattenError,
            >(v@),
            Err(e) => spec_insert(cur@, path_model(segs@), at as int, leaf@) == Err::<
                ValModel,
                UnflattenError,
            >(e),
        },
    decreases segs.len() - at,
{
    let ghost cm = cur@;
    let ghost sm = path_model(segs@);
    let ghost lm = leaf@;
    if at >= segs.len() {
        return Err(UnflattenError::ShapeConflict);
    }
    proof {
        assert(sm[at as int] == segs@[at as int]@);
        if at + 1 < segs.len() {
            assert(sm[at as int + 1] == segs@[at as int + 1]@);
        }
    }
    let last = at == segs.len() - 1;
    match cur {
        Value::Object(mut fields) => {
            match &segs[at] {
                PathSegment::Name(k) => {
                    let ghost fm = cm->Object_0;
                    let ghost f0 = fields@;
                    proof {
                        crate::value::lemma_object_model(Value::Object(fields), 0);
                        assert(fm.len() == f0.len());
                        assert(forall|t: int|
                            0 <= t < f0.len() ==> #[trigger] fm[t] == (f0[t].0@, f0[t].1@)) by {
                            assert forall|t: int| 0 <= t < f0.len() implies #[trigger] fm[t] == (
                                f0[t].0@,
                                f0[t].1@,
                            ) by {
                                crate::value::lemma_object_model(Value::Object(fields), t);
                            }
                        }
                    }
                    let n = fields.len();
                    let mut j: usize = 0;
                    let mut found = false;
                    loop
                        invariant_except_break
                            !found,
                        invariant
                            n == fields.len(),
                            fields@ == f0,
                            fm.len() == f0.len(),
                            forall|t: int|
                                0 <= t < f0.len() ==> #[trigger] fm[t] == (f0[t].0@, f0[t].1@),
                            j <= n,
                            forall|t: int| 0 <= t < j ==> fm[t].0 != k@,
                        ensures
                            fields@ == f0,
                            if found {
                                j < n && find_key(fm, k@) == j as int && fm[j as int].0 == k@
                            } else {
                                find_key(fm, k@) == -1
                            },
                        decreases n - j,
                    {
                        if j >= n {
                            proof {
                                lemma_find_key_none(fm, k@);
                            }
                            break;
                        }
                        if fields[j].0.eq(k) {
                            found = true;
                            proof {
                                assert(fm[j as int].0 == k@);
                                lemma_find_key_at(fm, k@, j as int);
                            }
                            break;
                        }
                        proof {
                            assert(fm[j as int].0 != k@);
                        }
                        j = j + 1;
                    }
                    if !found {
                        if last {
                            let kk = k.clone();
                            fields.push((kk, leaf));
                            let out = Value::Object(fields);
                            proof {
                                lemma_object_push(out, f0, fm, k@, lm);
                                assert(spec_insert(cm, sm, at as int, lm) == Ok::<
                                    ValModel,
                                    UnflattenError,
                                >(out@));
                            }
                            Ok(out)
                        } else {
                            let next_is_name = match &segs[at + 1] {
                                PathSegment::Name(_) => true,
                                PathSegment::Index(_) => false,
                            };
                            let child0 = if next_is_name {
                                Value::Object(Vec::new())
                            } else {
                                Value::Array(Vec::new())
                            };
                            proof {
                                if next_is_name {
                                    crate::value::lemma_object_model(child0, 0);
                                    assert(child0@->Object_0 =~= Seq::<(Seq<char>, ValModel)>::empty());
                                    assert(child0@ == ValModel::Object(child0@->Object_0));
                                } else {
                                    crate::value::lemma_array_model(child0, 0);
                                    assert(child0@->Array_0 =~= Seq::<ValModel>::empty());
                                    assert(child0@ == ValModel::Array(child0@->Array_0));
                                }
                            }
                            match insert_value(child0, segs, at + 1, leaf) {
                                Ok(c) => {
                                    let kk = k.clone();
                                    let ghost cmod = c@;
                                    fields.push((kk, c));
                                    let out = Value::Object(fields);
                                    proof {
                                        lemma_object_push(out, f0, fm, k@, cmod);
                                        assert(spec_insert(cm, sm, at as int, lm) == Ok::<
                                            ValModel,
                                            UnflattenError,
                                        >(out@));
                                    }
                                    Ok(out)
                                },
                                Err(e) => Err(e),
                            }
                        }
                    } else if last {
                        Err(UnflattenError::DuplicatePath)
                    } else {
                        let pair = fields.remove(j);
                        let kk = pair.0;
                        let child = pair.1;
                        proof {
                            assert(child@ == fm[j as int].1);
                            assert(kk@ == fm[j as int].0);
                        }
                        let child_is_container = match &child {
                            Value::Object(_) => true,
                            Value::Array(_) => false,
                            _ => false,
                        } || match &child {
                            Value::Array(_) => true,
                            _ => false,
                        };
                        if child_is_container {
                            match insert_value(child, segs, at + 1, leaf) {
                                Ok(c) => {
                                    let ghost cmod = c@;
                                    fields.insert(j, (kk, c));
                                    let out = Value::Object(fields);
                                    proof {
                                        lemma_object_update(out, f0, fm, j as int, k@, cmod);
                                        assert(spec_insert(cm, sm, at as int, lm) == Ok::<
                                            ValModel,
                                            UnflattenError,
                                        >(out@));
                                    }
                                    Ok(out)
                                },
                                Err(e) => Err(e),
                            }
                        } else {
                            Err(UnflattenError::ShapeConflict)
                        }
                    }
                },
                PathSegment::Index(_) => Err(UnflattenError::ShapeConflict),
            }
        },
        Value::Array(mut items) => {
            match &segs[at] {
                PathSegment::Index(ix) => {
                    let ghost im = cm->Array_0;
                    let ghost i0 = items@;
                    proof {
                        crate::value::lemma_array_model(Value::Array(items), 0);
                        assert(im.len() == i0.len());
                        assert(forall|t: int| 0 <= t < i0.len() ==> #[trigger] im[t] == i0[t]@)
                            by {
                            assert forall|t: int| 0 <= t < i0.len() implies #[trigger] im[t]
                                == i0[t]@ by {
                                crate::value::lemma_array_model(Value::Array(items), t);
                            }
                        }
                    }
                    let i = *ix;
                    if i < items.len() {
                        if last {
                            Err(UnflattenError::DuplicatePath)
                        } else {
                            let child = items.remove(i);
                            proof {
                                assert(child@ == im[i as int]);
                            }
                            let child_is_container = match &child {
                                Value::Object(_) => true,
                                Value::Array(_) => true,
                                _ => false,
                            };
                            if child_is_container {
                                match insert_value(child, segs, at + 1, leaf) {
                                    Ok(c) => {
                                        let ghost cmod = c@;
                                        items.insert(i, c);
                                        let out = Value::Array(items);
                                        proof {
                                            lemma_array_update(out, i0, im, i as int, cmod);
                                            assert(spec_insert(cm, sm, at as int, lm) == Ok::<
                                                ValModel,
                                                UnflattenError,
                                            >(out@));
                                        }
                                        Ok(out)
                                    },
                                    Err(e) => Err(e),
                                }
                            } else {
                                Err(UnflattenError::ShapeConflict)
                            }
                        }
                    } else if last {
                        items.push(leaf);
                        let out = Value::Array(items);
                        proof {
                            lemma_array_push(out, i0, im, lm);
                            assert(spec_insert(cm, sm, at as int, lm) == Ok::<
                                ValModel,
                                UnflattenError,
                            >(out@));
                        }
                        Ok(out)
                    } else {
                        let next_is_name = match &segs[at + 1] {
                            PathSegment::Name(_) => true,
                            PathSegment::Index(_) => false,
                        };
                        let child0 = if next_is_name {
                            Value::Object(Vec::new())
                        } else {
                            Value::Array(Vec::new())
                        };
                        proof {
                            if next_is_name {
                                crate::value::lemma_object_model(child0, 0);
                                assert(child0@->Object_0 =~= Seq::<(Seq<char>, ValModel)>::empty());
                                assert(child0@ == ValModel::Object(child0@->Object_0));
                            } else {
                                crate::value::lemma_array_model(child0, 0);
                                assert(child0@->Array_0 =~= Seq::<ValModel>::empty());
                                assert(child0@ == ValModel::Array(child0@->Array_0));
                            }
                        }
                        match insert_value(child0, segs, at + 1, leaf) {
                            Ok(c) => {
                                let ghost cmod = c@;
                                items.push(c);
                                let out = Value::Array(items);
                                proof {
                                    lemma_array_push(out, i0, im, cmod);
                                    assert(spec_insert(cm, sm, at as int, lm) == Ok::<
                                        ValModel,
                                        UnflattenError,
                                    >(out@));
                                }
                                Ok(out)
                            },
                            Err(e) => Err(e),
                        }
                    }
                },
                PathSegment::Name(_) => Err(UnflattenError::ShapeConflict),
            }
        },
        _ => Err(UnflattenError::ShapeConflict),
    }
}

/// The model of an object after pushing one field.
proof fn lemma_object_push(
    out: Value,
    f0: Seq<(String, Value)>,
    fm: Seq<(Seq<char>, ValModel)>,
    k: Seq<char>,
    c: ValModel,
)
    requires
        out is Object,
        fm.len() == f0.len(),
        forall|t: int| 0 <= t < f0.len() ==> #[trigger] fm[t] == (f0[t].0@, f0[t].1@),
        out->Object_0@.len() == f0.len() + 1,
        forall|t: int| 0 <= t < f0.len() ==> #[trigger] out->Object_0@[t] == f0[t],
        out->Object_0@[f0.len() as int].0@ == k,
        out->Object_0@[f0.len() as int].1@ == c,
    ensures
        out@ == ValModel::Object(fm.push((k, c))),
{
    assert(out@ is Object) by {
        crate::value::lemma_object_model(out, 0);
    }
    assert(out@->Object_0 =~= fm.push((k, c))) by {
        crate::value::lemma_object_model(out, 0);
        assert forall|t: int| 0 <= t < f0.len() + 1 implies #[trigger] out@->Object_0[t]
            == fm.push((k, c))[t] by {
            crate::value::lemma_object_model(out, t);
            if t < f0.len() {
                assert(out->Object_0@[t] == f0[t]);
                assert(fm.push((k, c))[t] == fm[t]);
            } else {
                assert(fm.push((k, c))[t] == (k, c));
            }
        }
    }
}

/// The model of an object after replacing the value of one field.
proof fn lemma_object_update(
    out: Value,
    f0: Seq<(String, Value)>,
    fm: Seq<(Seq<char>, ValModel)>,
    j: int,
    k: Seq<char>,
    c: ValModel,
)
    requires
        out is Object,
        fm.len() == f0.len(),
        0 <= j < f0.len(),
        forall|t: int| 0 <= t < f0.len() ==> #[trigger] fm[t] == (f0[t].0@, f0[t].1@),
        out->Object_0@.len() == f0.len(),
        forall|t: int| 0 <= t < f0.len() && t != j ==> #[trigger] out->Object_0@[t] == f0[t],
        out->Object_0@[j].0@ == fm[j].0,
        out->Object_0@[j].1@ == c,
        k == fm[j].0,
    ensures
        out@ == ValModel::Object(fm.update(j, (k, c))),
{
    assert(out@ is Object) by {
        crate::value::lemma_object_model(out, 0);
    }
    assert(out@->Object_0 =~= fm.update(j, (k, c))) by {
        crate::value::lemma_object_model(out, 0);
        assert forall|t: int| 0 <= t < f0.len() implies #[trigger] out@->Object_0[t] == fm.update(
            j,
            (k, c),
        )[t] by {
            crate::value::lemma_object_model(out, t);
            if t != j {
                assert(out->Object_0@[t] == f0[t]);
                assert(fm.update(j, (k, c))[t] == fm[t]);
            }
        }
    }
}

/// The model of an array after appending one element.
proof fn lemma_array_push(out: Value, i0: Seq<Value>, im: Seq<ValModel>, c: ValModel)
    requires
        out is Array,
        im.len() == i0.len(),
        forall|t: int| 0 <= t < i0.len() ==> #[trigger] im[t] == i0[t]@,
        out->Array_0@.len() == i0.len() + 1,
        forall|t: int| 0 <= t < i0.len() ==> #[trigger] out->Array_0@[t] == i0[t],
        out->Array_0@[i0.len() as int]@ == c,
    ensures
        out@ == ValModel::Array(im.push(c)),
{
    assert(out@ is Array) by {
        crate::value::lemma_array_model(out, 0);
    }
    assert(out@->Array_0 =~= im.push(c)) by {
        crate::value::lemma_array_model(out, 0);
        assert forall|t: int| 0 <= t < i0.len() + 1 implies #[trigger] out@->Array_0[t] == im.push(
            c,
        )[t] by {
            crate::value::lemma_array_model(out, t);
            if t < i0.len() {
                assert(out->Array_0@[t] == i0[t]);
                assert(im.push(c)[t] == im[t]);
            } else {
                assert(im.push(c)[t] == c);
            }
        }
    }
}

/// The model of an array after replacing one element.
proof fn lemma_array_update(out: Value, i0: Seq<Value>, im: Seq<ValModel>, j: int, c: ValModel)
    requires
        out is Array,
        im.len() == i0.len(),
        0 <= j < i0.len(),
        forall|t: int| 0 <= t < i0.len() ==> #[trigger] im[t] == i0[t]@,
        out->Array_0@.len() == i0.len(),
        forall|t: int| 0 <= t < i0.len() && t != j ==> #[trigger] out->Array_0@[t] == i0[t],
        out->Array_0@[j]@ == c,
    ensures
        out@ == ValModel::Array(im.update(j, c)),
{
    assert(out@ is Array) by {
        crate::value::lemma_array_model(out, 0);
    }
    assert(out@->Array_0 =~= im.update(j, c)) by {
        crate::value::lemma_array_model(out, 0);
        assert forall|t: int| 0 <= t < i0.len() implies #[trigger] out@->Array_0[t] == im.update(
            j,
            c,
        )[t] by {
            crate::value::lemma_array_model(out, t);
            if t != j {
                assert(out->Array_0@[t] == i0[t]);
                assert(im.update(j, c)[t] == im[t]);
            }
        }
    }
}

/// The model of raw (path, value) line pairs.
pub open spec fn pairs_model(v: Seq<(String, Option<String>)>) -> Seq<
    (Seq<char>, Option<Seq<char>>),
> {
    v.map_values(
        |p: (String, Option<String>)|
            (
                p.0@,
                match p.1 {
                    Some(s) => Some(s@),
                    None => None::<Seq<char>>,
                },
            ),
    )
}

/// Processing one line against the tree built so far: parse the path,
/// demand a value, parse the literal, insert the leaf.
pub open spec fn spec_apply_line(acc: ValModel, line: (Seq<char>, Option<Seq<char>>)) -> Result<
    ValModel,
    UnflattenError,
> {
    match spec_parse_path(line.0) {
        None => Err(UnflattenError::Path(PathParseError::Malformed)),
        Some(segs) => {
            if segs.len() == 0 {
                Err(UnflattenError::Path(PathParseError::Malformed))
            } else {
                match line.1 {
                    None => Err(UnflattenError::MissingValue),
                    Some(vt) => {
                        match spec_parse_literal(vt) {
                            None => Err(UnflattenError::LiteralParse),
                            Some(leaf) => spec_insert(acc, segs, 0, leaf),
                        }
                    },
                }
            }
        },
    }
}

/// Folding the lines, in input order, over the starting root.
pub open spec fn spec_unflatten_from(
    acc: ValModel,
    pairs: Seq<(Seq<char>, Option<Seq<char>>)>,
    i: int,
) -> Result<ValModel, UnflattenError>
    decreases pairs.len() - i,
{
    if i < 0 || i >= pairs.len() {
        Ok(acc)
    } else {
        match spec_apply_line(acc, pairs[i]) {
            Ok(a2) => spec_unflatten_from(a2, pairs, i + 1),
            Err(e) => Err(e),
        }
    }
}

/// The root shape, decided by the first line's first segment alone: an
/// `Index` roots an array, anything else an object.
pub open spec fn spec_root(pairs: Seq<(Seq<char>, Option<Seq<char>>)>) -> ValModel {
    if pairs.len() == 0 {
        ValModel::Object(Seq::empty())
    } else {
        match spec_parse_path(pairs[0].0) {
            Some(segs) => {
                if segs.len() >= 1 && segs[0] is Index {
                    ValModel::Array(Seq::empty())
                } else {
                    ValModel::Object(Seq::empty())
                }
            },
            None => ValModel::Object(Seq::empty()),
        }
    }
}

/// The whole unflatten operation over raw (path, value) pairs.
pub open spec fn spec_unflatten(pairs: Seq<(Seq<char>, Option<Seq<char>>)>) -> Result<
    ValModel,
    UnflattenError,
> {
    spec_unflatten_from(spec_root(pairs), pairs, 0)
}

/// Rebuilds a tree from raw (path, value) pairs, in input order. The
/// first line decides the root's shape; later lines must agree with the
/// containers already built.
pub fn unflatten(lines: &Vec<(String, Option<String>)>) -> (r: Result<Value, UnflattenError>)
    ensures
        match r {
            Ok(v) => spec_unflatten(pairs_model(lines@)) == Ok::<ValModel, UnflattenError>(v@),
            Err(e) => spec_unflatten(pairs_model(lines@)) == Err::<ValModel, UnflattenError>(e),
        },
{
    let ghost pm = pairs_model(lines@);
    let mut root_is_array = false;
    if lines.len() > 0 {
        proof {
            assert(pm[0].0 == lines@[0].0@);
        }
        match parse_path(lines[0].0.as_str()) {
            Ok(segs) => {
                if segs.len() >= 1 {
                    root_is_array = match &segs[0] {
                        PathSegment::Index(_) => true,
                        PathSegment::Name(_) => false,
                    };
                    proof {
                        assert(path_model(segs@)[0] == segs@[0]@);
                    }
                }
            },
            Err(_) => {},
        }
    }
    let mut acc = if root_is_array {
        Value::Array(Vec::new())
    } else {
        Value::Object(Vec::new())
    };
    proof {
        if root_is_array {
            crate::value::lemma_array_model(acc, 0);
            assert(acc@->Array_0 =~= Seq::<ValModel>::empty());
            assert(acc@ == ValModel::Array(Seq::empty()));
        } else {
            crate::value::lemma_object_model(acc, 0);
            assert(acc@->Object_0 =~= Seq::<(Seq<char>, ValModel)>::empty());
            assert(acc@ == ValModel::Object(Seq::empty()));
        }
        assert(acc@ == spec_root(pm));
    }
    let mut i: usize = 0;
    while i < lines.len()
        invariant
            pm == pairs_model(lines@),
            pm.len() == lines@.len(),
            i <= lines.len(),
            spec_unflatten(pm) == spec_unflatten_from(acc@, pm, i as int),
        decreases lines.len() - i,
    {
        proof {
            assert(pm[i as int] == (
                lines@[i as int].0@,
                match lines@[i as int].1 {
                    Some(s) => Some(s@),
                    None => None::<Seq<char>>,
                },
            ));
        }
        let segs = match parse_path(lines[i].0.as_str()) {
            Ok(s) => s,
            Err(e) => {
                proof {
                    assert(spec_unflatten_from(acc@, pm, i as int) == Err::<
                        ValModel,
                        UnflattenError,
                    >(UnflattenError::Path(e)));
                }
                return Err(UnflattenError::Path(e));
            },
        };
        if segs.len() == 0 {
            proof {
                assert(spec_unflatten_from(acc@, pm, i as int) == Err::<ValModel, UnflattenError>(
                    UnflattenError::Path(PathParseError::Malformed),
                ));
            }
            return Err(UnflattenError::Path(PathParseError::Malformed));
        }
        let rawval = match &lines[i].1 {
            Some(v) => v,
            None => {
                proof {
                    assert(spec_unflatten_from(acc@, pm, i as int) == Err::<
                        ValModel,
                        UnflattenError,
                    >(UnflattenError::MissingValue));
                }
                return Err(UnflattenError::MissingValue);
            },
        };
        let leaf = match parse_literal(rawval.as_str()) {
            Some(v) => v,
            None => {
                proof {
                    assert(spec_unflatten_from(acc@, pm, i as int) == Err::<
                        ValModel,
                        UnflattenError,
                    >(UnflattenError::LiteralParse));
                }
                return Err(UnflattenError::LiteralParse);
            },
        };
        let ghost pre = acc@;
        acc = match insert_value(acc, &segs, 0, leaf) {
            Ok(v) => v,
            Err(e) => {
                proof {
                    assert(spec_apply_line(pre, pm[i as int]) == Err::<ValModel, UnflattenError>(
                        e,
                    ));
                    assert(spec_unflatten_from(pre, pm, i as int) == Err::<
                        ValModel,
                        UnflattenError,
                    >(e));
                }
                return Err(e);
            },
        };
        proof {
            assert(spec_apply_line(pre, pm[i as int]) == Ok::<ValModel, UnflattenError>(acc@));
            assert(spec_unflatten_from(pre, pm, i as int) == spec_unflatten_from(
                acc@,
                pm,
                i + 1,
            ));
        }
        i = i + 1;
    }
    proof {
        assert(spec_unflatten_from(acc@, pm, lines@.len() as int) == Ok::<
            ValModel,
            UnflattenError,
        >(acc@));
    }
    Ok(acc)
}

/// The model of raw text lines after splitting each at its first `=`.
pub open spec fn spec_split_lines(lines: Seq<String>) -> Seq<(Seq<char>, Option<Seq<char>>)> {
    lines.map_values(|s: String| spec_pair_or_single(s@, '='))
}

/// Splits each raw text line at its first `=` (trimming both sides) and
/// rebuilds the tree from the resulting pairs.
pub fn unflatten_lines(lines: &Vec<String>) -> (r: Result<Value, UnflattenError>)
    ensures
        match r {
            Ok(v) => spec_unflatten(spec_split_lines(lines@)) == Ok::<ValModel, UnflattenError>(
                v@,
            ),
            Err(e) => spec_unflatten(spec_split_lines(lines@)) == Err::<ValModel, UnflattenError>(
                e,
            ),
        },
{
    let mut pairs: Vec<(String, Option<String>)> = Vec::new();
    let mut i: usize = 0;
    while i < lines.len()
        invariant
            i <= lines.len(),
            pairs@.len() == i,
            forall|t: int|
                0 <= t < i ==> pairs_model(pairs@)[t] == spec_split_lines(lines@)[t],
        decreases lines.len() - i,
    {
        let p = pair_or_single(lines[i].as_str(), '=');
        let ghost prev = pairs@;
        pairs.push(p);
        proof {
            assert(spec_split_lines(lines@)[i as int] == spec_pair_or_single(
                lines@[i as int]@,
                '=',
            ));
            assert(pairs_model(pairs@)[i as int] == (
                p.0@,
                match p.1 {
                    Some(s) => Some(s@),
                    None => None::<Seq<char>>,
                },
            ));
            assert(pairs_model(pairs@)[i as int] == spec_split_lines(lines@)[i as int]);
            assert(forall|t: int|
                0 <= t < i ==> pairs_model(pairs@)[t] == pairs_model(prev)[t]);
        }
        i = i + 1;
    }
    proof {
        assert(pairs_model(pairs@) =~= spec_split_lines(lines@));
    }
    unflatten(&pairs)
}

/// A string without `"`, `\` or newline is its own escaped form.
pub proof fn lemma_escape_identity(k: Seq<char>)
    requires
        forall|i: int| 0 <= i < k.len() ==> k[i] != '"' && k[i] != '\\' && k[i] != '\n',
    ensures
        crate::escape::escape_seq(k) == k,
    decreases k.len(),
{
    if k.len() == 0 {
        assert(crate::escape::escape_seq(k) =~= k);
    } else {
        lemma_escape_identity(k.drop_first());
        assert(crate::escape::escape_seq(k) =~= seq![k[0]] + k.drop_first());
        assert(seq![k[0]] + k.drop_first() =~= k);
    }
}

/// A string without `"` or `\` is a well-formed quoted body.
pub proof fn lemma_body_ok_plain(k: Seq<char>)
    requires
        forall|i: int| 0 <= i < k.len() ==> k[i] != '"' && k[i] != '\\',
    ensures
        crate::path_segments::body_ok(k),
    decreases k.len(),
{
    if k.len() > 0 {
        lemma_body_ok_plain(k.drop_first());
    }
}

/// A numeric literal starts with a minus or a digit and ends with a digit.
pub proof fn lemma_number_edges(s: Seq<char>)
    requires
        crate::value::is_number_lit(s),
    ensures
        s.len() >= 1,
        s[0] == '-' || crate::path_segments::is_digit(s[0]),
        crate::path_segments::is_digit(s[s.len() - 1]),
{
    let i0: int = if s.len() > 0 && s[0] == '-' {
        1
    } else {
        0
    };
    crate::path_segments::lemma_digit_run(s, i0);
    assert(s.len() >= 1);
    if i0 == 0 {
        assert(crate::path_segments::is_digit(s[0]));
    }
    let p = crate::value::num_int_end(s);
    let f = crate::value::num_frac_end(s);
    if p < s.len() && s[p] == '.' {
        crate::path_segments::lemma_digit_run(s, p + 1);
    }
    if f < s.len() && (s[f] == 'e' || s[f] == 'E') {
        let q = crate::value::num_exp_digits_start(s);
        crate::path_segments::lemma_digit_run(s, q);
        assert(crate::path_segments::is_digit(s[s.len() - 1]));
    } else {
        assert(f == s.len());
        if p < s.len() && s[p] == '.' {
            assert(crate::path_segments::is_digit(s[s.len() - 1]));
        } else {
            assert(p == s.len());
            assert(crate::path_segments::is_digit(s[s.len() - 1]));
        }
    }
}

pub proof fn lemma_find_char_first(s: Seq<char>, c: char, pos: int, k: int)
    requires
        0 <= pos <= k < s.len(),
        s[k] == c,
        forall|j: int| pos <= j < k ==> s[j] != c,
    ensures
        find_char(s, c, pos) == k,
    decreases k - pos,
{
    if pos < k {
        lemma_find_char_first(s, c, pos + 1, k);
    }
}

/// Splitting a rendered line `path<space>=<space>literal` at its first
/// `=` recovers the path and the literal exactly, when the path holds no
/// `=` and neither side starts or ends with whitespace.
pub proof fn lemma_split_rendered_line(tau: Seq<char>, lit: Seq<char>)
    requires
        tau.len() >= 1,
        lit.len() >= 1,
        forall|j: int| 0 <= j < tau.len() ==> tau[j] != '=',
        !is_ws(tau[0]),
        !is_ws(tau[tau.len() - 1]),
        !is_ws(lit[0]),
        !is_ws(lit[lit.len() - 1]),
    ensures
        spec_pair_or_single(tau + seq![' ', '=', ' '] + lit, '=') == (tau, Some(lit)),
{
    let line = tau + seq![' ', '=', ' '] + lit;
    let tl = tau.len() as int;
    assert(line.len() == tl + 3 + lit.len());
    assert forall|j: int| 0 <= j < line.len() implies #[trigger] line[j] == (if j < tl {
        tau[j]
    } else if j == tl {
        ' '
    } else if j == tl + 1 {
        '='
    } else if j == tl + 2 {
        ' '
    } else {
        lit[j - tl - 3]
    }) by {
        assert(line[j] == ((tau + seq![' ', '=', ' ']) + lit)[j]);
    }
    assert(line[tl + 1] == '=');
    assert(forall|j: int| 0 <= j < tl + 1 ==> line[j] != '=');
    lemma_find_char_first(line, '=', 0, tl + 1);
    let left = line.subrange(0, tl + 1);
    let right = line.subrange(tl + 2, line.len() as int);
    assert(left =~= tau + seq![' ']);
    assert(right =~= seq![' '] + lit);
    // trimming the left side drops exactly the separator's leading space
    assert(!is_ws(left[0]));
    assert(ws_run(left, 0) == 0);
    assert(is_ws(left[tl]));
    assert(ws_run_back(left, tl + 1) == 1 + ws_run_back(left, tl));
    assert(!is_ws(left[tl - 1]));
    assert(ws_run_back(left, tl) == 0);
    assert(spec_trim(left) =~= tau);
    // trimming the right side drops exactly the separator's trailing space
    assert(is_ws(right[0]));
    assert(!is_ws(right[1]));
    assert(ws_run(right, 1) == 0);
    assert(ws_run(right, 0) == 1);
    assert(!is_ws(right[right.len() - 1]));
    assert(ws_run_back(right, right.len() as int) == 0);
    assert(right.len() > 1);
    assert(spec_trim(right) =~= lit);
}

/// A key that the text round trip preserves: a quoted key holds none of
/// the characters the escape transform rewrites and no `=` (the line
/// splits at its first `=`); a bare key holds no `[`.
pub open spec fn key_ok(k: Seq<char>) -> bool {
    if crate::path_segments::key_quoted(k) {
        forall|i: int|
            0 <= i < k.len() ==> k[i] != '"' && k[i] != '\\' && k[i] != '\n' && k[i] != '='
    } else {
        forall|i: int| 0 <= i < k.len() ==> k[i] != '['
    }
}

/// The rendered text of a key as a whole path: non-empty, free of `=`
/// and of whitespace at its ends, and parsing back to the key.
pub proof fn lemma_key_text(k: Seq<char>)
    requires
        key_ok(k),
    ensures
        crate::path_segments::fmt_segment(SegModel::Name(k)).len() >= 1,
        forall|j: int|
            0 <= j < crate::path_segments::fmt_segment(SegModel::Name(k)).len()
                ==> crate::path_segments::fmt_segment(SegModel::Name(k))[j] != '=',
        !is_ws(crate::path_segments::fmt_segment(SegModel::Name(k))[0]),
        !is_ws(
            crate::path_segments::fmt_segment(SegModel::Name(k))[crate::path_segments::fmt_segment(
                SegModel::Name(k),
            ).len() - 1],
        ),
        spec_parse_path(crate::path_segments::fmt_segment(SegModel::Name(k))) == Some(
            seq![SegModel::Name(k)],
        ),
        crate::flatten::key_render(Seq::empty(), k) == crate::path_segments::fmt_segment(
            SegModel::Name(k),
        ),
{
    let m = SegModel::Name(k);
    let tau = crate::path_segments::fmt_segment(m);
    if crate::path_segments::key_quoted(k) {
        assert(tau == seq!['[', '"'] + k + seq!['"', ']']);
        assert(tau.len() == k.len() + 4);
        assert forall|j: int| 0 <= j < tau.len() implies #[trigger] tau[j] != '=' by {
            if 2 <= j < k.len() + 2 {
                assert(tau[j] == k[j - 2]);
            }
        }
        assert(tau[0] == '[');
        assert(tau[tau.len() - 1] == ']');
        lemma_body_ok_plain(k);
        assert(crate::path_segments::seg_wf(m));
        crate::path_segments::lemma_parse_format_path(seq![m]);
        assert(crate::path_segments::fmt_path_from(seq![m], 1) =~= Seq::<char>::empty());
        assert(crate::path_segments::spec_format_path(seq![m]) =~= tau);
        lemma_escape_identity(k);
        assert(crate::flatten::key_render(Seq::empty(), k) =~= tau);
    } else {
        assert(!crate::escape::needs_quoting_seq(k));
        assert(k.len() >= 1);
        assert(tau == k);
        assert(crate::escape::is_quote_trigger('='));
        assert forall|j: int| 0 <= j < k.len() implies #[trigger] k[j] != '=' && !is_ws(k[j])
            && k[j] != '.' by {
            assert(!crate::escape::is_quote_trigger(k[j]));
        }
        assert(crate::path_segments::seg_wf(m));
        crate::path_segments::lemma_parse_format_path(seq![m]);
        assert(crate::path_segments::fmt_path_from(seq![m], 1) =~= Seq::<char>::empty());
        assert(crate::path_segments::spec_format_path(seq![m]) =~= tau);
        assert(crate::flatten::dot_sep(Seq::empty(), seq!['.']) =~= Seq::<char>::empty());
        assert(crate::flatten::key_render(Seq::empty(), k) =~= tau);
    }
}

/// A leaf's literal text is non-empty and free of whitespace at its ends.
pub proof fn lemma_lit_edges(v: ValModel)
    requires
        crate::value::leaf_wf(v),
        !(v is Array),
        !(v is Object),
    ensures
        crate::value::lit_text(v).len() >= 1,
        !is_ws(crate::value::lit_text(v)[0]),
        !is_ws(crate::value::lit_text(v)[crate::value::lit_text(v).len() - 1]),
{
    let lit = crate::value::lit_text(v);
    match v {
        ValModel::Null => {
            assert(lit[0] == 'n');
            assert(lit[lit.len() - 1] == 'l');
        },
        ValModel::Bool(b) => {
            if b {
                assert(lit[0] == 't');
                assert(lit[lit.len() - 1] == 'e');
            } else {
                assert(lit[0] == 'f');
                assert(lit[lit.len() - 1] == 'e');
            }
        },
        ValModel::Number(t) => {
            lemma_number_edges(t);
        },
        ValModel::Text(t) => {
            assert(lit == seq!['"'] + crate::escape::escape_seq(t) + seq!['"']);
            assert(lit[0] == '"');
            assert(lit[lit.len() - 1] == '"');
        },
        _ => {
            assert(false);
        },
    }
}

/// The rendered text of an index as a whole path: non-empty, free of `=`
/// and of whitespace at its ends, and parsing back to the index.
pub proof fn lemma_index_text(ix: int)
    requires
        0 <= ix <= usize::MAX as int,
    ensures
        crate::path_segments::fmt_segment(SegModel::Index(ix)).len() >= 3,
        forall|j: int|
            0 <= j < crate::path_segments::fmt_segment(SegModel::Index(ix)).len()
                ==> crate::path_segments::fmt_segment(SegModel::Index(ix))[j] != '=',
        !is_ws(crate::path_segments::fmt_segment(SegModel::Index(ix))[0]),
        !is_ws(
            crate::path_segments::fmt_segment(
                SegModel::Index(ix),
            )[crate::path_segments::fmt_segment(SegModel::Index(ix)).len() - 1],
        ),
        spec_parse_path(crate::path_segments::fmt_segment(SegModel::Index(ix))) == Some(
            seq![SegModel::Index(ix)],
        ),
        crate::flatten::index_render(Seq::empty(), ix) == crate::path_segments::fmt_segment(
            SegModel::Index(ix),
        ),
{
    let m = SegModel::Index(ix);
    let tau = crate::path_segments::fmt_segment(m);
    let ds = crate::path_segments::dec_rep(ix);
    crate::path_segments::lemma_dec_rep(ix);
    assert(tau == seq!['['] + ds + seq![']']);
    assert(tau.len() == ds.len() + 2);
    assert forall|j: int| 0 <= j < tau.len() implies #[trigger] tau[j] != '=' && (j == 0 || j
        == tau.len() - 1 || crate::path_segments::is_digit(tau[j])) by {
        if 1 <= j < ds.len() + 1 {
            assert(tau[j] == ds[j - 1]);
        }
    }
    assert(tau[0] == '[');
    assert(tau[tau.len() - 1] == ']');
    assert(crate::path_segments::seg_wf(m));
    crate::path_segments::lemma_parse_format_path(seq![m]);
    assert(crate::path_segments::fmt_path_from(seq![m], 1) =~= Seq::<char>::empty());
    assert(crate::path_segments::spec_format_path(seq![m]) =~= tau);
    assert(crate::flatten::index_render(Seq::empty(), ix) =~= tau);
}

/// The subtree at a path: follows each segment through the matching
/// container kind, by key for objects and by position for arrays.
pub open spec fn get_at(a: ValModel, path: Seq<SegModel>) -> Option<ValModel>
    decreases path.len(),
{
    if path.len() == 0 {
        Some(a)
    } else {
        match (a, path[0]) {
            (ValModel::Object(fields), SegModel::Name(k)) => {
                let j = find_key(fields, k);
                if j >= 0 {
                    get_at(fields[j].1, path.drop_first())
                } else {
                    None
                }
            },
            (ValModel::Array(items), SegModel::Index(ix)) => {
                if 0 <= ix < items.len() {
                    get_at(items[ix], path.drop_first())
                } else {
                    None
                }
            },
            _ => None,
        }
    }
}

/// The tree with the subtree at a path replaced (meaningful only where
/// `get_at` finds one).
pub open spec fn set_at(a: ValModel, path: Seq<SegModel>, w: ValModel) -> ValModel
    decreases path.len(),
{
    if path.len() == 0 {
        w
    } else {
        match (a, path[0]) {
            (ValModel::Object(fields), SegModel::Name(k)) => {
                let j = find_key(fields, k);
                if j >= 0 {
                    ValModel::Object(
                        fields.update(j, (k, set_at(fields[j].1, path.drop_first(), w))),
                    )
                } else {
                    a
                }
            },
            (ValModel::Array(items), SegModel::Index(ix)) => {
                if 0 <= ix < items.len() {
                    ValModel::Array(items.update(ix, set_at(items[ix], path.drop_first(), w)))
                } else {
                    a
                }
            },
            _ => a,
        }
    }
}

/// A value wrapped in a chain of singleton containers, one per segment:
/// the shape the unflattener builds when a whole path suffix is fresh.
pub open spec fn nest(path: Seq<SegModel>, w: ValModel) -> ValModel
    decreases path.len(),
{
    if path.len() == 0 {
        w
    } else {
        match path[0] {
            SegModel::Name(k) => ValModel::Object(seq![(k, nest(path.drop_first(), w))]),
            SegModel::Index(_) => ValModel::Array(seq![nest(path.drop_first(), w)]),
        }
    }
}

/// A container with one more child under the given segment.
pub open spec fn push_under(p: ValModel, seg: SegModel, w: ValModel) -> ValModel {
    match (p, seg) {
        (ValModel::Object(fields), SegModel::Name(k)) => ValModel::Object(fields.push((k, w))),
        (ValModel::Array(items), SegModel::Index(_)) => ValModel::Array(items.push(w)),
        _ => p,
    }
}

/// The segment under which the unflattener can add a fresh child to `p`:
/// an unused key, or the array's current length as index.
pub open spec fn appendable(p: ValModel, seg: SegModel) -> bool {
    match (p, seg) {
        (ValModel::Object(fields), SegModel::Name(k)) => find_key(fields, k) == -1,
        (ValModel::Array(items), SegModel::Index(ix)) => ix == items.len(),
        _ => false,
    }
}

/// Every index in a fresh path suffix addresses the first entry of a
/// newly created array.
pub open spec fn chain_zeros(path: Seq<SegModel>) -> bool {
    forall|t: int| 0 <= t < path.len() ==> (path[t] is Index ==> path[t]->Index_0 == 0)
}

/// Wrapping one more segment into the chain, from either end.
pub proof fn lemma_nest_snoc(path: Seq<SegModel>, seg: SegModel, w: ValModel)
    ensures
        nest(path.push(seg), w) == nest(
            path,
            match seg {
                SegModel::Name(k) => ValModel::Object(seq![(k, w)]),
                SegModel::Index(_) => ValModel::Array(seq![w]),
            },
        ),
    decreases path.len(),
{
    if path.len() == 0 {
        assert(path.push(seg).drop_first() =~= Seq::<SegModel>::empty());
        assert(path.push(seg)[0] == seg);
    } else {
        assert(path.push(seg).drop_first() =~= path.drop_first().push(seg));
        lemma_nest_snoc(path.drop_first(), seg, w);
    }
}

/// Reading a longer path goes through the replaced subtree.
pub proof fn lemma_get_of_set(a: ValModel, path: Seq<SegModel>, w: ValModel, rest: Seq<SegModel>)
    requires
        get_at(a, path) is Some,
    ensures
        get_at(set_at(a, path, w), path + rest) == get_at(w, rest),
    decreases path.len(),
{
    if path.len() == 0 {
        assert(path + rest =~= rest);
        assert(set_at(a, path, w) == w);
    } else {
        assert((path + rest)[0] == path[0]);
        assert((path + rest).drop_first() =~= path.drop_first() + rest);
        match (a, path[0]) {
            (ValModel::Object(fields), SegModel::Name(k)) => {
                let j = find_key(fields, k);
                lemma_find_key_props(fields, k);
                let nf = fields.update(j, (k, set_at(fields[j].1, path.drop_first(), w)));
                lemma_find_key_same(fields, nf, k, j);
                lemma_get_of_set(fields[j].1, path.drop_first(), w, rest);
            },
            (ValModel::Array(items), SegModel::Index(ix)) => {
                lemma_get_of_set(items[ix], path.drop_first(), w, rest);
            },
            _ => {
                assert(false);
            },
        }
    }
}

/// Writing along a longer path factors through the subtree.
pub proof fn lemma_set_of_set(
    a: ValModel,
    path: Seq<SegModel>,
    w: ValModel,
    rest: Seq<SegModel>,
    w2: ValModel,
)
    requires
        get_at(a, path) is Some,
    ensures
        set_at(set_at(a, path, w), path + rest, w2) == set_at(a, path, set_at(w, rest, w2)),
    decreases path.len(),
{
    if path.len() == 0 {
        assert(path + rest =~= rest);
    } else {
        assert((path + rest)[0] == path[0]);
        assert((path + rest).drop_first() =~= path.drop_first() + rest);
        match (a, path[0]) {
            (ValModel::Object(fields), SegModel::Name(k)) => {
                let j = find_key(fields, k);
                lemma_find_key_props(fields, k);
                let nf = fields.update(j, (k, set_at(fields[j].1, path.drop_first(), w)));
                lemma_find_key_same(fields, nf, k, j);
                lemma_set_of_set(fields[j].1, path.drop_first(), w, rest, w2);
                assert(nf.update(
                    j,
                    (k, set_at(set_at(fields[j].1, path.drop_first(), w), path.drop_first() + rest, w2)),
                ) =~= fields.update(
                    j,
                    (k, set_at(fields[j].1, path.drop_first(), set_at(w, rest, w2))),
                ));
            },
            (ValModel::Array(items), SegModel::Index(ix)) => {
                lemma_set_of_set(items[ix], path.drop_first(), w, rest, w2);
                let ni = items.update(ix, set_at(items[ix], path.drop_first(), w));
                assert(ni.update(
                    ix,
                    set_at(set_at(items[ix], path.drop_first(), w), path.drop_first() + rest, w2),
                ) =~= items.update(ix, set_at(items[ix], path.drop_first(), set_at(w, rest, w2))));
            },
            _ => {
                assert(false);
            },
        }
    }
}

/// Where `find_key` succeeds it names a matching field, and the first one.
pub proof fn lemma_find_key_props(fields: Seq<(Seq<char>, ValModel)>, k: Seq<char>)
    ensures
        -1 <= find_key(fields, k) < fields.len(),
        find_key(fields, k) >= 0 ==> fields[find_key(fields, k)].0 == k && (forall|t: int|
            0 <= t < find_key(fields, k) ==> fields[t].0 != k),
        find_key(fields, k) == -1 ==> forall|t: int| 0 <= t < fields.len() ==> fields[t].0 != k,
    decreases fields.len(),
{
    if fields.len() > 0 && fields[0].0 != k {
        lemma_find_key_props(fields.drop_first(), k);
        assert forall|t: int| 0 <= t < fields.len() && find_key(fields, k) == -1 implies fields[t].0
            != k by {
            if t > 0 {
                assert(fields.drop_first()[t - 1] == fields[t]);
            }
        }
        if find_key(fields.drop_first(), k) >= 0 {
            assert forall|t: int| 0 <= t < find_key(fields, k) implies fields[t].0 != k by {
                if t > 0 {
                    assert(fields.drop_first()[t - 1] == fields[t]);
                }
            }
        }
    }
}

/// A lookup is unchanged by replacing the value of the found field.
pub proof fn lemma_find_key_same(
    fields: Seq<(Seq<char>, ValModel)>,
    nf: Seq<(Seq<char>, ValModel)>,
    k: Seq<char>,
    j: int,
)
    requires
        0 <= j < fields.len(),
        nf.len() == fields.len(),
        nf[j].0 == fields[j].0,
        forall|t: int| 0 <= t < fields.len() && t != j ==> nf[t] == fields[t],
        find_key(fields, k) == j,
    ensures
        find_key(nf, k) == j,
{
    lemma_find_key_props(fields, k);
    assert forall|t: int| 0 <= t < j implies nf[t].0 != k by {
        assert(nf[t] == fields[t]);
    }
    lemma_find_key_at(nf, k, j);
}

/// Walking a fresh chain reaches the wrapped value.
pub proof fn lemma_get_nest(path: Seq<SegModel>, w: ValModel)
    requires
        chain_zeros(path),
    ensures
        get_at(nest(path, w), path) == Some(w),
    decreases path.len(),
{
    if path.len() > 0 {
        assert(chain_zeros(path.drop_first())) by {
            assert(forall|t: int|
                0 <= t < path.drop_first().len() ==> path.drop_first()[t] == path[t + 1]);
        }
        lemma_get_nest(path.drop_first(), w);
        match path[0] {
            SegModel::Name(k) => {
                assert(find_key(seq![(k, nest(path.drop_first(), w))], k) == 0);
            },
            SegModel::Index(ix) => {
                assert(ix == 0);
            },
        }
    }
}

/// Replacing the value at the end of a fresh chain rebuilds the chain.
pub proof fn lemma_set_nest(path: Seq<SegModel>, w: ValModel, w2: ValModel)
    requires
        chain_zeros(path),
    ensures
        set_at(nest(path, w), path, w2) == nest(path, w2),
    decreases path.len(),
{
    if path.len() > 0 {
        assert(chain_zeros(path.drop_first())) by {
            assert(forall|t: int|
                0 <= t < path.drop_first().len() ==> path.drop_first()[t] == path[t + 1]);
        }
        lemma_set_nest(path.drop_first(), w, w2);
        match path[0] {
            SegModel::Name(k) => {
                let fields = seq![(k, nest(path.drop_first(), w))];
                assert(find_key(fields, k) == 0);
                assert(fields.update(0, (k, nest(path.drop_first(), w2))) =~= seq![
                    (k, nest(path.drop_first(), w2)),
                ]);
            },
            SegModel::Index(ix) => {
                assert(ix == 0);
                let items = seq![nest(path.drop_first(), w)];
                assert(items.update(0, nest(path.drop_first(), w2)) =~= seq![
                    nest(path.drop_first(), w2),
                ]);
            },
        }
    }
}

/// Inserting along an entirely fresh path builds the singleton chain.
proof fn lemma_insert_fresh(path: Seq<SegModel>, at: int, leaf: ValModel)
    requires
        0 <= at < path.len(),
    ensures
        spec_insert(
            match path[at] {
                SegModel::Name(_) => ValModel::Object(Seq::empty()),
                SegModel::Index(_) => ValModel::Array(Seq::empty()),
            },
            path,
            at,
            leaf,
        ) == Ok::<ValModel, UnflattenError>(nest(path.subrange(at, path.len() as int), leaf)),
    decreases path.len() - at,
{
    let fresh = match path[at] {
        SegModel::Name(_) => ValModel::Object(Seq::empty()),
        SegModel::Index(_) => ValModel::Array(Seq::empty()),
    };
    let tail = path.subrange(at, path.len() as int);
    assert(tail[0] == path[at]);
    assert(tail.drop_first() =~= path.subrange(at + 1, path.len() as int));
    match path[at] {
        SegModel::Name(k) => {
            assert(find_key(Seq::empty(), k) == -1);
        },
        SegModel::Index(_) => {},
    }
    if at == path.len() - 1 {
        assert(tail.drop_first() =~= Seq::<SegModel>::empty());
        match path[at] {
            SegModel::Name(k) => {
                assert(Seq::<(Seq<char>, ValModel)>::empty().push((k, leaf)) =~= seq![(k, leaf)]);
            },
            SegModel::Index(_) => {
                assert(Seq::<ValModel>::empty().push(leaf) =~= seq![leaf]);
            },
        }
    } else {
        lemma_insert_fresh(path, at + 1, leaf);
        match path[at] {
            SegModel::Name(k) => {
                assert(Seq::<(Seq<char>, ValModel)>::empty().push(
                    (k, nest(path.subrange(at + 1, path.len() as int), leaf)),
                ) =~= seq![(k, nest(path.subrange(at + 1, path.len() as int), leaf))]);
            },
            SegModel::Index(_) => {
                assert(Seq::<ValModel>::empty().push(
                    nest(path.subrange(at + 1, path.len() as int), leaf),
                ) =~= seq![nest(path.subrange(at + 1, path.len() as int), leaf)]);
            },
        }
    }
}

/// Inserting a leaf whose path runs through existing containers up to
/// `e`, takes a free slot there, and is fresh below: the leaf lands in a
/// fresh chain appended under the slot.
proof fn lemma_insert_chain(a: ValModel, path: Seq<SegModel>, at: int, e: int, leaf: ValModel)
    requires
        0 <= at <= e < path.len(),
        get_at(a, path.subrange(at, e)) is Some,
        appendable(get_at(a, path.subrange(at, e)).unwrap(), path[e]),
    ensures
        spec_insert(a, path, at, leaf) == Ok::<ValModel, UnflattenError>(
            set_at(
                a,
                path.subrange(at, e),
                push_under(
                    get_at(a, path.subrange(at, e)).unwrap(),
                    path[e],
                    nest(path.subrange(e + 1, path.len() as int), leaf),
                ),
            ),
        ),
    decreases path.len() - at,
{
    let pre = path.subrange(at, e);
    if at == e {
        assert(pre =~= Seq::<SegModel>::empty());
        let p = a;
        assert(get_at(a, pre) == Some(p));
        let last = at == path.len() - 1;
        match (p, path[at]) {
            (ValModel::Object(fields), SegModel::Name(k)) => {
                assert(find_key(fields, k) == -1);
                if last {
                    assert(path.subrange(e + 1, path.len() as int) =~= Seq::<SegModel>::empty());
                } else {
                    lemma_insert_fresh(path, at + 1, leaf);
                }
            },
            (ValModel::Array(items), SegModel::Index(ix)) => {
                assert(ix == items.len());
                assert(!(0 <= ix < items.len()));
                if last {
                    assert(path.subrange(e + 1, path.len() as int) =~= Seq::<SegModel>::empty());
                } else {
                    lemma_insert_fresh(path, at + 1, leaf);
                }
            },
            _ => {
                assert(false);
            },
        }
    } else {
        assert(pre[0] == path[at]);
        assert(pre.drop_first() =~= path.subrange(at + 1, e));
        match (a, path[at]) {
            (ValModel::Object(fields), SegModel::Name(k)) => {
                let j = find_key(fields, k);
                assert(j >= 0);
                let c = fields[j].1;
                assert(get_at(c, path.subrange(at + 1, e)) is Some);
                assert(c is Object || c is Array) by {
                    if at + 1 == e {
                        assert(path.subrange(at + 1, e) =~= Seq::<SegModel>::empty());
                        assert(get_at(c, path.subrange(at + 1, e)) == Some(c));
                    }
                }
                assert(at != path.len() - 1);
                lemma_insert_chain(c, path, at + 1, e, leaf);
            },
            (ValModel::Array(items), SegModel::Index(ix)) => {
                assert(0 <= ix < items.len());
                let c = items[ix];
                assert(get_at(c, path.subrange(at + 1, e)) is Some);
                assert(c is Object || c is Array) by {
                    if at + 1 == e {
                        assert(path.subrange(at + 1, e) =~= Seq::<SegModel>::empty());
                        assert(get_at(c, path.subrange(at + 1, e)) == Some(c));
                    }
                }
                assert(at != path.len() - 1);
                lemma_insert_chain(c, path, at + 1, e, leaf);
            },
            _ => {
                assert(false);
            },
        }
    }
}

/// Reading back through a freshly appended chain finds the wrapped value.
proof fn lemma_get_chain(p: ValModel, seg: SegModel, chain: Seq<SegModel>, w: ValModel)
    requires
        appendable(p, seg),
        chain_zeros(chain),
    ensures
        get_at(push_under(p, seg, nest(chain, w)), seq![seg] + chain) == Some(w),
{
    let full = seq![seg] + chain;
    assert(full[0] == seg);
    assert(full.drop_first() =~= chain);
    lemma_get_nest(chain, w);
    match (p, seg) {
        (ValModel::Object(fields), SegModel::Name(k)) => {
            let nf = fields.push((k, nest(chain, w)));
            lemma_find_key_props(fields, k);
            lemma_find_key_at(nf, k, fields.len() as int);
            assert(get_at(push_under(p, seg, nest(chain, w)), full) == get_at(nest(chain, w), chain));
        },
        (ValModel::Array(items), SegModel::Index(ix)) => {
            let ni = items.push(nest(chain, w));
            assert(ni[ix] == nest(chain, w));
            assert(get_at(push_under(p, seg, nest(chain, w)), full) == get_at(nest(chain, w), chain));
        },
        _ => {
            assert(false);
        },
    }
}

/// Replacing the value at the end of a freshly appended chain rebuilds
/// the same chain around the new value.
proof fn lemma_set_chain(p: ValModel, seg: SegModel, chain: Seq<SegModel>, w: ValModel, w2: ValModel)
    requires
        appendable(p, seg),
        chain_zeros(chain),
    ensures
        set_at(push_under(p, seg, nest(chain, w)), seq![seg] + chain, w2) == push_under(
            p,
            seg,
            nest(chain, w2),
        ),
{
    let full = seq![seg] + chain;
    assert(full[0] == seg);
    assert(full.drop_first() =~= chain);
    lemma_set_nest(chain, w, w2);
    match (p, seg) {
        (ValModel::Object(fields), SegModel::Name(k)) => {
            let nf = fields.push((k, nest(chain, w)));
            lemma_find_key_props(fields, k);
            lemma_find_key_at(nf, k, fields.len() as int);
            assert(nf.update(fields.len() as int, (k, nest(chain, w2))) =~= fields.push(
                (k, nest(chain, w2)),
            ));
        },
        (ValModel::Array(items), SegModel::Index(ix)) => {
            let ni = items.push(nest(chain, w));
            assert(ni.update(ix as int, nest(chain, w2)) =~= items.push(nest(chain, w2)));
        },
        _ => {
            assert(false);
        },
    }
}

/// Writing back what is already there changes nothing.
proof fn lemma_set_get_id(a: ValModel, path: Seq<SegModel>)
    requires
        get_at(a, path) is Some,
    ensures
        set_at(a, path, get_at(a, path).unwrap()) == a,
    decreases path.len(),
{
    if path.len() > 0 {
        match (a, path[0]) {
            (ValModel::Object(fields), SegModel::Name(k)) => {
                let j = find_key(fields, k);
                lemma_find_key_props(fields, k);
                lemma_set_get_id(fields[j].1, path.drop_first());
                assert(fields.update(j, (k, fields[j].1)) =~= fields);
                assert(fields[j] == (k, fields[j].1));
            },
            (ValModel::Array(items), SegModel::Index(ix)) => {
                lemma_set_get_id(items[ix], path.drop_first());
                assert(items.update(ix, items[ix]) =~= items);
            },
            _ => {
                assert(false);
            },
        }
    }
}

/// A segment the text round trip supports: a round-trip-safe key, or an
/// index that fits in `usize`.
pub open spec fn path_seg_ok(m: SegModel) -> bool {
    match m {
        SegModel::Name(k) => key_ok(k),
        SegModel::Index(ix) => 0 <= ix <= usize::MAX as int,
    }
}

/// A tree the text round trip restores: keys round-trip-safe and distinct,
/// containers non-empty and indexable by `usize`, numbers carrying
/// well-formed literal text.
pub open spec fn tree_wf(v: ValModel) -> bool
    decreases v, 0int,
{
    match v {
        ValModel::Number(s) => crate::value::is_number_lit(s),
        ValModel::Array(items) => 1 <= items.len() <= usize::MAX as int && tree_wf_arr(items, 0),
        ValModel::Object(fields) => {
            &&& 1 <= fields.len() <= usize::MAX as int
            &&& (forall|t: int| 0 <= t < fields.len() ==> key_ok(#[trigger] fields[t].0))
            &&& (forall|t1: int, t2: int|
                0 <= t1 < t2 < fields.len() ==> fields[t1].0 != fields[t2].0)
            &&& tree_wf_obj(fields, 0)
        },
        _ => true,
    }
}

pub open spec fn tree_wf_arr(items: Seq<ValModel>, from: int) -> bool
    decreases items, items.len() - from,
{
    if 0 <= from < items.len() {
        tree_wf(items[from]) && tree_wf_arr(items, from + 1)
    } else {
        true
    }
}

pub open spec fn tree_wf_obj(fields: Seq<(Seq<char>, ValModel)>, from: int) -> bool
    decreases fields, fields.len() - from,
{
    if 0 <= from < fields.len() {
        tree_wf(fields[from].1) && tree_wf_obj(fields, from + 1)
    } else {
        true
    }
}

proof fn lemma_fmt_from_snoc(p: Seq<SegModel>, seg: SegModel, i: int)
    requires
        0 <= i <= p.len(),
    ensures
        crate::path_segments::fmt_path_from(p.push(seg), i) == crate::path_segments::fmt_path_from(
            p,
            i,
        ) + (if p.len() > 0 && crate::path_segments::seg_dotted(seg) {
            seq!['.']
        } else {
            Seq::<char>::empty()
        }) + crate::path_segments::fmt_segment(seg),
    decreases p.len() - i,
{
    let q = p.push(seg);
    let dot: Seq<char> = if p.len() > 0 && crate::path_segments::seg_dotted(seg) {
        seq!['.']
    } else {
        Seq::<char>::empty()
    };
    if i == p.len() {
        assert(q[i] == seg);
        assert(crate::path_segments::fmt_path_from(q, i + 1) =~= Seq::<char>::empty());
        assert(crate::path_segments::fmt_path_from(p, i) =~= Seq::<char>::empty());
        assert(crate::path_segments::fmt_path_from(q, i) =~= crate::path_segments::fmt_path_from(
            p,
            i,
        ) + dot + crate::path_segments::fmt_segment(seg));
    } else {
        assert(q[i] == p[i]);
        lemma_fmt_from_snoc(p, seg, i + 1);
        assert(crate::path_segments::fmt_path_from(q, i) =~= crate::path_segments::fmt_path_from(
            p,
            i,
        ) + dot + crate::path_segments::fmt_segment(seg));
    }
}

/// Facts about one rendered segment, and that it is well-formed for the
/// formatting round trip.
proof fn lemma_seg_text(m: SegModel)
    requires
        path_seg_ok(m),
    ensures
        crate::path_segments::fmt_segment(m).len() >= 1,
        forall|j: int|
            0 <= j < crate::path_segments::fmt_segment(m).len()
                ==> crate::path_segments::fmt_segment(m)[j] != '=',
        !is_ws(crate::path_segments::fmt_segment(m)[0]),
        !is_ws(
            crate::path_segments::fmt_segment(m)[crate::path_segments::fmt_segment(m).len() - 1],
        ),
        crate::path_segments::seg_wf(m),
    decreases m,
{
    match m {
        SegModel::Name(k) => {
            lemma_key_text(k);
            if crate::path_segments::key_quoted(k) {
                lemma_body_ok_plain(k);
            }
        },
        SegModel::Index(ix) => {
            lemma_index_text(ix);
        },
    }
}

/// The rendered text of a whole non-empty path: non-empty, free of `=`,
/// and free of whitespace at both ends.
proof fn lemma_path_edges(p: Seq<SegModel>, i: int)
    requires
        0 <= i < p.len(),
        forall|t: int| 0 <= t < p.len() ==> path_seg_ok(#[trigger] p[t]),
    ensures
        crate::path_segments::fmt_path_from(p, i).len() >= 1,
        forall|j: int|
            0 <= j < crate::path_segments::fmt_path_from(p, i).len()
                ==> crate::path_segments::fmt_path_from(p, i)[j] != '=',
        !is_ws(crate::path_segments::fmt_path_from(p, i)[0]),
        !is_ws(
            crate::path_segments::fmt_path_from(p, i)[crate::path_segments::fmt_path_from(
                p,
                i,
            ).len() - 1],
        ),
    decreases p.len() - i,
{
    let f = crate::path_segments::fmt_path_from(p, i);
    let dot: Seq<char> = if i > 0 && crate::path_segments::seg_dotted(p[i]) {
        seq!['.']
    } else {
        Seq::<char>::empty()
    };
    let fs = crate::path_segments::fmt_segment(p[i]);
    let rest = crate::path_segments::fmt_path_from(p, i + 1);
    lemma_seg_text(p[i]);
    assert(f == dot + fs + rest);
    if i + 1 == p.len() {
        assert(rest =~= Seq::<char>::empty());
        assert(f =~= dot + fs);
        assert(f[f.len() - 1] == fs[fs.len() - 1]);
        if dot.len() > 0 {
            assert(f[0] == '.');
        } else {
            assert(f[0] == fs[0]);
        }
        assert forall|j: int| 0 <= j < f.len() implies #[trigger] f[j] != '=' by {
            if j < dot.len() {
                assert(f[j] == '.');
            } else {
                assert(f[j] == fs[j - dot.len()]);
            }
        }
    } else {
        lemma_path_edges(p, i + 1);
        assert(f[f.len() - 1] == rest[rest.len() - 1]);
        if dot.len() > 0 {
            assert(f[0] == '.');
        } else {
            assert(f[0] == fs[0]);
        }
        assert forall|j: int| 0 <= j < f.len() implies #[trigger] f[j] != '=' by {
            if j < dot.len() {
                assert(f[j] == '.');
            } else if j < dot.len() + fs.len() {
                assert(f[j] == fs[j - dot.len()]);
            } else {
                assert(f[j] == rest[j - dot.len() - fs.len()]);
            }
        }
    }
}

/// Extending a trail by an object key renders the same text as formatting
/// the extended path.
proof fn lemma_render_snoc_key(p: Seq<SegModel>, k: Seq<char>)
    requires
        forall|t: int| 0 <= t < p.len() ==> path_seg_ok(#[trigger] p[t]),
        key_ok(k),
    ensures
        crate::flatten::key_render(crate::path_segments::spec_format_path(p), k)
            == crate::path_segments::spec_format_path(p.push(SegModel::Name(k))),
{
    let tau = crate::path_segments::spec_format_path(p);
    lemma_fmt_from_snoc(p, SegModel::Name(k), 0);
    if p.len() == 0 {
        assert(tau =~= Seq::<char>::empty());
    } else {
        lemma_path_edges(p, 0);
        assert(tau.len() >= 1);
    }
    if crate::path_segments::key_quoted(k) {
        lemma_escape_identity(k);
        assert(crate::flatten::key_render(tau, k) =~= tau + Seq::<char>::empty()
            + crate::path_segments::fmt_segment(SegModel::Name(k)));
    } else {
        if p.len() == 0 {
            assert(crate::flatten::key_render(tau, k) =~= tau + Seq::<char>::empty()
                + crate::path_segments::fmt_segment(SegModel::Name(k)));
        } else {
            assert(crate::flatten::key_render(tau, k) =~= tau + seq!['.']
                + crate::path_segments::fmt_segment(SegModel::Name(k)));
        }
    }
}

/// Extending a trail by an array index renders the same text as
/// formatting the extended path.
proof fn lemma_render_snoc_index(p: Seq<SegModel>, ix: int)
    requires
        forall|t: int| 0 <= t < p.len() ==> path_seg_ok(#[trigger] p[t]),
        0 <= ix <= usize::MAX as int,
    ensures
        crate::flatten::index_render(crate::path_segments::spec_format_path(p), ix)
            == crate::path_segments::spec_format_path(p.push(SegModel::Index(ix))),
{
    let tau = crate::path_segments::spec_format_path(p);
    lemma_fmt_from_snoc(p, SegModel::Index(ix), 0);
    assert(crate::flatten::index_render(tau, ix) =~= tau + Seq::<char>::empty()
        + crate::path_segments::fmt_segment(SegModel::Index(ix)));
}

/// Folding whole raw lines, each split at its first `=`, over a tree.
pub open spec fn fold_lines(acc: ValModel, lines: Seq<Seq<char>>, i: int) -> Result<
    ValModel,
    UnflattenError,
>
    decreases lines.len() - i,
{
    if i < 0 || i >= lines.len() {
        Ok(acc)
    } else {
        match spec_apply_line(acc, spec_pair_or_single(lines[i], '=')) {
            Ok(a2) => fold_lines(a2, lines, i + 1),
            Err(e) => Err(e),
        }
    }
}

proof fn lemma_fold_lines_append(acc: ValModel, xs: Seq<Seq<char>>, ys: Seq<Seq<char>>, i: int)
    requires
        0 <= i <= xs.len(),
    ensures
        fold_lines(acc, xs + ys, i) == (match fold_lines(acc, xs, i) {
            Ok(a2) => fold_lines(a2, xs + ys, xs.len() as int),
            Err(e) => Err(e),
        }),
    decreases xs.len() - i,
{
    if i < xs.len() {
        assert((xs + ys)[i] == xs[i]);
        match spec_apply_line(acc, spec_pair_or_single(xs[i], '=')) {
            Ok(a2) => {
                lemma_fold_lines_append(a2, xs, ys, i + 1);
            },
            Err(_) => {},
        }
    }
}

proof fn lemma_fold_unflatten(acc: ValModel, lines: Seq<Seq<char>>, i: int)
    requires
        0 <= i <= lines.len(),
    ensures
        spec_unflatten_from(
            acc,
            lines.map_values(|l: Seq<char>| spec_pair_or_single(l, '=')),
            i,
        ) == fold_lines(acc, lines, i),
    decreases lines.len() - i,
{
    let pairs = lines.map_values(|l: Seq<char>| spec_pair_or_single(l, '='));
    if i < lines.len() {
        assert(pairs[i] == spec_pair_or_single(lines[i], '='));
        match spec_apply_line(acc, pairs[i]) {
            Ok(a2) => {
                lemma_fold_unflatten(a2, lines, i + 1);
            },
            Err(_) => {},
        }
    }
}

proof fn lemma_fold_lines_shift(acc: ValModel, xs: Seq<Seq<char>>, ys: Seq<Seq<char>>, j: int)
    requires
        0 <= j <= ys.len(),
    ensures
        fold_lines(acc, xs + ys, xs.len() + j) == fold_lines(acc, ys, j),
    decreases ys.len() - j,
{
    if j < ys.len() {
        assert((xs + ys)[xs.len() + j] == ys[j]);
        match spec_apply_line(acc, spec_pair_or_single(ys[j], '=')) {
            Ok(a2) => {
                lemma_fold_lines_shift(a2, xs, ys, j + 1);
            },
            Err(_) => {},
        }
    }
}

/// Replaying the lines of one well-formed subtree `v`, emitted over the
/// formatted path, into a tree where the path's prefix up to `e` exists,
/// the segment at `e` is appendable there, and the rest of the path is
/// fresh: `v` is appended at `e` inside a fresh chain.
proof fn lemma_replay_block(a: ValModel, path: Seq<SegModel>, e: int, v: ValModel)
    requires
        tree_wf(v),
        1 <= path.len(),
        0 <= e < path.len(),
        forall|t: int| 0 <= t < path.len() ==> path_seg_ok(#[trigger] path[t]),
        get_at(a, path.subrange(0, e)) is Some,
        appendable(get_at(a, path.subrange(0, e)).unwrap(), path[e]),
        chain_zeros(path.subrange(e + 1, path.len() as int)),
    ensures
        fold_lines(
            a,
            crate::flatten::spec_flatten(crate::path_segments::spec_format_path(path), v),
            0,
        ) == Ok::<ValModel, UnflattenError>(
            set_at(
                a,
                path.subrange(0, e),
                push_under(
                    get_at(a, path.subrange(0, e)).unwrap(),
                    path[e],
                    nest(path.subrange(e + 1, path.len() as int), v),
                ),
            ),
        ),
    decreases v, 0int,
{
    let tau = crate::path_segments::spec_format_path(path);
    let pre = path.subrange(0, e);
    let p0 = get_at(a, pre).unwrap();
    let chain = path.subrange(e + 1, path.len() as int);
    lemma_path_edges(path, 0);
    assert forall|t: int| 0 <= t < path.len() implies crate::path_segments::seg_wf(
        #[trigger] path[t],
    ) by {
        lemma_seg_text(path[t]);
    }
    match v {
        ValModel::Object(fields) => {
            let k0 = fields[0].0;
            let c0 = fields[0].1;
            let path2 = path.push(SegModel::Name(k0));
            let chain2 = path2.subrange(e + 1, path2.len() as int);
            assert(path2.subrange(0, e) =~= pre);
            assert(path2[e] == path[e]);
            assert(chain2 =~= chain.push(SegModel::Name(k0)));
            assert(chain_zeros(chain2)) by {
                assert(forall|t: int| 0 <= t < chain.len() ==> chain2[t] == chain[t]);
            }
            assert(forall|t: int| 0 <= t < path2.len() ==> path_seg_ok(#[trigger] path2[t])) by {
                assert(forall|t: int| 0 <= t < path.len() ==> path2[t] == path[t]);
            }
            assert(tree_wf(c0) && tree_wf_obj(fields, 1));
            lemma_replay_block(a, path2, e, c0);
            let w1 = ValModel::Object(seq![(k0, c0)]);
            lemma_nest_snoc(chain, SegModel::Name(k0), c0);
            assert(nest(chain2, c0) == nest(chain, w1));
            let a1 = set_at(a, pre, push_under(p0, path[e], nest(chain, w1)));
            lemma_render_snoc_key(path, k0);
            let child_lines = crate::flatten::spec_flatten(
                crate::path_segments::spec_format_path(path2),
                c0,
            );
            let rest_lines = crate::flatten::spec_flatten_obj(tau, fields, 1);
            assert(crate::flatten::spec_flatten(tau, v) == child_lines + rest_lines);
            assert(fold_lines(a, child_lines, 0) == Ok::<ValModel, UnflattenError>(a1));
            // the partially built object is now readable at the path
            assert(path =~= pre + (seq![path[e]] + chain));
            lemma_get_of_set(a, pre, push_under(p0, path[e], nest(chain, w1)), seq![path[e]] + chain);
            lemma_get_chain(p0, path[e], chain, w1);
            assert(get_at(a1, path) == Some(w1));
            assert(fields.subrange(0, 1) =~= seq![(k0, c0)]);
            lemma_replay_obj(a1, path, fields, 1);
            lemma_fold_lines_append(a, child_lines, rest_lines, 0);
            lemma_fold_lines_shift(a1, child_lines, rest_lines, 0);
            assert(fold_lines(a, crate::flatten::spec_flatten(tau, v), 0) == Ok::<
                ValModel,
                UnflattenError,
            >(set_at(a1, path, ValModel::Object(fields))));
            lemma_set_of_set(a, pre, push_under(p0, path[e], nest(chain, w1)), seq![path[e]] + chain, ValModel::Object(fields));
            lemma_set_chain(p0, path[e], chain, w1, ValModel::Object(fields));
            assert(set_at(a1, path, ValModel::Object(fields)) == set_at(
                a,
                pre,
                push_under(p0, path[e], nest(chain, ValModel::Object(fields))),
            ));
        },
        ValModel::Array(items) => {
            let c0 = items[0];
            let path2 = path.push(SegModel::Index(0));
            let chain2 = path2.subrange(e + 1, path2.len() as int);
            assert(path2.subrange(0, e) =~= pre);
            assert(path2[e] == path[e]);
            assert(chain2 =~= chain.push(SegModel::Index(0)));
            assert(chain_zeros(chain2)) by {
                assert(forall|t: int| 0 <= t < chain.len() ==> chain2[t] == chain[t]);
            }
            assert(forall|t: int| 0 <= t < path2.len() ==> path_seg_ok(#[trigger] path2[t])) by {
                assert(forall|t: int| 0 <= t < path.len() ==> path2[t] == path[t]);
            }
            assert(tree_wf(c0) && tree_wf_arr(items, 1));
            lemma_replay_block(a, path2, e, c0);
            let w1 = ValModel::Array(seq![c0]);
            lemma_nest_snoc(chain, SegModel::Index(0), c0);
            assert(nest(chain2, c0) == nest(chain, w1));
            let a1 = set_at(a, pre, push_under(p0, path[e], nest(chain, w1)));
            lemma_render_snoc_index(path, 0);
            let child_lines = crate::flatten::spec_flatten(
                crate::path_segments::spec_format_path(path2),
                c0,
            );
            let rest_lines = crate::flatten::spec_flatten_arr(tau, items, 1);
            assert(crate::flatten::spec_flatten(tau, v) == child_lines + rest_lines);
            assert(fold_lines(a, child_lines, 0) == Ok::<ValModel, UnflattenError>(a1));
            assert(path =~= pre + (seq![path[e]] + chain));
            lemma_get_of_set(a, pre, push_under(p0, path[e], nest(chain, w1)), seq![path[e]] + chain);
            lemma_get_chain(p0, path[e], chain, w1);
            assert(get_at(a1, path) == Some(w1));
            assert(items.subrange(0, 1) =~= seq![c0]);
            lemma_replay_arr(a1, path, items, 1);
            lemma_fold_lines_append(a, child_lines, rest_lines, 0);
            lemma_fold_lines_shift(a1, child_lines, rest_lines, 0);
            assert(fold_lines(a, crate::flatten::spec_flatten(tau, v), 0) == Ok::<
                ValModel,
                UnflattenError,
            >(set_at(a1, path, ValModel::Array(items))));
            lemma_set_of_set(a, pre, push_under(p0, path[e], nest(chain, w1)), seq![path[e]] + chain, ValModel::Array(items));
            lemma_set_chain(p0, path[e], chain, w1, ValModel::Array(items));
            assert(set_at(a1, path, ValModel::Array(items)) == set_at(
                a,
                pre,
                push_under(p0, path[e], nest(chain, ValModel::Array(items))),
            ));
        },
        _ => {
            assert(!(v is Array) && !(v is Object));
            assert(crate::value::leaf_wf(v));
            let lit = crate::value::lit_text(v);
            assert(tau.len() >= 1);
            assert(crate::flatten::dot_sep(tau, seq![' ', '=', ' ']) == seq![' ', '=', ' ']);
            assert(crate::flatten::spec_flatten(tau, v) =~= seq![tau + seq![' ', '=', ' '] + lit]);
            lemma_lit_edges(v);
            lemma_split_rendered_line(tau, lit);
            crate::path_segments::lemma_parse_format_path(path);
            crate::value::lemma_parse_literal_text(v);
            lemma_insert_chain(a, path, 0, e, v);
            let lines = crate::flatten::spec_flatten(tau, v);
            assert(spec_pair_or_single(lines[0], '=') == (tau, Some(lit)));
            assert(spec_parse_path(tau) == Some(path));
            assert(spec_apply_line(a, (tau, Some(lit))) == spec_insert(a, path, 0, v));
            let target = set_at(
                a,
                path.subrange(0, e),
                push_under(p0, path[e], nest(chain, v)),
            );
            assert(spec_insert(a, path, 0, v) == Ok::<ValModel, UnflattenError>(target));
            assert(lines.len() == 1);
            assert(fold_lines(target, lines, 1) == Ok::<ValModel, UnflattenError>(target));
            assert(fold_lines(a, lines, 0) == Ok::<ValModel, UnflattenError>(target));
        },
    }
}

/// Replaying the lines of an object's fields from position `i` on, into
/// a tree that already holds the first `i` fields at the path.
proof fn lemma_replay_obj(
    a: ValModel,
    path: Seq<SegModel>,
    fields: Seq<(Seq<char>, ValModel)>,
    i: int,
)
    requires
        0 <= i <= fields.len(),
        forall|t: int| 0 <= t < fields.len() ==> key_ok(#[trigger] fields[t].0),
        forall|t1: int, t2: int| 0 <= t1 < t2 < fields.len() ==> fields[t1].0 != fields[t2].0,
        tree_wf_obj(fields, i),
        forall|t: int| 0 <= t < path.len() ==> path_seg_ok(#[trigger] path[t]),
        get_at(a, path) == Some(ValModel::Object(fields.subrange(0, i))),
    ensures
        fold_lines(
            a,
            crate::flatten::spec_flatten_obj(
                crate::path_segments::spec_format_path(path),
                fields,
                i,
            ),
            0,
        ) == Ok::<ValModel, UnflattenError>(set_at(a, path, ValModel::Object(fields))),
    decreases fields, fields.len() - i,
{
    let tau = crate::path_segments::spec_format_path(path);
    if i == fields.len() {
        assert(fields.subrange(0, i) =~= fields);
        lemma_set_get_id(a, path);
    } else {
        let k = fields[i].0;
        let c = fields[i].1;
        let partial = fields.subrange(0, i);
        let path2 = path.push(SegModel::Name(k));
        assert(path2.subrange(0, path.len() as int) =~= path);
        assert(path2[path.len() as int] == SegModel::Name(k));
        assert(path2.subrange(path.len() as int + 1, path2.len() as int) =~= Seq::<SegModel>::empty());
        assert forall|t: int| 0 <= t < partial.len() implies #[trigger] partial[t].0 != k by {
            assert(partial[t] == fields[t]);
        }
        lemma_find_key_none(partial, k);
        assert(appendable(ValModel::Object(partial), SegModel::Name(k)));
        assert(forall|t: int| 0 <= t < path2.len() ==> path_seg_ok(#[trigger] path2[t])) by {
            assert(forall|t: int| 0 <= t < path.len() ==> path2[t] == path[t]);
        }
        assert(tree_wf(c) && tree_wf_obj(fields, i + 1));
        lemma_replay_block(a, path2, path.len() as int, c);
        let a2 = set_at(a, path, push_under(ValModel::Object(partial), SegModel::Name(k), c));
        assert(nest(Seq::<SegModel>::empty(), c) == c);
        assert(partial.push((k, c)) =~= fields.subrange(0, i + 1));
        assert(a2 == set_at(a, path, ValModel::Object(fields.subrange(0, i + 1))));
        lemma_render_snoc_key(path, k);
        let child_lines = crate::flatten::spec_flatten(
            crate::path_segments::spec_format_path(path2),
            c,
        );
        let rest_lines = crate::flatten::spec_flatten_obj(tau, fields, i + 1);
        assert(crate::flatten::spec_flatten_obj(tau, fields, i) == child_lines + rest_lines);
        assert(fold_lines(a, child_lines, 0) == Ok::<ValModel, UnflattenError>(a2));
        lemma_get_of_set(a, path, ValModel::Object(fields.subrange(0, i + 1)), Seq::empty());
        assert(path + Seq::<SegModel>::empty() =~= path);
        assert(get_at(a2, path) == Some(ValModel::Object(fields.subrange(0, i + 1))));
        lemma_replay_obj(a2, path, fields, i + 1);
        lemma_fold_lines_append(a, child_lines, rest_lines, 0);
        lemma_fold_lines_shift(a2, child_lines, rest_lines, 0);
        lemma_set_of_set(
            a,
            path,
            ValModel::Object(fields.subrange(0, i + 1)),
            Seq::empty(),
            ValModel::Object(fields),
        );
        assert(set_at(a2, path, ValModel::Object(fields)) == set_at(
            a,
            path,
            ValModel::Object(fields),
        ));
    }
}

/// Replaying the lines of an array's entries from position `i` on, into
/// a tree that already holds the first `i` entries at the path.
proof fn lemma_replay_arr(a: ValModel, path: Seq<SegModel>, items: Seq<ValModel>, i: int)
    requires
        0 <= i <= items.len(),
        items.len() <= usize::MAX as int,
        tree_wf_arr(items, i),
        forall|t: int| 0 <= t < path.len() ==> path_seg_ok(#[trigger] path[t]),
        get_at(a, path) == Some(ValModel::Array(items.subrange(0, i))),
    ensures
        fold_lines(
            a,
            crate::flatten::spec_flatten_arr(
                crate::path_segments::spec_format_path(path),
                items,
                i,
            ),
            0,
        ) == Ok::<ValModel, UnflattenError>(set_at(a, path, ValModel::Array(items))),
    decreases items, items.len() - i,
{
    let tau = crate::path_segments::spec_format_path(path);
    if i == items.len() {
        assert(items.subrange(0, i) =~= items);
        lemma_set_get_id(a, path);
    } else {
        let c = items[i];
        let partial = items.subrange(0, i);
        let path2 = path.push(SegModel::Index(i));
        assert(path2.subrange(0, path.len() as int) =~= path);
        assert(path2[path.len() as int] == SegModel::Index(i));
        assert(path2.subrange(path.len() as int + 1, path2.len() as int) =~= Seq::<SegModel>::empty());
        assert(appendable(ValModel::Array(partial), SegModel::Index(i)));
        assert(forall|t: int| 0 <= t < path2.len() ==> path_seg_ok(#[trigger] path2[t])) by {
            assert(forall|t: int| 0 <= t < path.len() ==> path2[t] == path[t]);
        }
        assert(tree_wf(c) && tree_wf_arr(items, i + 1));
        lemma_replay_block(a, path2, path.len() as int, c);
        let a2 = set_at(a, path, push_under(ValModel::Array(partial), SegModel::Index(i), c));
        assert(nest(Seq::<SegModel>::empty(), c) == c);
        assert(partial.push(c) =~= items.subrange(0, i + 1));
        assert(a2 == set_at(a, path, ValModel::Array(items.subrange(0, i + 1))));
        lemma_render_snoc_index(path, i);
        let child_lines = crate::flatten::spec_flatten(
            crate::path_segments::spec_format_path(path2),
            c,
        );
        let rest_lines = crate::flatten::spec_flatten_arr(tau, items, i + 1);
        assert(crate::flatten::spec_flatten_arr(tau, items, i) == child_lines + rest_lines);
        assert(fold_lines(a, child_lines, 0) == Ok::<ValModel, UnflattenError>(a2));
        lemma_get_of_set(a, path, ValModel::Array(items.subrange(0, i + 1)), Seq::empty());
        assert(path + Seq::<SegModel>::empty() =~= path);
        assert(get_at(a2, path) == Some(ValModel::Array(items.subrange(0, i + 1))));
        lemma_replay_arr(a2, path, items, i + 1);
        lemma_fold_lines_append(a, child_lines, rest_lines, 0);
        lemma_fold_lines_shift(a2, child_lines, rest_lines, 0);
        lemma_set_of_set(
            a,
            path,
            ValModel::Array(items.subrange(0, i + 1)),
            Seq::empty(),
            ValModel::Array(items),
        );
        assert(set_at(a2, path, ValModel::Array(items)) == set_at(
            a,
            path,
            ValModel::Array(items),
        ));
    }
}

/// The first line a well-formed subtree emits carries a path that starts
/// with the subtree's own first segment.
proof fn lemma_first_line(path: Seq<SegModel>, v: ValModel)
    requires
        tree_wf(v),
        1 <= path.len(),
        forall|t: int| 0 <= t < path.len() ==> path_seg_ok(#[trigger] path[t]),
    ensures
        crate::flatten::spec_flatten(crate::path_segments::spec_format_path(path), v).len() >= 1,
        ({
            let first = crate::flatten::spec_flatten(
                crate::path_segments::spec_format_path(path),
                v,
            )[0];
            match spec_parse_path(spec_pair_or_single(first, '=').0) {
                Some(segs) => segs.len() >= 1 && segs[0] == path[0],
                None => false,
            }
        }),
    decreases v,
{
    let tau = crate::path_segments::spec_format_path(path);
    let lines = crate::flatten::spec_flatten(tau, v);
    match v {
        ValModel::Object(fields) => {
            let k0 = fields[0].0;
            let c0 = fields[0].1;
            let path2 = path.push(SegModel::Name(k0));
            assert(tree_wf(c0) && tree_wf_obj(fields, 1));
            assert(forall|t: int| 0 <= t < path2.len() ==> path_seg_ok(#[trigger] path2[t])) by {
                assert(forall|t: int| 0 <= t < path.len() ==> path2[t] == path[t]);
            }
            lemma_render_snoc_key(path, k0);
            lemma_first_line(path2, c0);
            let child_lines = crate::flatten::spec_flatten(
                crate::path_segments::spec_format_path(path2),
                c0,
            );
            let rest_lines = crate::flatten::spec_flatten_obj(tau, fields, 1);
            assert(lines == child_lines + rest_lines);
            assert(lines[0] == child_lines[0]);
            assert(path2[0] == path[0]);
        },
        ValModel::Array(items) => {
            let c0 = items[0];
            let path2 = path.push(SegModel::Index(0));
            assert(tree_wf(c0) && tree_wf_arr(items, 1));
            assert(forall|t: int| 0 <= t < path2.len() ==> path_seg_ok(#[trigger] path2[t])) by {
                assert(forall|t: int| 0 <= t < path.len() ==> path2[t] == path[t]);
            }
            lemma_render_snoc_index(path, 0);
            lemma_first_line(path2, c0);
            let child_lines = crate::flatten::spec_flatten(
                crate::path_segments::spec_format_path(path2),
                c0,
            );
            let rest_lines = crate::flatten::spec_flatten_arr(tau, items, 1);
            assert(lines == child_lines + rest_lines);
            assert(lines[0] == child_lines[0]);
            assert(path2[0] == path[0]);
        },
        _ => {
            assert(crate::value::leaf_wf(v));
            let lit = crate::value::lit_text(v);
            lemma_path_edges(path, 0);
            assert(crate::flatten::dot_sep(tau, seq![' ', '=', ' ']) == seq![' ', '=', ' ']);
            assert(lines =~= seq![tau + seq![' ', '=', ' '] + lit]);
            lemma_lit_edges(v);
            lemma_split_rendered_line(tau, lit);
            assert forall|t: int| 0 <= t < path.len() implies crate::path_segments::seg_wf(
                #[trigger] path[t],
            ) by {
                lemma_seg_text(path[t]);
            }
            crate::path_segments::lemma_parse_format_path(path);
        },
    }
}

/// Law: un-flattening inverts flattening. For every well-formed tree
/// (`tree_wf`: root a container, containers non-empty and indexable by
/// `usize`, keys round-trip-safe and distinct within each object, numbers
/// carrying well-formed literal text), flattening over an empty trail and
/// rebuilding a tree from the resulting lines gives back exactly that
/// tree.
pub proof fn lemma_unflatten_flatten(t: ValModel)
    requires
        tree_wf(t),
        t is Array || t is Object,
    ensures
        spec_unflatten(
            crate::flatten::spec_flatten(Seq::empty(), t).map_values(
                |l: Seq<char>| spec_pair_or_single(l, '='),
            ),
        ) == Ok::<ValModel, UnflattenError>(t),
{
    let lines = crate::flatten::spec_flatten(Seq::empty(), t);
    let pairs = lines.map_values(|l: Seq<char>| spec_pair_or_single(l, '='));
    assert(crate::path_segments::spec_format_path(Seq::empty()) =~= Seq::<char>::empty());
    match t {
        ValModel::Object(fields) => {
            let k0 = fields[0].0;
            let c0 = fields[0].1;
            let path2 = seq![SegModel::Name(k0)];
            assert(tree_wf(c0) && tree_wf_obj(fields, 1));
            assert(path2 =~= Seq::<SegModel>::empty().push(SegModel::Name(k0)));
            lemma_render_snoc_key(Seq::empty(), k0);
            lemma_first_line(path2, c0);
            let child_lines = crate::flatten::spec_flatten(
                crate::path_segments::spec_format_path(path2),
                c0,
            );
            let rest_lines = crate::flatten::spec_flatten_obj(Seq::empty(), fields, 1);
            assert(lines == crate::flatten::spec_flatten_obj(Seq::empty(), fields, 0));
            assert(lines == child_lines + rest_lines);
            assert(lines[0] == child_lines[0]);
            assert(pairs[0] == spec_pair_or_single(lines[0], '='));
            let segs0 = spec_parse_path(pairs[0].0).unwrap();
            assert(segs0[0] == SegModel::Name(k0));
            assert(!(segs0[0] is Index));
            assert(spec_root(pairs) == ValModel::Object(Seq::empty()));
            let root0 = ValModel::Object(Seq::empty());
            assert(get_at(root0, Seq::empty()) == Some(root0));
            assert(fields.subrange(0, 0) =~= Seq::<(Seq<char>, ValModel)>::empty());
            assert(tree_wf_obj(fields, 0));
            lemma_replay_obj(root0, Seq::empty(), fields, 0);
            assert(set_at(root0, Seq::empty(), t) == t);
            lemma_fold_unflatten(root0, lines, 0);
        },
        ValModel::Array(items) => {
            let c0 = items[0];
            let path2 = seq![SegModel::Index(0)];
            assert(tree_wf(c0) && tree_wf_arr(items, 1));
            assert(path2 =~= Seq::<SegModel>::empty().push(SegModel::Index(0)));
            lemma_render_snoc_index(Seq::empty(), 0);
            lemma_first_line(path2, c0);
            let child_lines = crate::flatten::spec_flatten(
                crate::path_segments::spec_format_path(path2),
                c0,
            );
            let rest_lines = crate::flatten::spec_flatten_arr(Seq::empty(), items, 1);
            assert(lines == crate::flatten::spec_flatten_arr(Seq::empty(), items, 0));
            assert(lines == child_lines + rest_lines);
            assert(lines[0] == child_lines[0]);
            assert(pairs[0] == spec_pair_or_single(lines[0], '='));
            let segs0 = spec_parse_path(pairs[0].0).unwrap();
            assert(segs0[0] == SegModel::Index(0));
            assert(segs0[0] is Index && segs0.len() >= 1);
            assert(spec_root(pairs) == ValModel::Array(Seq::empty()));
            let root0 = ValModel::Array(Seq::empty());
            assert(get_at(root0, Seq::empty()) == Some(root0));
            assert(items.subrange(0, 0) =~= Seq::<ValModel>::empty());
            assert(tree_wf_arr(items, 0));
            lemma_replay_arr(root0, Seq::empty(), items, 0);
            assert(set_at(root0, Seq::empty(), t) == t);
            lemma_fold_unflatten(root0, lines, 0);
        },
        _ => {
            assert(false);
        },
    }
}

} // verus!
