//! The flattener: walks a tree value depth-first and emits one
//! `path = literal` line per leaf, in pre-order.

use vstd::prelude::*;
use vstd::string::StrSliceExecFns;
use vstd::string::StringExecFns;
use crate::escape::{escape, escape_seq, needs_quotes};
use crate::path_segments::{dec_rep, key_quoted, push_dec, push_str_chars};
use crate::text::chars_to_string;
use crate::value::{lit_text, literal_text, ValModel, Value};

verus! {

/// The separator that follows a trail: nothing when the trail is empty
/// (the degenerate path-less root), the given separator otherwise.
pub open spec fn dot_sep(trail: Seq<char>, sep: Seq<char>) -> Seq<char> {
    if trail.len() == 0 {
        Seq::empty()
    } else {
        sep
    }
}

/// Returns the empty string when `input` is empty, `sep` otherwise: the
/// path-less root takes no separator.
pub fn dot<'a>(input: &str, sep: &'a str) -> (r: &'a str)
    ensures
        r@ == dot_sep(input@, sep@),
{
    if input.is_empty() {
        let e = "";
        proof {
            reveal_strlit("");
            assert(e@ =~= Seq::<char>::empty());
        }
        e
    } else {
        sep
    }
}

/// The trail extended by an object key: quoted keys append `["<escaped>"]`
/// with the bracket as separator; bare keys append `.<key>` (no dot on an
/// empty trail).
pub open spec fn key_render(trail: Seq<char>, k: Seq<char>) -> Seq<char> {
    if key_quoted(k) {
        trail + seq!['[', '"'] + escape_seq(k) + seq!['"', ']']
    } else {
        trail + dot_sep(trail, seq!['.']) + k
    }
}

/// The trail extended by an array index: appends `[<index>]`.
pub open spec fn index_render(trail: Seq<char>, i: int) -> Seq<char> {
    trail + seq!['['] + dec_rep(i) + seq![']']
}

/// The model of a sequence of emitted lines.
pub open spec fn lines_model(v: Seq<String>) -> Seq<Seq<char>> {
    v.map_values(|s: String| s@)
}

/// The lines emitted for a value reached over `trail`: one line per leaf,
/// depth-first, arrays by position and objects in field order.
pub open spec fn spec_flatten(trail: Seq<char>, v: ValModel) -> Seq<Seq<char>>
    decreases v, 0int,
{
    match v {
        ValModel::Array(items) => spec_flatten_arr(trail, items, 0),
        ValModel::Object(fields) => spec_flatten_obj(trail, fields, 0),
        _ => seq![trail + dot_sep(trail, seq![' ', '=', ' ']) + lit_text(v)],
    }
}

/// The lines emitted for the elements of an array from position `from` on.
pub open spec fn spec_flatten_arr(trail: Seq<char>, items: Seq<ValModel>, from: int) -> Seq<
    Seq<char>,
>
    decreases items, items.len() - from,
{
    if 0 <= from < items.len() {
        spec_flatten(index_render(trail, from), items[from]) + spec_flatten_arr(
            trail,
            items,
            from + 1,
        )
    } else {
        Seq::empty()
    }
}

/// The lines emitted for the fields of an object from position `from` on.
pub open spec fn spec_flatten_obj(
    trail: Seq<char>,
    fields: Seq<(Seq<char>, ValModel)>,
    from: int,
) -> Seq<Seq<char>>
    decreases fields, fields.len() - from,
{
    if 0 <= from < fields.len() {
        spec_flatten(key_render(trail, fields[from].0), fields[from].1) + spec_flatten_obj(
            trail,
            fields,
            from + 1,
        )
    } else {
        Seq::empty()
    }
}

/// Emits the `path = literal` lines for `value` reached over `trail`,
/// appending them to `paths` in depth-first pre-order.
pub fn flatten(trail: &str, paths: &mut Vec<String>, value: &Value)
    ensures
        lines_model(final(paths)@) == lines_model(old(paths)@) + spec_flatten(trail@, value@),
    decreases value,
{
    match value {
        Value::Array(items) => {
            let ghost m = value@->Array_0;
            proof {
                assert(*items == value->Array_0);
                crate::value::lemma_array_model(*value, 0);
                assert(m.len() == items@.len());
            }
            let mut i: usize = 0;
            proof {
                assert(lines_model(paths@) + spec_flatten_arr(trail@, m, 0) =~= lines_model(
                    old(paths)@,
                ) + spec_flatten_arr(trail@, m, 0));
            }
            while i < items.len()
                invariant
                    *items == value->Array_0,
                    value is Array,
                    m == value@->Array_0,
                    m.len() == items@.len(),
                    value@ == ValModel::Array(m),
                    i <= items.len(),
                    lines_model(old(paths)@) + spec_flatten_arr(trail@, m, 0) == lines_model(
                        paths@,
                    ) + spec_flatten_arr(trail@, m, i as int),
                decreases items.len() - i,
            {
                let mut t: Vec<char> = Vec::new();
                push_str_chars(&mut t, trail);
                t.push('[');
                push_dec(&mut t, i);
                t.push(']');
                let new_trail = chars_to_string(&t);
                proof {
                    assert(new_trail@ =~= index_render(trail@, i as int));
                    assert(*items == value->Array_0);
                    crate::value::lemma_array_model(*value, i as int);
                    assert(m[i as int] == items@[i as int]@);
                    assert(decreases_to!(*value => value->Array_0));
                    assert(decreases_to!(value->Array_0 => value->Array_0@));
                    assert(decreases_to!(value->Array_0@ => value->Array_0@[i as int]));
                }
                let ghost pre = paths@;
                flatten(new_trail.as_str(), paths, &items[i]);
                proof {
                    assert(spec_flatten_arr(trail@, m, i as int) =~= spec_flatten(
                        index_render(trail@, i as int),
                        m[i as int],
                    ) + spec_flatten_arr(trail@, m, i + 1));
                    assert((lines_model(pre) + spec_flatten(index_render(trail@, i as int), m[i as int]))
                        + spec_flatten_arr(trail@, m, i + 1) =~= lines_model(pre) + (spec_flatten(
                        index_render(trail@, i as int),
                        m[i as int],
                    ) + spec_flatten_arr(trail@, m, i + 1)));
                }
                i = i + 1;
            }
            proof {
                assert(spec_flatten_arr(trail@, m, items@.len() as int) =~= Seq::<Seq<char>>::empty());
                assert(lines_model(paths@) + Seq::<Seq<char>>::empty() =~= lines_model(paths@));
            }
        },
        Value::Object(fields) => {
            let ghost m = value@->Object_0;
            proof {
                assert(*fields == value->Object_0);
                crate::value::lemma_object_model(*value, 0);
                assert(m.len() == fields@.len());
            }
            let mut i: usize = 0;
            proof {
                assert(lines_model(paths@) + spec_flatten_obj(trail@, m, 0) =~= lines_model(
                    old(paths)@,
                ) + spec_flatten_obj(trail@, m, 0));
            }
            while i < fields.len()
                invariant
                    *fields == value->Object_0,
                    value is Object,
                    m == value@->Object_0,
                    m.len() == fields@.len(),
                    value@ == ValModel::Object(m),
                    i <= fields.len(),
                    lines_model(old(paths)@) + spec_flatten_obj(trail@, m, 0) == lines_model(
                        paths@,
                    ) + spec_flatten_obj(trail@, m, i as int),
                decreases fields.len() - i,
            {
                let k: &String = &fields[i].0;
                let mut t: Vec<char> = Vec::new();
                push_str_chars(&mut t, trail);
                if needs_quotes(k.as_str()) || k.as_str().is_empty() {
                    t.push('[');
                    t.push('"');
                    let e = escape(k.as_str());
                    push_str_chars(&mut t, e.as_str());
                    t.push('"');
                    t.push(']');
                    proof {
                        assert(key_quoted(k@));
                        assert(t@ =~= key_render(trail@, k@));
                    }
                } else {
                    if !trail.is_empty() {
                        t.push('.');
                    }
                    push_str_chars(&mut t, k.as_str());
                    proof {
                        assert(!key_quoted(k@));
                        assert(t@ =~= key_render(trail@, k@));
                    }
                }
                let new_trail = chars_to_string(&t);
                proof {
                    assert(*fields == value->Object_0);
                    crate::value::lemma_object_model(*value, i as int);
                    assert(m[i as int].0 == fields@[i as int].0@);
                    assert(m[i as int].1 == fields@[i as int].1@);
                    assert(new_trail@ == key_render(trail@, m[i as int].0));
                }
                let ghost pre = paths@;
                proof {
                    assert(decreases_to!(*value => value->Object_0));
                    assert(decreases_to!(value->Object_0 => value->Object_0@));
                    assert(decreases_to!(value->Object_0@ => value->Object_0@[i as int]));
                    assert(decreases_to!(value->Object_0@[i as int] => value->Object_0@[i as int].1));
                }
                flatten(new_trail.as_str(), paths, &fields[i].1);
                proof {
                    assert(spec_flatten_obj(trail@, m, i as int) =~= spec_flatten(
                        key_render(trail@, m[i as int].0),
                        m[i as int].1,
                    ) + spec_flatten_obj(trail@, m, i + 1));
                    assert((lines_model(pre) + spec_flatten(
                        key_render(trail@, m[i as int].0),
                        m[i as int].1,
                    )) + spec_flatten_obj(trail@, m, i + 1) =~= lines_model(pre) + (spec_flatten(
                        key_render(trail@, m[i as int].0),
                        m[i as int].1,
                    ) + spec_flatten_obj(trail@, m, i + 1)));
                }
                i = i + 1;
            }
            proof {
                assert(spec_flatten_obj(trail@, m, fields@.len() as int) =~= Seq::<
                    Seq<char>,
                >::empty());
                assert(lines_model(paths@) + Seq::<Seq<char>>::empty() =~= lines_model(paths@));
            }
        },
        _ => {
            let mut line = trail.to_owned();
            let sep = dot(trail, " = ");
            line.append(sep);
            let lit = literal_text(value);
            line.append(lit.as_str());
            let ghost pre = paths@;
            paths.push(line);
            proof {
                reveal_strlit(" = ");
                assert(line@ =~= trail@ + dot_sep(trail@, seq![' ', '=', ' ']) + lit_text(
                    value@,
                ));
                assert(spec_flatten(trail@, value@) =~= seq![line@]);
                assert(lines_model(paths@) =~= lines_model(pre) + seq![line@]);
            }
        },
    }
}

/// The number of leaves in a value.
pub open spec fn leaf_count(v: ValModel) -> int
    decreases v, 0int,
{
    match v {
        ValModel::Array(items) => leaf_count_arr(items, 0),
        ValModel::Object(fields) => leaf_count_obj(fields, 0),
        _ => 1,
    }
}

pub open spec fn leaf_count_arr(items: Seq<ValModel>, from: int) -> int
    decreases items, items.len() - from,
{
    if 0 <= from < items.len() {
        leaf_count(items[from]) + leaf_count_arr(items, from + 1)
    } else {
        0
    }
}

pub open spec fn leaf_count_obj(fields: Seq<(Seq<char>, ValModel)>, from: int) -> int
    decreases fields, fields.len() - from,
{
    if 0 <= from < fields.len() {
        leaf_count(fields[from].1) + leaf_count_obj(fields, from + 1)
    } else {
        0
    }
}

/// Law: every leaf produces exactly one line -- the flattener emits as
/// many lines as the value has leaves, whatever the trail.
pub proof fn lemma_flatten_line_count(trail: Seq<char>, v: ValModel)
    ensures
        spec_flatten(trail, v).len() == leaf_count(v),
    decreases v, 0int,
{
    match v {
        ValModel::Array(items) => {
            lemma_flatten_line_count_arr(trail, items, 0);
        },
        ValModel::Object(fields) => {
            lemma_flatten_line_count_obj(trail, fields, 0);
        },
        _ => {},
    }
}

proof fn lemma_flatten_line_count_arr(trail: Seq<char>, items: Seq<ValModel>, from: int)
    ensures
        spec_flatten_arr(trail, items, from).len() == leaf_count_arr(items, from),
    decreases items, items.len() - from,
{
    if 0 <= from < items.len() {
        lemma_flatten_line_count(index_render(trail, from), items[from]);
        lemma_flatten_line_count_arr(trail, items, from + 1);
    }
}

proof fn lemma_flatten_line_count_obj(
    trail: Seq<char>,
    fields: Seq<(Seq<char>, ValModel)>,
    from: int,
)
    ensures
        spec_flatten_obj(trail, fields, from).len() == leaf_count_obj(fields, from),
    decreases fields, fields.len() - from,
{
    if 0 <= from < fields.len() {
        lemma_flatten_line_count(key_render(trail, fields[from].0), fields[from].1);
        lemma_flatten_line_count_obj(trail, fields, from + 1);
    }
}

} // verus!
