//! The generic tree value manipulated by the flattener and unflattener:
//! the common denominator of JSON/TOML/YAML documents. Numbers carry
//! their literal text, so no numeric precision is lost in transit.

use vstd::prelude::*;
use vstd::string::StrSliceExecFns;
use vstd::string::StringExecFns;
use crate::escape::{escape, escape_seq, unescape, unescape_seq};
use crate::path_segments::{body_end, digit_run, is_digit, lemma_digit_run};

verus! {

/// A tree-structured document value. An `Object` keeps its fields in
/// insertion order.
#[derive(Debug)]
pub enum Value {
    Null,
    Bool(bool),
    Number(String),
    String(String),
    Array(Vec<Value>),
    Object(Vec<(String, Value)>),
}

/// Mathematical model of a tree value, over character sequences.
#[verifier::ext_equal]
pub enum ValModel {
    Null,
    Bool(bool),
    Number(Seq<char>),
    Text(Seq<char>),
    Array(Seq<ValModel>),
    Object(Seq<(Seq<char>, ValModel)>),
}

impl Value {
    /// The model of this value.
    pub open spec fn model(self) -> ValModel
        decreases self,
    {
        match self {
            Value::Null => ValModel::Null,
            Value::Bool(b) => ValModel::Bool(b),
            Value::Number(s) => ValModel::Number(s@),
            Value::String(s) => ValModel::Text(s@),
            Value::Array(items) => ValModel::Array(
                Seq::new(
                    items@.len(),
                    |i: int|
                        if 0 <= i < items@.len() {
                            items@[i].model()
                        } else {
                            ValModel::Null
                        },
                ),
            ),
            Value::Object(fields) => ValModel::Object(
                Seq::new(
                    fields@.len(),
                    |i: int|
                        if 0 <= i < fields@.len() {
                            (fields@[i].0@, fields@[i].1.model())
                        } else {
                            (Seq::empty(), ValModel::Null)
                        },
                ),
            ),
        }
    }
}

impl View for Value {
    type V = ValModel;

    open spec fn view(&self) -> ValModel {
        self.model()
    }
}

/// The model of an array value, element by element.
pub proof fn lemma_array_model(v: Value, i: int)
    requires
        v is Array,
    ensures
        v@ is Array,
        v@->Array_0.len() == v->Array_0@.len(),
        0 <= i < v->Array_0@.len() ==> v@->Array_0[i] == v->Array_0@[i]@,
{
    assert(v == Value::Array(v->Array_0));
}

/// The model of an object value, field by field.
pub proof fn lemma_object_model(v: Value, i: int)
    requires
        v is Object,
    ensures
        v@ is Object,
        v@->Object_0.len() == v->Object_0@.len(),
        0 <= i < v->Object_0@.len() ==> v@->Object_0[i] == (
            v->Object_0@[i].0@,
            v->Object_0@[i].1@,
        ),
{
    assert(v == Value::Object(v->Object_0));
}

/// End of the integer part of a numeric literal: an optional `-`, then
/// the digit run.
pub open spec fn num_int_end(s: Seq<char>) -> int {
    let i0: int = if s.len() > 0 && s[0] == '-' {
        1
    } else {
        0
    };
    i0 + digit_run(s, i0)
}

/// End of the optional fraction part (`.` digit+).
pub open spec fn num_frac_end(s: Seq<char>) -> int {
    let p = num_int_end(s);
    if p < s.len() && s[p] == '.' {
        p + 1 + digit_run(s, p + 1)
    } else {
        p
    }
}

/// Start of the exponent's digit run, when an exponent marker is present.
pub open spec fn num_exp_digits_start(s: Seq<char>) -> int {
    let p = num_frac_end(s);
    if p + 1 < s.len() && (s[p + 1] == '+' || s[p + 1] == '-') {
        p + 2
    } else {
        p + 1
    }
}

/// End of the optional exponent part (`e`/`E`, optional sign, digit+).
pub open spec fn num_exp_end(s: Seq<char>) -> int {
    let p = num_frac_end(s);
    if p < s.len() && (s[p] == 'e' || s[p] == 'E') {
        let q = num_exp_digits_start(s);
        q + digit_run(s, q)
    } else {
        p
    }
}

/// The JSON numeric literal grammar: an optional minus, an integer part
/// without leading zeros, an optional fraction, an optional exponent,
/// and nothing after them.
pub open spec fn is_number_lit(s: Seq<char>) -> bool {
    let i0: int = if s.len() > 0 && s[0] == '-' {
        1
    } else {
        0
    };
    &&& digit_run(s, i0) >= 1
    &&& (i0 < s.len() && s[i0] == '0' ==> digit_run(s, i0) == 1)
    &&& (num_int_end(s) < s.len() && s[num_int_end(s)] == '.' ==> digit_run(
        s,
        num_int_end(s) + 1,
    ) >= 1)
    &&& (num_frac_end(s) < s.len() && (s[num_frac_end(s)] == 'e' || s[num_frac_end(s)] == 'E')
        ==> digit_run(s, num_exp_digits_start(s)) >= 1)
    &&& num_exp_end(s) == s.len()
}

/// The literal text of a leaf value: `null`, `true`/`false`, the number's
/// own text, or the string double-quoted with the escape transform
/// applied. Containers have no literal text.
pub open spec fn lit_text(v: ValModel) -> Seq<char> {
    match v {
        ValModel::Null => seq!['n', 'u', 'l', 'l'],
        ValModel::Bool(b) => if b {
            seq!['t', 'r', 'u', 'e']
        } else {
            seq!['f', 'a', 'l', 's', 'e']
        },
        ValModel::Number(s) => s,
        ValModel::Text(s) => seq!['"'] + escape_seq(s) + seq!['"'],
        ValModel::Array(_) => Seq::empty(),
        ValModel::Object(_) => Seq::empty(),
    }
}

/// The literal grammar accepted on the value side of a line: `null`, the
/// booleans, a double-quoted string (un-escaped on parsing), or a numeric
/// literal (kept as text).
pub open spec fn spec_parse_literal(s: Seq<char>) -> Option<ValModel> {
    if s == seq!['n', 'u', 'l', 'l'] {
        Some(ValModel::Null)
    } else if s == seq!['t', 'r', 'u', 'e'] {
        Some(ValModel::Bool(true))
    } else if s == seq!['f', 'a', 'l', 's', 'e'] {
        Some(ValModel::Bool(false))
    } else if s.len() >= 2 && s[0] == '"' {
        if body_end(s, 1) == Some(s.len() - 1) {
            Some(ValModel::Text(unescape_seq(s.subrange(1, s.len() - 1))))
        } else {
            None
        }
    } else if is_number_lit(s) {
        Some(ValModel::Number(s))
    } else {
        None
    }
}

/// A leaf value that the codec round-trips: a number's text must itself
/// be a valid numeric literal.
pub open spec fn leaf_wf(v: ValModel) -> bool {
    match v {
        ValModel::Number(s) => is_number_lit(s),
        ValModel::Array(_) => false,
        ValModel::Object(_) => false,
        _ => true,
    }
}

fn digit_run_end(input: &str, pos: usize, n: usize) -> (r: usize)
    requires
        n == input@.len(),
        pos <= n,
    ensures
        r as int == pos + digit_run(input@, pos as int),
        pos <= r <= n,
{
    proof {
        lemma_digit_run(input@, pos as int);
    }
    let mut j: usize = pos;
    loop
        invariant
            n == input@.len(),
            pos <= j <= n,
            digit_run(input@, pos as int) == j - pos + digit_run(input@, j as int),
        ensures
            pos <= j <= n,
            j == pos + digit_run(input@, pos as int),
        decreases n - j,
    {
        if j >= n {
            break;
        }
        let c = input.get_char(j);
        let u = c as u32;
        if !(0x30 <= u && u <= 0x39) {
            proof {
                assert(!is_digit(input@[j as int]));
            }
            break;
        }
        proof {
            assert(is_digit(input@[j as int]));
            assert(digit_run(input@, j as int) == 1 + digit_run(input@, j + 1));
        }
        j = j + 1;
    }
    j
}

/// Decides whether the input is a valid numeric literal.
pub fn is_number_literal(input: &str) -> (r: bool)
    ensures
        r == is_number_lit(input@),
{
    let n = input.unicode_len();
    let i0: usize = if n > 0 && input.get_char(0) == '-' {
        1
    } else {
        0
    };
    let int_end = digit_run_end(input, i0, n);
    if int_end == i0 {
        return false;
    }
    if input.get_char(i0) == '0' && int_end != i0 + 1 {
        return false;
    }
    let frac_end = if int_end < n && input.get_char(int_end) == '.' {
        let fe = digit_run_end(input, int_end + 1, n);
        if fe == int_end + 1 {
            return false;
        }
        fe
    } else {
        int_end
    };
    proof {
        assert(num_int_end(input@) == int_end as int);
        assert(num_frac_end(input@) == frac_end as int);
    }
    let exp_end = if frac_end < n && (input.get_char(frac_end) == 'e' || input.get_char(frac_end)
        == 'E') {
        let q = if frac_end + 1 < n && (input.get_char(frac_end + 1) == '+' || input.get_char(
            frac_end + 1,
        ) == '-') {
            frac_end + 2
        } else {
            frac_end + 1
        };
        let ee = digit_run_end(input, q, n);
        if ee == q {
            return false;
        }
        ee
    } else {
        frac_end
    };
    proof {
        assert(num_exp_end(input@) == exp_end as int);
    }
    exp_end == n
}

/// Parses the value side of a line: `null`, `true`, `false`, a quoted
/// string (un-escaping its body), or a numeric literal (kept as text).
pub fn parse_literal(input: &str) -> (r: Option<Value>)
    ensures
        match r {
            Some(v) => spec_parse_literal(input@) == Some(v@),
            None => spec_parse_literal(input@) is None,
        },
{
    let n = input.unicode_len();
    if n == 4 && input.get_char(0) == 'n' && input.get_char(1) == 'u' && input.get_char(2) == 'l'
        && input.get_char(3) == 'l' {
        proof {
            assert(input@ =~= seq!['n', 'u', 'l', 'l']);
        }
        return Some(Value::Null);
    }
    if n == 4 && input.get_char(0) == 't' && input.get_char(1) == 'r' && input.get_char(2) == 'u'
        && input.get_char(3) == 'e' {
        proof {
            assert(input@ =~= seq!['t', 'r', 'u', 'e']);
        }
        return Some(Value::Bool(true));
    }
    if n == 5 && input.get_char(0) == 'f' && input.get_char(1) == 'a' && input.get_char(2) == 'l'
        && input.get_char(3) == 's' && input.get_char(4) == 'e' {
        proof {
            assert(input@ =~= seq!['f', 'a', 'l', 's', 'e']);
        }
        return Some(Value::Bool(false));
    }
    proof {
        assert(input@ != seq!['n', 'u', 'l', 'l']);
        assert(input@ != seq!['t', 'r', 'u', 'e']);
        assert(input@ != seq!['f', 'a', 'l', 's', 'e']);
    }
    if n >= 2 && input.get_char(0) == '"' {
        match crate::path_segments::scan_body_at(input, 1, n) {
            Some(e) => {
                if e + 1 == n {
                    let body = input.substring_char(1, e);
                    let text = unescape(body);
                    return Some(Value::String(text));
                } else {
                    return None;
                }
            },
            None => {
                return None;
            },
        }
    }
    if is_number_literal(input) {
        proof {
            assert(!(input@.len() >= 2 && input@[0] == '"'));
        }
        return Some(Value::Number(input.to_owned()));
    }
    None
}

/// The escape transform always yields a well-formed quoted body.
pub proof fn lemma_escape_body_ok(s: Seq<char>)
    ensures
        crate::path_segments::body_ok(escape_seq(s)),
    decreases s.len(),
{
    if s.len() == 0 {
    } else {
        lemma_escape_body_ok(s.drop_first());
        let e = escape_seq(s);
        if s[0] == '"' || s[0] == '\\' || s[0] == '\n' {
            assert(e[0] == '\\');
            assert(e.len() >= 2);
            assert(e.subrange(2, e.len() as int) =~= escape_seq(s.drop_first()));
        } else {
            assert(e[0] == s[0]);
            assert(e.drop_first() =~= escape_seq(s.drop_first()));
        }
    }
}

/// Law: parsing inverts rendering for every well-formed leaf value.
pub proof fn lemma_parse_literal_text(v: ValModel)
    requires
        leaf_wf(v),
    ensures
        spec_parse_literal(lit_text(v)) == Some(v),
{
    let t = lit_text(v);
    match v {
        ValModel::Null => {
        },
        ValModel::Bool(b) => {
            if b {
                assert(t[0] == 't');
                assert(t != seq!['n', 'u', 'l', 'l']);
            } else {
                assert(t[0] == 'f');
                assert(t != seq!['n', 'u', 'l', 'l']);
                assert(t != seq!['t', 'r', 'u', 'e']);
            }
        },
        ValModel::Number(s) => {
            let i0: int = if s.len() > 0 && s[0] == '-' {
                1
            } else {
                0
            };
            assert(digit_run(s, i0) >= 1);
            if i0 == 0 {
                assert(is_digit(s[0]));
            }
            assert(s.len() >= 1);
            assert(s[0] == '-' || is_digit(s[0]));
            assert(t != seq!['n', 'u', 'l', 'l']);
            assert(t != seq!['t', 'r', 'u', 'e']);
            assert(t != seq!['f', 'a', 'l', 's', 'e']);
            assert(s[0] != '"');
        },
        ValModel::Text(s) => {
            let body = escape_seq(s);
            assert(t == seq!['"'] + body + seq!['"']);
            assert(t.len() == body.len() + 2);
            assert(t[0] == '"');
            assert(t != seq!['n', 'u', 'l', 'l']);
            assert(t != seq!['t', 'r', 'u', 'e']);
            assert(t != seq!['f', 'a', 'l', 's', 'e']);
            lemma_escape_body_ok(s);
            assert(t.subrange(1, 1 + body.len() as int) =~= body) by {
                assert forall|j: int| 0 <= j < body.len() implies t.subrange(
                    1,
                    1 + body.len() as int,
                )[j] == body[j] by {
                    assert(t.subrange(1, 1 + body.len() as int)[j] == t[1 + j]);
                    assert(t[1 + j] == body[j]);
                }
            }
            assert(t[1 + body.len() as int] == '"');
            crate::path_segments::lemma_body_end_exact(t, 1, body);
            assert(body_end(t, 1) == Some(t.len() - 1));
            assert(t.subrange(1, t.len() - 1) =~= body);
            crate::escape::lemma_unescape_escape(s);
            assert(unescape_seq(t.subrange(1, t.len() - 1)) == s);
        },
        ValModel::Array(_) => {
            assert(false);
        },
        ValModel::Object(_) => {
            assert(false);
        },
    }
}

/// Renders a leaf value as its literal text.
pub fn literal_text(v: &Value) -> (r: String)
    requires
        !(v@ is Array),
        !(v@ is Object),
    ensures
        r@ == lit_text(v@),
{
    match v {
        Value::Null => {
            let s = String::from_str("null");
            proof {
                reveal_strlit("null");
                assert(s@ =~= lit_text(v@));
            }
            s
        },
        Value::Bool(b) => {
            let s = if *b {
                String::from_str("true")
            } else {
                String::from_str("false")
            };
            proof {
                reveal_strlit("true");
                reveal_strlit("false");
                assert(s@ =~= lit_text(v@));
            }
            s
        },
        Value::Number(t) => t.clone(),
        Value::String(t) => {
            let mut s = String::from_str("\"");
            let e = escape(t.as_str());
            s.append(e.as_str());
            s.append("\"");
            proof {
                reveal_strlit("\"");
                assert(s@ =~= lit_text(v@));
            }
            s
        },
        Value::Array(_) => {
            proof {
                assert(false);
            }
            String::new()
        },
        Value::Object(_) => {
            proof {
                assert(false);
            }
            String::new()
        },
    }
}

impl PartialEq for Value {
    fn eq(&self, other: &Value) -> (r: bool)
        decreases self,
    {
        match (self, other) {
            (Value::Null, Value::Null) => true,
            (Value::Bool(a), Value::Bool(b)) => *a == *b,
            (Value::Number(a), Value::Number(b)) => a.eq(b),
            (Value::String(a), Value::String(b)) => a.eq(b),
            (Value::Array(a), Value::Array(b)) => {
                let ghost ma = self@->Array_0;
                let ghost mb = other@->Array_0;
                proof {
                    lemma_array_model(*self, 0);
                    lemma_array_model(*other, 0);
                }
                if a.len() != b.len() {
                    proof {
                        assert(ma.len() != mb.len());
                    }
                    false
                } else {
                    let n = a.len();
                    let mut i: usize = 0;
                    let mut same = true;
                    loop
                        invariant_except_break
                            same,
                        invariant
                            *self == Value::Array(*a),
                            *other == Value::Array(*b),
                            ma == self@->Array_0,
                            mb == other@->Array_0,
                            ma.len() == a@.len(),
                            mb.len() == b@.len(),
                            n == a.len(),
                            n == b.len(),
                            i <= n,
                            forall|t: int| 0 <= t < i ==> ma[t] == mb[t],
                        ensures
                            i <= n,
                            same ==> i == n,
                            same ==> forall|t: int| 0 <= t < n ==> ma[t] == mb[t],
                            !same ==> exists|t: int| 0 <= t < n && ma[t] != mb[t],
                        decreases n - i,
                    {
                        if i >= n {
                            break;
                        }
                        proof {
                            lemma_array_model(*self, i as int);
                            lemma_array_model(*other, i as int);
                            assert(decreases_to!(*self => self->Array_0));
                            assert(decreases_to!(self->Array_0 => self->Array_0@));
                            assert(decreases_to!(self->Array_0@ => self->Array_0@[i as int]));
                        }
                        if !a[i].eq(&b[i]) {
                            same = false;
                            proof {
                                assert(ma[i as int] != mb[i as int]);
                            }
                            break;
                        }
                        proof {
                            assert(ma[i as int] == mb[i as int]);
                        }
                        i = i + 1;
                    }
                    proof {
                        if same {
                            assert(ma =~= mb);
                        }
                    }
                    same
                }
            },
            (Value::Object(a), Value::Object(b)) => {
                let ghost ma = self@->Object_0;
                let ghost mb = other@->Object_0;
                proof {
                    lemma_object_model(*self, 0);
                    lemma_object_model(*other, 0);
                }
                if a.len() != b.len() {
                    proof {
                        assert(ma.len() != mb.len());
                    }
                    false
                } else {
                    let n = a.len();
                    let mut i: usize = 0;
                    let mut same = true;
                    loop
                        invariant_except_break
                            same,
                        invariant
                            *self == Value::Object(*a),
                            *other == Value::Object(*b),
                            ma == self@->Object_0,
                            mb == other@->Object_0,
                            ma.len() == a@.len(),
                            mb.len() == b@.len(),
                            n == a.len(),
                            n == b.len(),
                            i <= n,
                            forall|t: int| 0 <= t < i ==> ma[t] == mb[t],
                        ensures
                            i <= n,
                            same ==> i == n,
                            same ==> forall|t: int| 0 <= t < n ==> ma[t] == mb[t],
                            !same ==> exists|t: int| 0 <= t < n && ma[t] != mb[t],
                        decreases n - i,
                    {
                        if i >= n {
                            break;
                        }
                        proof {
                            lemma_object_model(*self, i as int);
                            lemma_object_model(*other, i as int);
                            assert(decreases_to!(*self => self->Object_0));
                            assert(decreases_to!(self->Object_0 => self->Object_0@));
                            assert(decreases_to!(self->Object_0@ => self->Object_0@[i as int]));
                            assert(decreases_to!(self->Object_0@[i as int] => self->Object_0@[i as int].1));
                        }
                        let keys_equal = a[i].0.eq(&b[i].0);
                        if !keys_equal {
                            same = false;
                            proof {
                                assert(ma[i as int].0 != mb[i as int].0);
                                assert(ma[i as int] != mb[i as int]);
                            }
                            break;
                        }
                        if !a[i].1.eq(&b[i].1) {
                            same = false;
                            proof {
                                assert(ma[i as int].1 != mb[i as int].1);
                                assert(ma[i as int] != mb[i as int]);
                            }
                            break;
                        }
                        proof {
                            assert(ma[i as int] == mb[i as int]);
                        }
                        i = i + 1;
                    }
                    proof {
                        if same {
                            assert(ma =~= mb);
                        }
                    }
                    same
                }
            },
            _ => false,
        }
    }
}

impl vstd::std_specs::cmp::PartialEqSpecImpl for Value {
    open spec fn obeys_eq_spec() -> bool {
        true
    }

    open spec fn eq_spec(&self, other: &Value) -> bool {
        self@ == other@
    }
}

} // verus!
