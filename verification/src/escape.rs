//! The escaping and quoting policy: deciding whether a key must be emitted
//! inside a bracketed, double-quoted literal, and the escape / unescape
//! transform applied to such quoted text.

use vstd::prelude::*;
use crate::text::chars_to_string;

verus! {

/// The characters that make a key unsafe to emit as a bare dotted segment:
/// `.`, `-`, `@`, `=`, space, the control range 0x09..=0x0d, and any
/// decimal digit.
pub open spec fn is_quote_trigger(c: char) -> bool {
    let u = c as u32;
    c == '.' || c == '-' || c == '@' || c == '=' || c == ' ' || (0x09 <= u && u <= 0x0d) || (0x30
        <= u && u <= 0x39)
}

/// A key must be quoted exactly when it contains some trigger character.
pub open spec fn needs_quoting_seq(s: Seq<char>) -> bool {
    exists|i: int| 0 <= i < s.len() && is_quote_trigger(s[i])
}

fn quote_trigger(c: char) -> (r: bool)
    ensures
        r == is_quote_trigger(c),
{
    let u = c as u32;
    c == '.' || c == '-' || c == '@' || c == '=' || c == ' ' || (0x09 <= u && u <= 0x0d) || (0x30
        <= u && u <= 0x39)
}

/// Decides whether a key is unsafe to emit bare: true exactly when the key
/// contains `.`, `-`, `@`, `=`, whitespace in the 0x09..=0x0d range, a
/// space, or a decimal digit anywhere.
pub fn needs_quotes(input: &str) -> (r: bool)
    ensures
        r == needs_quoting_seq(input@),
{
    let n = input.unicode_len();
    let mut i: usize = 0;
    while i < n
        invariant
            n == input@.len(),
            i <= n,
            forall|j: int| 0 <= j < i ==> !is_quote_trigger(input@[j]),
        decreases n - i,
    {
        let c = input.get_char(i);
        if quote_trigger(c) {
            proof {
                assert(is_quote_trigger(input@[i as int]));
            }
            return true;
        }
        i += 1;
    }
    false
}

/// The escaped form of one character: `"` and `\` gain a backslash, a
/// newline becomes the two characters `\n`, everything else is unchanged.
pub open spec fn escape_char(c: char) -> Seq<char> {
    if c == '"' {
        seq!['\\', '"']
    } else if c == '\\' {
        seq!['\\', '\\']
    } else if c == '\n' {
        seq!['\\', 'n']
    } else {
        seq![c]
    }
}

/// The escape transform over a whole string.
pub open spec fn escape_seq(s: Seq<char>) -> Seq<char>
    decreases s.len(),
{
    if s.len() == 0 {
        Seq::empty()
    } else {
        escape_char(s[0]) + escape_seq(s.drop_first())
    }
}

/// What one escape pair `\c` stands for: `\n` is a newline; `\"` and `\\`
/// drop the backslash, as does any other escaped character.
pub open spec fn unescape_char(c: char) -> char {
    if c == 'n' {
        '\n'
    } else {
        c
    }
}

/// The unescape transform: a backslash and its follower collapse to one
/// character; a trailing lone backslash is kept; everything else passes
/// through.
pub open spec fn unescape_seq(s: Seq<char>) -> Seq<char>
    decreases s.len(),
{
    if s.len() == 0 {
        Seq::empty()
    } else if s[0] == '\\' {
        if s.len() >= 2 {
            seq![unescape_char(s[1])] + unescape_seq(s.subrange(2, s.len() as int))
        } else {
            seq!['\\']
        }
    } else {
        seq![s[0]] + unescape_seq(s.drop_first())
    }
}

/// Escaping distributes over concatenation.
pub proof fn lemma_escape_append(a: Seq<char>, b: Seq<char>)
    ensures
        escape_seq(a + b) == escape_seq(a) + escape_seq(b),
    decreases a.len(),
{
    if a.len() == 0 {
        assert(a + b =~= b);
        assert(escape_seq(a) + escape_seq(b) =~= escape_seq(b));
    } else {
        assert((a + b).drop_first() =~= a.drop_first() + b);
        lemma_escape_append(a.drop_first(), b);
        assert(escape_seq(a + b) =~= escape_seq(a) + escape_seq(b));
    }
}

/// Law: un-escaping inverts escaping exactly, for every string.
pub proof fn lemma_unescape_escape(s: Seq<char>)
    ensures
        unescape_seq(escape_seq(s)) == s,
    decreases s.len(),
{
    if s.len() == 0 {
    } else {
        let rest = s.drop_first();
        lemma_unescape_escape(rest);
        let e = escape_seq(s);
        assert(e =~= escape_char(s[0]) + escape_seq(rest));
        if s[0] == '"' || s[0] == '\\' || s[0] == '\n' {
            assert(e[0] == '\\');
            assert(e.len() >= 2);
            assert(e.subrange(2, e.len() as int) =~= escape_seq(rest));
            assert(unescape_seq(e) =~= seq![unescape_char(e[1])] + rest);
            assert(unescape_seq(e) =~= s);
        } else {
            assert(e[0] == s[0]);
            assert(e.drop_first() =~= escape_seq(rest));
            assert(unescape_seq(e) =~= seq![s[0]] + rest);
            assert(unescape_seq(e) =~= s);
        }
    }
}

/// Applies the escape transform: backslash-escapes `"` and `\`, and writes
/// an embedded newline as the two-character escape `\n`.
pub fn escape(input: &str) -> (r: String)
    ensures
        r@ == escape_seq(input@),
{
    let n = input.unicode_len();
    let mut out: Vec<char> = Vec::new();
    let mut i: usize = 0;
    while i < n
        invariant
            n == input@.len(),
            i <= n,
            out@ == escape_seq(input@.subrange(0, i as int)),
        decreases n - i,
    {
        let c = input.get_char(i);
        if c == '"' {
            out.push('\\');
            out.push('"');
        } else if c == '\\' {
            out.push('\\');
            out.push('\\');
        } else if c == '\n' {
            out.push('\\');
            out.push('n');
        } else {
            out.push(c);
        }
        proof {
            let pre = input@.subrange(0, i as int);
            let one = seq![input@[i as int]];
            lemma_escape_append(pre, one);
            assert(input@.subrange(0, i + 1) =~= pre + one);
            assert(one.drop_first() =~= Seq::<char>::empty());
            assert(escape_seq(one.drop_first()) =~= Seq::<char>::empty());
            assert(escape_seq(one) =~= escape_char(input@[i as int]));
            assert(out@ =~= escape_seq(input@.subrange(0, i + 1)));
        }
        i += 1;
    }
    proof {
        assert(input@.subrange(0, n as int) =~= input@);
    }
    chars_to_string(&out)
}

/// Applies the unescape transform, reversing `escape` exactly.
pub fn unescape(input: &str) -> (r: String)
    ensures
        r@ == unescape_seq(input@),
{
    let n = input.unicode_len();
    let mut out: Vec<char> = Vec::new();
    let mut i: usize = 0;
    proof {
        assert(input@.subrange(0, n as int) =~= input@);
        assert(Seq::<char>::empty() + unescape_seq(input@) =~= unescape_seq(input@));
    }
    while i < n
        invariant
            n == input@.len(),
            i <= n,
            unescape_seq(input@) == out@ + unescape_seq(input@.subrange(i as int, n as int)),
        decreases n - i,
    {
        let ghost pre_out = out@;
        let ghost suffix = input@.subrange(i as int, n as int);
        let c = input.get_char(i);
        if c == '\\' {
            if i + 1 < n {
                let c2 = input.get_char(i + 1);
                if c2 == 'n' {
                    out.push('\n');
                } else {
                    out.push(c2);
                }
                proof {
                    assert(suffix[0] == '\\');
                    assert(suffix[1] == input@[i + 1]);
                    assert(suffix.subrange(2, suffix.len() as int) =~= input@.subrange(
                        i + 2,
                        n as int,
                    ));
                    assert(out@ =~= pre_out + seq![unescape_char(suffix[1])]);
                    assert(unescape_seq(input@) == out@ + unescape_seq(
                        input@.subrange(i + 2, n as int),
                    ));
                }
                i += 2;
            } else {
                out.push('\\');
                proof {
                    assert(suffix.len() == 1);
                    assert(suffix[0] == '\\');
                    assert(unescape_seq(suffix) =~= seq!['\\']);
                    assert(out@ =~= pre_out + seq!['\\']);
                    assert(input@.subrange(i + 1, n as int) =~= Seq::<char>::empty());
                    assert(unescape_seq(input@) == out@ + unescape_seq(
                        input@.subrange(i + 1, n as int),
                    ));
                }
                i += 1;
            }
        } else {
            out.push(c);
            proof {
                assert(suffix[0] == input@[i as int]);
                assert(suffix.drop_first() =~= input@.subrange(i + 1, n as int));
                assert(out@ =~= pre_out + seq![suffix[0]]);
                assert(unescape_seq(input@) == out@ + unescape_seq(
                    input@.subrange(i + 1, n as int),
                ));
            }
            i += 1;
        }
    }
    proof {
        assert(input@.subrange(n as int, n as int) =~= Seq::<char>::empty());
        assert(out@ =~= unescape_seq(input@));
    }
    chars_to_string(&out)
}

} // verus!
