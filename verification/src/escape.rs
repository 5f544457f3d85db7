//! Backslash escaping of property values.
//!
//! On the wire a property value encodes `\` as `\\`, `;` as `\;`, `,` as `\,`
//! and a line break as `\n` (or `\N`). In memory values are stored fully
//! unescaped; escaping happens only on write, unescaping only on read.
//! Unescaping is total: a backslash before any other character, or a trailing
//! backslash, is kept as it stands.

use crate::text::{chars_to_string, str_to_chars};
use vstd::prelude::*;

verus! {

/// The wire form of one character of a property value.
pub open spec fn escape_char(c: char) -> Seq<char> {
    if c == '\\' {
        seq!['\\', '\\']
    } else if c == ';' {
        seq!['\\', ';']
    } else if c == ',' {
        seq!['\\', ',']
    } else if c == '\n' {
        seq!['\\', 'n']
    } else {
        seq![c]
    }
}

/// The wire form of a property value.
pub open spec fn escape_text(s: Seq<char>) -> Seq<char>
    decreases s.len(),
{
    if s.len() == 0 {
        Seq::empty()
    } else {
        escape_char(s[0]) + escape_text(s.skip(1))
    }
}

/// What an escape pair `\d` stands for.
pub open spec fn unescape_pair(d: char) -> Seq<char> {
    if d == '\\' {
        seq!['\\']
    } else if d == ';' {
        seq![';']
    } else if d == ',' {
        seq![',']
    } else if d == 'n' || d == 'N' {
        seq!['\n']
    } else {
        seq!['\\', d]
    }
}

/// The value a wire text stands for, with escape sequences resolved.
pub open spec fn unescape_text(s: Seq<char>) -> Seq<char>
    decreases s.len(),
{
    if s.len() == 0 {
        Seq::empty()
    } else if s[0] == '\\' && s.len() >= 2 {
        unescape_pair(s[1]) + unescape_text(s.skip(2))
    } else {
        seq![s[0]] + unescape_text(s.skip(1))
    }
}

/// Escaping one text after another escapes the concatenation.
pub proof fn lemma_escape_text_concat(a: Seq<char>, b: Seq<char>)
    ensures
        escape_text(a + b) == escape_text(a) + escape_text(b),
    decreases a.len(),
{
    if a.len() == 0 {
        assert(a + b =~= b);
        assert(escape_text(a) + escape_text(b) =~= escape_text(b));
    } else {
        assert((a + b).skip(1) =~= a.skip(1) + b);
        lemma_escape_text_concat(a.skip(1), b);
        assert(escape_char((a + b)[0]) + (escape_text(a.skip(1)) + escape_text(b))
            =~= (escape_char(a[0]) + escape_text(a.skip(1))) + escape_text(b));
    }
}

/// Unescaping is the inverse of escaping: whatever characters a value holds,
/// its wire form reads back as the same value.
pub proof fn lemma_unescape_escape(s: Seq<char>)
    ensures
        unescape_text(escape_text(s)) == s,
    decreases s.len(),
{
    if s.len() == 0 {
    } else {
        let c = s[0];
        let e = escape_text(s);
        let rest = escape_text(s.skip(1));
        lemma_unescape_escape(s.skip(1));
        if c == '\\' || c == ';' || c == ',' || c == '\n' {
            let d = escape_char(c)[1];
            assert(e == seq!['\\', d] + rest);
            assert(e[0] == '\\' && e.len() >= 2);
            assert(e[1] == d);
            assert(unescape_pair(d) =~= seq![c]);
            assert(e.skip(2) =~= rest);
            assert(seq![c] + s.skip(1) =~= s);
        } else {
            assert(e == seq![c] + rest);
            assert(e[0] == c && c != '\\');
            assert(e.skip(1) =~= rest);
            assert(seq![c] + s.skip(1) =~= s);
        }
    }
}

/// Resolve the escape sequences of one wire text.
pub fn unescape_chars(v: &Vec<char>) -> (r: Vec<char>)
    ensures
        r@ == unescape_text(v@),
{
    let n = v.len();
    let mut r: Vec<char> = Vec::new();
    let mut i: usize = 0;
    proof {
        assert(v@.skip(0) =~= v@);
        assert(r@ + unescape_text(v@) =~= unescape_text(v@));
    }
    while i < n
        invariant
            i <= n,
            n == v@.len(),
            unescape_text(v@) == r@ + unescape_text(v@.skip(i as int)),
        decreases n - i,
    {
        let ghost pre = r@;
        let ghost tail = v@.skip(i as int);
        proof {
            assert(tail[0] == v@[i as int]);
        }
        if v[i] == '\\' && i + 1 < n {
            proof {
                assert(tail.len() >= 2 && tail[1] == v@[i + 1]);
                assert(tail.skip(2) =~= v@.skip(i + 2));
            }
            let d = v[i + 1];
            if d == '\\' {
                r.push('\\');
            } else if d == ';' {
                r.push(';');
            } else if d == ',' {
                r.push(',');
            } else if d == 'n' || d == 'N' {
                r.push('\n');
            } else {
                r.push('\\');
                r.push(d);
            }
            proof {
                assert(r@ =~= pre + unescape_pair(v@[i + 1]));
            }
            i += 2;
        } else {
            proof {
                if tail[0] == '\\' {
                    assert(tail.len() == 1);
                }
                assert(tail.skip(1) =~= v@.skip(i + 1));
            }
            let c = v[i];
            r.push(c);
            proof {
                assert(r@ =~= pre + seq![tail[0]]);
            }
            i += 1;
        }
    }
    proof {
        assert(v@.skip(n as int) =~= Seq::<char>::empty());
        assert(r@ =~= r@ + unescape_text(v@.skip(n as int)));
    }
    r
}

/// Write the wire form of one value.
pub fn escape_chars(v: &Vec<char>) -> (r: Vec<char>)
    ensures
        r@ == escape_text(v@),
{
    let n = v.len();
    let mut r: Vec<char> = Vec::new();
    let mut i: usize = 0;
    while i < n
        invariant
            i <= n,
            n == v@.len(),
            r@ == escape_text(v@.take(i as int)),
        decreases n - i,
    {
        let c = v[i];
        if c == '\\' {
            r.push('\\');
            r.push('\\');
        } else if c == ';' {
            r.push('\\');
            r.push(';');
        } else if c == ',' {
            r.push('\\');
            r.push(',');
        } else if c == '\n' {
            r.push('\\');
            r.push('n');
        } else {
            r.push(c);
        }
        proof {
            let pre = v@.take(i as int);
            lemma_escape_text_concat(pre, seq![v@[i as int]]);
            assert(pre + seq![v@[i as int]] =~= v@.take(i + 1 as int));
            assert(escape_text(seq![v@[i as int]]) =~= escape_char(v@[i as int]) + escape_text(
                seq![v@[i as int]].skip(1),
            ));
            assert(seq![v@[i as int]].skip(1) =~= Seq::<char>::empty());
            assert(escape_char(v@[i as int]) + Seq::<char>::empty() =~= escape_char(v@[i as int]));
            assert(r@ =~= escape_text(pre) + escape_char(v@[i as int]));
        }
        i += 1;
    }
    proof {
        assert(v@.take(n as int) =~= v@);
    }
    r
}

/// The wire form of a value, as a string.
pub fn escape(s: &str) -> (r: String)
    ensures
        r@ == escape_text(s@),
{
    let v = str_to_chars(s);
    let e = escape_chars(&v);
    chars_to_string(&e)
}

/// The value a wire text stands for, as a string.
pub fn unescape(s: &str) -> (r: String)
    ensures
        r@ == unescape_text(s@),
{
    let v = str_to_chars(s);
    let u = unescape_chars(&v);
    chars_to_string(&u)
}

} // verus!
