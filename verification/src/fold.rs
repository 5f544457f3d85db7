//! Line folding and unfolding.
//!
//! A logical content line may be split across physical lines: every
//! continuation physical line begins with one space or tab right after the
//! line break, and break and marker are both dropped when rejoining. A break
//! not followed by such a marker ends the logical line. Reading accepts bare
//! `\n` as well as `\r\n`; a `\r` not followed by `\n` is ordinary content.
//! Unfolding never fails: every text yields some sequence of logical lines.
//!
//! On output, a logical line whose encoded form exceeds 75 octets is split
//! into chunks of at most 75 octets, never inside one character's encoding,
//! each continuation chunk on its own physical line behind one space.

use crate::text::{chars_to_string, str_to_chars};
use vstd::prelude::*;

verus! {

/// A continuation marker: the whitespace right after a fold's line break.
pub open spec fn is_marker(c: char) -> bool {
    c == ' ' || c == '\t'
}

/// The line terminator emitted on write.
pub open spec fn crlf() -> Seq<char> {
    seq!['\r', '\n']
}

/// The logical line starting at position `i`, and the position right after
/// the terminator that ended it.
pub open spec fn logical_line_at(s: Seq<char>, i: int) -> (Seq<char>, int)
    decreases s.len() - i,
{
    if i >= s.len() {
        (Seq::empty(), i)
    } else if s[i] == '\n' {
        if i + 1 < s.len() && is_marker(s[i + 1]) {
            logical_line_at(s, i + 2)
        } else {
            (Seq::empty(), i + 1)
        }
    } else if s[i] == '\r' && i + 1 < s.len() && s[i + 1] == '\n' {
        if i + 2 < s.len() && is_marker(s[i + 2]) {
            logical_line_at(s, i + 3)
        } else {
            (Seq::empty(), i + 2)
        }
    } else {
        let r = logical_line_at(s, i + 1);
        (seq![s[i]] + r.0, r.1)
    }
}

/// Scanning a logical line always makes progress and stays inside the text.
pub proof fn lemma_logical_line_at_bounds(s: Seq<char>, i: int)
    requires
        0 <= i <= s.len(),
    ensures
        i <= logical_line_at(s, i).1 <= s.len(),
        i < s.len() ==> logical_line_at(s, i).1 > i,
    decreases s.len() - i,
{
    if i >= s.len() {
    } else if s[i] == '\n' {
        if i + 1 < s.len() && is_marker(s[i + 1]) {
            lemma_logical_line_at_bounds(s, i + 2);
        }
    } else if s[i] == '\r' && i + 1 < s.len() && s[i + 1] == '\n' {
        if i + 2 < s.len() && is_marker(s[i + 2]) {
            lemma_logical_line_at_bounds(s, i + 3);
        }
    } else {
        lemma_logical_line_at_bounds(s, i + 1);
    }
}

/// All logical lines from position `i` on.
pub open spec fn unfold_lines_at(s: Seq<char>, i: int) -> Seq<Seq<char>>
    decreases s.len() - i,
    via unfold_lines_at_decreases
{
    if i < 0 || i >= s.len() {
        Seq::empty()
    } else {
        seq![logical_line_at(s, i).0] + unfold_lines_at(s, logical_line_at(s, i).1)
    }
}

#[via_fn]
proof fn unfold_lines_at_decreases(s: Seq<char>, i: int) {
    if 0 <= i && i < s.len() {
        lemma_logical_line_at_bounds(s, i);
    }
}

/// The logical lines of a text.
pub open spec fn unfold_lines(s: Seq<char>) -> Seq<Seq<char>> {
    unfold_lines_at(s, 0)
}

/// How many octets one character occupies in the encoded form.
pub open spec fn spec_octets(c: char) -> int {
    if (c as u32) < 0x80 {
        1
    } else if (c as u32) < 0x800 {
        2
    } else if (c as u32) < 0x10000 {
        3
    } else {
        4
    }
}

/// How many octets a text occupies in the encoded form.
pub open spec fn octet_len(s: Seq<char>) -> int
    decreases s.len(),
{
    if s.len() == 0 {
        0
    } else {
        spec_octets(s[0]) + octet_len(s.skip(1))
    }
}

/// How many leading characters of `l` fit into `budget` octets.
pub open spec fn take_budget(l: Seq<char>, budget: int) -> int
    decreases l.len(),
{
    if l.len() == 0 {
        0
    } else if spec_octets(l[0]) <= budget {
        1 + take_budget(l.skip(1), budget - spec_octets(l[0]))
    } else {
        0
    }
}

pub proof fn lemma_take_budget_bounds(l: Seq<char>, budget: int)
    ensures
        0 <= take_budget(l, budget) <= l.len(),
        l.len() > 0 && budget >= 4 ==> take_budget(l, budget) >= 1,
    decreases l.len(),
{
    if l.len() > 0 && spec_octets(l[0]) <= budget {
        lemma_take_budget_bounds(l.skip(1), budget - spec_octets(l[0]));
    }
}

/// The octet budget of one physical line.
pub open spec fn line_limit() -> int {
    75
}

/// The folded, physical form of one logical line: chunks of at most 75
/// octets, joined by a line break plus one continuation space. The line's
/// own trailing terminator is not included.
pub open spec fn fold_line(l: Seq<char>) -> Seq<char>
    decreases l.len(),
    via fold_line_decreases
{
    let k = take_budget(l, line_limit());
    if k >= l.len() {
        l
    } else {
        l.take(k) + seq!['\r', '\n', ' '] + fold_line(l.skip(k))
    }
}

#[via_fn]
proof fn fold_line_decreases(l: Seq<char>) {
    lemma_take_budget_bounds(l, line_limit());
}

/// Scanning plain content (no line breaks) just accumulates it.
proof fn lemma_logical_content(s: Seq<char>, i: int, m: int)
    requires
        0 <= i <= m <= s.len(),
        forall|j: int| i <= j < m ==> s[j] != '\n' && s[j] != '\r',
    ensures
        logical_line_at(s, i).0 == s.subrange(i, m) + logical_line_at(s, m).0,
        logical_line_at(s, i).1 == logical_line_at(s, m).1,
    decreases m - i,
{
    if i == m {
        assert(s.subrange(i, m) =~= Seq::empty());
        assert(s.subrange(i, m) + logical_line_at(s, m).0 =~= logical_line_at(s, m).0);
    } else {
        lemma_logical_content(s, i + 1, m);
        assert(seq![s[i]] + (s.subrange(i + 1, m) + logical_line_at(s, m).0) =~= s.subrange(i, m)
            + logical_line_at(s, m).0);
    }
}

/// Reading back a folded line: the scan starting at the folded form recovers
/// the original line and stops right after its terminator, provided the line
/// holds no line breaks of its own and what follows does not begin with a
/// continuation marker.
pub proof fn lemma_unfold_folded_line(s: Seq<char>, i: int, l: Seq<char>)
    requires
        0 <= i,
        i + fold_line(l).len() + 2 <= s.len(),
        forall|j: int| 0 <= j < l.len() ==> l[j] != '\n' && l[j] != '\r',
        s.subrange(i, i + fold_line(l).len() + 2) == fold_line(l) + crlf(),
        i + fold_line(l).len() + 2 == s.len() || !is_marker(s[i + fold_line(l).len() + 2]),
    ensures
        logical_line_at(s, i) == (l, i + fold_line(l).len() + 2),
    decreases l.len(),
{
    let k = take_budget(l, line_limit());
    lemma_take_budget_bounds(l, line_limit());
    let f = fold_line(l);
    let region = s.subrange(i, i + f.len() + 2);
    if k >= l.len() {
        // one chunk: content, then the terminator
        assert(f == l);
        assert forall|j: int| i <= j < i + l.len() implies s[j] != '\n' && s[j] != '\r' by {
            assert(s[j] == region[j - i]);
            assert(region[j - i] == l[j - i]);
        }
        lemma_logical_content(s, i, i + l.len());
        let m = i + l.len();
        assert(s[m] == region[l.len() as int]);
        assert(s[m] == '\r');
        assert(s[m + 1] == region[l.len() as int + 1]);
        assert(s[m + 1] == '\n');
        assert(m + 2 == s.len() || !is_marker(s[m + 2]));
        assert(logical_line_at(s, m) == (Seq::<char>::empty(), m + 2));
        assert(s.subrange(i, m) =~= l);
        assert(l + Seq::<char>::empty() =~= l);
    } else {
        // first chunk, an internal break with its marker, then the rest
        let rest = l.skip(k);
        let frest = fold_line(rest);
        assert(f == l.take(k) + seq!['\r', '\n', ' '] + frest);
        assert forall|j: int| i <= j < i + k implies s[j] != '\n' && s[j] != '\r' by {
            assert(s[j] == region[j - i]);
            assert(region[j - i] == l.take(k)[j - i]);
        }
        lemma_logical_content(s, i, i + k);
        let m = i + k;
        assert(s[m] == region[k]);
        assert(s[m] == '\r');
        assert(s[m + 1] == region[k + 1]);
        assert(s[m + 1] == '\n');
        assert(s[m + 2] == region[k + 2]);
        assert(s[m + 2] == ' ');
        assert(logical_line_at(s, m) == logical_line_at(s, m + 3));
        // the rest of the folded region is fold_line(rest) + crlf
        assert(s.subrange(m + 3, m + 3 + frest.len() as int + 2) =~= frest + crlf()) by {
            assert forall|j: int| 0 <= j < frest.len() + 2 implies s[m + 3 + j] == (frest
                + crlf())[j] by {
                assert(s[m + 3 + j] == region[k + 3 + j]);
                assert(region[k + 3 + j] == (frest + crlf())[j]);
            }
        }
        assert(m + 3 + frest.len() + 2 == i + f.len() + 2);
        lemma_unfold_folded_line(s, m + 3, rest);
        assert(logical_line_at(s, m + 3) == (rest, m + 3 + frest.len() + 2));
        assert(s.subrange(i, m) =~= l.take(k));
        assert(l.take(k) + rest =~= l);
        assert(logical_line_at(s, i).0 == l.take(k) + rest);
    }
}

/// Unfolding is the inverse of folding: a folded line, terminated, reads
/// back as exactly that line, whatever its length. The line itself must not
/// contain a raw line break; a value's breaks are escaped before folding.
pub proof fn lemma_unfold_fold(l: Seq<char>)
    requires
        forall|j: int| 0 <= j < l.len() ==> l[j] != '\n' && l[j] != '\r',
    ensures
        unfold_lines(fold_line(l) + crlf()) == seq![l],
{
    let s = fold_line(l) + crlf();
    assert(s.subrange(0, fold_line(l).len() as int + 2) =~= s);
    lemma_unfold_folded_line(s, 0, l);
    assert(s.len() > 0);
    assert(unfold_lines_at(s, s.len() as int) =~= Seq::<Seq<char>>::empty());
    assert(unfold_lines(s) =~= seq![l]);
}

/// How many octets one character occupies in the encoded form.
pub fn octets(c: char) -> (r: u8)
    ensures
        r as int == spec_octets(c),
{
    if (c as u32) < 0x80 {
        1
    } else if (c as u32) < 0x800 {
        2
    } else if (c as u32) < 0x10000 {
        3
    } else {
        4
    }
}

/// The logical line beginning at `start`, and the position right after it.
pub fn take_logical(v: &Vec<char>, start: usize) -> (r: (Vec<char>, usize))
    requires
        start <= v.len(),
    ensures
        r.0@ == logical_line_at(v@, start as int).0,
        r.1 as int == logical_line_at(v@, start as int).1,
        start <= r.1 <= v.len(),
        start < v.len() ==> r.1 > start,
{
    proof {
        lemma_logical_line_at_bounds(v@, start as int);
    }
    let n = v.len();
    let mut j: usize = start;
    let mut acc: Vec<char> = Vec::new();
    loop
        invariant
            start <= j <= n,
            n == v@.len(),
            logical_line_at(v@, start as int).0 == acc@ + logical_line_at(v@, j as int).0,
            logical_line_at(v@, start as int).1 == logical_line_at(v@, j as int).1,
        decreases n - j,
    {
        if j >= n {
            proof {
                assert(acc@ + logical_line_at(v@, j as int).0 =~= acc@);
            }
            return (acc, j);
        }
        let c = v[j];
        if c == '\n' {
            if j + 1 < n && (v[j + 1] == ' ' || v[j + 1] == '\t') {
                j += 2;
            } else {
                proof {
                    assert(acc@ + logical_line_at(v@, j as int).0 =~= acc@);
                }
                return (acc, j + 1);
            }
        } else if c == '\r' && j + 1 < n && v[j + 1] == '\n' {
            if j + 2 < n && (v[j + 2] == ' ' || v[j + 2] == '\t') {
                j += 3;
            } else {
                proof {
                    assert(acc@ + logical_line_at(v@, j as int).0 =~= acc@);
                }
                return (acc, j + 2);
            }
        } else {
            let ghost pre = acc@;
            acc.push(c);
            proof {
                let r = logical_line_at(v@, j + 1 as int);
                assert(pre + (seq![v@[j as int]] + r.0) =~= acc@ + r.0);
            }
            j += 1;
        }
    }
}

/// The logical lines of a character text.
pub fn unfold_chars(v: &Vec<char>) -> (lines: Vec<Vec<char>>)
    ensures
        lines.deep_view() == unfold_lines(v@),
{
    let n = v.len();
    let mut lines: Vec<Vec<char>> = Vec::new();
    let mut start: usize = 0;
    while start < n
        invariant
            start <= n,
            n == v@.len(),
            unfold_lines(v@) == lines.deep_view() + unfold_lines_at(v@, start as int),
        decreases n - start,
    {
        let ghost pre = lines.deep_view();
        let (line, next) = take_logical(v, start);
        proof {
            assert(unfold_lines_at(v@, start as int) == seq![line@] + unfold_lines_at(
                v@,
                next as int,
            ));
        }
        lines.push(line);
        proof {
            assert(lines.deep_view() =~~= pre.push(line@));
            assert(pre + (seq![line@] + unfold_lines_at(v@, next as int)) =~= pre.push(line@)
                + unfold_lines_at(v@, next as int));
        }
        start = next;
    }
    proof {
        assert(unfold_lines_at(v@, start as int) =~= Seq::<Seq<char>>::empty());
        assert(lines.deep_view() + Seq::<Seq<char>>::empty() =~= lines.deep_view());
    }
    lines
}

/// The logical lines of a text, with all folding removed.
pub fn unfold(input: &str) -> (lines: Vec<String>)
    ensures
        lines.deep_view() == unfold_lines(input@),
{
    let v = str_to_chars(input);
    let raw = unfold_chars(&v);
    let mut lines: Vec<String> = Vec::new();
    let mut i: usize = 0;
    while i < raw.len()
        invariant
            i <= raw.len(),
            raw.deep_view() == unfold_lines(input@),
            lines.deep_view() == raw.deep_view().take(i as int),
        decreases raw.len() - i,
    {
        let ghost pre = lines.deep_view();
        let s = chars_to_string(&raw[i]);
        lines.push(s);
        proof {
            assert(s@ =~~= raw.deep_view()[i as int]);
            assert(lines.deep_view() =~~= pre.push(s@));
            assert(raw.deep_view().take(i + 1 as int) =~= raw.deep_view().take(i as int).push(
                raw.deep_view()[i as int],
            ));
        }
        i += 1;
    }
    proof {
        assert(raw.deep_view().take(raw.deep_view().len() as int) =~= raw.deep_view());
    }
    lines
}

/// Append the folded, physical form of `line` to `out`.
pub fn fold_line_onto(line: &Vec<char>, out: &mut Vec<char>)
    ensures
        final(out)@ == old(out)@ + fold_line(line@),
{
    let n = line.len();
    let mut pos: usize = 0;
    proof {
        assert(line@.skip(0) =~= line@);
    }
    loop
        invariant
            pos <= n,
            n == line@.len(),
            old(out)@ + fold_line(line@) == out@ + fold_line(line@.skip(pos as int)),
        decreases n - pos,
    {
        let ghost rest = line@.skip(pos as int);
        // how many characters fit the budget of one physical line
        let mut k: usize = 0;
        let mut budget: u8 = 75;
        while pos + k < n && octets(line[pos + k]) <= budget
            invariant
                pos + k <= n,
                n == line@.len(),
                budget <= 75,
                take_budget(rest, 75) == k + take_budget(
                    line@.skip(pos + k as int),
                    budget as int,
                ),
            decreases n - pos - k,
        {
            proof {
                let t = line@.skip(pos + k as int);
                assert(t[0] == line@[pos + k]);
                assert(t.skip(1) =~= line@.skip(pos + k + 1 as int));
            }
            budget = budget - octets(line[pos + k]);
            k += 1;
        }
        proof {
            let t = line@.skip(pos + k as int);
            if pos + k < n {
                assert(t[0] == line@[pos + k]);
                assert(take_budget(t, budget as int) == 0);
            } else {
                assert(t.len() == 0);
            }
            assert(take_budget(rest, 75) == k);
        }
        if pos + k >= n {
            // the remainder fits on one physical line
            let ghost pre = out@;
            let mut i: usize = pos;
            while i < n
                invariant
                    pos <= i <= n,
                    n == line@.len(),
                    out@ == pre + line@.subrange(pos as int, i as int),
                decreases n - i,
            {
                let c = line[i];
                out.push(c);
                proof {
                    assert(pre + line@.subrange(pos as int, i + 1 as int) =~= (pre + line@.subrange(
                        pos as int,
                        i as int,
                    )).push(line@[i as int]));
                }
                i += 1;
            }
            proof {
                assert(fold_line(rest) == rest);
                assert(line@.subrange(pos as int, n as int) =~= rest);
            }
            return ;
        } else {
            // one full chunk, then a break and its continuation marker
            let ghost pre = out@;
            let mut i: usize = pos;
            while i < pos + k
                invariant
                    pos <= i <= pos + k <= n,
                    n == line@.len(),
                    out@ == pre + line@.subrange(pos as int, i as int),
                decreases pos + k - i,
            {
                let c = line[i];
                out.push(c);
                proof {
                    assert(pre + line@.subrange(pos as int, i + 1 as int) =~= (pre + line@.subrange(
                        pos as int,
                        i as int,
                    )).push(line@[i as int]));
                }
                i += 1;
            }
            out.push('\r');
            out.push('\n');
            out.push(' ');
            proof {
                lemma_take_budget_bounds(rest, 75);
                assert(fold_line(rest) == rest.take(k as int) + seq!['\r', '\n', ' '] + fold_line(
                    rest.skip(k as int),
                ));
                assert(line@.subrange(pos as int, pos + k as int) =~= rest.take(k as int));
                assert(out@ =~= pre + (rest.take(k as int) + seq!['\r', '\n', ' ']));
                assert(rest.skip(k as int) =~= line@.skip(pos + k as int));
                assert(pre + fold_line(rest) =~= out@ + fold_line(line@.skip(pos + k as int)));
            }
            pos = pos + k;
        }
    }
}

/// The folded, physical form of one logical line, without its terminator.
pub fn fold(line: &str) -> (r: String)
    ensures
        r@ == fold_line(line@),
{
    let v = str_to_chars(line);
    let mut out: Vec<char> = Vec::new();
    fold_line_onto(&v, &mut out);
    chars_to_string(&out)
}

} // verus!
