//! Low-level splitting utilities over raw (still folded) text.
//!
//! These cut a text into folded-line chunks without removing the fold
//! markers: a chunk runs until a line break that is not followed by a
//! continuation space, or until a character outside the chunk's class.
//! [`remove_extra_breaks`] then drops the markers from one chunk. Character
//! classes are the ASCII ones of the grammar.
//!
//! The splitters always succeed; they keep a `Result` shape so that callers
//! can treat splitting like any other parsing step.

use crate::chars::{
    is_alpha, is_digit, is_space, spec_is_alpha, spec_is_alphanumeric, spec_is_space,
};
use crate::model::GrammarError;
use crate::text::{chars_to_string, str_to_chars};
use vstd::prelude::*;
use vstd::string::StrSliceExecFns;

verus! {

/// Which characters may stand inside a chunk, besides whitespace and breaks.
#[derive(Debug, Clone, Copy, PartialEq, Eq)]
pub enum LineCheck {
    Any,
    Alphabetic,
    Alphanumeric,
}

/// Whether a character passes a chunk class of its own right.
pub open spec fn check_pass(k: LineCheck, c: char) -> bool {
    match k {
        LineCheck::Any => true,
        LineCheck::Alphabetic => spec_is_alpha(c),
        LineCheck::Alphanumeric => spec_is_alphanumeric(c),
    }
}

/// Where the chunk beginning at `i` ends: at the first character that is
/// neither accepted nor whitespace, at a line break not followed by a
/// continuation space, or at a final trailing break; the text's end
/// otherwise. The last character is only inspected as a trailing break.
pub open spec fn chunk_end(s: Seq<char>, k: LineCheck, i: int) -> int
    decreases s.len() - i,
{
    if i >= s.len() - 1 {
        if s.len() > 0 && s[s.len() - 1] == '\n' {
            s.len() - 1
        } else {
            s.len() as int
        }
    } else if !(check_pass(k, s[i]) || spec_is_space(s[i]) || s[i] == '\n') {
        i
    } else if s[i] == '\n' && s[i + 1] != ' ' {
        i
    } else {
        chunk_end(s, k, i + 1)
    }
}

pub proof fn lemma_chunk_end_bounds(s: Seq<char>, k: LineCheck, i: int)
    requires
        0 <= i,
        i < s.len() || i == 0,
    ensures
        i <= chunk_end(s, k, i) <= s.len(),
    decreases s.len() - i,
{
    if i < s.len() - 1 && (check_pass(k, s[i]) || spec_is_space(s[i]) || s[i] == '\n') && !(s[i]
        == '\n' && s[i + 1] != ' ') {
        lemma_chunk_end_bounds(s, k, i + 1);
    }
}

fn line_check_pass(k: LineCheck, c: char) -> (r: bool)
    ensures
        r == check_pass(k, c),
{
    match k {
        LineCheck::Any => true,
        LineCheck::Alphabetic => is_alpha(c),
        LineCheck::Alphanumeric => is_alpha(c) || is_digit(c),
    }
}

fn scan_chunk(v: &Vec<char>, k: LineCheck) -> (r: usize)
    ensures
        r as int == chunk_end(v@, k, 0),
        r <= v.len(),
{
    let n = v.len();
    if n == 0 {
        return 0;
    }
    let mut j: usize = 0;
    while j < n - 1
        invariant
            j <= n - 1,
            n == v@.len(),
            n >= 1,
            chunk_end(v@, k, 0) == chunk_end(v@, k, j as int),
        decreases n - j,
    {
        let c = v[j];
        if !(line_check_pass(k, c) || is_space(c) || c == '\n') {
            return j;
        }
        if c == '\n' && v[j + 1] != ' ' {
            return j;
        }
        j += 1;
    }
    if v[n - 1] == '\n' {
        n - 1
    } else {
        n
    }
}

/// Split the first folded-line chunk off `input`, keeping fold markers
/// inside it: `Ok((rest, chunk))`. This always succeeds.
pub fn ical_line_check<'a>(input: &'a str, check: LineCheck) -> (r: Result<
    (&'a str, &'a str),
    GrammarError,
>)
    ensures
        r matches Ok(p) && p.1@ == input@.take(chunk_end(input@, check, 0)) && p.0@
            == input@.skip(chunk_end(input@, check, 0)),
{
    let v = str_to_chars(input);
    let e = scan_chunk(&v, check);
    let taken = input.substring_char(0, e);
    let rest = input.substring_char(e, v.len());
    Ok((rest, taken))
}

/// Split the first chunk off `input`, any characters allowed.
pub fn ical_line<'a>(input: &'a str) -> (r: Result<(&'a str, &'a str), GrammarError>)
    ensures
        r matches Ok(p) && p.1@ == input@.take(chunk_end(input@, LineCheck::Any, 0)) && p.0@
            == input@.skip(chunk_end(input@, LineCheck::Any, 0)),
{
    ical_line_check(input, LineCheck::Any)
}

/// Split the first chunk off `input`, letters and whitespace only.
pub fn ical_line_alphabetic<'a>(input: &'a str) -> (r: Result<(&'a str, &'a str), GrammarError>)
    ensures
        r matches Ok(p) && p.1@ == input@.take(chunk_end(input@, LineCheck::Alphabetic, 0)) && p.0@
            == input@.skip(chunk_end(input@, LineCheck::Alphabetic, 0)),
{
    ical_line_check(input, LineCheck::Alphabetic)
}

/// Split the first chunk off `input`, letters, digits and whitespace only.
pub fn ical_line_alphanumeric<'a>(input: &'a str) -> (r: Result<(&'a str, &'a str), GrammarError>)
    ensures
        r matches Ok(p) && p.1@ == input@.take(chunk_end(input@, LineCheck::Alphanumeric, 0))
            && p.0@ == input@.skip(chunk_end(input@, LineCheck::Alphanumeric, 0)),
{
    ical_line_check(input, LineCheck::Alphanumeric)
}

/// The character classes of the plain take-while splitters.
#[derive(Debug, Clone, Copy, PartialEq, Eq)]
pub enum TakeClass {
    AlphaOrSpace,
    AlphaOrDash,
    AlphanumericOrSpace,
}

pub open spec fn take_pass(k: TakeClass, c: char) -> bool {
    match k {
        TakeClass::AlphaOrSpace => spec_is_space(c) || spec_is_alpha(c),
        TakeClass::AlphaOrDash => c == '/' || c == '_' || c == '-' || spec_is_alpha(c),
        TakeClass::AlphanumericOrSpace => c != '\n' && (spec_is_space(c) || spec_is_alphanumeric(
            c,
        )),
    }
}

/// The end of the run of characters of class `k` starting at `i`.
pub open spec fn take_end(s: Seq<char>, k: TakeClass, i: int) -> int
    decreases s.len() - i,
{
    if 0 <= i < s.len() && take_pass(k, s[i]) {
        take_end(s, k, i + 1)
    } else {
        i
    }
}

fn take_class_pass(k: TakeClass, c: char) -> (r: bool)
    ensures
        r == take_pass(k, c),
{
    match k {
        TakeClass::AlphaOrSpace => is_space(c) || is_alpha(c),
        TakeClass::AlphaOrDash => c == '/' || c == '_' || c == '-' || is_alpha(c),
        TakeClass::AlphanumericOrSpace => c != '\n' && (is_space(c) || is_alpha(c) || is_digit(c)),
    }
}

fn split_class<'a>(input: &'a str, k: TakeClass) -> (r: (&'a str, &'a str))
    ensures
        r.1@ == input@.take(take_end(input@, k, 0)),
        r.0@ == input@.skip(take_end(input@, k, 0)),
{
    let v = str_to_chars(input);
    let n = v.len();
    let mut j: usize = 0;
    while j < n && take_class_pass(k, v[j])
        invariant
            j <= n,
            n == v@.len(),
            v@ == input@,
            take_end(input@, k, 0) == take_end(input@, k, j as int),
        decreases n - j,
    {
        j += 1;
    }
    let taken = input.substring_char(0, j);
    let rest = input.substring_char(j, n);
    (rest, taken)
}

/// Split the leading run of letters and whitespace off `input`:
/// `Ok((rest, taken))`. This always succeeds.
pub fn alpha_or_space<'a>(input: &'a str) -> (r: Result<(&'a str, &'a str), GrammarError>)
    ensures
        r matches Ok(p) && p.1@ == input@.take(take_end(input@, TakeClass::AlphaOrSpace, 0))
            && p.0@ == input@.skip(take_end(input@, TakeClass::AlphaOrSpace, 0)),
{
    Ok(split_class(input, TakeClass::AlphaOrSpace))
}

/// Split the leading run of letters, `/`, `_` and `-` off `input`.
pub fn alpha_or_dash<'a>(input: &'a str) -> (r: Result<(&'a str, &'a str), GrammarError>)
    ensures
        r matches Ok(p) && p.1@ == input@.take(take_end(input@, TakeClass::AlphaOrDash, 0)) && p.0@
            == input@.skip(take_end(input@, TakeClass::AlphaOrDash, 0)),
{
    Ok(split_class(input, TakeClass::AlphaOrDash))
}

/// Split the leading run of letters, digits and whitespace (bare line breaks
/// excluded) off `input`.
pub fn alphanumeric_or_space<'a>(input: &'a str) -> (r: Result<(&'a str, &'a str), GrammarError>)
    ensures
        r matches Ok(p) && p.1@ == input@.take(
            take_end(input@, TakeClass::AlphanumericOrSpace, 0),
        ) && p.0@ == input@.skip(take_end(input@, TakeClass::AlphanumericOrSpace, 0)),
{
    Ok(split_class(input, TakeClass::AlphanumericOrSpace))
}

/// One step of chunked reading: skip one leading `\n`, split a chunk; a
/// chunk of length zero ends the reading.
pub open spec fn next_chunk(s: Seq<char>, pos: int) -> Option<(Seq<char>, int)> {
    let p2 = if pos < s.len() && s[pos] == '\n' {
        pos + 1
    } else {
        pos
    };
    let suffix = s.skip(p2);
    let e = chunk_end(suffix, LineCheck::Any, 0);
    if e == 0 {
        None
    } else {
        Some((suffix.take(e), p2 + e))
    }
}

/// All chunks from `pos` on.
pub open spec fn chunks_from(s: Seq<char>, pos: int) -> Seq<Seq<char>>
    decreases s.len() - pos,
    via chunks_from_decreases
{
    if 0 <= pos <= s.len() {
        match next_chunk(s, pos) {
            Option::None => Seq::empty(),
            Option::Some(cn) => seq![cn.0] + chunks_from(s, cn.1),
        }
    } else {
        Seq::empty()
    }
}

#[via_fn]
proof fn chunks_from_decreases(s: Seq<char>, pos: int) {
    if 0 <= pos <= s.len() {
        lemma_next_chunk_bounds(s, pos);
    }
}

pub proof fn lemma_next_chunk_bounds(s: Seq<char>, pos: int)
    requires
        0 <= pos <= s.len(),
    ensures
        next_chunk(s, pos) matches Some(cn) ==> pos < cn.1 <= s.len(),
{
    let p2 = if pos < s.len() && s[pos] == '\n' {
        pos + 1
    } else {
        pos
    };
    lemma_chunk_end_bounds(s.skip(p2), LineCheck::Any, 0);
}

/// A reader that hands out the folded-line chunks of a text one at a time,
/// fold markers kept. Reading ends at the first empty chunk.
#[derive(Debug)]
pub struct IcalLineReader {
    input: Vec<char>,
    pos: usize,
}

impl IcalLineReader {
    /// The text being read.
    pub closed spec fn text(&self) -> Seq<char> {
        self.input@
    }

    /// How far reading has come.
    pub closed spec fn position(&self) -> int {
        self.pos as int
    }

    pub open spec fn wf(&self) -> bool {
        0 <= self.position() <= self.text().len()
    }

    /// A reader at the start of `input`.
    pub fn new(input: &str) -> (r: Self)
        ensures
            r.text() == input@,
            r.position() == 0,
            r.wf(),
    {
        IcalLineReader { input: str_to_chars(input), pos: 0 }
    }

    /// The next chunk, if any is left.
    pub fn next(&mut self) -> (r: Option<String>)
        requires
            old(self).wf(),
        ensures
            final(self).wf(),
            final(self).text() == old(self).text(),
            match r {
                Some(line) => next_chunk(old(self).text(), old(self).position()) == Some::<
                    (Seq<char>, int),
                >((line@, final(self).position())),
                None => next_chunk(old(self).text(), old(self).position()) is None
                    && final(self).position() == old(self).position(),
            },
    {
        proof {
            lemma_next_chunk_bounds(self.input@, self.pos as int);
        }
        let n = self.input.len();
        let p2 = if self.pos < n && self.input[self.pos] == '\n' {
            self.pos + 1
        } else {
            self.pos
        };
        let suffix = crate::text::subvec(&self.input, p2, n);
        proof {
            assert(suffix@ =~= self.input@.skip(p2 as int));
        }
        let e = scan_chunk(&suffix, LineCheck::Any);
        if e == 0 {
            return None;
        }
        let chunk = crate::text::subvec(&suffix, 0, e);
        proof {
            assert(chunk@ =~= suffix@.take(e as int));
        }
        self.pos = p2 + e;
        Some(chars_to_string(&chunk))
    }
}

/// All folded-line chunks of `input`, in order, fold markers kept.
pub fn ical_lines(input: &str) -> (r: Vec<String>)
    ensures
        r.deep_view() == chunks_from(input@, 0),
{
    let mut reader = IcalLineReader::new(input);
    let mut out: Vec<String> = Vec::new();
    proof {
        assert(out.deep_view() + chunks_from(input@, 0) =~= chunks_from(input@, 0));
    }
    loop
        invariant
            reader.wf(),
            reader.text() == input@,
            chunks_from(input@, 0) == out.deep_view() + chunks_from(input@, reader.position()),
        decreases input@.len() - reader.position(),
    {
        let ghost pre = out.deep_view();
        let ghost pos = reader.position();
        match reader.next() {
            None => {
                proof {
                    assert(chunks_from(input@, pos) =~= Seq::<Seq<char>>::empty());
                    assert(pre + Seq::<Seq<char>>::empty() =~= pre);
                }
                return out;
            },
            Some(line) => {
                out.push(line);
                proof {
                    lemma_next_chunk_bounds(input@, pos);
                    assert(out.deep_view() =~~= pre.push(line@));
                    assert(chunks_from(input@, pos) == seq![line@] + chunks_from(
                        input@,
                        reader.position(),
                    ));
                    assert(pre + (seq![line@] + chunks_from(input@, reader.position()))
                        =~= pre.push(line@) + chunks_from(input@, reader.position()));
                }
            },
        }
    }
}

/// What one chunk reads as with its fold markers (`\n` plus one space)
/// removed.
pub open spec fn drop_markers(s: Seq<char>) -> Seq<char>
    decreases s.len(),
{
    if s.len() == 0 {
        Seq::empty()
    } else if s.len() >= 2 && s[0] == '\n' && s[1] == ' ' {
        drop_markers(s.skip(2))
    } else {
        seq![s[0]] + drop_markers(s.skip(1))
    }
}

/// Remove every fold marker (a line break followed by one space) from
/// `input`, keeping everything else.
pub fn remove_extra_breaks(input: &str) -> (r: String)
    ensures
        r@ == drop_markers(input@),
{
    let v = str_to_chars(input);
    let n = v.len();
    let mut out: Vec<char> = Vec::new();
    let mut i: usize = 0;
    proof {
        assert(v@.skip(0) =~= v@);
        assert(out@ + drop_markers(v@) =~= drop_markers(v@));
    }
    while i < n
        invariant
            i <= n,
            n == v@.len(),
            v@ == input@,
            drop_markers(input@) == out@ + drop_markers(v@.skip(i as int)),
        decreases n - i,
    {
        let ghost tail = v@.skip(i as int);
        proof {
            assert(tail[0] == v@[i as int]);
        }
        if i + 1 < n && v[i] == '\n' && v[i + 1] == ' ' {
            proof {
                assert(tail.len() >= 2 && tail[1] == v@[i + 1]);
                assert(tail.skip(2) =~= v@.skip(i + 2));
            }
            i += 2;
        } else {
            let ghost pre = out@;
            proof {
                if tail[0] == '\n' && tail.len() >= 2 {
                    assert(tail[1] != ' ');
                }
                assert(tail.skip(1) =~= v@.skip(i + 1));
            }
            let c = v[i];
            out.push(c);
            proof {
                assert(pre + seq![tail[0]] =~= out@);
            }
            i += 1;
        }
    }
    proof {
        assert(v@.skip(n as int) =~= Seq::<char>::empty());
        assert(out@ + drop_markers(v@.skip(n as int)) =~= out@);
    }
    chars_to_string(&out)
}

} // verus!
