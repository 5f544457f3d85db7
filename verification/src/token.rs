//! The token grammar: one logical line becomes a `BEGIN`, `END` or property
//! token.
//!
//! A line is `NAME` (`;KEY=VALUE` parameters)* `:` value. Names and keys are
//! non-empty runs of letters, digits, `-` and `_`; a parameter value is
//! either double-quoted (anything but `"` and control characters) or an
//! unquoted run free of `:`, `;` and `,`. A name equal to `BEGIN` or `END`
//! up to case classifies the line, and its value must then be a bare
//! component-type token. Errors carry the character offset where the scan
//! stopped.

use crate::chars::{
    char_ci_eq, char_eq_ci, is_control, is_name_char, seq_eq_ci, spec_is_control,
    spec_is_name_char,
};
use crate::escape::{unescape_chars, unescape_text};
use crate::model::{
    ComponentType, ComponentTypeModel, GrammarError, IcalToken, Parameter, ParameterModel,
    Property, PropertyModel, TokenModel,
};
use crate::text::{chars_eq, chars_to_string, str_to_chars, subvec};
use vstd::prelude::*;
use vstd::string::StrSliceExecFns;

verus! {

/// The keyword that opens a component.
pub open spec fn begin_kw() -> Seq<char> {
    seq!['B', 'E', 'G', 'I', 'N']
}

/// The keyword that closes a component.
pub open spec fn end_kw() -> Seq<char> {
    seq!['E', 'N', 'D']
}

pub open spec fn vcalendar_name() -> Seq<char> {
    seq!['V', 'C', 'A', 'L', 'E', 'N', 'D', 'A', 'R']
}

pub open spec fn vevent_name() -> Seq<char> {
    seq!['V', 'E', 'V', 'E', 'N', 'T']
}

pub open spec fn vtodo_name() -> Seq<char> {
    seq!['V', 'T', 'O', 'D', 'O']
}

pub open spec fn vvenue_name() -> Seq<char> {
    seq!['V', 'V', 'E', 'N', 'U', 'E']
}

/// A non-empty run of name characters.
pub open spec fn valid_name(n: Seq<char>) -> bool {
    n.len() > 0 && forall|i: int| 0 <= i < n.len() ==> spec_is_name_char(n[i])
}

/// The component type a `BEGIN`/`END` value names: the four well-known names
/// map to their tags, any other name is kept verbatim.
pub open spec fn type_of_name(n: Seq<char>) -> ComponentTypeModel {
    if n == vcalendar_name() {
        ComponentTypeModel::Calendar
    } else if n == vevent_name() {
        ComponentTypeModel::Event
    } else if n == vtodo_name() {
        ComponentTypeModel::Todo
    } else if n == vvenue_name() {
        ComponentTypeModel::Venue
    } else {
        ComponentTypeModel::Other(n)
    }
}

/// The name a component type writes after `BEGIN:` and `END:`.
pub open spec fn kind_name(t: ComponentTypeModel) -> Seq<char> {
    match t {
        ComponentTypeModel::Calendar => vcalendar_name(),
        ComponentTypeModel::Event => vevent_name(),
        ComponentTypeModel::Todo => vtodo_name(),
        ComponentTypeModel::Venue => vvenue_name(),
        ComponentTypeModel::Other(n) => n,
    }
}

/// Whether an `END:` type closes a `BEGIN:` type: their names must match up
/// to ASCII case.
pub open spec fn types_match(a: ComponentTypeModel, b: ComponentTypeModel) -> bool {
    seq_eq_ci(kind_name(a), kind_name(b))
}

/// The end of the run of name characters starting at `i`.
pub open spec fn name_end(l: Seq<char>, i: int) -> int
    decreases l.len() - i,
{
    if 0 <= i < l.len() && spec_is_name_char(l[i]) {
        name_end(l, i + 1)
    } else {
        i
    }
}

/// The end of the run of spaces and tabs starting at `i`.
pub open spec fn space_end(l: Seq<char>, i: int) -> int
    decreases l.len() - i,
{
    if 0 <= i < l.len() && (l[i] == ' ' || l[i] == '\t') {
        space_end(l, i + 1)
    } else {
        i
    }
}

/// The end of an unquoted parameter value starting at `i`: the first `:`,
/// `;` or `,`, or the end of the line.
pub open spec fn unquoted_end(l: Seq<char>, i: int) -> int
    decreases l.len() - i,
{
    if 0 <= i < l.len() && l[i] != ':' && l[i] != ';' && l[i] != ',' {
        unquoted_end(l, i + 1)
    } else {
        i
    }
}

/// The end of a quoted parameter value's content starting at `i`: the first
/// `"` or control character, or the end of the line.
pub open spec fn quoted_end(l: Seq<char>, i: int) -> int
    decreases l.len() - i,
{
    if 0 <= i < l.len() && l[i] != '"' && !spec_is_control(l[i]) {
        quoted_end(l, i + 1)
    } else {
        i
    }
}

pub proof fn lemma_name_end_bounds(l: Seq<char>, i: int)
    requires
        0 <= i <= l.len(),
    ensures
        i <= name_end(l, i) <= l.len(),
    decreases l.len() - i,
{
    if i < l.len() && spec_is_name_char(l[i]) {
        lemma_name_end_bounds(l, i + 1);
    }
}

pub proof fn lemma_space_end_bounds(l: Seq<char>, i: int)
    requires
        0 <= i <= l.len(),
    ensures
        i <= space_end(l, i) <= l.len(),
    decreases l.len() - i,
{
    if i < l.len() && (l[i] == ' ' || l[i] == '\t') {
        lemma_space_end_bounds(l, i + 1);
    }
}

pub proof fn lemma_unquoted_end_bounds(l: Seq<char>, i: int)
    requires
        0 <= i <= l.len(),
    ensures
        i <= unquoted_end(l, i) <= l.len(),
    decreases l.len() - i,
{
    if i < l.len() && l[i] != ':' && l[i] != ';' && l[i] != ',' {
        lemma_unquoted_end_bounds(l, i + 1);
    }
}

pub proof fn lemma_quoted_end_bounds(l: Seq<char>, i: int)
    requires
        0 <= i <= l.len(),
    ensures
        i <= quoted_end(l, i) <= l.len(),
    decreases l.len() - i,
{
    if i < l.len() && l[i] != '"' && !spec_is_control(l[i]) {
        lemma_quoted_end_bounds(l, i + 1);
    }
}

/// One `;KEY=VALUE` group at `i` (which must hold `;`): the parameter and
/// the position after it, or the offset of the flaw. Spaces may follow the
/// `;`.
pub open spec fn param_at(l: Seq<char>, i: int) -> Result<(ParameterModel, int), int> {
    let k0 = space_end(l, i + 1);
    let ke = name_end(l, k0);
    if ke == k0 {
        Err(k0)  // empty key
    } else if !(ke < l.len() && l[ke] == '=') {
        Err(ke)  // missing `=`
    } else {
        let key = l.subrange(k0, ke);
        if ke + 1 < l.len() && l[ke + 1] == '"' {
            let qe = quoted_end(l, ke + 2);
            if !(qe < l.len() && l[qe] == '"') {
                Err(qe)  // unterminated quote
            } else {
                Ok((ParameterModel { key, val: l.subrange(ke + 2, qe) }, qe + 1))
            }
        } else {
            let ve = unquoted_end(l, ke + 1);
            Ok((ParameterModel { key, val: l.subrange(ke + 1, ve) }, ve))
        }
    }
}

pub proof fn lemma_param_at_bounds(l: Seq<char>, i: int)
    requires
        0 <= i < l.len(),
    ensures
        param_at(l, i) matches Ok(pj) ==> i < pj.1 <= l.len(),
{
    lemma_space_end_bounds(l, i + 1);
    let k0 = space_end(l, i + 1);
    lemma_name_end_bounds(l, k0);
    let ke = name_end(l, k0);
    if ke != k0 && ke < l.len() && l[ke] == '=' {
        if ke + 1 < l.len() && l[ke + 1] == '"' {
            lemma_quoted_end_bounds(l, ke + 2);
        } else {
            lemma_unquoted_end_bounds(l, ke + 1);
        }
    }
}

/// All `;KEY=VALUE` groups from `i` on, and the position after them; the
/// offset of the first flaw otherwise.
pub open spec fn params_from(l: Seq<char>, i: int) -> Result<(Seq<ParameterModel>, int), int>
    decreases l.len() - i,
    via params_from_decreases
{
    if !(0 <= i < l.len() && l[i] == ';') {
        Ok((Seq::empty(), i))
    } else {
        match param_at(l, i) {
            Err(o) => Err(o),
            Ok(pj) => match params_from(l, pj.1) {
                Err(o) => Err(o),
                Ok(psj) => Ok((seq![pj.0] + psj.0, psj.1)),
            },
        }
    }
}

#[via_fn]
proof fn params_from_decreases(l: Seq<char>, i: int) {
    if 0 <= i < l.len() && l[i] == ';' {
        lemma_param_at_bounds(l, i);
    }
}

/// As [`params_from`], but stopping before the first flawed group instead of
/// failing, the way a greedy reader does.
pub open spec fn many_params(l: Seq<char>, i: int) -> (Seq<ParameterModel>, int)
    decreases l.len() - i,
    via many_params_decreases
{
    if !(0 <= i < l.len() && l[i] == ';') {
        (Seq::empty(), i)
    } else {
        match param_at(l, i) {
            Err(_) => (Seq::empty(), i),
            Ok(pj) => {
                let rest = many_params(l, pj.1);
                (seq![pj.0] + rest.0, rest.1)
            },
        }
    }
}

#[via_fn]
proof fn many_params_decreases(l: Seq<char>, i: int) {
    if 0 <= i < l.len() && l[i] == ';' {
        lemma_param_at_bounds(l, i);
    }
}

pub proof fn lemma_params_from_bounds(l: Seq<char>, i: int)
    requires
        0 <= i <= l.len(),
    ensures
        params_from(l, i) matches Ok(psj) ==> i <= psj.1 <= l.len(),
    decreases l.len() - i,
{
    if 0 <= i < l.len() && l[i] == ';' {
        lemma_param_at_bounds(l, i);
        if let Ok(pj) = param_at(l, i) {
            lemma_params_from_bounds(l, pj.1);
        }
    }
}

/// What one logical line means, or the offset where it leaves the grammar.
pub open spec fn token_of_line(l: Seq<char>) -> Result<TokenModel, int> {
    let ne = name_end(l, 0);
    if ne == 0 {
        Err(0)  // missing name
    } else {
        let name = l.take(ne);
        match params_from(l, ne) {
            Err(o) => Err(o),
            Ok(psj) => {
                let sep = psj.1;
                if !(sep < l.len() && l[sep] == ':') {
                    Err(sep)  // missing separator
                } else {
                    let value = l.skip(sep + 1);
                    if seq_eq_ci(name, begin_kw()) {
                        if psj.0.len() != 0 {
                            Err(ne)  // BEGIN takes no parameters
                        } else if !valid_name(value) {
                            Err(sep + 1)  // not a component-type token
                        } else {
                            Ok(TokenModel::Begin(type_of_name(value)))
                        }
                    } else if seq_eq_ci(name, end_kw()) {
                        if psj.0.len() != 0 {
                            Err(ne)  // END takes no parameters
                        } else if !valid_name(value) {
                            Err(sep + 1)  // not a component-type token
                        } else {
                            Ok(TokenModel::End(type_of_name(value)))
                        }
                    } else {
                        Ok(
                            TokenModel::Property(
                                PropertyModel {
                                    key: name,
                                    val: unescape_text(value),
                                    params: psj.0,
                                },
                            ),
                        )
                    }
                }
            },
        }
    }
}

fn begin_chars() -> (v: Vec<char>)
    ensures
        v@ == begin_kw(),
{
    let mut v: Vec<char> = Vec::new();
    v.push('B');
    v.push('E');
    v.push('G');
    v.push('I');
    v.push('N');
    proof {
        assert(v@ =~= begin_kw());
    }
    v
}

fn end_chars() -> (v: Vec<char>)
    ensures
        v@ == end_kw(),
{
    let mut v: Vec<char> = Vec::new();
    v.push('E');
    v.push('N');
    v.push('D');
    proof {
        assert(v@ =~= end_kw());
    }
    v
}

fn vcalendar_chars() -> (v: Vec<char>)
    ensures
        v@ == vcalendar_name(),
{
    let mut v: Vec<char> = Vec::new();
    v.push('V');
    v.push('C');
    v.push('A');
    v.push('L');
    v.push('E');
    v.push('N');
    v.push('D');
    v.push('A');
    v.push('R');
    proof {
        assert(v@ =~= vcalendar_name());
    }
    v
}

fn vevent_chars() -> (v: Vec<char>)
    ensures
        v@ == vevent_name(),
{
    let mut v: Vec<char> = Vec::new();
    v.push('V');
    v.push('E');
    v.push('V');
    v.push('E');
    v.push('N');
    v.push('T');
    proof {
        assert(v@ =~= vevent_name());
    }
    v
}

fn vtodo_chars() -> (v: Vec<char>)
    ensures
        v@ == vtodo_name(),
{
    let mut v: Vec<char> = Vec::new();
    v.push('V');
    v.push('T');
    v.push('O');
    v.push('D');
    v.push('O');
    proof {
        assert(v@ =~= vtodo_name());
    }
    v
}

fn vvenue_chars() -> (v: Vec<char>)
    ensures
        v@ == vvenue_name(),
{
    let mut v: Vec<char> = Vec::new();
    v.push('V');
    v.push('V');
    v.push('E');
    v.push('N');
    v.push('U');
    v.push('E');
    proof {
        assert(v@ =~= vvenue_name());
    }
    v
}

/// Whether two character vectors are equal up to ASCII case.
fn chars_eq_ci(a: &Vec<char>, b: &Vec<char>) -> (r: bool)
    ensures
        r == seq_eq_ci(a@, b@),
{
    if a.len() != b.len() {
        return false;
    }
    let mut i: usize = 0;
    while i < a.len()
        invariant
            i <= a.len(),
            a@.len() == b@.len(),
            forall|j: int| 0 <= j < i ==> char_eq_ci(a@[j], b@[j]),
        decreases a.len() - i,
    {
        if !char_ci_eq(a[i], b[i]) {
            return false;
        }
        i += 1;
    }
    true
}

/// Whether `v` is a non-empty run of name characters.
fn is_valid_name(v: &Vec<char>) -> (r: bool)
    ensures
        r == valid_name(v@),
{
    if v.len() == 0 {
        return false;
    }
    let mut i: usize = 0;
    while i < v.len()
        invariant
            i <= v@.len(),
            forall|j: int| 0 <= j < i ==> spec_is_name_char(v@[j]),
        decreases v.len() - i,
    {
        if !is_name_char(v[i]) {
            return false;
        }
        i += 1;
    }
    true
}

/// The component type named by these characters.
fn type_from_chars(v: &Vec<char>) -> (t: ComponentType)
    ensures
        t@ == type_of_name(v@),
{
    if chars_eq(v, &vcalendar_chars()) {
        ComponentType::Calendar
    } else if chars_eq(v, &vevent_chars()) {
        ComponentType::Event
    } else if chars_eq(v, &vtodo_chars()) {
        ComponentType::Todo
    } else if chars_eq(v, &vvenue_chars()) {
        ComponentType::Venue
    } else {
        ComponentType::Other(chars_to_string(v))
    }
}

/// The component type a `BEGIN`/`END` value names. `VCALENDAR`, `VEVENT`,
/// `VTODO` and `VVENUE` map to their tags; any other name is kept verbatim.
pub fn read_component_type(input: &str) -> (t: ComponentType)
    ensures
        t@ == type_of_name(input@),
{
    let v = str_to_chars(input);
    type_from_chars(&v)
}

/// The name a component type writes after `BEGIN:` and `END:`.
pub fn type_chars(t: &ComponentType) -> (v: Vec<char>)
    ensures
        v@ == kind_name(t@),
{
    match t {
        ComponentType::Calendar => vcalendar_chars(),
        ComponentType::Event => vevent_chars(),
        ComponentType::Todo => vtodo_chars(),
        ComponentType::Venue => vvenue_chars(),
        ComponentType::Other(n) => str_to_chars(n.as_str()),
    }
}

/// Whether an `END:` type closes a `BEGIN:` type (equal names up to case).
pub fn component_types_match(a: &ComponentType, b: &ComponentType) -> (r: bool)
    ensures
        r == types_match(a@, b@),
{
    let av = type_chars(a);
    let bv = type_chars(b);
    chars_eq_ci(&av, &bv)
}

fn scan_name(l: &Vec<char>, i: usize) -> (r: usize)
    requires
        i <= l.len(),
    ensures
        r as int == name_end(l@, i as int),
        i <= r <= l.len(),
{
    let mut j: usize = i;
    while j < l.len() && is_name_char(l[j])
        invariant
            i <= j <= l.len(),
            name_end(l@, i as int) == name_end(l@, j as int),
        decreases l.len() - j,
    {
        j += 1;
    }
    j
}

fn scan_spaces(l: &Vec<char>, i: usize) -> (r: usize)
    requires
        i <= l.len(),
    ensures
        r as int == space_end(l@, i as int),
        i <= r <= l.len(),
{
    let mut j: usize = i;
    while j < l.len() && (l[j] == ' ' || l[j] == '\t')
        invariant
            i <= j <= l.len(),
            space_end(l@, i as int) == space_end(l@, j as int),
        decreases l.len() - j,
    {
        j += 1;
    }
    j
}

fn scan_unquoted(l: &Vec<char>, i: usize) -> (r: usize)
    requires
        i <= l.len(),
    ensures
        r as int == unquoted_end(l@, i as int),
        i <= r <= l.len(),
{
    let mut j: usize = i;
    while j < l.len() && l[j] != ':' && l[j] != ';' && l[j] != ','
        invariant
            i <= j <= l.len(),
            unquoted_end(l@, i as int) == unquoted_end(l@, j as int),
        decreases l.len() - j,
    {
        j += 1;
    }
    j
}

fn scan_quoted(l: &Vec<char>, i: usize) -> (r: usize)
    requires
        i <= l.len(),
    ensures
        r as int == quoted_end(l@, i as int),
        i <= r <= l.len(),
{
    let mut j: usize = i;
    while j < l.len() && l[j] != '"' && !is_control(l[j])
        invariant
            i <= j <= l.len(),
            quoted_end(l@, i as int) == quoted_end(l@, j as int),
        decreases l.len() - j,
    {
        j += 1;
    }
    j
}

/// Read one `;KEY=VALUE` group starting at `i`, which must hold `;`.
fn param_at_chars(l: &Vec<char>, i: usize) -> (r: Result<(Parameter, usize), usize>)
    requires
        i < l.len(),
        l@[i as int] == ';',
    ensures
        match r {
            Ok(pj) => param_at(l@, i as int) == Ok::<(ParameterModel, int), int>(
                (pj.0@, pj.1 as int),
            ) && i < pj.1 <= l.len(),
            Err(o) => param_at(l@, i as int) == Err::<(ParameterModel, int), int>(o as int),
        },
{
    let k0 = scan_spaces(l, i + 1);
    let ke = scan_name(l, k0);
    if ke == k0 {
        return Err(k0);
    }
    if !(ke < l.len() && l[ke] == '=') {
        return Err(ke);
    }
    let key = chars_to_string(&subvec(l, k0, ke));
    if ke + 1 < l.len() && l[ke + 1] == '"' {
        let qe = scan_quoted(l, ke + 2);
        if !(qe < l.len() && l[qe] == '"') {
            return Err(qe);
        }
        let val = chars_to_string(&subvec(l, ke + 2, qe));
        Ok((Parameter { key, val }, qe + 1))
    } else {
        let ve = scan_unquoted(l, ke + 1);
        let val = chars_to_string(&subvec(l, ke + 1, ve));
        Ok((Parameter { key, val }, ve))
    }
}

/// Read all `;KEY=VALUE` groups from `i` on, failing at the first flaw.
pub(crate) fn params_from_chars(l: &Vec<char>, i: usize) -> (r: Result<
    (Vec<Parameter>, usize),
    usize,
>)
    requires
        i <= l.len(),
    ensures
        match r {
            Ok(pj) => params_from(l@, i as int) == Ok::<(Seq<ParameterModel>, int), int>(
                (pj.0.deep_view(), pj.1 as int),
            ) && i <= pj.1 <= l.len(),
            Err(o) => params_from(l@, i as int) == Err::<(Seq<ParameterModel>, int), int>(
                o as int,
            ),
        },
{
    let mut acc: Vec<Parameter> = Vec::new();
    let mut cur: usize = i;
    loop
        invariant
            i <= cur <= l.len(),
            match params_from(l@, cur as int) {
                Ok(psj) => params_from(l@, i as int) == Ok::<(Seq<ParameterModel>, int), int>(
                    (acc.deep_view() + psj.0, psj.1),
                ),
                Err(o) => params_from(l@, i as int) == Err::<(Seq<ParameterModel>, int), int>(o),
            },
        decreases l.len() - cur,
    {
        if !(cur < l.len() && l[cur] == ';') {
            proof {
                assert(params_from(l@, cur as int) == Ok::<(Seq<ParameterModel>, int), int>(
                    (Seq::empty(), cur as int),
                ));
                assert(acc.deep_view() + Seq::<ParameterModel>::empty() =~= acc.deep_view());
                lemma_params_from_bounds(l@, i as int);
            }
            return Ok((acc, cur));
        }
        match param_at_chars(l, cur) {
            Err(o) => {
                return Err(o);
            },
            Ok((p, next)) => {
                let ghost pre = acc.deep_view();
                let ghost pv = p@;
                acc.push(p);
                proof {
                    assert(acc.deep_view() =~~= pre.push(pv));
                    if let Ok(psj) = params_from(l@, next as int) {
                        assert(pre + (seq![pv] + psj.0) =~= pre.push(pv) + psj.0);
                    }
                }
                cur = next;
            },
        }
    }
}

/// Read one `;KEY=VALUE` parameter from the front of `input`; the rest of
/// the text follows it. Spaces may stand between `;` and the key.
pub fn read_parameter<'a>(input: &'a str) -> (r: Result<(&'a str, Parameter), GrammarError>)
    ensures
        match r {
            Ok(rp) => input@.len() > 0 && input@[0] == ';' && (param_at(input@, 0)
                matches Ok(pj) && pj.0 == rp.1@ && rp.0@ == input@.skip(pj.1)),
            Err(e) => (input@.len() == 0 || input@[0] != ';' || param_at(input@, 0) is Err)
                && e@.line == input@ && e@.index == 0,
        },
{
    let v = str_to_chars(input);
    if !(v.len() > 0) {
        return Err(GrammarError { line: string_of(input), index: 0, offset: 0 });
    }
    if v[0] != ';' {
        return Err(GrammarError { line: string_of(input), index: 0, offset: 0 });
    }
    match param_at_chars(&v, 0) {
        Ok((p, next)) => {
            let rest = input.substring_char(next, v.len());
            Ok((rest, p))
        },
        Err(o) => Err(GrammarError { line: string_of(input), index: 0, offset: o }),
    }
}

/// Read `;KEY=VALUE` groups greedily, stopping before the first text that is
/// not a well-formed group.
fn many_params_chars(l: &Vec<char>) -> (r: (Vec<Parameter>, usize))
    ensures
        r.0.deep_view() == many_params(l@, 0).0,
        r.1 as int == many_params(l@, 0).1,
        r.1 <= l.len(),
{
    let mut acc: Vec<Parameter> = Vec::new();
    let mut cur: usize = 0;
    loop
        invariant
            cur <= l.len(),
            many_params(l@, 0).0 == acc.deep_view() + many_params(l@, cur as int).0,
            many_params(l@, 0).1 == many_params(l@, cur as int).1,
        decreases l.len() - cur,
    {
        if !(cur < l.len() && l[cur] == ';') {
            proof {
                assert(acc.deep_view() + Seq::<ParameterModel>::empty() =~= acc.deep_view());
            }
            return (acc, cur);
        }
        match param_at_chars(l, cur) {
            Err(_) => {
                proof {
                    assert(acc.deep_view() + Seq::<ParameterModel>::empty() =~= acc.deep_view());
                }
                return (acc, cur);
            },
            Ok((p, next)) => {
                let ghost pre = acc.deep_view();
                let ghost pv = p@;
                acc.push(p);
                proof {
                    assert(acc.deep_view() =~~= pre.push(pv));
                    assert(pre + (seq![pv] + many_params(l@, next as int).0) =~= pre.push(pv)
                        + many_params(l@, next as int).0);
                }
                cur = next;
            },
        }
    }
}

/// Read `;KEY=VALUE` parameters greedily from the front of `input`, stopping
/// before the first text that is not a well-formed parameter; the rest of
/// the text follows the parameters read. This never fails: with no leading
/// `;` it reads zero parameters.
pub fn read_parameters<'a>(input: &'a str) -> (r: Result<(&'a str, Vec<Parameter>), GrammarError>)
    ensures
        r matches Ok(rp) && rp.1.deep_view() == many_params(input@, 0).0 && rp.0@ == input@.skip(
            many_params(input@, 0).1,
        ),
{
    let v = str_to_chars(input);
    let (acc, cur) = many_params_chars(&v);
    let rest = input.substring_char(cur, v.len());
    Ok((rest, acc))
}

/// A fresh owned copy of a borrowed string.
fn string_of(s: &str) -> (r: String)
    ensures
        r@ == s@,
{
    let v = str_to_chars(s);
    chars_to_string(&v)
}

/// Tokenize one logical line held as characters.
pub(crate) fn token_from_chars(l: &Vec<char>) -> (r: Result<IcalToken, usize>)
    ensures
        match r {
            Ok(t) => token_of_line(l@) == Ok::<TokenModel, int>(t@),
            Err(o) => token_of_line(l@) == Err::<TokenModel, int>(o as int),
        },
{
    let ne = scan_name(l, 0);
    if ne == 0 {
        return Err(0);
    }
    let name = subvec(l, 0, ne);
    proof {
        assert(name@ =~= l@.take(ne as int));
    }
    match params_from_chars(l, ne) {
        Err(o) => Err(o),
        Ok((params, sep)) => {
            if !(sep < l.len() && l[sep] == ':') {
                return Err(sep);
            }
            let value = subvec(l, sep + 1, l.len());
            proof {
                assert(value@ =~= l@.skip(sep + 1));
            }
            if chars_eq_ci(&name, &begin_chars()) {
                if params.len() != 0 {
                    proof {
                        assert(params.deep_view().len() != 0);
                    }
                    return Err(ne);
                }
                if !is_valid_name(&value) {
                    return Err(sep + 1);
                }
                proof {
                    assert(params.deep_view().len() == 0);
                }
                Ok(IcalToken::Begin(type_from_chars(&value)))
            } else if chars_eq_ci(&name, &end_chars()) {
                if params.len() != 0 {
                    proof {
                        assert(params.deep_view().len() != 0);
                    }
                    return Err(ne);
                }
                if !is_valid_name(&value) {
                    return Err(sep + 1);
                }
                proof {
                    assert(params.deep_view().len() == 0);
                }
                Ok(IcalToken::End(type_from_chars(&value)))
            } else {
                let val = chars_to_string(&unescape_chars(&value));
                Ok(
                    IcalToken::Property(
                        Property { key: chars_to_string(&name), val, params },
                    ),
                )
            }
        },
    }
}

/// Parse one already-unfolded logical line into its token. A failure names
/// the offending line (at index 0, the line standing alone) and the offset
/// where the scan left the grammar.
pub fn parse_token(line: &str) -> (r: Result<IcalToken, GrammarError>)
    ensures
        match r {
            Ok(t) => token_of_line(line@) == Ok::<TokenModel, int>(t@),
            Err(e) => token_of_line(line@) == Err::<TokenModel, int>(e@.offset) && e@.line
                == line@ && e@.index == 0,
        },
{
    let v = str_to_chars(line);
    match token_from_chars(&v) {
        Ok(t) => Ok(t),
        Err(o) => Err(GrammarError { line: string_of(line), index: 0, offset: o }),
    }
}

/// Read a `BEGIN:` line: the token, if `line` opens a component.
pub fn read_begin(line: &str) -> (r: Option<IcalToken>)
    ensures
        match r {
            Some(t) => token_of_line(line@) == Ok::<TokenModel, int>(t@) && t@ is Begin,
            None => !(token_of_line(line@) matches Ok(t) && t is Begin),
        },
{
    let v = str_to_chars(line);
    match token_from_chars(&v) {
        Ok(t) => match t {
            IcalToken::Begin(k) => Some(IcalToken::Begin(k)),
            _ => None,
        },
        Err(_) => None,
    }
}

/// Read an `END:` line: the token, if `line` closes a component.
pub fn read_end(line: &str) -> (r: Option<IcalToken>)
    ensures
        match r {
            Some(t) => token_of_line(line@) == Ok::<TokenModel, int>(t@) && t@ is End,
            None => !(token_of_line(line@) matches Ok(t) && t is End),
        },
{
    let v = str_to_chars(line);
    match token_from_chars(&v) {
        Ok(t) => match t {
            IcalToken::End(k) => Some(IcalToken::End(k)),
            _ => None,
        },
        Err(_) => None,
    }
}

} // verus!
