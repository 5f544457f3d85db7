//! The component assembler: from logical lines to a tree of components.
//!
//! A pure stack machine walks the token stream: `BEGIN` pushes a fresh
//! component, a property attaches to the innermost open one, `END` pops and
//! hands the completed component to its parent, or to the output when it was
//! a root. Any violation aborts the whole parse; no partial tree is ever
//! returned. Blank logical lines are skipped. Line indices in errors count
//! logical lines from zero, blank ones included.

use crate::fold::{lemma_logical_line_at_bounds, logical_line_at, take_logical, unfold_chars,
    unfold_lines};
use crate::model::{
    comp_model, empty_component, lemma_comps_model_push, with_child, with_property, Component,
    ComponentModel, GrammarError, GrammarErrorModel, IcalToken, ParseError, ParseErrorModel,
    Property, PropertyModel, TokenModel,
};
use crate::text::{chars_to_string, str_to_chars};
use crate::token::{token_from_chars, token_of_line, types_match};
use vstd::prelude::*;
use vstd::string::StrSliceExecFns;

verus! {

/// The stack machine over the logical lines, from line `i`, with the open
/// components innermost-last in `stack` and the completed roots in `roots`.
pub open spec fn parse_lines(
    lines: Seq<Seq<char>>,
    i: int,
    stack: Seq<ComponentModel>,
    roots: Seq<ComponentModel>,
) -> Result<Seq<ComponentModel>, ParseErrorModel>
    decreases lines.len() - i,
{
    if i < 0 || i >= lines.len() {
        if stack.len() == 0 {
            Ok(roots)
        } else {
            Err(ParseErrorModel::UnterminatedComponent { kind: stack.last().kind })
        }
    } else if lines[i].len() == 0 {
        parse_lines(lines, i + 1, stack, roots)
    } else {
        match token_of_line(lines[i]) {
            Err(off) => Err(
                ParseErrorModel::Grammar(
                    GrammarErrorModel { line: lines[i], index: i, offset: off },
                ),
            ),
            Ok(tok) => match tok {
                TokenModel::Begin(t) => parse_lines(
                    lines,
                    i + 1,
                    stack.push(empty_component(t)),
                    roots,
                ),
                TokenModel::Property(p) => if stack.len() == 0 {
                    Err(ParseErrorModel::PropertyOutsideComponent { line: i })
                } else {
                    parse_lines(
                        lines,
                        i + 1,
                        stack.drop_last().push(with_property(stack.last(), p)),
                        roots,
                    )
                },
                TokenModel::End(t) => if stack.len() == 0 {
                    Err(ParseErrorModel::UnexpectedEnd { found: t, line: i })
                } else if !types_match(stack.last().kind, t) {
                    Err(
                        ParseErrorModel::MismatchedEnd {
                            expected: stack.last().kind,
                            found: t,
                            line: i,
                        },
                    )
                } else if stack.len() == 1 {
                    parse_lines(lines, i + 1, stack.drop_last(), roots.push(stack.last()))
                } else {
                    parse_lines(
                        lines,
                        i + 1,
                        stack.drop_last().drop_last().push(
                            with_child(stack.drop_last().last(), stack.last()),
                        ),
                        roots,
                    )
                },
            },
        }
    }
}

/// What parsing a text yields: the roots of the component trees its lines
/// describe, or the first violation.
pub open spec fn parse_spec(s: Seq<char>) -> Result<Seq<ComponentModel>, ParseErrorModel> {
    parse_lines(unfold_lines(s), 0, Seq::empty(), Seq::empty())
}

/// Parse a whole text into its root components. Folding is undone, each
/// non-blank logical line is tokenized, and the nesting stack assembles the
/// tree; the first flaw aborts the parse. An empty input yields no
/// components and no error.
///
/// A property line outside any component is an error here; a caller that
/// tolerates bare properties can read them off first with
/// [`property_list`] and hand the rest to `parse`.
pub fn parse(input: &str) -> (r: Result<Vec<Component>, ParseError>)
    ensures
        match r {
            Ok(cs) => parse_spec(input@) == Ok::<Seq<ComponentModel>, ParseErrorModel>(
                cs.deep_view(),
            ),
            Err(e) => parse_spec(input@) == Err::<Seq<ComponentModel>, ParseErrorModel>(e@),
        },
{
    let v = str_to_chars(input);
    let lines = unfold_chars(&v);
    let ghost ls = lines.deep_view();
    let n = lines.len();
    let mut stack: Vec<Component> = Vec::new();
    let mut roots: Vec<Component> = Vec::new();
    let mut i: usize = 0;
    proof {
        assert(ls.len() == n);
        assert(stack.deep_view() =~= Seq::<ComponentModel>::empty());
        assert(roots.deep_view() =~= Seq::<ComponentModel>::empty());
    }
    while i < n
        invariant
            i <= n,
            n == ls.len(),
            ls == unfold_lines(input@),
            ls == lines.deep_view(),
            n == lines.len(),
            parse_spec(input@) == parse_lines(ls, i as int, stack.deep_view(), roots.deep_view()),
        decreases n - i,
    {
        let line = &lines[i];
        proof {
            assert(line@ =~= ls[i as int]);
        }
        if line.len() == 0 {
            i += 1;
            continue ;
        }
        match token_from_chars(line) {
            Err(off) => {
                return Err(
                    ParseError::Grammar(
                        GrammarError { line: chars_to_string(line), index: i, offset: off },
                    ),
                );
            },
            Ok(tok) => {
                let ghost pre = stack.deep_view();
                match tok {
                    IcalToken::Begin(t) => {
                        let ghost tm = t@;
                        stack.push(
                            Component { kind: t, properties: Vec::new(), components: Vec::new() },
                        );
                        proof {
                            assert(stack.deep_view() =~~= pre.push(empty_component(tm)));
                        }
                    },
                    IcalToken::Property(p) => {
                        if stack.len() == 0 {
                            return Err(ParseError::PropertyOutsideComponent { line: i });
                        }
                        let ghost pm = p@;
                        let mut top = stack.pop().unwrap();
                        let ghost topm = comp_model(top);
                        proof {
                            assert(topm == pre.last());
                        }
                        top.properties.push(p);
                        proof {
                            assert(comp_model(top) =~~= with_property(topm, pm));
                        }
                        stack.push(top);
                        proof {
                            assert(stack.deep_view() =~~= pre.drop_last().push(
                                with_property(pre.last(), pm),
                            ));
                        }
                    },
                    IcalToken::End(t) => {
                        let ghost tm = t@;
                        if stack.len() == 0 {
                            return Err(ParseError::UnexpectedEnd { found: t, line: i });
                        }
                        let top = stack.pop().unwrap();
                        let ghost topm = comp_model(top);
                        proof {
                            assert(topm == pre.last());
                        }
                        if !crate::token::component_types_match(&top.kind, &t) {
                            return Err(
                                ParseError::MismatchedEnd { expected: top.kind, found: t, line: i },
                            );
                        }
                        if stack.len() == 0 {
                            let ghost rpre = roots.deep_view();
                            roots.push(top);
                            proof {
                                assert(pre.len() == 1);
                                assert(stack.deep_view() =~~= pre.drop_last());
                                assert(roots.deep_view() =~~= rpre.push(pre.last()));
                            }
                        } else {
                            let mut parent = stack.pop().unwrap();
                            let ghost parentm = comp_model(parent);
                            proof {
                                assert(parentm == pre.drop_last().last());
                            }
                            let ghost oldcomps = parent.components@;
                            parent.components.push(top);
                            proof {
                                lemma_comps_model_push(oldcomps, top);
                                assert(comp_model(parent) =~~= with_child(parentm, topm));
                            }
                            stack.push(parent);
                            proof {
                                assert(stack.deep_view() =~~= pre.drop_last().drop_last().push(
                                    with_child(pre.drop_last().last(), pre.last()),
                                ));
                            }
                        }
                    },
                }
                i += 1;
            },
        }
    }
    if stack.len() > 0 {
        let ghost pre = stack.deep_view();
        let top = stack.pop().unwrap();
        proof {
            assert(comp_model(top) == pre.last());
            assert(pre.len() > 0);
        }
        return Err(ParseError::UnterminatedComponent { kind: top.kind });
    }
    proof {
        assert(stack.deep_view().len() == 0);
    }
    Ok(roots)
}

/// The end of the run of whitespace starting at `i`.
pub open spec fn ws_end(s: Seq<char>, i: int) -> int
    decreases s.len() - i,
{
    if 0 <= i < s.len() && (s[i] == ' ' || s[i] == '\t' || s[i] == '\r' || s[i] == '\n') {
        ws_end(s, i + 1)
    } else {
        i
    }
}

pub proof fn lemma_ws_end_bounds(s: Seq<char>, i: int)
    requires
        0 <= i <= s.len(),
    ensures
        i <= ws_end(s, i) <= s.len(),
    decreases s.len() - i,
{
    if i < s.len() && (s[i] == ' ' || s[i] == '\t' || s[i] == '\r' || s[i] == '\n') {
        lemma_ws_end_bounds(s, i + 1);
    }
}

/// One property read from position `i`: leading whitespace is skipped, the
/// next logical line must be a property line. The failure names the line,
/// at index zero, and the offset of the flaw (zero when the line is a
/// `BEGIN:` or `END:` marker instead of a property).
pub open spec fn property_from(s: Seq<char>, i: int) -> Result<
    (PropertyModel, int),
    GrammarErrorModel,
> {
    let j = ws_end(s, i);
    let ln = logical_line_at(s, j);
    match token_of_line(ln.0) {
        Err(o) => Err(GrammarErrorModel { line: ln.0, index: 0, offset: o }),
        Ok(tok) => match tok {
            TokenModel::Property(p) => Ok((p, ln.1)),
            _ => Err(GrammarErrorModel { line: ln.0, index: 0, offset: 0 }),
        },
    }
}

pub proof fn lemma_property_from_bounds(s: Seq<char>, i: int)
    requires
        0 <= i <= s.len(),
    ensures
        property_from(s, i) matches Ok(pn) ==> i < pn.1 <= s.len(),
{
    lemma_ws_end_bounds(s, i);
    let j = ws_end(s, i);
    lemma_logical_line_at_bounds(s, j);
    if j == s.len() {
        assert(logical_line_at(s, j).0 =~= Seq::<char>::empty());
        assert(token_of_line(Seq::<char>::empty()) == Err::<TokenModel, int>(0));
    }
}

/// Properties read greedily from position `i`, and the position before the
/// first text that is not a property line.
pub open spec fn properties_from(s: Seq<char>, i: int) -> (Seq<PropertyModel>, int)
    decreases s.len() - i,
    via properties_from_decreases
{
    if 0 <= i < s.len() {
        match property_from(s, i) {
            Err(_) => (Seq::empty(), i),
            Ok(pn) => {
                let rest = properties_from(s, pn.1);
                (seq![pn.0] + rest.0, rest.1)
            },
        }
    } else {
        (Seq::empty(), i)
    }
}

#[via_fn]
proof fn properties_from_decreases(s: Seq<char>, i: int) {
    if 0 <= i < s.len() {
        lemma_property_from_bounds(s, i);
    }
}

/// Read one property from the front of `input`; the rest of the text
/// follows it. Leading whitespace is skipped; the logical line may be
/// folded. A line that opens or closes a component is not a property.
pub fn property<'a>(input: &'a str) -> (r: Result<(&'a str, Property), GrammarError>)
    ensures
        match r {
            Ok(rp) => (property_from(input@, 0) matches Ok(pn) && pn.0 == rp.1@ && rp.0@
                == input@.skip(pn.1)),
            Err(e) => property_from(input@, 0) == Err::<(PropertyModel, int), GrammarErrorModel>(
                e@,
            ),
        },
{
    let v = str_to_chars(input);
    match property_at(&v, 0) {
        Ok((p, next)) => {
            let rest = input.substring_char(next, v.len());
            Ok((rest, p))
        },
        Err(e) => Err(e),
    }
}

/// Read one property from position `pos` of `v`.
fn property_at(v: &Vec<char>, pos: usize) -> (r: Result<(Property, usize), GrammarError>)
    requires
        pos <= v.len(),
    ensures
        match r {
            Ok(pn) => property_from(v@, pos as int) == Ok::<
                (PropertyModel, int),
                GrammarErrorModel,
            >((pn.0@, pn.1 as int)) && pos < pn.1 <= v.len(),
            Err(e) => property_from(v@, pos as int) == Err::<
                (PropertyModel, int),
                GrammarErrorModel,
            >(e@),
        },
{
    proof {
        lemma_property_from_bounds(v@, pos as int);
    }
    let n = v.len();
    let mut j: usize = pos;
    while j < n && (v[j] == ' ' || v[j] == '\t' || v[j] == '\r' || v[j] == '\n')
        invariant
            pos <= j <= n,
            n == v@.len(),
            ws_end(v@, pos as int) == ws_end(v@, j as int),
        decreases n - j,
    {
        j += 1;
    }
    let (line, next) = take_logical(v, j);
    match token_from_chars(&line) {
        Err(o) => Err(GrammarError { line: chars_to_string(&line), index: 0, offset: o }),
        Ok(tok) => match tok {
            IcalToken::Property(p) => Ok((p, next)),
            _ => Err(GrammarError { line: chars_to_string(&line), index: 0, offset: 0 }),
        },
    }
}

/// Read properties greedily from the front of `input`, stopping before the
/// first text that is not a property line; the rest of the text follows the
/// properties read. This never fails: it reads zero properties from
/// unsuitable text.
pub fn property_list<'a>(input: &'a str) -> (r: Result<(&'a str, Vec<Property>), GrammarError>)
    ensures
        r matches Ok(rp) && rp.1.deep_view() == properties_from(input@, 0).0 && rp.0@
            == input@.skip(properties_from(input@, 0).1),
{
    let v = str_to_chars(input);
    let mut acc: Vec<Property> = Vec::new();
    let mut cur: usize = 0;
    loop
        invariant
            cur <= v.len(),
            v@ == input@,
            properties_from(v@, 0).0 == acc.deep_view() + properties_from(v@, cur as int).0,
            properties_from(v@, 0).1 == properties_from(v@, cur as int).1,
        decreases v.len() - cur,
    {
        if cur >= v.len() {
            proof {
                assert(acc.deep_view() + Seq::<PropertyModel>::empty() =~= acc.deep_view());
            }
            let rest = input.substring_char(cur, v.len());
            return Ok((rest, acc));
        }
        match property_at(&v, cur) {
            Err(_) => {
                proof {
                    assert(acc.deep_view() + Seq::<PropertyModel>::empty() =~= acc.deep_view());
                }
                let rest = input.substring_char(cur, v.len());
                return Ok((rest, acc));
            },
            Ok((p, next)) => {
                let ghost pre = acc.deep_view();
                let ghost pm = p@;
                acc.push(p);
                proof {
                    assert(acc.deep_view() =~~= pre.push(pm));
                    assert(pre + (seq![pm] + properties_from(v@, next as int).0) =~= pre.push(pm)
                        + properties_from(v@, next as int).0);
                }
                cur = next;
            },
        }
    }
}

/// The stack machine from position `pos`, inside the open component `top`
/// with the enclosing open components in `outer`: the completed component
/// and the position after its `END:` line, or the first violation. Line
/// indices count logical lines from `lidx`.
pub open spec fn component_body(
    s: Seq<char>,
    pos: int,
    lidx: int,
    top: ComponentModel,
    outer: Seq<ComponentModel>,
) -> Result<(ComponentModel, int), ParseErrorModel>
    decreases s.len() - pos,
    via component_body_decreases
{
    if pos < 0 || pos >= s.len() {
        Err(ParseErrorModel::UnterminatedComponent { kind: top.kind })
    } else {
        let ln = logical_line_at(s, pos);
        if ln.0.len() == 0 {
            component_body(s, ln.1, lidx + 1, top, outer)
        } else {
            match token_of_line(ln.0) {
                Err(o) => Err(
                    ParseErrorModel::Grammar(
                        GrammarErrorModel { line: ln.0, index: lidx, offset: o },
                    ),
                ),
                Ok(tok) => match tok {
                    TokenModel::Begin(t) => component_body(
                        s,
                        ln.1,
                        lidx + 1,
                        empty_component(t),
                        outer.push(top),
                    ),
                    TokenModel::Property(p) => component_body(
                        s,
                        ln.1,
                        lidx + 1,
                        with_property(top, p),
                        outer,
                    ),
                    TokenModel::End(t) => if !types_match(top.kind, t) {
                        Err(
                            ParseErrorModel::MismatchedEnd {
                                expected: top.kind,
                                found: t,
                                line: lidx,
                            },
                        )
                    } else if outer.len() == 0 {
                        Ok((top, ln.1))
                    } else {
                        component_body(
                            s,
                            ln.1,
                            lidx + 1,
                            with_child(outer.last(), top),
                            outer.drop_last(),
                        )
                    },
                },
            }
        }
    }
}

#[via_fn]
proof fn component_body_decreases(
    s: Seq<char>,
    pos: int,
    lidx: int,
    top: ComponentModel,
    outer: Seq<ComponentModel>,
) {
    if 0 <= pos < s.len() {
        lemma_logical_line_at_bounds(s, pos);
    }
}

/// One component read from position `pos`: blank logical lines are skipped,
/// a `BEGIN:` line must follow, and the stack machine runs to its matching
/// `END:`.
pub open spec fn component_start(s: Seq<char>, pos: int, lidx: int) -> Result<
    (ComponentModel, int),
    ParseErrorModel,
>
    decreases s.len() - pos,
    via component_start_decreases
{
    if 0 <= pos < s.len() && logical_line_at(s, pos).0.len() == 0 {
        component_start(s, logical_line_at(s, pos).1, lidx + 1)
    } else {
        let ln = logical_line_at(s, pos);
        match token_of_line(ln.0) {
            Err(o) => Err(
                ParseErrorModel::Grammar(GrammarErrorModel { line: ln.0, index: lidx, offset: o }),
            ),
            Ok(tok) => match tok {
                TokenModel::Begin(t) => component_body(
                    s,
                    ln.1,
                    lidx + 1,
                    empty_component(t),
                    Seq::empty(),
                ),
                TokenModel::Property(_) => Err(
                    ParseErrorModel::PropertyOutsideComponent { line: lidx },
                ),
                TokenModel::End(t) => Err(ParseErrorModel::UnexpectedEnd { found: t, line: lidx }),
            },
        }
    }
}

#[via_fn]
proof fn component_start_decreases(s: Seq<char>, pos: int, lidx: int) {
    if 0 <= pos < s.len() {
        lemma_logical_line_at_bounds(s, pos);
    }
}

pub proof fn lemma_component_body_bounds(
    s: Seq<char>,
    pos: int,
    lidx: int,
    top: ComponentModel,
    outer: Seq<ComponentModel>,
)
    requires
        0 <= pos <= s.len(),
    ensures
        component_body(s, pos, lidx, top, outer) matches Ok(cn) ==> pos < cn.1 <= s.len(),
    decreases s.len() - pos,
{
    if 0 <= pos < s.len() {
        lemma_logical_line_at_bounds(s, pos);
        let ln = logical_line_at(s, pos);
        if ln.0.len() == 0 {
            lemma_component_body_bounds(s, ln.1, lidx + 1, top, outer);
        } else {
            match token_of_line(ln.0) {
                Err(_) => {},
                Ok(tok) => match tok {
                    TokenModel::Begin(t) => {
                        lemma_component_body_bounds(
                            s,
                            ln.1,
                            lidx + 1,
                            empty_component(t),
                            outer.push(top),
                        );
                    },
                    TokenModel::Property(p) => {
                        lemma_component_body_bounds(s, ln.1, lidx + 1, with_property(top, p), outer);
                    },
                    TokenModel::End(t) => {
                        if types_match(top.kind, t) && outer.len() > 0 {
                            lemma_component_body_bounds(
                                s,
                                ln.1,
                                lidx + 1,
                                with_child(outer.last(), top),
                                outer.drop_last(),
                            );
                        }
                    },
                },
            }
        }
    }
}

pub proof fn lemma_component_start_bounds(s: Seq<char>, pos: int, lidx: int)
    requires
        0 <= pos <= s.len(),
    ensures
        component_start(s, pos, lidx) matches Ok(cn) ==> pos < cn.1 <= s.len(),
    decreases s.len() - pos,
{
    if 0 <= pos < s.len() {
        lemma_logical_line_at_bounds(s, pos);
        let ln = logical_line_at(s, pos);
        if ln.0.len() == 0 {
            lemma_component_start_bounds(s, ln.1, lidx + 1);
        } else {
            match token_of_line(ln.0) {
                Ok(tok) => match tok {
                    TokenModel::Begin(t) => {
                        lemma_component_body_bounds(
                            s,
                            ln.1,
                            lidx + 1,
                            empty_component(t),
                            Seq::empty(),
                        );
                    },
                    _ => {},
                },
                Err(_) => {},
            }
        }
    }
}

/// Skip blank logical lines; reading a component is unchanged by them.
fn skip_blank(v: &Vec<char>, pos0: usize, lidx0: usize) -> (r: (usize, usize))
    requires
        pos0 <= v.len(),
        lidx0 <= pos0,
    ensures
        pos0 <= r.0 <= v.len(),
        r.1 <= r.0,
        component_start(v@, pos0 as int, lidx0 as int) == component_start(
            v@,
            r.0 as int,
            r.1 as int,
        ),
        r.0 >= v.len() || logical_line_at(v@, r.0 as int).0.len() > 0,
{
    let mut pos = pos0;
    let mut lidx = lidx0;
    loop
        invariant
            pos0 <= pos <= v.len(),
            lidx <= pos,
            component_start(v@, pos0 as int, lidx0 as int) == component_start(
                v@,
                pos as int,
                lidx as int,
            ),
        decreases v.len() - pos,
    {
        if pos >= v.len() {
            return (pos, lidx);
        }
        let (line, next) = take_logical(v, pos);
        if line.len() > 0 {
            return (pos, lidx);
        }
        pos = next;
        lidx = lidx + 1;
    }
}

/// Read one component from position `pos0` of `v`.
fn component_at(v: &Vec<char>, pos0: usize) -> (r: Result<(Component, usize), ParseError>)
    requires
        pos0 <= v.len(),
    ensures
        match r {
            Ok(cn) => component_start(v@, pos0 as int, 0) == Ok::<
                (ComponentModel, int),
                ParseErrorModel,
            >((comp_model(cn.0), cn.1 as int)) && pos0 < cn.1 <= v.len(),
            Err(e) => component_start(v@, pos0 as int, 0) == Err::<
                (ComponentModel, int),
                ParseErrorModel,
            >(e@),
        },
{
    proof {
        lemma_component_start_bounds(v@, pos0 as int, 0);
    }
    let n = v.len();
    let (start, mut lidx) = skip_blank(v, pos0, 0);
    if start >= n {
        proof {
            assert(logical_line_at(v@, start as int).0 =~= Seq::<char>::empty());
            assert(token_of_line(Seq::<char>::empty()) == Err::<TokenModel, int>(0));
        }
        return Err(
            ParseError::Grammar(GrammarError { line: String::new(), index: lidx, offset: 0 }),
        );
    }
    let (first, next0) = take_logical(v, start);
    let mut top: Component;
    match token_from_chars(&first) {
        Err(o) => {
            return Err(
                ParseError::Grammar(
                    GrammarError { line: chars_to_string(&first), index: lidx, offset: o },
                ),
            );
        },
        Ok(tok) => match tok {
            IcalToken::Property(_) => {
                return Err(ParseError::PropertyOutsideComponent { line: lidx });
            },
            IcalToken::End(t) => {
                return Err(ParseError::UnexpectedEnd { found: t, line: lidx });
            },
            IcalToken::Begin(t) => {
                let ghost tm = t@;
                top = Component { kind: t, properties: Vec::new(), components: Vec::new() };
                proof {
                    assert(comp_model(top) =~~= empty_component(tm));
                }
            },
        },
    }
    let mut outer: Vec<Component> = Vec::new();
    let mut pos = next0;
    lidx = lidx + 1;
    proof {
        assert(outer.deep_view() =~= Seq::<ComponentModel>::empty());
    }
    loop
        invariant
            pos0 < pos <= n,
            n == v@.len(),
            lidx <= pos,
            component_start(v@, pos0 as int, 0) == component_body(
                v@,
                pos as int,
                lidx as int,
                comp_model(top),
                outer.deep_view(),
            ),
        decreases n - pos,
    {
        if pos >= n {
            return Err(ParseError::UnterminatedComponent { kind: top.kind });
        }
        let (line, next) = take_logical(v, pos);
        if line.len() == 0 {
            pos = next;
            lidx = lidx + 1;
            continue ;
        }
        match token_from_chars(&line) {
            Err(o) => {
                return Err(
                    ParseError::Grammar(
                        GrammarError { line: chars_to_string(&line), index: lidx, offset: o },
                    ),
                );
            },
            Ok(tok) => {
                let ghost pre_outer = outer.deep_view();
                let ghost topm = comp_model(top);
                match tok {
                    IcalToken::Begin(t) => {
                        let ghost tm = t@;
                        outer.push(top);
                        top = Component {
                            kind: t,
                            properties: Vec::new(),
                            components: Vec::new(),
                        };
                        proof {
                            assert(outer.deep_view() =~~= pre_outer.push(topm));
                            assert(comp_model(top) =~~= empty_component(tm));
                        }
                    },
                    IcalToken::Property(p) => {
                        let ghost pm = p@;
                        top.properties.push(p);
                        proof {
                            assert(comp_model(top) =~~= with_property(topm, pm));
                        }
                    },
                    IcalToken::End(t) => {
                        if !crate::token::component_types_match(&top.kind, &t) {
                            return Err(
                                ParseError::MismatchedEnd {
                                    expected: top.kind,
                                    found: t,
                                    line: lidx,
                                },
                            );
                        }
                        if outer.len() == 0 {
                            proof {
                                assert(outer.deep_view().len() == 0);
                            }
                            return Ok((top, next));
                        }
                        let mut parent = outer.pop().unwrap();
                        let ghost parentm = comp_model(parent);
                        proof {
                            assert(parentm == pre_outer.last());
                        }
                        let ghost oldcomps = parent.components@;
                        parent.components.push(top);
                        proof {
                            lemma_comps_model_push(oldcomps, top);
                            assert(comp_model(parent) =~~= with_child(parentm, topm));
                            assert(outer.deep_view() =~~= pre_outer.drop_last());
                        }
                        top = parent;
                    },
                }
                pos = next;
                lidx = lidx + 1;
            },
        }
    }
}

/// Read one component from the front of `input`: blank lines, a `BEGIN:`
/// line, properties and nested components, and the matching `END:` line.
/// The rest of the text follows the component.
pub fn component<'a>(input: &'a str) -> (r: Result<(&'a str, Component), ParseError>)
    ensures
        match r {
            Ok(rc) => (component_start(input@, 0, 0) matches Ok(cn) && cn.0 == rc.1@ && rc.0@
                == input@.skip(cn.1)),
            Err(e) => component_start(input@, 0, 0) == Err::<
                (ComponentModel, int),
                ParseErrorModel,
            >(e@),
        },
{
    let v = str_to_chars(input);
    match component_at(&v, 0) {
        Ok((c, next)) => {
            let rest = input.substring_char(next, v.len());
            Ok((rest, c))
        },
        Err(e) => Err(e),
    }
}

/// Components read greedily from position `pos`, and the position before
/// the first text that does not read as a component.
pub open spec fn components_from(s: Seq<char>, pos: int) -> (Seq<ComponentModel>, int)
    decreases s.len() - pos,
    via components_from_decreases
{
    if 0 <= pos <= s.len() {
        match component_start(s, pos, 0) {
            Err(_) => (Seq::empty(), pos),
            Ok(cn) => {
                let rest = components_from(s, cn.1);
                (seq![cn.0] + rest.0, rest.1)
            },
        }
    } else {
        (Seq::empty(), pos)
    }
}

#[via_fn]
proof fn components_from_decreases(s: Seq<char>, pos: int) {
    if 0 <= pos <= s.len() {
        lemma_component_start_bounds(s, pos, 0);
    }
}

/// Read components greedily from the front of `input`, stopping before the
/// first text that does not read as a component; the rest of the text
/// follows. This never fails: it reads zero components from unsuitable
/// text.
pub fn components<'a>(input: &'a str) -> (r: Result<(&'a str, Vec<Component>), ParseError>)
    ensures
        r matches Ok(rc) && rc.1.deep_view() == components_from(input@, 0).0 && rc.0@
            == input@.skip(components_from(input@, 0).1),
{
    let v = str_to_chars(input);
    let mut acc: Vec<Component> = Vec::new();
    let mut cur: usize = 0;
    loop
        invariant
            cur <= v.len(),
            v@ == input@,
            components_from(v@, 0).0 == acc.deep_view() + components_from(v@, cur as int).0,
            components_from(v@, 0).1 == components_from(v@, cur as int).1,
        decreases v.len() - cur,
    {
        match component_at(&v, cur) {
            Err(_) => {
                proof {
                    assert(acc.deep_view() + Seq::<ComponentModel>::empty() =~= acc.deep_view());
                }
                let rest = input.substring_char(cur, v.len());
                return Ok((rest, acc));
            },
            Ok((c, next)) => {
                let ghost cm = comp_model(c);
                let ghost pre = acc.deep_view();
                acc.push(c);
                proof {
                    assert(acc.deep_view() =~~= pre.push(cm));
                    assert(pre + (seq![cm] + components_from(v@, next as int).0) =~= pre.push(cm)
                        + components_from(v@, next as int).0);
                }
                cur = next;
            },
        }
    }
}

/// All components that can be read from the front of `input`; unsuitable
/// trailing text is ignored. Unlike [`parse`], this is lenient: it yields
/// what it could read instead of failing.
pub fn calendar(raw: &str) -> (r: Vec<Component>)
    ensures
        r.deep_view() == components_from(raw@, 0).0,
{
    match components(raw) {
        Ok((_, cs)) => cs,
        Err(_) => Vec::new(),
    }
}

/// Tokenize every logical line of a raw text: one result per line, in
/// order, each failure carrying its line and index. Blank lines yield a
/// failure at offset zero; [`parse`] skips them instead.
pub fn read_calendar_lines(input: &str) -> (r: Vec<Result<IcalToken, GrammarError>>)
    ensures
        r@.len() == unfold_lines(input@).len(),
        forall|i: int|
            0 <= i < r@.len() ==> match #[trigger] r@[i] {
                Ok(t) => token_of_line(unfold_lines(input@)[i]) == Ok::<TokenModel, int>(t@),
                Err(e) => token_of_line(unfold_lines(input@)[i]) == Err::<TokenModel, int>(
                    e@.offset,
                ) && e@.line == unfold_lines(input@)[i] && e@.index == i,
            },
{
    let v = str_to_chars(input);
    let lines = unfold_chars(&v);
    let ghost ls = lines.deep_view();
    let mut out: Vec<Result<IcalToken, GrammarError>> = Vec::new();
    let mut i: usize = 0;
    while i < lines.len()
        invariant
            i <= lines.len(),
            ls == unfold_lines(input@),
            ls == lines.deep_view(),
            ls.len() == lines.len(),
            out@.len() == i,
            forall|j: int|
                0 <= j < i ==> match #[trigger] out@[j] {
                    Ok(t) => token_of_line(ls[j]) == Ok::<TokenModel, int>(t@),
                    Err(e) => token_of_line(ls[j]) == Err::<TokenModel, int>(e@.offset) && e@.line
                        == ls[j] && e@.index == j,
                },
        decreases lines.len() - i,
    {
        let line = &lines[i];
        proof {
            assert(line@ =~= ls[i as int]);
        }
        match token_from_chars(line) {
            Ok(t) => out.push(Ok(t)),
            Err(o) => out.push(
                Err(GrammarError { line: chars_to_string(line), index: i, offset: o }),
            ),
        }
        i += 1;
    }
    out
}

/// Parse a whole text, yielding the components when it is well formed.
pub fn read_calendar(input: &str) -> (r: Option<Vec<Component>>)
    ensures
        match r {
            Some(cs) => parse_spec(input@) == Ok::<Seq<ComponentModel>, ParseErrorModel>(
                cs.deep_view(),
            ),
            None => parse_spec(input@) is Err,
        },
{
    match parse(input) {
        Ok(cs) => Some(cs),
        Err(_) => None,
    }
}

} // verus!
