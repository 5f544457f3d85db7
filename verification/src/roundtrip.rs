//! The round-trip law: parsing a serialized component tree yields the tree
//! back.
//!
//! The law holds for well-formed trees: names are non-empty runs of name
//! characters and not spellings of `BEGIN`/`END` (or, for `Other`, of a
//! well-known type name), parameter values carry no quote or control
//! character, and property values carry no bare carriage return. These are
//! exactly the trees whose serialized form the grammar can read back.

use crate::chars::{char_eq_ci, seq_eq_ci, spec_is_control, spec_is_name_char};
use crate::escape::{escape_char, escape_text, lemma_unescape_escape, unescape_text};
use crate::fold::{crlf, fold_line, is_marker, lemma_unfold_folded_line, logical_line_at,
    take_budget, unfold_lines, unfold_lines_at};
use crate::model::{
    empty_component, with_child, with_property, ComponentModel, ComponentTypeModel,
    ParameterModel, ParseErrorModel, PropertyModel, TokenModel,
};
use crate::parse::{parse_lines, parse_spec};
use crate::serialize::{
    begin_line, component_lines, components_lines, end_line, lemma_lines_text_concat, lines_text,
    needs_quotes, param_text, params_text, prop_line, prop_lines, serialize_spec,
};
use crate::token::{
    begin_kw, end_kw, kind_name, name_end, param_at, params_from, quoted_end, space_end,
    token_of_line, type_of_name, types_match, unquoted_end, valid_name, vcalendar_name,
    vevent_name, vtodo_name, vvenue_name,
};
use vstd::prelude::*;

verus! {

/// A component type that serialization can reproduce: an `Other` name is a
/// proper token and not the spelling of a well-known type.
pub open spec fn wf_kind(t: ComponentTypeModel) -> bool {
    match t {
        ComponentTypeModel::Other(n) => valid_name(n) && n != vcalendar_name() && n
            != vevent_name() && n != vtodo_name() && n != vvenue_name(),
        _ => true,
    }
}

/// A parameter the grammar can read back: a proper key, and a value free of
/// quotes and control characters.
pub open spec fn wf_param(p: ParameterModel) -> bool {
    valid_name(p.key) && forall|j: int|
        0 <= j < p.val.len() ==> p.val[j] != '"' && !spec_is_control(p.val[j])
}

/// A property the grammar can read back: a proper key that does not spell
/// `BEGIN` or `END`, well-formed parameters, and a value with no bare
/// carriage return (a line break in a value is the escaped `\n`).
pub open spec fn wf_property(p: PropertyModel) -> bool {
    valid_name(p.key) && !seq_eq_ci(p.key, begin_kw()) && !seq_eq_ci(p.key, end_kw()) && (forall|
        j: int,
    |
        0 <= j < p.params.len() ==> wf_param(#[trigger] p.params[j])) && (forall|j: int|
        0 <= j < p.val.len() ==> p.val[j] != '\r')
}

/// A component tree that serialization reproduces faithfully.
pub open spec fn wf_component(c: ComponentModel) -> bool
    decreases c,
    via wf_component_decreases
{
    wf_kind(c.kind) && (forall|j: int|
        0 <= j < c.properties.len() ==> wf_property(#[trigger] c.properties[j])) && wf_components(
        c.components,
    )
}

/// All components of a sequence are well formed.
pub open spec fn wf_components(cs: Seq<ComponentModel>) -> bool
    decreases cs,
    via wf_components_decreases
{
    if cs.len() == 0 {
        true
    } else {
        wf_component(cs[0]) && wf_components(cs.subrange(1, cs.len() as int))
    }
}

#[via_fn]
proof fn wf_component_decreases(c: ComponentModel) {
    assert(decreases_to!(c => c.components));
}

#[via_fn]
proof fn wf_components_decreases(cs: Seq<ComponentModel>) {
    if cs.len() > 0 {
        assert(decreases_to!(cs => cs[0]));
        assert(decreases_to!(cs => cs.subrange(1, cs.len() as int)));
    }
}

/// Case-insensitive equality is reflexive.
pub proof fn lemma_seq_eq_ci_refl(s: Seq<char>)
    ensures
        seq_eq_ci(s, s),
{
    assert forall|i: int| 0 <= i < s.len() implies char_eq_ci(s[i], s[i]) by {}
}

/// The well-known names and keywords are proper name tokens, and distinct.
proof fn lemma_known_names()
    ensures
        valid_name(begin_kw()),
        valid_name(end_kw()),
        valid_name(vcalendar_name()),
        valid_name(vevent_name()),
        valid_name(vtodo_name()),
        valid_name(vvenue_name()),
        vvenue_name() != vevent_name(),
        !seq_eq_ci(end_kw(), begin_kw()),
{
    assert forall|j: int| 0 <= j < begin_kw().len() implies spec_is_name_char(
        begin_kw()[j],
    ) by {
        if j == 0 {
        } else if j == 1 {
        } else if j == 2 {
        } else if j == 3 {
        } else {
            assert(j == 4);
        }
    }
    assert forall|j: int| 0 <= j < end_kw().len() implies spec_is_name_char(end_kw()[j]) by {
        if j == 0 {
        } else if j == 1 {
        } else {
            assert(j == 2);
        }
    }
    assert forall|j: int| 0 <= j < vcalendar_name().len() implies spec_is_name_char(
        vcalendar_name()[j],
    ) by {
        if j == 0 {
        } else if j == 1 {
        } else if j == 2 {
        } else if j == 3 {
        } else if j == 4 {
        } else if j == 5 {
        } else if j == 6 {
        } else if j == 7 {
        } else {
            assert(j == 8);
        }
    }
    assert forall|j: int| 0 <= j < vevent_name().len() implies spec_is_name_char(
        vevent_name()[j],
    ) by {
        if j == 0 {
        } else if j == 1 {
        } else if j == 2 {
        } else if j == 3 {
        } else if j == 4 {
        } else {
            assert(j == 5);
        }
    }
    assert forall|j: int| 0 <= j < vtodo_name().len() implies spec_is_name_char(
        vtodo_name()[j],
    ) by {
        if j == 0 {
        } else if j == 1 {
        } else if j == 2 {
        } else if j == 3 {
        } else {
            assert(j == 4);
        }
    }
    assert forall|j: int| 0 <= j < vvenue_name().len() implies spec_is_name_char(
        vvenue_name()[j],
    ) by {
        if j == 0 {
        } else if j == 1 {
        } else if j == 2 {
        } else if j == 3 {
        } else if j == 4 {
        } else {
            assert(j == 5);
        }
    }
    assert(vvenue_name()[1] == 'V');
    assert(vevent_name()[1] == 'E');
    assert(begin_kw().len() != end_kw().len());
}

/// A well-formed type's name is a proper token that maps back to the type.
pub proof fn lemma_kind_name(t: ComponentTypeModel)
    requires
        wf_kind(t),
    ensures
        valid_name(kind_name(t)),
        type_of_name(kind_name(t)) == t,
{
    lemma_known_names();
    match t {
        ComponentTypeModel::Calendar => {},
        ComponentTypeModel::Event => {
            assert(vevent_name().len() != vcalendar_name().len());
        },
        ComponentTypeModel::Todo => {
            assert(vtodo_name().len() != vcalendar_name().len());
            assert(vtodo_name().len() != vevent_name().len());
        },
        ComponentTypeModel::Venue => {
            assert(vvenue_name().len() != vcalendar_name().len());
            assert(vvenue_name().len() != vtodo_name().len());
        },
        ComponentTypeModel::Other(n) => {},
    }
}

/// Scanning a run of name characters bounded by a non-name character stops
/// exactly at the boundary.
pub proof fn lemma_name_end_run(l: Seq<char>, i: int, m: int)
    requires
        0 <= i <= m <= l.len(),
        forall|j: int| i <= j < m ==> spec_is_name_char(#[trigger] l[j]),
        m == l.len() || !spec_is_name_char(l[m]),
    ensures
        name_end(l, i) == m,
    decreases m - i,
{
    if i < m {
        lemma_name_end_run(l, i + 1, m);
    }
}

/// A `BEGIN:` line of a well-formed type reads back as its `Begin` token.
pub proof fn lemma_token_begin(t: ComponentTypeModel)
    requires
        wf_kind(t),
    ensures
        token_of_line(begin_line(t)) == Ok::<TokenModel, int>(TokenModel::Begin(t)),
{
    lemma_known_names();
    lemma_kind_name(t);
    lemma_seq_eq_ci_refl(begin_kw());
    let l = begin_line(t);
    let name = kind_name(t);
    assert forall|j: int| 0 <= j < 5 implies spec_is_name_char(#[trigger] l[j]) by {
        assert(l[j] == begin_kw()[j]);
    }
    assert(l[5] == ':');
    lemma_name_end_run(l, 0, 5);
    assert(l.take(5) =~= begin_kw());
    assert(params_from(l, 5) == Ok::<(Seq<ParameterModel>, int), int>((Seq::empty(), 5)));
    assert(l.skip(6) =~= name);
    assert(valid_name(l.skip(6)));
    assert(type_of_name(l.skip(6)) == t);
}

/// An `END:` line of a well-formed type reads back as its `End` token.
pub proof fn lemma_token_end(t: ComponentTypeModel)
    requires
        wf_kind(t),
    ensures
        token_of_line(end_line(t)) == Ok::<TokenModel, int>(TokenModel::End(t)),
{
    lemma_known_names();
    lemma_kind_name(t);
    lemma_seq_eq_ci_refl(end_kw());
    let l = end_line(t);
    let name = kind_name(t);
    assert forall|j: int| 0 <= j < 3 implies spec_is_name_char(#[trigger] l[j]) by {
        assert(l[j] == end_kw()[j]);
    }
    assert(l[3] == ':');
    lemma_name_end_run(l, 0, 3);
    assert(l.take(3) =~= end_kw());
    assert(params_from(l, 3) == Ok::<(Seq<ParameterModel>, int), int>((Seq::empty(), 3)));
    assert(l.skip(4) =~= name);
    assert(valid_name(l.skip(4)));
    assert(type_of_name(l.skip(4)) == t);
}

/// Matching an `END:` against the `BEGIN:` of the same type succeeds.
pub proof fn lemma_types_match_refl(t: ComponentTypeModel)
    ensures
        types_match(t, t),
{
    lemma_seq_eq_ci_refl(kind_name(t));
}

/// Scanning quoted content bounded by a quote stops exactly at the quote.
proof fn lemma_quoted_end_run(l: Seq<char>, i: int, m: int)
    requires
        0 <= i <= m < l.len(),
        forall|j: int| i <= j < m ==> #[trigger] l[j] != '"' && !spec_is_control(l[j]),
        l[m] == '"',
    ensures
        quoted_end(l, i) == m,
    decreases m - i,
{
    if i < m {
        lemma_quoted_end_run(l, i + 1, m);
    }
}

/// Scanning an unquoted value bounded by `:`, `;` or `,` stops exactly at
/// the boundary.
proof fn lemma_unquoted_end_run(l: Seq<char>, i: int, m: int)
    requires
        0 <= i <= m < l.len(),
        forall|j: int| i <= j < m ==> !(#[trigger] l[j] == ':' || l[j] == ';' || l[j] == ','),
        l[m] == ':' || l[m] == ';' || l[m] == ',',
    ensures
        unquoted_end(l, i) == m,
    decreases m - i,
{
    if i < m {
        lemma_unquoted_end_run(l, i + 1, m);
    }
}

/// A serialized parameter list followed by `:` reads back as exactly those
/// parameters, stopping at the `:`.
proof fn lemma_params_inverse(l: Seq<char>, i: int, ps: Seq<ParameterModel>)
    requires
        0 <= i,
        i + params_text(ps).len() < l.len(),
        l.subrange(i, i + params_text(ps).len() as int) == params_text(ps),
        l[i + params_text(ps).len() as int] == ':',
        forall|j: int| 0 <= j < ps.len() ==> wf_param(#[trigger] ps[j]),
    ensures
        params_from(l, i) == Ok::<(Seq<ParameterModel>, int), int>(
            (ps, i + params_text(ps).len() as int),
        ),
    decreases ps.len(),
{
    let ptlen = params_text(ps).len() as int;
    if ps.len() == 0 {
        assert(l[i] == ':');
        assert(params_from(l, i) == Ok::<(Seq<ParameterModel>, int), int>((Seq::empty(), i)));
        assert(Seq::<ParameterModel>::empty() =~= ps);
    } else {
        let p0 = ps[0];
        let rest = ps.skip(1);
        let pt0 = param_text(p0);
        assert(params_text(ps) == pt0 + params_text(rest));
        let region = l.subrange(i, i + ptlen);
        assert forall|j: int| 0 <= j < pt0.len() implies l[i + j] == pt0[j] by {
            assert(region[j] == (pt0 + params_text(rest))[j]);
        }
        let klen = p0.key.len() as int;
        let vlen = p0.val.len() as int;
        assert(l[i] == pt0[0]);
        assert(l[i] == ';');
        // the key: no space after `;`, then a name run ended by `=`
        assert forall|j: int| 0 <= j < klen implies l[i + 1 + j] == p0.key[j] by {
            assert(pt0[1 + j] == p0.key[j]);
        }
        assert(l[i + 1] == p0.key[0]);
        assert(space_end(l, i + 1) == i + 1);
        let ke = i + 1 + klen;
        assert(l[ke] == pt0[1 + klen]);
        assert(l[ke] == '=');
        assert forall|j: int| i + 1 <= j < ke implies spec_is_name_char(#[trigger] l[j]) by {
            assert(l[j] == p0.key[j - i - 1]);
        }
        lemma_name_end_run(l, i + 1, ke);
        assert(l.subrange(i + 1, ke) =~= p0.key);
        let pnext = i + pt0.len() as int;
        // what follows this parameter's text: the next `;`, or the final `:`
        assert(pnext <= i + ptlen);
        if rest.len() > 0 {
            assert(params_text(rest) == param_text(rest[0]) + params_text(rest.skip(1)));
            assert(params_text(rest)[0] == ';');
            assert(l[pnext] == region[pt0.len() as int]);
            assert(l[pnext] == ';');
        } else {
            assert(params_text(rest).len() == 0);
            assert(pnext == i + ptlen);
            assert(l[pnext] == ':');
        }
        if needs_quotes(p0.val) {
            // `="` value `"`
            assert forall|j: int| 0 <= j < vlen implies l[ke + 2 + j] == p0.val[j] by {
                assert(pt0[2 + klen + 1 + j] == p0.val[j]);
            }
            assert(l[ke + 1] == pt0[2 + klen]);
            assert(l[ke + 1] == '"');
            assert(l[ke + 2 + vlen] == pt0[2 + klen + 1 + vlen]);
            assert(l[ke + 2 + vlen] == '"');
            assert forall|j: int| ke + 2 <= j < ke + 2 + vlen implies #[trigger] l[j] != '"'
                && !spec_is_control(l[j]) by {
                assert(l[j] == p0.val[j - ke - 2]);
            }
            lemma_quoted_end_run(l, ke + 2, ke + 2 + vlen);
            assert(l.subrange(ke + 2, ke + 2 + vlen) =~= p0.val);
            let pm = ParameterModel { key: l.subrange(i + 1, ke), val: l.subrange(ke + 2, ke + 2 + vlen) };
            assert(pm =~~= p0);
            assert(param_at(l, i) == Ok::<(ParameterModel, int), int>((p0, ke + 2 + vlen + 1)));
            assert(ke + 2 + vlen + 1 == pnext);
        } else {
            // bare value
            assert forall|j: int| 0 <= j < vlen implies l[ke + 1 + j] == p0.val[j] by {
                assert(pt0[2 + klen + j] == p0.val[j]);
            }
            if vlen > 0 {
                assert(l[ke + 1] == p0.val[0]);
                assert(l[ke + 1] != '"');
            } else {
                assert(ke + 1 == pnext);
                assert(l[ke + 1] != '"');
            }
            assert(l[ke + 1 + vlen] == ':' || l[ke + 1 + vlen] == ';');
            assert forall|j: int| ke + 1 <= j < ke + 1 + vlen implies !(#[trigger] l[j] == ':'
                || l[j] == ';' || l[j] == ',') by {
                assert(l[j] == p0.val[j - ke - 1]);
            }
            lemma_unquoted_end_run(l, ke + 1, ke + 1 + vlen);
            assert(l.subrange(ke + 1, ke + 1 + vlen) =~= p0.val);
            let pm = ParameterModel { key: l.subrange(i + 1, ke), val: l.subrange(ke + 1, ke + 1 + vlen) };
            assert(pm =~~= p0);
            assert(param_at(l, i) == Ok::<(ParameterModel, int), int>((p0, ke + 1 + vlen)));
            assert(ke + 1 + vlen == pnext);
        }
        // the rest of the list, by induction
        assert(l.subrange(pnext, pnext + params_text(rest).len() as int) =~= params_text(rest)) by {
            assert forall|j: int| 0 <= j < params_text(rest).len() implies l[pnext + j]
                == params_text(rest)[j] by {
                assert(region[pt0.len() + j] == (pt0 + params_text(rest))[pt0.len() + j]);
            }
        }
        assert(l[pnext + params_text(rest).len() as int] == ':');
        assert forall|j: int| 0 <= j < rest.len() implies wf_param(#[trigger] rest[j]) by {
            assert(rest[j] == ps[j + 1]);
        }
        lemma_params_inverse(l, pnext, rest);
        assert(seq![p0] + rest =~= ps);
        assert(pnext + params_text(rest).len() as int == i + ptlen);
    }
}

/// A logical line the folder and unfolder round-trip: no raw line break
/// inside, and no leading continuation marker.
pub open spec fn wf_line(l: Seq<char>) -> bool {
    (forall|j: int| 0 <= j < l.len() ==> l[j] != '\n' && l[j] != '\r') && (l.len() > 0
        ==> !is_marker(l[0]))
}

pub open spec fn wf_lines(lines: Seq<Seq<char>>) -> bool {
    forall|i: int| 0 <= i < lines.len() ==> wf_line(#[trigger] lines[i])
}

proof fn lemma_wf_lines_concat(a: Seq<Seq<char>>, b: Seq<Seq<char>>)
    requires
        wf_lines(a),
        wf_lines(b),
    ensures
        wf_lines(a + b),
{
    assert forall|i: int| 0 <= i < (a + b).len() implies wf_line(#[trigger] (a + b)[i]) by {
        if i < a.len() {
            assert((a + b)[i] == a[i]);
        } else {
            assert((a + b)[i] == b[i - a.len()]);
        }
    }
}

/// The escaped form of a value without bare `\r` holds no line break.
proof fn lemma_escape_text_wf(v: Seq<char>)
    requires
        forall|j: int| 0 <= j < v.len() ==> v[j] != '\r',
    ensures
        forall|j: int|
            0 <= j < escape_text(v).len() ==> escape_text(v)[j] != '\n' && escape_text(v)[j]
                != '\r',
    decreases v.len(),
{
    if v.len() > 0 {
        assert forall|j: int| 0 <= j < v.skip(1).len() implies v.skip(1)[j] != '\r' by {
            assert(v.skip(1)[j] == v[j + 1]);
        }
        lemma_escape_text_wf(v.skip(1));
        let ec = escape_char(v[0]);
        assert forall|j: int|
            0 <= j < escape_text(v).len() implies escape_text(v)[j] != '\n' && escape_text(v)[j]
            != '\r' by {
            assert(escape_text(v) == ec + escape_text(v.skip(1)));
            if j < ec.len() {
                assert(escape_text(v)[j] == ec[j]);
            } else {
                assert(escape_text(v)[j] == escape_text(v.skip(1))[j - ec.len()]);
            }
        }
    }
}

/// A name character is never a line break or a continuation marker.
proof fn lemma_name_char_plain(c: char)
    requires
        spec_is_name_char(c),
    ensures
        c != '\n' && c != '\r' && !is_marker(c),
{
}

/// One serialized parameter holds no line break.
proof fn lemma_param_text_wf(p: ParameterModel)
    requires
        wf_param(p),
    ensures
        forall|j: int|
            0 <= j < param_text(p).len() ==> param_text(p)[j] != '\n' && param_text(p)[j] != '\r',
{
    let pt = param_text(p);
    let klen = p.key.len() as int;
    assert forall|j: int| 0 <= j < pt.len() implies pt[j] != '\n' && pt[j] != '\r' by {
        if j == 0 {
            assert(pt[0] == ';');
        } else if j < 1 + klen {
            assert(pt[j] == p.key[j - 1]);
            lemma_name_char_plain(p.key[j - 1]);
        } else if j == 1 + klen {
            assert(pt[j] == '=');
        } else {
            if needs_quotes(p.val) {
                let vlen = p.val.len() as int;
                if j == 2 + klen {
                    assert(pt[j] == '"');
                } else if j < 3 + klen + vlen {
                    assert(pt[j] == p.val[j - 3 - klen]);
                } else {
                    assert(pt[j] == '"');
                }
            } else {
                assert(pt[j] == p.val[j - 2 - klen]);
            }
        }
    }
}

/// A serialized parameter list holds no line break.
proof fn lemma_params_text_wf(ps: Seq<ParameterModel>)
    requires
        forall|j: int| 0 <= j < ps.len() ==> wf_param(#[trigger] ps[j]),
    ensures
        forall|j: int|
            0 <= j < params_text(ps).len() ==> params_text(ps)[j] != '\n' && params_text(ps)[j]
                != '\r',
    decreases ps.len(),
{
    if ps.len() > 0 {
        assert forall|j: int| 0 <= j < ps.skip(1).len() implies wf_param(
            #[trigger] ps.skip(1)[j],
        ) by {
            assert(ps.skip(1)[j] == ps[j + 1]);
        }
        lemma_params_text_wf(ps.skip(1));
        lemma_param_text_wf(ps[0]);
        let pt0 = param_text(ps[0]);
        assert forall|j: int|
            0 <= j < params_text(ps).len() implies params_text(ps)[j] != '\n' && params_text(
            ps,
        )[j] != '\r' by {
            assert(params_text(ps) == pt0 + params_text(ps.skip(1)));
            if j < pt0.len() {
                assert(params_text(ps)[j] == pt0[j]);
            } else {
                assert(params_text(ps)[j] == params_text(ps.skip(1))[j - pt0.len()]);
            }
        }
    }
}

/// A serialized property line is fit for folding.
proof fn lemma_prop_line_wf(p: PropertyModel)
    requires
        wf_property(p),
    ensures
        wf_line(prop_line(p)),
        prop_line(p).len() > 0,
{
    let l = prop_line(p);
    let klen = p.key.len() as int;
    let ptlen = params_text(p.params).len() as int;
    lemma_params_text_wf(p.params);
    lemma_escape_text_wf(p.val);
    assert forall|j: int| 0 <= j < l.len() implies l[j] != '\n' && l[j] != '\r' by {
        if j < klen {
            assert(l[j] == p.key[j]);
            lemma_name_char_plain(p.key[j]);
        } else if j < klen + ptlen {
            assert(l[j] == params_text(p.params)[j - klen]);
        } else if j == klen + ptlen {
            assert(l[j] == ':');
        } else {
            assert(l[j] == escape_text(p.val)[j - klen - ptlen - 1]);
        }
    }
    assert(l[0] == p.key[0]);
    lemma_name_char_plain(p.key[0]);
}

/// A `BEGIN:`/`END:` line is fit for folding.
proof fn lemma_marker_lines_wf(t: ComponentTypeModel)
    requires
        wf_kind(t),
    ensures
        wf_line(begin_line(t)),
        wf_line(end_line(t)),
        begin_line(t).len() > 0,
        end_line(t).len() > 0,
{
    lemma_known_names();
    lemma_kind_name(t);
    let name = kind_name(t);
    let b = begin_line(t);
    assert forall|j: int| 0 <= j < b.len() implies b[j] != '\n' && b[j] != '\r' by {
        if j < 5 {
            assert(b[j] == begin_kw()[j]);
            lemma_name_char_plain(begin_kw()[j]);
        } else if j == 5 {
            assert(b[j] == ':');
        } else {
            assert(b[j] == name[j - 6]);
            lemma_name_char_plain(name[j - 6]);
        }
    }
    assert(b[0] == begin_kw()[0]);
    lemma_name_char_plain(begin_kw()[0]);
    let e = end_line(t);
    assert forall|j: int| 0 <= j < e.len() implies e[j] != '\n' && e[j] != '\r' by {
        if j < 3 {
            assert(e[j] == end_kw()[j]);
            lemma_name_char_plain(end_kw()[j]);
        } else if j == 3 {
            assert(e[j] == ':');
        } else {
            assert(e[j] == name[j - 4]);
            lemma_name_char_plain(name[j - 4]);
        }
    }
    assert(e[0] == end_kw()[0]);
    lemma_name_char_plain(end_kw()[0]);
}

/// Property lines, one property each, element by element.
proof fn lemma_prop_lines_map(ps: Seq<PropertyModel>)
    ensures
        prop_lines(ps).len() == ps.len(),
        forall|j: int| 0 <= j < ps.len() ==> prop_lines(ps)[j] == prop_line(#[trigger] ps[j]),
    decreases ps.len(),
{
    if ps.len() > 0 {
        lemma_prop_lines_map(ps.skip(1));
        assert forall|j: int| 0 <= j < ps.len() implies prop_lines(ps)[j] == prop_line(
            #[trigger] ps[j],
        ) by {
            assert(prop_lines(ps) == seq![prop_line(ps[0])] + prop_lines(ps.skip(1)));
            if j > 0 {
                assert(prop_lines(ps)[j] == prop_lines(ps.skip(1))[j - 1]);
                assert(ps.skip(1)[j - 1] == ps[j]);
            }
        }
    }
}

/// Every line a well-formed component serializes to is fit for folding.
pub proof fn lemma_component_lines_wf(c: ComponentModel)
    requires
        wf_component(c),
    ensures
        wf_lines(component_lines(c)),
    decreases c,
{
    lemma_marker_lines_wf(c.kind);
    lemma_prop_lines_map(c.properties);
    assert(wf_lines(seq![begin_line(c.kind)])) by {
        assert(seq![begin_line(c.kind)][0] == begin_line(c.kind));
    }
    assert(wf_lines(seq![end_line(c.kind)])) by {
        assert(seq![end_line(c.kind)][0] == end_line(c.kind));
    }
    assert(wf_lines(prop_lines(c.properties))) by {
        assert forall|i: int| 0 <= i < prop_lines(c.properties).len() implies wf_line(
            #[trigger] prop_lines(c.properties)[i],
        ) by {
            lemma_prop_line_wf(c.properties[i]);
        }
    }
    assert(decreases_to!(c => c.components));
    lemma_components_lines_wf(c.components);
    lemma_wf_lines_concat(seq![begin_line(c.kind)], prop_lines(c.properties));
    lemma_wf_lines_concat(
        seq![begin_line(c.kind)] + prop_lines(c.properties),
        components_lines(c.components),
    );
    lemma_wf_lines_concat(
        seq![begin_line(c.kind)] + prop_lines(c.properties) + components_lines(c.components),
        seq![end_line(c.kind)],
    );
}

/// Every line a well-formed component sequence serializes to is fit for
/// folding.
pub proof fn lemma_components_lines_wf(cs: Seq<ComponentModel>)
    requires
        wf_components(cs),
    ensures
        wf_lines(components_lines(cs)),
    decreases cs,
{
    if cs.len() > 0 {
        assert(decreases_to!(cs => cs[0]));
        assert(decreases_to!(cs => cs.subrange(1, cs.len() as int)));
        lemma_component_lines_wf(cs[0]);
        lemma_components_lines_wf(cs.subrange(1, cs.len() as int));
        lemma_wf_lines_concat(
            component_lines(cs[0]),
            components_lines(cs.subrange(1, cs.len() as int)),
        );
    }
}

/// A folded line keeps its first character in front.
proof fn lemma_fold_line_first(l: Seq<char>)
    requires
        l.len() > 0,
    ensures
        fold_line(l).len() > 0,
        fold_line(l)[0] == l[0],
{
    crate::fold::lemma_take_budget_bounds(l, 75);
    let k = take_budget(l, 75);
    if k < l.len() {
        assert(fold_line(l)[0] == (l.take(k) + seq!['\r', '\n', ' '] + fold_line(l.skip(k)))[0]);
        assert(l.take(k)[0] == l[0]);
    }
}

/// The serialized text of well-formed lines unfolds back to exactly those
/// lines.
pub proof fn lemma_unfold_lines_text(s: Seq<char>, i: int, lines: Seq<Seq<char>>)
    requires
        0 <= i <= s.len(),
        s.len() == i + lines_text(lines).len(),
        s.subrange(i, s.len() as int) == lines_text(lines),
        wf_lines(lines),
    ensures
        unfold_lines_at(s, i) == lines,
    decreases lines.len(),
{
    if lines.len() == 0 {
        assert(unfold_lines_at(s, i) =~= lines);
    } else {
        let l0 = lines[0];
        let f = fold_line(l0);
        let flen = f.len() as int;
        let rest = lines.skip(1);
        assert(lines_text(lines) == f + crlf() + lines_text(rest));
        let region = s.subrange(i, s.len() as int);
        assert forall|j: int| 0 <= j < lines_text(lines).len() implies s[i + j] == lines_text(
            lines,
        )[j] by {
            assert(region[j] == lines_text(lines)[j]);
        }
        let nxt = i + flen + 2;
        assert(wf_line(l0));
        assert(s.subrange(i, nxt) =~= f + crlf()) by {
            assert forall|j: int| 0 <= j < flen + 2 implies s[i + j] == (f + crlf())[j] by {
                assert(lines_text(lines)[j] == ((f + crlf()) + lines_text(rest))[j]);
            }
        }
        if nxt < s.len() {
            // what follows is the next folded line (or a bare terminator);
            // neither begins with a continuation marker
            assert(lines_text(rest).len() > 0);
            assert(rest.len() > 0);
            let l1 = rest[0];
            assert(lines_text(rest) == fold_line(l1) + crlf() + lines_text(rest.skip(1)));
            assert(s[nxt] == lines_text(lines)[flen + 2]);
            assert(lines_text(lines)[flen + 2] == lines_text(rest)[0]);
            assert(wf_line(l1)) by {
                assert(rest[0] == lines[1]);
            }
            if l1.len() > 0 {
                lemma_fold_line_first(l1);
                assert(lines_text(rest)[0] == fold_line(l1)[0]);
                assert(!is_marker(s[nxt]));
            } else {
                assert(fold_line(l1).len() == 0);
                assert(lines_text(rest)[0] == crlf()[0]);
                assert(!is_marker(s[nxt]));
            }
        }
        lemma_unfold_folded_line(s, i, l0);
        assert(logical_line_at(s, i) == (l0, nxt));
        assert(i < s.len());
        assert(s.subrange(nxt, s.len() as int) =~= lines_text(rest)) by {
            assert forall|j: int| 0 <= j < lines_text(rest).len() implies s[nxt + j] == lines_text(
                rest,
            )[j] by {
                assert(lines_text(lines)[flen + 2 + j] == ((f + crlf()) + lines_text(rest))[flen + 2
                    + j]);
            }
        }
        assert forall|j: int| 0 <= j < rest.len() implies wf_line(#[trigger] rest[j]) by {
            assert(rest[j] == lines[j + 1]);
        }
        lemma_unfold_lines_text(s, nxt, rest);
        assert(unfold_lines_at(s, i) == seq![l0] + unfold_lines_at(s, nxt));
        assert(seq![l0] + rest =~= lines);
    }
}

/// A serialized property line reads back as exactly that property.
pub proof fn lemma_token_property(p: PropertyModel)
    requires
        wf_property(p),
    ensures
        token_of_line(prop_line(p)) == Ok::<TokenModel, int>(TokenModel::Property(p)),
{
    lemma_known_names();
    let l = prop_line(p);
    let klen = p.key.len() as int;
    let ptlen = params_text(p.params).len() as int;
    let sep = klen + ptlen;
    assert forall|j: int| 0 <= j < klen implies l[j] == p.key[j] by {}
    assert forall|j: int| 0 <= j < ptlen implies l[klen + j] == params_text(p.params)[j] by {}
    assert(l[sep] == ':');
    assert forall|j: int| 0 <= j < escape_text(p.val).len() implies l[sep + 1 + j] == escape_text(
        p.val,
    )[j] by {}
    // the name is the key
    assert forall|j: int| 0 <= j < klen implies spec_is_name_char(#[trigger] l[j]) by {
        assert(l[j] == p.key[j]);
    }
    if p.params.len() > 0 {
        assert(params_text(p.params) == param_text(p.params[0]) + params_text(p.params.skip(1)));
        assert(l[klen] == ';');
    } else {
        assert(l[klen] == ':');
    }
    lemma_name_end_run(l, 0, klen);
    assert(l.take(klen) =~= p.key);
    // the parameters are read back
    assert(l.subrange(klen, klen + ptlen) =~= params_text(p.params)) by {
        assert forall|j: int| 0 <= j < ptlen implies l.subrange(klen, klen + ptlen)[j]
            == params_text(p.params)[j] by {}
    }
    lemma_params_inverse(l, klen, p.params);
    // the value is unescaped back
    assert(l.skip(sep + 1) =~= escape_text(p.val));
    lemma_unescape_escape(p.val);
    let got = PropertyModel { key: l.take(klen), val: unescape_text(l.skip(sep + 1)), params: p.params };
    assert(got =~~= p);
}

/// `c` with a batch of properties appended.
pub open spec fn add_properties(c: ComponentModel, ps: Seq<PropertyModel>) -> ComponentModel {
    ComponentModel { kind: c.kind, properties: c.properties + ps, components: c.components }
}

/// `c` with a batch of completed children appended.
pub open spec fn add_children(c: ComponentModel, cs: Seq<ComponentModel>) -> ComponentModel {
    ComponentModel { kind: c.kind, properties: c.properties, components: c.components + cs }
}

/// Where a completed component goes: under the innermost open component, or
/// to the roots when none is open.
pub open spec fn after_close(
    stack: Seq<ComponentModel>,
    roots: Seq<ComponentModel>,
    c: ComponentModel,
) -> (Seq<ComponentModel>, Seq<ComponentModel>) {
    if stack.len() == 0 {
        (stack, roots.push(c))
    } else {
        (stack.drop_last().push(with_child(stack.last(), c)), roots)
    }
}

/// [`after_close`], folded over a sequence of completed components.
pub open spec fn close_seq(
    stack: Seq<ComponentModel>,
    roots: Seq<ComponentModel>,
    cs: Seq<ComponentModel>,
) -> (Seq<ComponentModel>, Seq<ComponentModel>)
    decreases cs,
    via close_seq_decreases
{
    if cs.len() == 0 {
        (stack, roots)
    } else {
        let n = after_close(stack, roots, cs[0]);
        close_seq(n.0, n.1, cs.subrange(1, cs.len() as int))
    }
}

#[via_fn]
proof fn close_seq_decreases(
    stack: Seq<ComponentModel>,
    roots: Seq<ComponentModel>,
    cs: Seq<ComponentModel>,
) {
    if cs.len() > 0 {
        assert(decreases_to!(cs => cs.subrange(1, cs.len() as int)));
    }
}

/// With a component open, closing a batch puts them all under it, in order.
proof fn lemma_close_seq_nonempty(
    stack: Seq<ComponentModel>,
    roots: Seq<ComponentModel>,
    cs: Seq<ComponentModel>,
)
    requires
        stack.len() > 0,
    ensures
        close_seq(stack, roots, cs) == (
            stack.drop_last().push(add_children(stack.last(), cs)),
            roots,
        ),
    decreases cs,
{
    if cs.len() == 0 {
        assert(add_children(stack.last(), cs) =~~= stack.last());
        assert(stack.drop_last().push(stack.last()) =~= stack);
    } else {
        assert(decreases_to!(cs => cs.subrange(1, cs.len() as int)));
        let stack1 = stack.drop_last().push(with_child(stack.last(), cs[0]));
        lemma_close_seq_nonempty(stack1, roots, cs.subrange(1, cs.len() as int));
        assert(stack1.drop_last() =~= stack.drop_last());
        assert(stack1.last() == with_child(stack.last(), cs[0]));
        assert(add_children(with_child(stack.last(), cs[0]), cs.subrange(1, cs.len() as int))
            =~~= add_children(stack.last(), cs)) by {
            assert(stack.last().components.push(cs[0]) + cs.subrange(1, cs.len() as int)
                =~= stack.last().components + cs);
        }
    }
}

/// With nothing open, closing a batch appends them all to the roots.
proof fn lemma_close_seq_empty(roots: Seq<ComponentModel>, cs: Seq<ComponentModel>)
    ensures
        close_seq(Seq::empty(), roots, cs) == (Seq::<ComponentModel>::empty(), roots + cs),
    decreases cs,
{
    if cs.len() == 0 {
        assert(roots + cs =~= roots);
    } else {
        assert(decreases_to!(cs => cs.subrange(1, cs.len() as int)));
        lemma_close_seq_empty(roots.push(cs[0]), cs.subrange(1, cs.len() as int));
        assert(roots.push(cs[0]) + cs.subrange(1, cs.len() as int) =~= roots + cs);
    }
}

/// A run of property lines attaches exactly those properties to the
/// innermost open component.
proof fn lemma_parse_props(
    lines: Seq<Seq<char>>,
    i: int,
    ps: Seq<PropertyModel>,
    stack: Seq<ComponentModel>,
    roots: Seq<ComponentModel>,
)
    requires
        0 <= i,
        i + ps.len() <= lines.len(),
        forall|j: int| 0 <= j < ps.len() ==> lines[i + j] == prop_line(#[trigger] ps[j]),
        forall|j: int| 0 <= j < ps.len() ==> wf_property(#[trigger] ps[j]),
        stack.len() > 0,
    ensures
        parse_lines(lines, i, stack, roots) == parse_lines(
            lines,
            i + ps.len(),
            stack.drop_last().push(add_properties(stack.last(), ps)),
            roots,
        ),
    decreases ps.len(),
{
    if ps.len() == 0 {
        assert(add_properties(stack.last(), ps) =~~= stack.last());
        assert(stack.drop_last().push(stack.last()) =~= stack);
    } else {
        lemma_prop_line_wf(ps[0]);
        lemma_token_property(ps[0]);
        assert(lines[i] == prop_line(ps[0]));
        let stack1 = stack.drop_last().push(with_property(stack.last(), ps[0]));
        assert(parse_lines(lines, i, stack, roots) == parse_lines(lines, i + 1, stack1, roots));
        let rest = ps.skip(1);
        assert forall|j: int| 0 <= j < rest.len() implies lines[i + 1 + j] == prop_line(
            #[trigger] rest[j],
        ) && wf_property(rest[j]) by {
            assert(rest[j] == ps[j + 1]);
        }
        lemma_parse_props(lines, i + 1, rest, stack1, roots);
        assert(stack1.drop_last() =~= stack.drop_last());
        assert(stack1.last() == with_property(stack.last(), ps[0]));
        assert(add_properties(with_property(stack.last(), ps[0]), rest) =~~= add_properties(
            stack.last(),
            ps,
        )) by {
            assert(stack.last().properties.push(ps[0]) + rest =~= stack.last().properties + ps);
        }
    }
}

/// A serialized component block assembles back to exactly that component,
/// whatever surrounds it.
pub proof fn lemma_parse_component_block(
    lines: Seq<Seq<char>>,
    i: int,
    c: ComponentModel,
    stack: Seq<ComponentModel>,
    roots: Seq<ComponentModel>,
)
    requires
        wf_component(c),
        0 <= i,
        i + component_lines(c).len() <= lines.len(),
        forall|j: int|
            0 <= j < component_lines(c).len() ==> lines[i + j] == component_lines(c)[j],
    ensures
        parse_lines(lines, i, stack, roots) == parse_lines(
            lines,
            i + component_lines(c).len(),
            after_close(stack, roots, c).0,
            after_close(stack, roots, c).1,
        ),
    decreases c,
{
    let bl = begin_line(c.kind);
    let el = end_line(c.kind);
    let pl = prop_lines(c.properties);
    let chl = components_lines(c.components);
    let cl = component_lines(c);
    assert(cl == seq![bl] + pl + chl + seq![el]);
    let plen = pl.len() as int;
    let chlen = chl.len() as int;
    lemma_prop_lines_map(c.properties);
    lemma_marker_lines_wf(c.kind);
    lemma_token_begin(c.kind);
    lemma_token_end(c.kind);
    lemma_types_match_refl(c.kind);
    // the BEGIN line opens a fresh component
    assert(cl[0] == bl);
    assert(lines[i] == bl);
    let stack1 = stack.push(empty_component(c.kind));
    assert(parse_lines(lines, i, stack, roots) == parse_lines(lines, i + 1, stack1, roots));
    // the property lines fill it
    assert forall|j: int| 0 <= j < c.properties.len() implies lines[i + 1 + j] == prop_line(
        #[trigger] c.properties[j],
    ) && wf_property(c.properties[j]) by {
        assert(cl[1 + j] == pl[j]);
    }
    lemma_parse_props(lines, i + 1, c.properties, stack1, roots);
    let cp = add_properties(empty_component(c.kind), c.properties);
    let stack2 = stack1.drop_last().push(cp);
    assert(stack1.drop_last() =~= stack);
    // the children assemble under it
    assert forall|j: int| 0 <= j < chlen implies lines[i + 1 + plen + j] == chl[j] by {
        assert(cl[1 + plen + j] == chl[j]);
    }
    assert(decreases_to!(c => c.components));
    lemma_parse_components_block(lines, i + 1 + plen, c.components, stack2, roots);
    lemma_close_seq_nonempty(stack2, roots, c.components);
    assert(stack2.drop_last() =~= stack);
    assert(stack2.last() == cp);
    let cc = add_children(cp, c.components);
    assert(cc =~~= c) by {
        assert(Seq::<PropertyModel>::empty() + c.properties =~= c.properties);
        assert(Seq::<ComponentModel>::empty() + c.components =~= c.components);
    }
    let stack3 = stack.push(c);
    assert(close_seq(stack2, roots, c.components).0 =~= stack3);
    // the END line completes it
    let i2 = i + 1 + plen + chlen;
    assert(cl[1 + plen + chlen] == el);
    assert(lines[i2] == el);
    assert(stack3.last() == c);
    if stack.len() == 0 {
        assert(stack3.len() == 1);
        assert(parse_lines(lines, i2, stack3, roots) == parse_lines(
            lines,
            i2 + 1,
            stack3.drop_last(),
            roots.push(c),
        ));
        assert(stack3.drop_last() =~= stack);
    } else {
        assert(stack3.len() > 1);
        assert(stack3.drop_last() =~= stack);
        assert(parse_lines(lines, i2, stack3, roots) == parse_lines(
            lines,
            i2 + 1,
            stack3.drop_last().drop_last().push(with_child(stack3.drop_last().last(), c)),
            roots,
        ));
        assert(stack3.drop_last().drop_last().push(with_child(stack3.drop_last().last(), c))
            =~= stack.drop_last().push(with_child(stack.last(), c)));
    }
    assert(i2 + 1 == i + cl.len());
}

/// A serialized run of component blocks assembles back to exactly those
/// components, in order.
pub proof fn lemma_parse_components_block(
    lines: Seq<Seq<char>>,
    i: int,
    cs: Seq<ComponentModel>,
    stack: Seq<ComponentModel>,
    roots: Seq<ComponentModel>,
)
    requires
        wf_components(cs),
        0 <= i,
        i + components_lines(cs).len() <= lines.len(),
        forall|j: int|
            0 <= j < components_lines(cs).len() ==> lines[i + j] == components_lines(cs)[j],
    ensures
        parse_lines(lines, i, stack, roots) == parse_lines(
            lines,
            i + components_lines(cs).len(),
            close_seq(stack, roots, cs).0,
            close_seq(stack, roots, cs).1,
        ),
    decreases cs,
{
    if cs.len() > 0 {
        let rest = cs.subrange(1, cs.len() as int);
        let cl0 = component_lines(cs[0]);
        let chl = components_lines(cs);
        assert(chl == cl0 + components_lines(rest));
        assert forall|j: int| 0 <= j < cl0.len() implies lines[i + j] == cl0[j] by {
            assert(chl[j] == cl0[j]);
        }
        assert(decreases_to!(cs => cs[0]));
        lemma_parse_component_block(lines, i, cs[0], stack, roots);
        let n = after_close(stack, roots, cs[0]);
        let i1 = i + cl0.len() as int;
        assert forall|j: int| 0 <= j < components_lines(rest).len() implies lines[i1 + j]
            == components_lines(rest)[j] by {
            assert(chl[cl0.len() + j] == components_lines(rest)[j]);
        }
        assert(decreases_to!(cs => rest));
        lemma_parse_components_block(lines, i1, rest, n.0, n.1);
    }
}

/// Round trip: a well-formed component tree, serialized and parsed back,
/// yields exactly the same tree. Structural equality covers the type, the
/// properties in order with their parameters in order, and the children in
/// order, recursively.
pub proof fn lemma_parse_serialize(cs: Seq<ComponentModel>)
    requires
        wf_components(cs),
    ensures
        parse_spec(serialize_spec(cs)) == Ok::<Seq<ComponentModel>, ParseErrorModel>(cs),
{
    let lines = components_lines(cs);
    let text = lines_text(lines);
    lemma_components_lines_wf(cs);
    assert(text.subrange(0, text.len() as int) =~= text);
    lemma_unfold_lines_text(text, 0, lines);
    assert(unfold_lines(text) == lines);
    lemma_parse_components_block(lines, 0, cs, Seq::empty(), Seq::empty());
    lemma_close_seq_empty(Seq::empty(), cs);
    assert(Seq::<ComponentModel>::empty() + cs =~= cs);
    assert(parse_lines(lines, lines.len() as int, Seq::empty(), cs) == Ok::<
        Seq<ComponentModel>,
        ParseErrorModel,
    >(cs));
}

} // verus!
