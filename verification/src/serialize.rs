//! The serializer: from a component tree back to text.
//!
//! A depth-first pre-order walk emits `BEGIN:<name>`, one logical line per
//! property (parameter values are quoted when they hold `:`, `;` or `,`;
//! property values are escaped), the children, and `END:<name>`. Every
//! logical line is folded to the 75-octet limit and terminated with `\r\n`.

use crate::escape::{escape_chars, escape_text};
use crate::fold::{crlf, fold_line, fold_line_onto};
use crate::model::{
    comp_model, comps_model, lemma_comps_model_is_map, Component, ComponentModel,
    ComponentTypeModel, Parameter, ParameterModel, Property, PropertyModel,
};
use crate::text::{chars_to_string, str_to_chars};
use crate::token::{begin_kw, end_kw, kind_name, type_chars};
use vstd::prelude::*;

verus! {

/// Whether a parameter value must be written in quotes.
pub open spec fn needs_quotes(v: Seq<char>) -> bool {
    exists|i: int| 0 <= i < v.len() && (v[i] == ':' || v[i] == ';' || v[i] == ',')
}

/// The wire form of one parameter: `;KEY=VALUE`, the value quoted if needed.
pub open spec fn param_text(p: ParameterModel) -> Seq<char> {
    seq![';'] + p.key + seq!['='] + (if needs_quotes(p.val) {
        seq!['"'] + p.val + seq!['"']
    } else {
        p.val
    })
}

/// The wire form of a parameter list.
pub open spec fn params_text(ps: Seq<ParameterModel>) -> Seq<char>
    decreases ps.len(),
{
    if ps.len() == 0 {
        Seq::empty()
    } else {
        param_text(ps[0]) + params_text(ps.skip(1))
    }
}

/// The logical line one property serializes to.
pub open spec fn prop_line(p: PropertyModel) -> Seq<char> {
    p.key + params_text(p.params) + seq![':'] + escape_text(p.val)
}

/// The logical line that opens a component.
pub open spec fn begin_line(t: ComponentTypeModel) -> Seq<char> {
    begin_kw() + seq![':'] + kind_name(t)
}

/// The logical line that closes a component.
pub open spec fn end_line(t: ComponentTypeModel) -> Seq<char> {
    end_kw() + seq![':'] + kind_name(t)
}

/// The logical lines of a property list, one each.
pub open spec fn prop_lines(ps: Seq<PropertyModel>) -> Seq<Seq<char>>
    decreases ps.len(),
{
    if ps.len() == 0 {
        Seq::empty()
    } else {
        seq![prop_line(ps[0])] + prop_lines(ps.skip(1))
    }
}

/// The logical lines of one component: `BEGIN`, its properties, its
/// children, `END`.
pub open spec fn component_lines(c: ComponentModel) -> Seq<Seq<char>>
    decreases c,
    via component_lines_decreases
{
    seq![begin_line(c.kind)] + prop_lines(c.properties) + components_lines(c.components) + seq![
        end_line(c.kind),
    ]
}

/// The logical lines of a component sequence, in order.
pub open spec fn components_lines(cs: Seq<ComponentModel>) -> Seq<Seq<char>>
    decreases cs,
    via components_lines_decreases
{
    if cs.len() == 0 {
        Seq::empty()
    } else {
        component_lines(cs[0]) + components_lines(cs.subrange(1, cs.len() as int))
    }
}

#[via_fn]
proof fn component_lines_decreases(c: ComponentModel) {
    assert(decreases_to!(c => c.components));
}

#[via_fn]
proof fn components_lines_decreases(cs: Seq<ComponentModel>) {
    if cs.len() > 0 {
        assert(decreases_to!(cs => cs[0]));
        assert(decreases_to!(cs => cs.subrange(1, cs.len() as int)));
    }
}

/// The physical text of a sequence of logical lines: each folded and
/// terminated with `\r\n`.
pub open spec fn lines_text(lines: Seq<Seq<char>>) -> Seq<char>
    decreases lines.len(),
{
    if lines.len() == 0 {
        Seq::empty()
    } else {
        fold_line(lines[0]) + crlf() + lines_text(lines.skip(1))
    }
}

/// The serialized text of a sequence of root components.
pub open spec fn serialize_spec(cs: Seq<ComponentModel>) -> Seq<char> {
    lines_text(components_lines(cs))
}

/// Emitting one batch of lines after another emits the concatenation.
pub proof fn lemma_lines_text_concat(a: Seq<Seq<char>>, b: Seq<Seq<char>>)
    ensures
        lines_text(a + b) == lines_text(a) + lines_text(b),
    decreases a.len(),
{
    if a.len() == 0 {
        assert(a + b =~= b);
        assert(lines_text(a) + lines_text(b) =~= lines_text(b));
    } else {
        assert((a + b).skip(1) =~= a.skip(1) + b);
        lemma_lines_text_concat(a.skip(1), b);
        assert((a + b)[0] == a[0]);
        assert((fold_line(a[0]) + crlf()) + (lines_text(a.skip(1)) + lines_text(b)) =~= (fold_line(
            a[0],
        ) + crlf() + lines_text(a.skip(1))) + lines_text(b));
    }
}

/// Append the characters of `v` to `out`.
pub(crate) fn append_chars(out: &mut Vec<char>, v: &Vec<char>)
    ensures
        final(out)@ == old(out)@ + v@,
{
    let mut i: usize = 0;
    proof {
        assert(out@ =~= old(out)@ + v@.take(0));
    }
    while i < v.len()
        invariant
            i <= v.len(),
            out@ == old(out)@ + v@.take(i as int),
        decreases v.len() - i,
    {
        let c = v[i];
        out.push(c);
        proof {
            assert(old(out)@ + v@.take(i + 1 as int) =~= (old(out)@ + v@.take(i as int)).push(
                v@[i as int],
            ));
        }
        i += 1;
    }
    proof {
        assert(v@.take(v@.len() as int) =~= v@);
    }
}

/// Whether a parameter value must be written in quotes.
fn value_needs_quotes(v: &Vec<char>) -> (r: bool)
    ensures
        r == needs_quotes(v@),
{
    let mut i: usize = 0;
    while i < v.len()
        invariant
            i <= v.len(),
            forall|j: int| 0 <= j < i ==> !(v@[j] == ':' || v@[j] == ';' || v@[j] == ','),
        decreases v.len() - i,
    {
        if v[i] == ':' || v[i] == ';' || v[i] == ',' {
            return true;
        }
        i += 1;
    }
    false
}

/// Append the wire form of one parameter to `out`.
fn param_onto(p: &Parameter, out: &mut Vec<char>)
    ensures
        final(out)@ == old(out)@ + param_text(p@),
{
    out.push(';');
    let key = str_to_chars(p.key.as_str());
    append_chars(out, &key);
    out.push('=');
    let val = str_to_chars(p.val.as_str());
    if value_needs_quotes(&val) {
        out.push('"');
        append_chars(out, &val);
        out.push('"');
        proof {
            assert(out@ =~= old(out)@ + param_text(p@));
        }
    } else {
        append_chars(out, &val);
        proof {
            assert(out@ =~= old(out)@ + param_text(p@));
        }
    }
}

/// The logical line one property serializes to.
pub fn property_line_chars(p: &Property) -> (r: Vec<char>)
    ensures
        r@ == prop_line(p@),
{
    let mut out: Vec<char> = Vec::new();
    let key = str_to_chars(p.key.as_str());
    append_chars(&mut out, &key);
    let ghost ps = p@.params;
    let mut i: usize = 0;
    proof {
        assert(ps.skip(0) =~= ps);
        assert(out@ =~= Seq::<char>::empty() + p@.key);
    }
    while i < p.params.len()
        invariant
            i <= p.params.len(),
            ps == p@.params,
            ps.len() == p.params.len(),
            forall|j: int| 0 <= j < ps.len() ==> ps[j] == #[trigger] p.params@[j]@,
            out@ + params_text(ps.skip(i as int)) == p@.key + params_text(ps),
        decreases p.params.len() - i,
    {
        let ghost pre = out@;
        param_onto(&p.params[i], &mut out);
        proof {
            let t = ps.skip(i as int);
            assert(t[0] == ps[i as int]);
            assert(t.skip(1) =~= ps.skip(i + 1));
            assert(pre + (param_text(ps[i as int]) + params_text(ps.skip(i + 1))) =~= (pre
                + param_text(ps[i as int])) + params_text(ps.skip(i + 1)));
        }
        i += 1;
    }
    proof {
        assert(ps.skip(ps.len() as int) =~= Seq::<ParameterModel>::empty());
        assert(out@ + Seq::<char>::empty() =~= out@);
    }
    out.push(':');
    let val = str_to_chars(p.val.as_str());
    let esc = escape_chars(&val);
    append_chars(&mut out, &esc);
    proof {
        assert(out@ =~= prop_line(p@));
    }
    out
}

/// Append one folded, terminated logical line to `out`.
fn line_onto(line: &Vec<char>, out: &mut Vec<char>)
    ensures
        final(out)@ == old(out)@ + fold_line(line@) + crlf(),
{
    fold_line_onto(line, out);
    out.push('\r');
    out.push('\n');
    proof {
        assert(out@ =~= old(out)@ + fold_line(line@) + crlf());
    }
}

/// Append the serialized text of one component to `out`.
pub fn component_onto(c: &Component, out: &mut Vec<char>)
    ensures
        final(out)@ == old(out)@ + lines_text(component_lines(comp_model(*c))),
    decreases *c,
{
    let ghost cm = comp_model(*c);
    let ghost target = lines_text(component_lines(cm));
    proof {
        assert(component_lines(cm) == seq![begin_line(cm.kind)] + prop_lines(cm.properties)
            + components_lines(cm.components) + seq![end_line(cm.kind)]);
        lemma_lines_text_concat(
            seq![begin_line(cm.kind)] + prop_lines(cm.properties) + components_lines(
                cm.components,
            ),
            seq![end_line(cm.kind)],
        );
        lemma_lines_text_concat(
            seq![begin_line(cm.kind)] + prop_lines(cm.properties),
            components_lines(cm.components),
        );
        lemma_lines_text_concat(seq![begin_line(cm.kind)], prop_lines(cm.properties));
        assert(lines_text(Seq::<Seq<char>>::empty()) == Seq::<char>::empty());
        assert(lines_text(seq![begin_line(cm.kind)]) =~= fold_line(begin_line(cm.kind)) + crlf())
            by {
            assert(seq![begin_line(cm.kind)][0] == begin_line(cm.kind));
            assert(seq![begin_line(cm.kind)].skip(1) =~= Seq::<Seq<char>>::empty());
            assert(fold_line(begin_line(cm.kind)) + crlf() + Seq::<char>::empty() =~= fold_line(
                begin_line(cm.kind),
            ) + crlf());
        }
        assert(lines_text(seq![end_line(cm.kind)]) =~= fold_line(end_line(cm.kind)) + crlf()) by {
            assert(seq![end_line(cm.kind)][0] == end_line(cm.kind));
            assert(seq![end_line(cm.kind)].skip(1) =~= Seq::<Seq<char>>::empty());
            assert(fold_line(end_line(cm.kind)) + crlf() + Seq::<char>::empty() =~= fold_line(
                end_line(cm.kind),
            ) + crlf());
        }
    }
    // BEGIN line
    let mut bl: Vec<char> = Vec::new();
    bl.push('B');
    bl.push('E');
    bl.push('G');
    bl.push('I');
    bl.push('N');
    bl.push(':');
    let name = type_chars(&c.kind);
    append_chars(&mut bl, &name);
    proof {
        assert(bl@ =~= begin_line(cm.kind));
    }
    line_onto(&bl, out);
    // property lines
    let ghost psm = cm.properties;
    let mut i: usize = 0;
    proof {
        assert(psm.skip(0) =~= psm);
    }
    while i < c.properties.len()
        invariant
            i <= c.properties.len(),
            psm == comp_model(*c).properties,
            psm.len() == c.properties.len(),
            forall|j: int| 0 <= j < psm.len() ==> psm[j] == #[trigger] c.properties@[j]@,
            out@ + lines_text(prop_lines(psm.skip(i as int))) == old(out)@ + lines_text(
                seq![begin_line(comp_model(*c).kind)] + prop_lines(psm),
            ),
        decreases c.properties.len() - i,
    {
        let ghost pre = out@;
        let line = property_line_chars(&c.properties[i]);
        line_onto(&line, out);
        proof {
            let t = psm.skip(i as int);
            assert(t[0] == psm[i as int]);
            assert(t.skip(1) =~= psm.skip(i + 1));
            let plt = prop_lines(t);
            assert(plt[0] == prop_line(psm[i as int]));
            assert(plt.skip(1) =~= prop_lines(psm.skip(i + 1)));
            assert(lines_text(plt) == fold_line(prop_line(psm[i as int])) + crlf() + lines_text(
                prop_lines(psm.skip(i + 1)),
            ));
            assert(line@ == prop_line(psm[i as int]));
            assert(pre + (fold_line(prop_line(psm[i as int])) + crlf() + lines_text(
                prop_lines(psm.skip(i + 1)),
            )) =~= (pre + fold_line(prop_line(psm[i as int])) + crlf()) + lines_text(
                prop_lines(psm.skip(i + 1)),
            ));
        }
        i += 1;
    }
    proof {
        assert(psm.skip(psm.len() as int) =~= Seq::<PropertyModel>::empty());
        assert(out@ + Seq::<char>::empty() =~= out@);
    }
    // children
    let ghost csm = cm.components;
    proof {
        lemma_comps_model_is_map(c.components@);
        assert(csm.skip(0) =~= csm);
    }
    let mut k: usize = 0;
    while k < c.components.len()
        invariant
            k <= c.components.len(),
            csm == comp_model(*c).components,
            csm.len() == c.components.len(),
            forall|j: int| 0 <= j < csm.len() ==> csm[j] == comp_model(
                #[trigger] c.components@[j],
            ),
            out@ + lines_text(components_lines(csm.skip(k as int))) == old(out)@ + lines_text(
                seq![begin_line(comp_model(*c).kind)] + prop_lines(comp_model(*c).properties)
                    + components_lines(csm),
            ),
        decreases c.components.len() - k,
    {
        let ghost pre = out@;
        proof {
            assert(decreases_to!(*c => c.components));
            assert(decreases_to!(c.components => c.components@));
            assert(decreases_to!(c.components@ => c.components@[k as int]));
        }
        component_onto(&c.components[k], out);
        proof {
            let t = csm.skip(k as int);
            assert(t[0] == csm[k as int]);
            assert(t.subrange(1, t.len() as int) =~= csm.skip(k + 1));
            assert(components_lines(t) == component_lines(csm[k as int]) + components_lines(
                csm.skip(k + 1),
            ));
            lemma_lines_text_concat(
                component_lines(csm[k as int]),
                components_lines(csm.skip(k + 1)),
            );
            assert(pre + (lines_text(component_lines(csm[k as int])) + lines_text(
                components_lines(csm.skip(k + 1)),
            )) =~= (pre + lines_text(component_lines(csm[k as int]))) + lines_text(
                components_lines(csm.skip(k + 1)),
            ));
        }
        k += 1;
    }
    proof {
        assert(csm.skip(csm.len() as int) =~= Seq::<ComponentModel>::empty());
        assert(out@ + Seq::<char>::empty() =~= out@);
    }
    // END line
    let mut el: Vec<char> = Vec::new();
    el.push('E');
    el.push('N');
    el.push('D');
    el.push(':');
    let name2 = type_chars(&c.kind);
    append_chars(&mut el, &name2);
    proof {
        assert(el@ =~= end_line(cm.kind));
    }
    line_onto(&el, out);
    proof {
        assert(out@ =~= old(out)@ + lines_text(component_lines(cm)));
    }
}

/// Serialize a sequence of root components to text: each component's block
/// in order, every line folded and ended with `\r\n`.
pub fn serialize(components: &[Component]) -> (r: String)
    ensures
        r@ == serialize_spec(comps_model(components@)),
{
    let ghost csm = comps_model(components@);
    proof {
        lemma_comps_model_is_map(components@);
        assert(csm.skip(0) =~= csm);
    }
    let mut out: Vec<char> = Vec::new();
    let mut k: usize = 0;
    while k < components.len()
        invariant
            k <= components.len(),
            csm == comps_model(components@),
            csm.len() == components@.len(),
            forall|j: int| 0 <= j < csm.len() ==> csm[j] == comp_model(#[trigger] components@[j]),
            out@ + lines_text(components_lines(csm.skip(k as int))) == lines_text(
                components_lines(csm),
            ),
        decreases components.len() - k,
    {
        let ghost pre = out@;
        component_onto(&components[k], &mut out);
        proof {
            let t = csm.skip(k as int);
            assert(t[0] == csm[k as int]);
            assert(t.subrange(1, t.len() as int) =~= csm.skip(k + 1));
            assert(components_lines(t) == component_lines(csm[k as int]) + components_lines(
                csm.skip(k + 1),
            ));
            lemma_lines_text_concat(
                component_lines(csm[k as int]),
                components_lines(csm.skip(k + 1)),
            );
            assert(pre + (lines_text(component_lines(csm[k as int])) + lines_text(
                components_lines(csm.skip(k + 1)),
            )) =~= (pre + lines_text(component_lines(csm[k as int]))) + lines_text(
                components_lines(csm.skip(k + 1)),
            ));
        }
        k += 1;
    }
    proof {
        assert(csm.skip(csm.len() as int) =~= Seq::<ComponentModel>::empty());
        assert(out@ + Seq::<char>::empty() =~= out@);
    }
    chars_to_string(&out)
}

} // verus!
