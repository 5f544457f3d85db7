//! The component tree and its mathematical model.
//!
//! Each executable type has a ghost mirror (`...Model`) over `Seq<char>`, and
//! a `View` impl mapping one to the other. Contracts and laws are stated over
//! the mirrors.

use crate::chars::{seq_eq_ci, str_eq_ci};
use vstd::prelude::*;

verus! {

broadcast use vstd::std_specs::vec::group_vec_axioms, vstd::seq::group_seq_axioms;

/// The kind of a component: the well-known `BEGIN`/`END` names get a tag of
/// their own; any other name is kept verbatim in `Other`.
#[derive(Debug, Clone, PartialEq)]
pub enum ComponentType {
    Calendar,
    Event,
    Todo,
    Venue,
    Other(String),
}

/// A `key=value` modifier attached to a property.
#[derive(Debug, Clone, PartialEq)]
pub struct Parameter {
    pub key: String,
    pub val: String,
}

/// One content line: a name, optional parameters, and an unescaped value.
#[derive(Debug, Clone, PartialEq)]
pub struct Property {
    pub key: String,
    pub val: String,
    pub params: Vec<Parameter>,
}

/// What one logical line means: it opens a component, closes one, or carries
/// a property.
#[derive(Debug, Clone, PartialEq)]
pub enum IcalToken {
    Begin(ComponentType),
    End(ComponentType),
    Property(Property),
}

/// A `BEGIN:`/`END:` delimited block: its kind, its properties, and its
/// nested components, each in source order.
#[derive(Debug, PartialEq)]
pub struct Component {
    pub kind: ComponentType,
    pub properties: Vec<Property>,
    pub components: Vec<Component>,
}

/// A sequence of root components, normally `VCALENDAR` blocks.
#[derive(Debug, PartialEq)]
pub struct Calendar {
    pub components: Vec<Component>,
}

/// A logical line that does not match the token grammar: the raw line, its
/// index in the unfolded input, and the character offset where the scan
/// failed.
#[derive(Debug, Clone, PartialEq)]
pub struct GrammarError {
    pub line: String,
    pub index: usize,
    pub offset: usize,
}

/// Why a parse failed: a line outside the grammar, or a nesting violation.
/// Parsing is all-or-nothing; no partial tree accompanies an error.
#[derive(Debug, PartialEq)]
pub enum ParseError {
    /// A logical line does not match the token grammar.
    Grammar(GrammarError),
    /// An `END:` with no component open.
    UnexpectedEnd { found: ComponentType, line: usize },
    /// An `END:` whose type is not the innermost open component's.
    MismatchedEnd { expected: ComponentType, found: ComponentType, line: usize },
    /// The input ended with this component still open.
    UnterminatedComponent { kind: ComponentType },
    /// A property line with no component open.
    PropertyOutsideComponent { line: usize },
}

/// Ghost mirror of [`GrammarError`].
#[verifier::ext_equal]
pub struct GrammarErrorModel {
    pub line: Seq<char>,
    pub index: int,
    pub offset: int,
}

/// Ghost mirror of [`ParseError`].
#[verifier::ext_equal]
pub enum ParseErrorModel {
    Grammar(GrammarErrorModel),
    UnexpectedEnd { found: ComponentTypeModel, line: int },
    MismatchedEnd { expected: ComponentTypeModel, found: ComponentTypeModel, line: int },
    UnterminatedComponent { kind: ComponentTypeModel },
    PropertyOutsideComponent { line: int },
}

impl View for GrammarError {
    type V = GrammarErrorModel;

    open spec fn view(&self) -> GrammarErrorModel {
        GrammarErrorModel { line: self.line@, index: self.index as int, offset: self.offset as int }
    }
}

impl View for ParseError {
    type V = ParseErrorModel;

    open spec fn view(&self) -> ParseErrorModel {
        match self {
            ParseError::Grammar(e) => ParseErrorModel::Grammar(e@),
            ParseError::UnexpectedEnd { found, line } => ParseErrorModel::UnexpectedEnd {
                found: found@,
                line: *line as int,
            },
            ParseError::MismatchedEnd { expected, found, line } => ParseErrorModel::MismatchedEnd {
                expected: expected@,
                found: found@,
                line: *line as int,
            },
            ParseError::UnterminatedComponent { kind } => ParseErrorModel::UnterminatedComponent {
                kind: kind@,
            },
            ParseError::PropertyOutsideComponent { line } => {
                ParseErrorModel::PropertyOutsideComponent { line: *line as int }
            },
        }
    }
}

/// Ghost mirror of [`ComponentType`].
#[verifier::ext_equal]
pub enum ComponentTypeModel {
    Calendar,
    Event,
    Todo,
    Venue,
    Other(Seq<char>),
}

/// Ghost mirror of [`Parameter`].
#[verifier::ext_equal]
pub struct ParameterModel {
    pub key: Seq<char>,
    pub val: Seq<char>,
}

/// Ghost mirror of [`Property`].
#[verifier::ext_equal]
pub struct PropertyModel {
    pub key: Seq<char>,
    pub val: Seq<char>,
    pub params: Seq<ParameterModel>,
}

/// Ghost mirror of [`IcalToken`].
#[verifier::ext_equal]
pub enum TokenModel {
    Begin(ComponentTypeModel),
    End(ComponentTypeModel),
    Property(PropertyModel),
}

/// Ghost mirror of [`Component`].
#[verifier::ext_equal]
pub struct ComponentModel {
    pub kind: ComponentTypeModel,
    pub properties: Seq<PropertyModel>,
    pub components: Seq<ComponentModel>,
}

impl View for ComponentType {
    type V = ComponentTypeModel;

    open spec fn view(&self) -> ComponentTypeModel {
        match self {
            ComponentType::Calendar => ComponentTypeModel::Calendar,
            ComponentType::Event => ComponentTypeModel::Event,
            ComponentType::Todo => ComponentTypeModel::Todo,
            ComponentType::Venue => ComponentTypeModel::Venue,
            ComponentType::Other(name) => ComponentTypeModel::Other(name@),
        }
    }
}

impl View for Parameter {
    type V = ParameterModel;

    open spec fn view(&self) -> ParameterModel {
        ParameterModel { key: self.key@, val: self.val@ }
    }
}

impl DeepView for Parameter {
    type V = ParameterModel;

    open spec fn deep_view(&self) -> ParameterModel {
        self@
    }
}

impl View for Property {
    type V = PropertyModel;

    open spec fn view(&self) -> PropertyModel {
        PropertyModel { key: self.key@, val: self.val@, params: self.params.deep_view() }
    }
}

impl DeepView for Property {
    type V = PropertyModel;

    open spec fn deep_view(&self) -> PropertyModel {
        self@
    }
}

impl View for IcalToken {
    type V = TokenModel;

    open spec fn view(&self) -> TokenModel {
        match self {
            IcalToken::Begin(t) => TokenModel::Begin(t@),
            IcalToken::End(t) => TokenModel::End(t@),
            IcalToken::Property(p) => TokenModel::Property(p@),
        }
    }
}

impl Default for Calendar {
    /// A calendar with no components.
    fn default() -> (r: Self)
        ensures
            r.components@.len() == 0,
    {
        Calendar { components: Vec::new() }
    }
}

impl Property {
    /// The first parameter whose key equals `key` up to ASCII case, if any.
    pub fn parameter(&self, key: &str) -> (r: Option<&Parameter>)
        ensures
            match r {
                Some(p) => exists|i: int|
                    #![auto]
                    0 <= i < self@.params.len() && seq_eq_ci(self@.params[i].key, key@) && p@
                        == self@.params[i] && (forall|j: int|
                        0 <= j < i ==> !seq_eq_ci(#[trigger] self@.params[j].key, key@)),
                None => forall|i: int|
                    0 <= i < self@.params.len() ==> !seq_eq_ci(
                        #[trigger] self@.params[i].key,
                        key@,
                    ),
            },
    {
        let mut i: usize = 0;
        while i < self.params.len()
            invariant
                i <= self.params.len(),
                self@.params.len() == self.params.len(),
                forall|j: int| 0 <= j < i ==> !seq_eq_ci(#[trigger] self@.params[j].key, key@),
            decreases self.params.len() - i,
        {
            if str_eq_ci(self.params[i].key.as_str(), key) {
                proof {
                    assert(self@.params[i as int] == self.params@[i as int]@);
                    assert(seq_eq_ci(self@.params[i as int].key, key@));
                }
                return Some(&self.params[i]);
            }
            i += 1;
        }
        None
    }
}

impl Component {
    /// The first property whose name equals `name` up to ASCII case, if any.
    pub fn property(&self, name: &str) -> (r: Option<&Property>)
        ensures
            match r {
                Some(p) => exists|i: int|
                    #![auto]
                    0 <= i < self@.properties.len() && seq_eq_ci(self@.properties[i].key, name@)
                        && p@ == self@.properties[i] && (forall|j: int|
                        0 <= j < i ==> !seq_eq_ci(#[trigger] self@.properties[j].key, name@)),
                None => forall|i: int|
                    0 <= i < self@.properties.len() ==> !seq_eq_ci(
                        #[trigger] self@.properties[i].key,
                        name@,
                    ),
            },
    {
        let mut i: usize = 0;
        while i < self.properties.len()
            invariant
                i <= self.properties.len(),
                self@.properties.len() == self.properties.len(),
                forall|j: int|
                    0 <= j < i ==> !seq_eq_ci(#[trigger] self@.properties[j].key, name@),
            decreases self.properties.len() - i,
        {
            if str_eq_ci(self.properties[i].key.as_str(), name) {
                proof {
                    assert(self@.properties[i as int] == self.properties@[i as int]@);
                    assert(seq_eq_ci(self@.properties[i as int].key, name@));
                }
                return Some(&self.properties[i]);
            }
            i += 1;
        }
        None
    }
}

/// The model of a component, recursively over its children.
pub open spec fn comp_model(c: Component) -> ComponentModel
    decreases c,
    via comp_model_decreases
{
    ComponentModel {
        kind: c.kind@,
        properties: c.properties.deep_view(),
        components: comps_model(c.components@),
    }
}

/// The models of a sequence of components, in order.
pub open spec fn comps_model(s: Seq<Component>) -> Seq<ComponentModel>
    decreases s,
    via comps_model_decreases
{
    if s.len() == 0 {
        Seq::empty()
    } else {
        seq![comp_model(s[0])] + comps_model(s.subrange(1, s.len() as int))
    }
}

/// A just-opened component of the given kind.
pub open spec fn empty_component(t: ComponentTypeModel) -> ComponentModel {
    ComponentModel { kind: t, properties: Seq::empty(), components: Seq::empty() }
}

/// `c` with one more property at the end.
pub open spec fn with_property(c: ComponentModel, p: PropertyModel) -> ComponentModel {
    ComponentModel { kind: c.kind, properties: c.properties.push(p), components: c.components }
}

/// `c` with one more completed child at the end.
pub open spec fn with_child(c: ComponentModel, child: ComponentModel) -> ComponentModel {
    ComponentModel { kind: c.kind, properties: c.properties, components: c.components.push(child) }
}

/// The model of a component sequence is taken element by element.
pub proof fn lemma_comps_model_is_map(s: Seq<Component>)
    ensures
        comps_model(s).len() == s.len(),
        forall|i: int| 0 <= i < s.len() ==> comps_model(s)[i] == comp_model(s[i]),
    decreases s,
{
    if s.len() > 0 {
        assert(decreases_to!(s => s.subrange(1, s.len() as int)));
        lemma_comps_model_is_map(s.subrange(1, s.len() as int));
        assert forall|i: int| 0 <= i < s.len() implies comps_model(s)[i] == comp_model(s[i]) by {
            if i > 0 {
                assert(s.subrange(1, s.len() as int)[i - 1] == s[i]);
            }
        }
    }
}

/// Appending one component appends its model.
pub proof fn lemma_comps_model_push(s: Seq<Component>, c: Component)
    ensures
        comps_model(s.push(c)) == comps_model(s).push(comp_model(c)),
{
    lemma_comps_model_is_map(s);
    lemma_comps_model_is_map(s.push(c));
    assert forall|i: int| 0 <= i < s.len() + 1 implies comps_model(s.push(c))[i] == comps_model(
        s,
    ).push(comp_model(c))[i] by {
        if i < s.len() {
            assert(s.push(c)[i] == s[i]);
        } else {
            assert(s.push(c)[i] == c);
        }
    }
    assert(comps_model(s.push(c)) =~= comps_model(s).push(comp_model(c)));
}

#[via_fn]
proof fn comp_model_decreases(c: Component) {
    assert(decreases_to!(c => c.components));
    assert(decreases_to!(c.components => c.components@));
}

#[via_fn]
proof fn comps_model_decreases(s: Seq<Component>) {
    if s.len() > 0 {
        assert(decreases_to!(s => s[0]));
        assert(decreases_to!(s => s.subrange(1, s.len() as int)));
    }
}

impl View for Component {
    type V = ComponentModel;

    open spec fn view(&self) -> ComponentModel {
        comp_model(*self)
    }
}

impl DeepView for Component {
    type V = ComponentModel;

    open spec fn deep_view(&self) -> ComponentModel {
        self@
    }
}

} // verus!
