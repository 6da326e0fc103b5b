//! The Schematron schema model: what [`crate::parse`] produces and
//! [`crate::evaluate`] consumes.
//!
//! Expressions (`context`, `test`, `select`, ...) are kept as raw, unparsed
//! XPath text. Each type has a mathematical counterpart, its `deep_view`, in
//! which text is a sequence of characters; contracts speak of those.

use vstd::prelude::*;

verus! {

/// A parsed Schematron schema.
#[derive(Clone, Debug, PartialEq, Eq)]
pub struct Schema {
    pub ns: Vec<NamespaceBinding>,
    pub lets: Vec<LetBinding>,
    pub default_phase: Option<String>,
    pub phases: Vec<Phase>,
    pub patterns: Vec<Pattern>,
    pub diagnostics: Vec<Diagnostic>,
    /// The `property` children of `<properties>`: metadata that is parsed
    /// and exposed, with no effect on evaluation.
    pub properties: Vec<Property>,
    /// `schema/@queryBinding` as declared, `None` if absent. Every binding
    /// that parsing accepts stands for XPath 1.0.
    pub query_binding: Option<String>,
}

/// A `<diagnostic id="..." role="...">`, referenced by a [`Check`]'s
/// `diagnostics` list. `message` uses the same content model as a check's.
#[derive(Clone, Debug, PartialEq, Eq)]
pub struct Diagnostic {
    pub id: String,
    pub role: Option<String>,
    pub message: Vec<MessagePart>,
}

/// A `<property id="..." role="..." scheme="...">`. `message` uses the same
/// content model as a check's.
#[derive(Clone, Debug, PartialEq, Eq)]
pub struct Property {
    pub id: String,
    pub role: Option<String>,
    pub scheme: Option<String>,
    pub message: Vec<MessagePart>,
}

/// A `<phase id="..."><active pattern="..."/>...</phase>`: a named,
/// selectable subset of patterns.
#[derive(Clone, Debug, PartialEq, Eq)]
pub struct Phase {
    pub id: String,
    pub lets: Vec<LetBinding>,
    /// The pattern ids that this phase activates, in document order.
    pub active: Vec<String>,
}

/// A `<let name="...">` variable binding. Bindings at schema, phase and
/// pattern level are evaluated against the document root, those of a rule
/// against the matched context node.
#[derive(Clone, Debug, PartialEq, Eq)]
pub struct LetBinding {
    pub name: String,
    pub value: LetValue,
}

/// What a [`LetBinding`] binds its name to.
#[derive(Clone, Debug, PartialEq, Eq)]
pub enum LetValue {
    /// `<let value="...">`: a raw XPath expression.
    Expr(String),
    /// `<let>` with literal XML content: the concatenated text of that
    /// content, bound as a string.
    Literal(String),
}

/// An `<ns prefix="..." uri="..."/>` binding, which resolves a prefix in the
/// schema's XPath expressions.
#[derive(Clone, Debug, PartialEq, Eq)]
pub struct NamespaceBinding {
    pub prefix: String,
    pub uri: String,
}

/// A `<pattern>`: a named or anonymous group of rules.
#[derive(Clone, Debug, PartialEq, Eq)]
pub struct Pattern {
    pub id: Option<String>,
    pub lets: Vec<LetBinding>,
    pub rules: Vec<Rule>,
}

/// A `<rule context="...">`. `context` is the raw XPath expression that
/// selects the nodes this rule applies to.
#[derive(Clone, Debug, PartialEq, Eq)]
pub struct Rule {
    pub context: String,
    pub lets: Vec<LetBinding>,
    pub checks: Vec<Check>,
}

/// An `<assert>` or `<report>` element. `message` is rendered only when the
/// check fires.
#[derive(Clone, Debug, PartialEq, Eq)]
pub struct Check {
    pub kind: CheckKind,
    pub test: String,
    pub id: Option<String>,
    pub role: Option<String>,
    pub message: Vec<MessagePart>,
    /// The ids listed in `diagnostics="..."`, in order.
    pub diagnostics: Vec<String>,
}

/// One piece of a message, in document order.
#[derive(Clone, Debug, PartialEq, Eq)]
pub enum MessagePart {
    /// Literal text. Text inside presentational wrappers counts too.
    Text(String),
    /// A `<value-of select="...">`, evaluated against the firing check's
    /// context node.
    ValueOf(String),
    /// A `<name path="...">`: the qualified name of the node that `path`
    /// selects, or of the context node where there is no `path`.
    Name(Option<String>),
}

/// Whether a [`Check`] is an `<assert>` (fires when its test is false) or a
/// `<report>` (fires when its test is true).
#[derive(Clone, Copy, Debug, PartialEq, Eq)]
pub enum CheckKind {
    Assert,
    Report,
}

/// The view of [`Schema`].
#[verifier::ext_equal]
pub struct SchemaView {
    pub ns: Seq<NamespaceBindingView>,
    pub lets: Seq<LetBindingView>,
    pub default_phase: Option<Seq<char>>,
    pub phases: Seq<PhaseView>,
    pub patterns: Seq<PatternView>,
    pub diagnostics: Seq<DiagnosticView>,
    pub properties: Seq<PropertyView>,
    pub query_binding: Option<Seq<char>>,
}

/// The view of [`Diagnostic`].
#[verifier::ext_equal]
pub struct DiagnosticView {
    pub id: Seq<char>,
    pub role: Option<Seq<char>>,
    pub message: Seq<MessagePartView>,
}

/// The view of [`Property`].
#[verifier::ext_equal]
pub struct PropertyView {
    pub id: Seq<char>,
    pub role: Option<Seq<char>>,
    pub scheme: Option<Seq<char>>,
    pub message: Seq<MessagePartView>,
}

/// The view of [`Phase`].
#[verifier::ext_equal]
pub struct PhaseView {
    pub id: Seq<char>,
    pub lets: Seq<LetBindingView>,
    pub active: Seq<Seq<char>>,
}

/// The view of [`LetBinding`].
#[verifier::ext_equal]
pub struct LetBindingView {
    pub name: Seq<char>,
    pub value: LetValueView,
}

/// The view of [`LetValue`].
#[verifier::ext_equal]
pub enum LetValueView {
    Expr(Seq<char>),
    Literal(Seq<char>),
}

/// The view of [`NamespaceBinding`].
#[verifier::ext_equal]
pub struct NamespaceBindingView {
    pub prefix: Seq<char>,
    pub uri: Seq<char>,
}

/// The view of [`Pattern`].
#[verifier::ext_equal]
pub struct PatternView {
    pub id: Option<Seq<char>>,
    pub lets: Seq<LetBindingView>,
    pub rules: Seq<RuleView>,
}

/// The view of [`Rule`].
#[verifier::ext_equal]
pub struct RuleView {
    pub context: Seq<char>,
    pub lets: Seq<LetBindingView>,
    pub checks: Seq<CheckView>,
}

/// The view of [`Check`].
#[verifier::ext_equal]
pub struct CheckView {
    pub kind: CheckKind,
    pub test: Seq<char>,
    pub id: Option<Seq<char>>,
    pub role: Option<Seq<char>>,
    pub message: Seq<MessagePartView>,
    pub diagnostics: Seq<Seq<char>>,
}

/// The view of [`MessagePart`].
#[verifier::ext_equal]
pub enum MessagePartView {
    Text(Seq<char>),
    ValueOf(Seq<char>),
    Name(Option<Seq<char>>),
}

impl DeepView for Schema {
    type V = SchemaView;

    open spec fn deep_view(&self) -> SchemaView {
        SchemaView {
            ns: self.ns.deep_view(),
            lets: self.lets.deep_view(),
            default_phase: self.default_phase.deep_view(),
            phases: self.phases.deep_view(),
            patterns: self.patterns.deep_view(),
            diagnostics: self.diagnostics.deep_view(),
            properties: self.properties.deep_view(),
            query_binding: self.query_binding.deep_view(),
        }
    }
}

impl DeepView for Diagnostic {
    type V = DiagnosticView;

    open spec fn deep_view(&self) -> DiagnosticView {
        DiagnosticView {
            id: self.id@,
            role: self.role.deep_view(),
            message: self.message.deep_view(),
        }
    }
}

impl DeepView for Property {
    type V = PropertyView;

    open spec fn deep_view(&self) -> PropertyView {
        PropertyView {
            id: self.id@,
            role: self.role.deep_view(),
            scheme: self.scheme.deep_view(),
            message: self.message.deep_view(),
        }
    }
}

impl DeepView for Phase {
    type V = PhaseView;

    open spec fn deep_view(&self) -> PhaseView {
        PhaseView {
            id: self.id@,
            lets: self.lets.deep_view(),
            active: self.active.deep_view(),
        }
    }
}

impl DeepView for LetBinding {
    type V = LetBindingView;

    open spec fn deep_view(&self) -> LetBindingView {
        LetBindingView { name: self.name@, value: self.value.deep_view() }
    }
}

impl DeepView for LetValue {
    type V = LetValueView;

    open spec fn deep_view(&self) -> LetValueView {
        match self {
            LetValue::Expr(text) => LetValueView::Expr(text@),
            LetValue::Literal(text) => LetValueView::Literal(text@),
        }
    }
}

impl DeepView for NamespaceBinding {
    type V = NamespaceBindingView;

    open spec fn deep_view(&self) -> NamespaceBindingView {
        NamespaceBindingView { prefix: self.prefix@, uri: self.uri@ }
    }
}

impl DeepView for Pattern {
    type V = PatternView;

    open spec fn deep_view(&self) -> PatternView {
        PatternView {
            id: self.id.deep_view(),
            lets: self.lets.deep_view(),
            rules: self.rules.deep_view(),
        }
    }
}

impl DeepView for Rule {
    type V = RuleView;

    open spec fn deep_view(&self) -> RuleView {
        RuleView {
            context: self.context@,
            lets: self.lets.deep_view(),
            checks: self.checks.deep_view(),
        }
    }
}

impl DeepView for Check {
    type V = CheckView;

    open spec fn deep_view(&self) -> CheckView {
        CheckView {
            kind: self.kind,
            test: self.test@,
            id: self.id.deep_view(),
            role: self.role.deep_view(),
            message: self.message.deep_view(),
            diagnostics: self.diagnostics.deep_view(),
        }
    }
}

impl DeepView for MessagePart {
    type V = MessagePartView;

    open spec fn deep_view(&self) -> MessagePartView {
        match self {
            MessagePart::Text(text) => MessagePartView::Text(text@),
            MessagePart::ValueOf(select) => MessagePartView::ValueOf(select@),
            MessagePart::Name(path) => MessagePartView::Name(path.deep_view()),
        }
    }
}

} // verus!
