//! What a schema means for a document: the reports that its evaluation gives,
//! or the error with which it fails.
//!
//! Everything here is a mathematical definition; [`crate::evaluate`] computes
//! it.

use vstd::prelude::*;

use crate::document::{DocumentView, NodeRef};
use crate::schema::{
    CheckKind, CheckView, DiagnosticView, LetBindingView, LetValueView, MessagePartView,
    PatternView, PhaseView, RuleView, SchemaView,
};
use crate::xpath::{XPathEvalErrorView, XPathParseErrorView, XPathValueView};

verus! {

/// The view of a [`Report`] on a node of a document.
#[verifier::ext_equal]
pub struct ReportView {
    pub pattern_id: Option<Seq<char>>,
    pub check_id: Option<Seq<char>>,
    pub role: Option<Seq<char>>,
    pub kind: CheckKind,
    pub message: Seq<char>,
    pub diagnostics: Seq<Seq<char>>,
    pub node: int,
}

/// The view of [`SchematronEvalError`].
#[verifier::ext_equal]
pub enum SchematronEvalErrorView {
    Parse(XPathParseErrorView),
    Eval(XPathEvalErrorView),
    ContextNotNodeSet { context: Seq<char> },
    UnknownPhase { phase: Seq<char> },
}

/// A text in quotation marks with escapes, as `Debug` writes it.
pub uninterp spec fn quoted(text: Seq<char>) -> Seq<char>;

impl crate::xpath::QualifiedNameView {
    /// The name as it is written: `prefix:local`, or `local` alone.
    pub open spec fn text(self) -> Seq<char> {
        match self.prefix {
            Some(prefix) => prefix + ":"@ + self.local,
            None => self.local,
        }
    }
}

impl SchematronEvalErrorView {
    /// The human-readable description of an error, as pieces to be joined.
    pub open spec fn pieces(self) -> Seq<Seq<char>> {
        match self {
            SchematronEvalErrorView::Parse(error) => seq![
                "XPath parse error: parse error at byte "@,
                crate::text::decimal(error.position as nat),
                ": "@,
                error.message,
            ],
            SchematronEvalErrorView::Eval(XPathEvalErrorView::UnknownFunction(name)) => seq![
                "XPath evaluation error: unknown function: "@,
                name.text(),
            ],
            SchematronEvalErrorView::Eval(XPathEvalErrorView::UnboundVariable(name)) => seq![
                "XPath evaluation error: unbound variable: $"@,
                name.text(),
            ],
            SchematronEvalErrorView::Eval(
                XPathEvalErrorView::ArgumentCount { function, expected, got },
            ) => seq![
                "XPath evaluation error: "@,
                function,
                "() expects "@,
                crate::text::decimal(expected as nat),
                " argument(s), got "@,
                crate::text::decimal(got as nat),
            ],
            SchematronEvalErrorView::Eval(XPathEvalErrorView::ExpectedNodeSet { context }) => seq![
                "XPath evaluation error: expected a node-set in "@,
                context,
            ],
            SchematronEvalErrorView::ContextNotNodeSet { context } => seq![
                "rule context "@,
                quoted(context),
                " did not evaluate to a node-set"@,
            ],
            SchematronEvalErrorView::UnknownPhase { phase } => seq![
                "no <phase id="@,
                quoted(phase),
                "> in this schema"@,
            ],
        }
    }
}

/// The expression that gives the name of the node at `path`, or of the
/// context node.
pub open spec fn name_expression(path: Option<Seq<char>>) -> Seq<char> {
    match path {
        Some(path) => "name("@ + path + ")"@,
        None => "name()"@,
    }
}

/// Whether a check of this kind fires on a test with this truth value.
pub open spec fn fires(kind: CheckKind, truth: bool) -> bool {
    match kind {
        CheckKind::Assert => !truth,
        CheckKind::Report => truth,
    }
}

/// The diagnostic with the identifier `id`.
pub open spec fn diagnostic_named(diagnostics: Seq<DiagnosticView>, id: Seq<char>) -> Option<
    DiagnosticView,
>
    decreases diagnostics.len(),
{
    if diagnostics.len() == 0 {
        None
    } else if diagnostics[0].id == id {
        Some(diagnostics[0])
    } else {
        diagnostic_named(diagnostics.skip(1), id)
    }
}

/// The phase with the identifier `id`.
pub open spec fn phase_named(phases: Seq<PhaseView>, id: Seq<char>) -> Option<PhaseView>
    decreases phases.len(),
{
    if phases.len() == 0 {
        None
    } else if phases[0].id == id {
        Some(phases[0])
    } else {
        phase_named(phases.skip(1), id)
    }
}

/// Whether a pattern is evaluated in `phase`; without a phase every one is.
pub open spec fn is_active(pattern: PatternView, phase: Option<PhaseView>) -> bool {
    match phase {
        None => true,
        Some(phase) => match pattern.id {
            Some(id) => phase.active.contains(id),
            None => false,
        },
    }
}

/// `done` followed by the items of `rest`, unless that is an error.
pub open spec fn prepend<T>(done: Seq<T>, rest: Result<Seq<T>, SchematronEvalErrorView>) -> Result<
    Seq<T>,
    SchematronEvalErrorView,
> {
    match rest {
        Ok(items) => Ok(done + items),
        Err(error) => Err(error),
    }
}

/// What an expression is evaluated in: a node of the document, the variables
/// in scope, and the namespaces of prefixes.
#[verifier::ext_equal]
pub struct Scope {
    pub document: DocumentView,
    pub node: int,
    pub variables: Map<Seq<char>, XPathValueView>,
    pub namespaces: Map<Seq<char>, Seq<char>>,
}

impl Scope {
    /// What the expression `text` evaluates to.
    pub open spec fn value_of(self, text: Seq<char>) -> Result<
        XPathValueView,
        SchematronEvalErrorView,
    > {
        match crate::xpath::xpath_expression(text) {
            Err(error) => Err(SchematronEvalErrorView::Parse(error)),
            Ok(expression) => match crate::xpath::xpath_value(
                expression,
                NodeRef { document: self.document, index: self.node },
                self.variables,
                self.namespaces,
            ) {
                Err(error) => Err(SchematronEvalErrorView::Eval(error)),
                Ok(value) => Ok(value),
            },
        }
    }

    /// This scope with a variable bound.
    pub open spec fn with(self, name: Seq<char>, value: XPathValueView) -> Scope {
        Scope { variables: self.variables.insert(name, value), ..self }
    }

    /// This scope at another node.
    pub open spec fn at(self, node: int) -> Scope {
        Scope { node, ..self }
    }

    /// What a `<let>` binds its name to.
    pub open spec fn let_value(self, value: LetValueView) -> Result<
        XPathValueView,
        SchematronEvalErrorView,
    > {
        match value {
            LetValueView::Expr(text) => self.value_of(text),
            LetValueView::Literal(text) => Ok(XPathValueView::Text(text)),
        }
    }

    /// This scope with the bindings `lets`, each of which sees those before
    /// it.
    pub open spec fn extended(self, lets: Seq<LetBindingView>) -> Result<
        Scope,
        SchematronEvalErrorView,
    >
        decreases lets.len(),
    {
        if lets.len() == 0 {
            Ok(self)
        } else {
            match self.let_value(lets[0].value) {
                Err(error) => Err(error),
                Ok(value) => self.with(lets[0].name, value).extended(lets.skip(1)),
            }
        }
    }

    /// This scope with those of the bindings `lets` that come before the first
    /// one that fails.
    pub open spec fn bound(self, lets: Seq<LetBindingView>) -> Scope
        decreases lets.len(),
    {
        if lets.len() == 0 {
            self
        } else {
            match self.let_value(lets[0].value) {
                Err(_) => self,
                Ok(value) => self.with(lets[0].name, value).bound(lets.skip(1)),
            }
        }
    }

    /// The text of one part of a message.
    pub open spec fn part_text(self, part: MessagePartView) -> Result<
        Seq<char>,
        SchematronEvalErrorView,
    > {
        let value = match part {
            MessagePartView::Text(text) => Ok(XPathValueView::Text(text)),
            MessagePartView::ValueOf(select) => self.value_of(select),
            MessagePartView::Name(path) => self.value_of(name_expression(path)),
        };
        match value {
            Err(error) => Err(error),
            Ok(value) => Ok(value.text()),
        }
    }

    /// The texts of a message's parts.
    pub open spec fn part_texts(self, parts: Seq<MessagePartView>) -> Result<
        Seq<Seq<char>>,
        SchematronEvalErrorView,
    >
        decreases parts.len(),
    {
        if parts.len() == 0 {
            Ok(seq![])
        } else {
            match self.part_text(parts[0]) {
                Err(error) => Err(error),
                Ok(text) => prepend(seq![text], self.part_texts(parts.skip(1))),
            }
        }
    }

    /// A message as reported: the texts of its parts, one after the other,
    /// without the whitespace around the whole.
    pub open spec fn rendered(self, parts: Seq<MessagePartView>) -> Result<
        Seq<char>,
        SchematronEvalErrorView,
    > {
        match self.part_texts(parts) {
            Err(error) => Err(error),
            Ok(texts) => Ok(crate::text::trimmed(crate::error::joined(texts))),
        }
    }

    /// The messages of the diagnostics `ids`; identifiers that name none are
    /// passed over.
    pub open spec fn rendered_diagnostics(
        self,
        ids: Seq<Seq<char>>,
        diagnostics: Seq<DiagnosticView>,
    ) -> Result<Seq<Seq<char>>, SchematronEvalErrorView>
        decreases ids.len(),
    {
        if ids.len() == 0 {
            Ok(seq![])
        } else {
            match diagnostic_named(diagnostics, ids[0]) {
                None => self.rendered_diagnostics(ids.skip(1), diagnostics),
                Some(diagnostic) => match self.rendered(diagnostic.message) {
                    Err(error) => Err(error),
                    Ok(text) => prepend(
                        seq![text],
                        self.rendered_diagnostics(ids.skip(1), diagnostics),
                    ),
                },
            }
        }
    }

    /// The report of a check that fires.
    pub open spec fn report(
        self,
        check: CheckView,
        pattern_id: Option<Seq<char>>,
        diagnostics: Seq<DiagnosticView>,
    ) -> Result<ReportView, SchematronEvalErrorView> {
        match self.rendered(check.message) {
            Err(error) => Err(error),
            Ok(message) => match self.rendered_diagnostics(check.diagnostics, diagnostics) {
                Err(error) => Err(error),
                Ok(rendered) => Ok(
                    ReportView {
                        pattern_id,
                        check_id: check.id,
                        role: check.role,
                        kind: check.kind,
                        message,
                        diagnostics: rendered,
                        node: self.node,
                    },
                ),
            },
        }
    }

    /// What a check gives: one report where it fires, else none.
    pub open spec fn checked(
        self,
        check: CheckView,
        pattern_id: Option<Seq<char>>,
        diagnostics: Seq<DiagnosticView>,
    ) -> Result<Seq<ReportView>, SchematronEvalErrorView> {
        match self.value_of(check.test) {
            Err(error) => Err(error),
            Ok(value) => if fires(check.kind, value.truth()) {
                match self.report(check, pattern_id, diagnostics) {
                    Err(error) => Err(error),
                    Ok(report) => Ok(seq![report]),
                }
            } else {
                Ok(seq![])
            },
        }
    }

    /// The reports of `checks`, in order.
    pub open spec fn all_checked(
        self,
        checks: Seq<CheckView>,
        pattern_id: Option<Seq<char>>,
        diagnostics: Seq<DiagnosticView>,
    ) -> Result<Seq<ReportView>, SchematronEvalErrorView>
        decreases checks.len(),
    {
        if checks.len() == 0 {
            Ok(seq![])
        } else {
            match self.checked(checks[0], pattern_id, diagnostics) {
                Err(error) => Err(error),
                Ok(reports) => prepend(
                    reports,
                    self.all_checked(checks.skip(1), pattern_id, diagnostics),
                ),
            }
        }
    }

    /// The reports of a rule's checks at `node`.
    pub open spec fn rule_at(
        self,
        node: int,
        rule: RuleView,
        pattern_id: Option<Seq<char>>,
        diagnostics: Seq<DiagnosticView>,
    ) -> Result<Seq<ReportView>, SchematronEvalErrorView> {
        match self.at(node).extended(rule.lets) {
            Err(error) => Err(error),
            Ok(scope) => scope.all_checked(rule.checks, pattern_id, diagnostics),
        }
    }

    /// The nodes that a rule with this context applies to.
    pub open spec fn selected(self, context: Seq<char>) -> Result<
        Set<int>,
        SchematronEvalErrorView,
    > {
        match self.value_of(crate::context::context_path(context)) {
            Err(error) => Err(error),
            Ok(value) => match value {
                XPathValueView::NodeSet(nodes) => Ok(indices(nodes)),
                _ => Err(SchematronEvalErrorView::ContextNotNodeSet { context }),
            },
        }
    }

    /// The reports of a rule at `nodes`, in order.
    pub open spec fn rule_over(
        self,
        nodes: Seq<int>,
        rule: RuleView,
        pattern_id: Option<Seq<char>>,
        diagnostics: Seq<DiagnosticView>,
    ) -> Result<Seq<ReportView>, SchematronEvalErrorView>
        decreases nodes.len(),
    {
        if nodes.len() == 0 {
            Ok(seq![])
        } else {
            match self.rule_at(nodes[0], rule, pattern_id, diagnostics) {
                Err(error) => Err(error),
                Ok(reports) => prepend(
                    reports,
                    self.rule_over(nodes.skip(1), rule, pattern_id, diagnostics),
                ),
            }
        }
    }

    /// The reports of `rules`, each at the nodes it selects that are neither
    /// `claimed` nor selected by an earlier one, in document order.
    pub open spec fn rules_applied(
        self,
        rules: Seq<RuleView>,
        claimed: Set<int>,
        pattern_id: Option<Seq<char>>,
        diagnostics: Seq<DiagnosticView>,
    ) -> Result<Seq<ReportView>, SchematronEvalErrorView>
        decreases rules.len(),
    {
        if rules.len() == 0 {
            Ok(seq![])
        } else {
            match self.selected(rules[0].context) {
                Err(error) => Err(error),
                Ok(nodes) => match self.rule_over(
                    due(nodes, claimed, self.document.nodes.len() as int),
                    rules[0],
                    pattern_id,
                    diagnostics,
                ) {
                    Err(error) => Err(error),
                    Ok(reports) => prepend(
                        reports,
                        self.rules_applied(
                            rules.skip(1),
                            claimed.union(nodes),
                            pattern_id,
                            diagnostics,
                        ),
                    ),
                },
            }
        }
    }

    /// The reports of a pattern.
    pub open spec fn pattern_applied(
        self,
        pattern: PatternView,
        diagnostics: Seq<DiagnosticView>,
    ) -> Result<Seq<ReportView>, SchematronEvalErrorView> {
        match self.extended(pattern.lets) {
            Err(error) => Err(error),
            Ok(scope) => scope.rules_applied(
                pattern.rules,
                Set::empty(),
                pattern.id,
                diagnostics,
            ),
        }
    }

    /// The reports of those of `patterns` that are active in `phase`, in
    /// order.
    pub open spec fn patterns_applied(
        self,
        patterns: Seq<PatternView>,
        phase: Option<PhaseView>,
        diagnostics: Seq<DiagnosticView>,
    ) -> Result<Seq<ReportView>, SchematronEvalErrorView>
        decreases patterns.len(),
    {
        if patterns.len() == 0 {
            Ok(seq![])
        } else if !is_active(patterns[0], phase) {
            self.patterns_applied(patterns.skip(1), phase, diagnostics)
        } else {
            match self.pattern_applied(patterns[0], diagnostics) {
                Err(error) => Err(error),
                Ok(reports) => prepend(
                    reports,
                    self.patterns_applied(patterns.skip(1), phase, diagnostics),
                ),
            }
        }
    }
}

/// Those of `nodes` that are not `claimed`, among the first `count` of the
/// document, in document order.
pub open spec fn due(nodes: Set<int>, claimed: Set<int>, count: int) -> Seq<int>
    decreases count,
{
    if count <= 0 {
        seq![]
    } else if nodes.contains(count - 1) && !claimed.contains(count - 1) {
        due(nodes, claimed, count - 1).push(count - 1)
    } else {
        due(nodes, claimed, count - 1)
    }
}

/// The indices of `nodes`.
pub open spec fn indices(nodes: Seq<NodeRef>) -> Set<int>
    decreases nodes.len(),
{
    if nodes.len() == 0 {
        Set::empty()
    } else {
        indices(nodes.drop_last()).insert(nodes.last().index)
    }
}

/// The reports of `schema` on `document`, restricted to `phase`.
pub open spec fn evaluated_in(
    schema: SchemaView,
    document: DocumentView,
    phase: Option<PhaseView>,
) -> Result<Seq<ReportView>, SchematronEvalErrorView> {
    let root = Scope {
        document,
        node: 0,
        variables: Map::empty(),
        namespaces: crate::xpath::prefixes(schema.ns),
    };
    let phase_lets = match phase {
        Some(phase) => phase.lets,
        None => seq![],
    };
    match root.extended(schema.lets) {
        Err(error) => Err(error),
        Ok(scope) => match scope.extended(phase_lets) {
            Err(error) => Err(error),
            Ok(scope) => scope.patterns_applied(schema.patterns, phase, schema.diagnostics),
        },
    }
}

/// The reports of `schema` on `document`, restricted to the phase named
/// `phase_id`; without one, every pattern is evaluated.
pub open spec fn evaluated(
    schema: SchemaView,
    document: DocumentView,
    phase_id: Option<Seq<char>>,
) -> Result<Seq<ReportView>, SchematronEvalErrorView> {
    match phase_id {
        None => evaluated_in(schema, document, None),
        Some(id) => match phase_named(schema.phases, id) {
            None => Err(SchematronEvalErrorView::UnknownPhase { phase: id }),
            Some(phase) => evaluated_in(schema, document, Some(phase)),
        },
    }
}

} // verus!
