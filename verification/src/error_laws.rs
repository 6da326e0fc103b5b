//! What errors tell: how each is described, and where it lies.

use vstd::prelude::*;

use crate::document::{DocumentNode, NodeName};
use crate::engine::{Report, SchematronEvalError};
use crate::error;
use crate::error::{ParseErrorView, Position};
use crate::schema::{
    Check, Diagnostic, LetBinding, LetValue, LetValueView, MessagePart, MessagePartView,
    NamespaceBinding, Pattern, Phase, Property, Rule, Schema,
};
use crate::semantics;
use crate::semantics::SchematronEvalErrorView;
use crate::text;
use crate::xml::XmlNode;
use crate::xpath::{QualifiedNameView, XPathEvalErrorView};

verus! {

proof fn lemma_joined(p: Seq<Seq<char>>)
    ensures
        p.len() == 0 ==> error::joined(p) == Seq::<char>::empty(),
        p.len() == 1 ==> error::joined(p) == p[0],
        p.len() == 2 ==> error::joined(p) == p[0] + p[1],
        p.len() == 3 ==> error::joined(p) == p[0] + p[1] + p[2],
        p.len() == 4 ==> error::joined(p) == p[0] + p[1] + p[2] + p[3],
        p.len() == 5 ==> error::joined(p) == p[0] + p[1] + p[2] + p[3] + p[4],
        p.len() == 6 ==> error::joined(p) == p[0] + p[1] + p[2] + p[3] + p[4] + p[5],
        p.len() == 7 ==> error::joined(p) == p[0] + p[1] + p[2] + p[3] + p[4] + p[5] + p[6],
    decreases p.len(),
{
    if p.len() > 0 {
        let before = p.drop_last();
        lemma_joined(before);
        assert(forall|i: int| 0 <= i < before.len() ==> before[i] == p[i]);
        assert(Seq::<char>::empty() + p[0] == p[0]);
    }
}

/// A position as it is written: row and column, in decimal.
pub open spec fn written(position: Position) -> Seq<char> {
    text::decimal(position.row as nat) + ":"@ + text::decimal(position.col as nat)
}

/// How an error of parsing reads.
pub open spec fn description(error: ParseErrorView) -> Seq<char> {
    match error {
        ParseErrorView::InvalidXml(message) => "invalid XML: "@ + message,
        ParseErrorView::WrongRootNamespace { found, position } => {
            "schema root must be in the Schematron namespace `"@
                + "http://purl.oclc.org/dsdl/schematron"@ + "`, found `"@ + (if found is Some {
                found->0
            } else {
                "(none)"@
            }) + "` at "@ + written(position)
        },
        ParseErrorView::NoPatterns => "schema must contain at least one <pattern>"@,
        ParseErrorView::MissingAttribute { element, attribute, position } => {
            "<"@ + element + "> is missing required attribute `"@ + attribute + "` at "@ + written(
                position,
            )
        },
        ParseErrorView::UnknownAbstractPattern { pattern, position } => {
            "is-a references unknown abstract pattern `"@ + pattern + "` at "@ + written(position)
        },
        ParseErrorView::UnknownRuleReference { rule, position } => {
            "extends references unknown rule `"@ + rule
                + "` (not found in the same pattern) at "@ + written(position)
        },
        ParseErrorView::CyclicRuleExtends { rule, position } => {
            "cyclic extends involving rule `"@ + rule + "` at "@ + written(position)
        },
        ParseErrorView::UnexpectedElement { element, position } => {
            "unexpected <"@ + element + "> at "@ + written(position)
                + " (unknown, or not supported here — see README.md)"@
        },
        ParseErrorView::DuplicateId { element, id, position } => {
            "duplicate "@ + element + " id `"@ + id + "` at "@ + written(position)
                + " (already declared earlier in the schema)"@
        },
        ParseErrorView::UnknownActivePattern { pattern, position } => {
            "active references unknown pattern `"@ + pattern + "` at "@ + written(position)
        },
        ParseErrorView::UnknownDiagnosticReference { id, position } => {
            "diagnostics references unknown diagnostic `"@ + id + "` at "@ + written(position)
        },
        ParseErrorView::UnsupportedQueryBinding { binding, position } => {
            "schema/@queryBinding `"@ + binding + "` at "@ + written(position)
                + " is not equivalent to XPath 1.0 (only `xslt`/`xpath`, or an absent queryBinding, are accepted — see README.md)"@
        },
        ParseErrorView::CyclicInclude { href, position } => {
            "cyclic include involving `"@ + href + "` at "@ + written(position)
        },
        ParseErrorView::UnresolvableInclude { href, message, position } => {
            "could not resolve <include href=\""@ + href + "\"> at "@ + written(position) + ": "@
                + message
        },
        ParseErrorView::InvalidInclude { href, reason, position } => {
            "<include href=\""@ + href + "\"> at "@ + written(position) + " is invalid: "@ + reason
        },
    }
}

/// An error of parsing reads as its description, and lies where that says: only
/// malformed XML and a schema without patterns have no place.
pub proof fn parse_errors_read_as_described(error: ParseErrorView)
    ensures
        error::joined(error.pieces()) == description(error),
        error.spec_position() is None <==> error is InvalidXml || error is NoPatterns,
        error.spec_position() matches Some(position) ==> error.pieces().contains(
            written(position),
        ),
{
    let p = error.pieces();
    lemma_joined(p);
    match error {
        ParseErrorView::InvalidXml(_) | ParseErrorView::NoPatterns => {},
        ParseErrorView::WrongRootNamespace { .. } | ParseErrorView::MissingAttribute {
            ..
        } | ParseErrorView::DuplicateId { .. } => {
            assert(p[5] == written(error.spec_position()->0));
        },
        _ => {
            assert(p[3] == written(error.spec_position()->0));
        },
    }
}

/// A name as it is written, with its prefix where it has one.
pub open spec fn spelled(name: QualifiedNameView) -> Seq<char> {
    if name.prefix is Some {
        name.prefix->0 + ":"@ + name.local
    } else {
        name.local
    }
}

/// How an error of evaluation reads.
pub open spec fn evaluation_description(error: SchematronEvalErrorView) -> Seq<char> {
    match error {
        SchematronEvalErrorView::Parse(error) => {
            "XPath parse error: parse error at byte "@ + text::decimal(error.position as nat)
                + ": "@ + error.message
        },
        SchematronEvalErrorView::Eval(XPathEvalErrorView::UnknownFunction(name)) => {
            "XPath evaluation error: unknown function: "@ + spelled(name)
        },
        SchematronEvalErrorView::Eval(XPathEvalErrorView::UnboundVariable(name)) => {
            "XPath evaluation error: unbound variable: $"@ + spelled(name)
        },
        SchematronEvalErrorView::Eval(
            XPathEvalErrorView::ArgumentCount { function, expected, got },
        ) => {
            "XPath evaluation error: "@ + function + "() expects "@ + text::decimal(
                expected as nat,
            ) + " argument(s), got "@ + text::decimal(got as nat)
        },
        SchematronEvalErrorView::Eval(XPathEvalErrorView::ExpectedNodeSet { context }) => {
            "XPath evaluation error: expected a node-set in "@ + context
        },
        SchematronEvalErrorView::ContextNotNodeSet { context } => {
            "rule context "@ + semantics::quoted(context) + " did not evaluate to a node-set"@
        },
        SchematronEvalErrorView::UnknownPhase { phase } => {
            "no <phase id="@ + semantics::quoted(phase) + "> in this schema"@
        },
    }
}

/// An error of evaluation reads as its description.
pub proof fn evaluation_errors_read_as_described(error: SchematronEvalErrorView)
    ensures
        error::joined(error.pieces()) == evaluation_description(error),
{
    lemma_joined(error.pieces());
}

/// The view of a schema shows each of its parts.
pub proof fn the_view_of_a_schema_shows_its_parts(
    schema: Schema,
    phase: Phase,
    pattern: Pattern,
    rule: Rule,
    check: Check,
)
    ensures
        schema.deep_view().ns == schema.ns.deep_view(),
        schema.deep_view().lets == schema.lets.deep_view(),
        schema.deep_view().default_phase == schema.default_phase.deep_view(),
        schema.deep_view().phases == schema.phases.deep_view(),
        schema.deep_view().patterns == schema.patterns.deep_view(),
        schema.deep_view().diagnostics == schema.diagnostics.deep_view(),
        schema.deep_view().properties == schema.properties.deep_view(),
        schema.deep_view().query_binding == schema.query_binding.deep_view(),
        phase.deep_view().id == phase.id@,
        phase.deep_view().lets == phase.lets.deep_view(),
        phase.deep_view().active == phase.active.deep_view(),
        pattern.deep_view().id == pattern.id.deep_view(),
        pattern.deep_view().lets == pattern.lets.deep_view(),
        pattern.deep_view().rules == pattern.rules.deep_view(),
        rule.deep_view().context == rule.context@,
        rule.deep_view().lets == rule.lets.deep_view(),
        rule.deep_view().checks == rule.checks.deep_view(),
        check.deep_view().kind == check.kind,
        check.deep_view().test == check.test@,
        check.deep_view().id == check.id.deep_view(),
        check.deep_view().role == check.role.deep_view(),
        check.deep_view().message == check.message.deep_view(),
        check.deep_view().diagnostics == check.diagnostics.deep_view(),
{
}

/// The views of bindings, messages, diagnostics and properties show each of
/// their parts.
pub proof fn the_view_of_a_declaration_shows_its_parts(
    ns: NamespaceBinding,
    binding: LetBinding,
    value: LetValue,
    part: MessagePart,
    diagnostic: Diagnostic,
    property: Property,
)
    ensures
        ns.deep_view().prefix == ns.prefix@,
        ns.deep_view().uri == ns.uri@,
        binding.deep_view().name == binding.name@,
        binding.deep_view().value == binding.value.deep_view(),
        value matches LetValue::Expr(text) ==> value.deep_view() == LetValueView::Expr(text@),
        value matches LetValue::Literal(text) ==> value.deep_view() == LetValueView::Literal(text@),
        part matches MessagePart::Text(text) ==> part.deep_view() == MessagePartView::Text(text@),
        part matches MessagePart::ValueOf(text) ==> part.deep_view() == MessagePartView::ValueOf(
            text@,
        ),
        part matches MessagePart::Name(path) ==> part.deep_view() == MessagePartView::Name(
            path.deep_view(),
        ),
        diagnostic.deep_view().id == diagnostic.id@,
        diagnostic.deep_view().role == diagnostic.role.deep_view(),
        diagnostic.deep_view().message == diagnostic.message.deep_view(),
        property.deep_view().id == property.id@,
        property.deep_view().role == property.role.deep_view(),
        property.deep_view().scheme == property.scheme.deep_view(),
        property.deep_view().message == property.message.deep_view(),
{
}

/// The views of reports and of nodes show each of their parts.
pub proof fn the_view_of_a_report_shows_its_parts(
    report: Report<usize>,
    node: DocumentNode,
    name: NodeName,
    element: XmlNode,
)
    ensures
        report.deep_view().pattern_id == report.pattern_id.deep_view(),
        report.deep_view().check_id == report.check_id.deep_view(),
        report.deep_view().role == report.role.deep_view(),
        report.deep_view().kind == report.kind,
        report.deep_view().message == report.message@,
        report.deep_view().diagnostics == report.diagnostics.deep_view(),
        report.deep_view().node == report.node,
        node.deep_view().kind == node.kind,
        node.deep_view().parent == node.parent,
        node.deep_view().name == node.name.deep_view(),
        node.deep_view().string_value == node.string_value@,
        node.deep_view().is_id == node.is_id,
        name.deep_view().namespace_uri == name.namespace_uri.deep_view(),
        name.deep_view().local_name == name.local_name@,
        element.deep_view().parent == element.parent,
        element.deep_view().is_element == element.is_element,
        element.deep_view().is_text == element.is_text,
        element.deep_view().namespace == element.namespace.deep_view(),
        element.deep_view().name == element.name@,
        element.deep_view().attributes == element.attributes.deep_view(),
        element.deep_view().text == element.text.deep_view(),
        element.deep_view().start == element.start,
        element.deep_view().end == element.end,
{
}

/// The view of an error of evaluation shows what it names.
pub proof fn the_view_of_an_error_shows_its_parts(error: SchematronEvalError)
    ensures
        match error {
            SchematronEvalError::Parse(reason) => error.deep_view()
                == SchematronEvalErrorView::Parse(reason.deep_view()),
            SchematronEvalError::Eval(reason) => error.deep_view() == SchematronEvalErrorView::Eval(
                reason.deep_view(),
            ),
            SchematronEvalError::ContextNotNodeSet { context } => error.deep_view()
                == (SchematronEvalErrorView::ContextNotNodeSet { context: context@ }),
            SchematronEvalError::UnknownPhase { phase } => error.deep_view()
                == (SchematronEvalErrorView::UnknownPhase { phase: phase@ }),
        },
{
}

} // verus!
