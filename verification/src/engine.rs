//! Evaluation of a schema against a document, with a report for each check
//! that fires.
//!
//! - Patterns are independent of each other.
//! - Within a pattern at most one rule applies to a node: rules are tried in
//!   schema order, and a node that an earlier rule of the pattern has claimed
//!   is passed over by later ones.
//! - `rule context="X"` selects the nodes of `descendant-or-self::node()/X`
//!   from the document root; each alternative of a union is prefixed by
//!   itself, and the bare root pattern `/` stands as it is.
//! - An `assert` fires when its test is false, a `report` when it is true.
//! - `<let>` binds variables that later expressions of its scope see.
//! - A phase restricts evaluation to the patterns it activates.
//! - A fired check's diagnostics are rendered as its message is, at the same
//!   node.

use vstd::prelude::*;

use crate::context::path_of_context;
use crate::document::{Document, DocumentView, Handle};
use crate::error::join;
use crate::parser::contains_text;
use crate::schema::{
    Check, CheckKind, Diagnostic, LetBinding, LetBindingView, LetValue, MessagePart,
    NamespaceBinding, Pattern, Phase, PhaseView, Rule, Schema,
};
use crate::semantics;
use crate::semantics::{ReportView, SchematronEvalErrorView, Scope};
use crate::text::{copied, decimal_text, trim};
use crate::xpath::{
    boolean_of, evaluate_expression, node_set, parse_expression, plain_error, string_of,
    text_value, XPathEvalError, XPathParseError, XPathValueView,
};

verus! {

/// One fired check: a failed `assert`, or a `report` whose test is true.
/// Checks that do not fire leave no trace.
#[derive(Clone, Debug)]
pub struct Report<N> {
    pub pattern_id: Option<String>,
    pub check_id: Option<String>,
    pub role: Option<String>,
    pub kind: CheckKind,
    pub message: String,
    /// The rendered messages of this check's diagnostics, in reference
    /// order.
    pub diagnostics: Vec<String>,
    pub node: N,
}

impl DeepView for Report<usize> {
    type V = ReportView;

    open spec fn deep_view(&self) -> ReportView {
        ReportView {
            pattern_id: self.pattern_id.deep_view(),
            check_id: self.check_id.deep_view(),
            role: self.role.deep_view(),
            kind: self.kind,
            message: self.message@,
            diagnostics: self.diagnostics.deep_view(),
            node: self.node as int,
        }
    }
}

/// An error evaluating a [`Schema`] against a document.
#[derive(Clone, Debug, PartialEq, Eq)]
pub enum SchematronEvalError {
    /// An expression of the schema is not XPath.
    Parse(XPathParseError),
    /// A well-formed expression failed when it was evaluated.
    Eval(XPathEvalError),
    /// A rule's `context` did not evaluate to a node-set.
    ContextNotNodeSet { context: String },
    /// The schema has no phase of the given id.
    UnknownPhase { phase: String },
}

impl DeepView for SchematronEvalError {
    type V = SchematronEvalErrorView;

    open spec fn deep_view(&self) -> SchematronEvalErrorView {
        match *self {
            SchematronEvalError::Parse(error) => SchematronEvalErrorView::Parse(error.deep_view()),
            SchematronEvalError::Eval(error) => SchematronEvalErrorView::Eval(error.deep_view()),
            SchematronEvalError::ContextNotNodeSet { context } => (
            SchematronEvalErrorView::ContextNotNodeSet { context: context@ }),
            SchematronEvalError::UnknownPhase { phase } => (SchematronEvalErrorView::UnknownPhase {
                phase: phase@,
            }),
        }
    }
}

/// The view of the outcome of an evaluation step.
pub open spec fn outcome<T: DeepView>(result: Result<T, SchematronEvalError>) -> Result<
    T::V,
    SchematronEvalErrorView,
> {
    match result {
        Ok(value) => Ok(value.deep_view()),
        Err(error) => Err(error.deep_view()),
    }
}

/// `Debug` of `str`: the result depends on the text alone.
#[verifier::external_body]
fn quote(text: &str) -> (result: String)
    ensures
        result@ == semantics::quoted(text@),
{
    format!("{text:?}")
}

/// The name as it is written.
fn name_text(name: &crate::xpath::QualifiedName) -> (result: String)
    ensures
        result@ == name.deep_view().text(),
{
    match &name.prefix {
        Some(prefix) => {
            let mut text = prefix.clone();
            text.push_str(":");
            text.push_str(name.local.as_str());
            text
        },
        None => name.local.clone(),
    }
}

impl SchematronEvalError {
    /// The human-readable description of this error.
    pub fn to_string(&self) -> (result: String)
        ensures
            result@ == crate::error::joined(self.deep_view().pieces()),
    {
        match self {
            SchematronEvalError::Parse(error) => {
                let position = decimal_text(error.position as u64);
                let pieces = vec![
                    "XPath parse error: parse error at byte ",
                    position.as_str(),
                    ": ",
                    error.message.as_str(),
                ];
                assert(crate::error::views(pieces@) == self.deep_view().pieces());
                join(pieces)
            },
            SchematronEvalError::Eval(XPathEvalError::UnknownFunction(name)) => {
                let name = name_text(name);
                let pieces = vec!["XPath evaluation error: unknown function: ", name.as_str()];
                assert(crate::error::views(pieces@) == self.deep_view().pieces());
                join(pieces)
            },
            SchematronEvalError::Eval(XPathEvalError::UnboundVariable(name)) => {
                let name = name_text(name);
                let pieces = vec!["XPath evaluation error: unbound variable: $", name.as_str()];
                assert(crate::error::views(pieces@) == self.deep_view().pieces());
                join(pieces)
            },
            SchematronEvalError::Eval(
                XPathEvalError::ArgumentCount { function, expected, got },
            ) => {
                let expected = decimal_text(*expected as u64);
                let got = decimal_text(*got as u64);
                let pieces = vec![
                    "XPath evaluation error: ",
                    function,
                    "() expects ",
                    expected.as_str(),
                    " argument(s), got ",
                    got.as_str(),
                ];
                assert(crate::error::views(pieces@) == self.deep_view().pieces());
                join(pieces)
            },
            SchematronEvalError::Eval(XPathEvalError::ExpectedNodeSet { context }) => {
                let pieces = vec!["XPath evaluation error: expected a node-set in ", context];
                assert(crate::error::views(pieces@) == self.deep_view().pieces());
                join(pieces)
            },
            SchematronEvalError::ContextNotNodeSet { context } => {
                let context = quote(context.as_str());
                let pieces = vec![
                    "rule context ",
                    context.as_str(),
                    " did not evaluate to a node-set",
                ];
                assert(crate::error::views(pieces@) == self.deep_view().pieces());
                join(pieces)
            },
            SchematronEvalError::UnknownPhase { phase } => {
                let phase = quote(phase.as_str());
                let pieces = vec!["no <phase id=", phase.as_str(), "> in this schema"];
                assert(crate::error::views(pieces@) == self.deep_view().pieces());
                join(pieces)
            },
        }
    }
}

/// Whether a check of this kind fires on a test with this truth value.
pub fn check_fires(kind: CheckKind, truth: bool) -> (result: bool)
    ensures
        result == semantics::fires(kind, truth),
{
    match kind {
        CheckKind::Assert => !truth,
        CheckKind::Report => truth,
    }
}

/// The scope that expressions are evaluated in at a node.
pub open spec fn scope_at(
    document: DocumentView,
    node: int,
    variables: Seq<(String, xpath_eval::Value<Handle<'_>>)>,
    namespaces: Seq<crate::schema::NamespaceBindingView>,
) -> Scope {
    Scope {
        document,
        node,
        variables: crate::xpath::scope(variables),
        namespaces: crate::xpath::prefixes(namespaces),
    }
}

/// Parses and evaluates the expression `text` at a node.
fn evaluate_xpath<'a>(
    text: &str,
    document: &'a Document,
    node: usize,
    variables: &Vec<(String, xpath_eval::Value<Handle<'a>>)>,
    namespaces: &Vec<NamespaceBinding>,
) -> (result: Result<xpath_eval::Value<Handle<'a>>, SchematronEvalError>)
    requires
        node < document@.nodes.len(),
        crate::xpath::scope_is_in(variables@, document@),
    ensures
        match (
            result,
            scope_at(document@, node as int, variables@, namespaces.deep_view()).value_of(text@),
        ) {
            (Ok(value), Ok(view)) => crate::xpath::value_view(value) == view && view.is_in(
                document@,
            ),
            (Err(error), Err(view)) => error.deep_view() == view,
            _ => false,
        },
{
    let expression = match parse_expression(text) {
        Ok(expression) => expression,
        Err(error) => {
            return Err(SchematronEvalError::Parse(error));
        },
    };
    match evaluate_expression(
        &expression,
        Handle { document, index: node },
        variables,
        namespaces,
    ) {
        Ok(value) => Ok(value),
        Err(error) => Err(SchematronEvalError::Eval(plain_error(error))),
    }
}

/// Binds `lets` at a node, in order, each of which sees those before it. Where
/// one fails, those before it stay bound.
pub fn extend_lets<'a>(
    lets: &Vec<LetBinding>,
    document: &'a Document,
    node: usize,
    variables: &mut Vec<(String, xpath_eval::Value<Handle<'a>>)>,
    namespaces: &Vec<NamespaceBinding>,
) -> (result: Result<(), SchematronEvalError>)
    requires
        node < document@.nodes.len(),
        crate::xpath::scope_is_in(old(variables)@, document@),
    ensures
        match (
            result,
            scope_at(
                document@,
                node as int,
                old(variables)@,
                namespaces.deep_view(),
            ).extended(lets.deep_view()),
        ) {
            (Ok(_), Ok(scope)) => {
                &&& scope_at(
                    document@,
                    node as int,
                    final(variables)@,
                    namespaces.deep_view(),
                ) == scope
            },
            (Err(error), Err(view)) => error.deep_view() == view,
            _ => false,
        },
        scope_at(document@, node as int, final(variables)@, namespaces.deep_view()) == scope_at(
            document@,
            node as int,
            old(variables)@,
            namespaces.deep_view(),
        ).bound(lets.deep_view()),
        crate::xpath::scope_is_in(final(variables)@, document@),
        final(variables)@.len() >= old(variables)@.len(),
        final(variables)@.take(old(variables)@.len() as int) == old(variables)@,
{
    let ghost views = lets.deep_view();
    let ghost start = scope_at(document@, node as int, variables@, namespaces.deep_view());
    let mut i: usize = 0;
    assert(views.skip(0) == views);
    assert(variables@.take(variables@.len() as int) == variables@);
    while i < lets.len()
        invariant
            i <= lets@.len(),
            node < document@.nodes.len(),
            views == lets.deep_view(),
            start == scope_at(
                document@,
                node as int,
                old(variables)@,
                namespaces.deep_view(),
            ),
            crate::xpath::scope_is_in(variables@, document@),
            variables@.len() >= old(variables)@.len(),
            variables@.take(old(variables)@.len() as int) == old(variables)@,
            scope_at(document@, node as int, variables@, namespaces.deep_view()).extended(
                views.skip(i as int),
            ) == start.extended(views),
            scope_at(document@, node as int, variables@, namespaces.deep_view()).bound(
                views.skip(i as int),
            ) == start.bound(views),
        decreases lets@.len() - i,
    {
        let ghost current = scope_at(document@, node as int, variables@, namespaces.deep_view());
        let ghost before = variables@;
        let binding = &lets[i];
        assert(views.skip(i as int)[0] == binding.deep_view());
        assert(views.skip(i as int).skip(1) == views.skip(i + 1));
        let value = match &binding.value {
            LetValue::Expr(text) => {
                match evaluate_xpath(text.as_str(), document, node, variables, namespaces) {
                    Ok(value) => value,
                    Err(error) => {
                        return Err(error);
                    },
                }
            },
            LetValue::Literal(text) => text_value(text.clone()),
        };
        let ghost bound = crate::xpath::value_view(value);
        variables.push((binding.name.clone(), value));
        proof {
            assert(variables@.drop_last() == before);
            assert(variables@.take(old(variables)@.len() as int) == before.take(
                old(variables)@.len() as int,
            ));
            assert(scope_at(document@, node as int, variables@, namespaces.deep_view())
                == current.with(binding.name@, bound));
        }
        i += 1;
    }
    assert(views.skip(i as int).len() == 0);
    Ok(())
}

/// The message made of `texts`: all of them, one after the other, without the
/// whitespace around the whole.
pub fn finish_message(texts: &Vec<String>) -> (result: String)
    ensures
        result@ == crate::text::trimmed(crate::error::joined(texts.deep_view())),
{
    let ghost views = texts.deep_view();
    let mut message = String::new();
    let mut i: usize = 0;
    while i < texts.len()
        invariant
            i <= texts@.len(),
            views == texts.deep_view(),
            message@ == crate::error::joined(views.take(i as int)),
        decreases texts@.len() - i,
    {
        message.push_str(texts[i].as_str());
        i += 1;
        assert(views.take(i as int).drop_last() == views.take(i - 1));
        assert(views.take(i as int).last() == texts@[i - 1]@);
    }
    assert(views.take(i as int) == views);
    trim(message.as_str())
}

/// Renders a message at a node: the text of its parts, without the whitespace
/// around it.
fn render_message<'a>(
    parts: &Vec<MessagePart>,
    document: &'a Document,
    node: usize,
    variables: &Vec<(String, xpath_eval::Value<Handle<'a>>)>,
    namespaces: &Vec<NamespaceBinding>,
) -> (result: Result<String, SchematronEvalError>)
    requires
        node < document@.nodes.len(),
        crate::xpath::scope_is_in(variables@, document@),
    ensures
        outcome(result) == scope_at(
            document@,
            node as int,
            variables@,
            namespaces.deep_view(),
        ).rendered(parts.deep_view()),
{
    let ghost views = parts.deep_view();
    let ghost scope = scope_at(document@, node as int, variables@, namespaces.deep_view());
    let mut texts: Vec<String> = Vec::new();
    let mut i: usize = 0;
    assert(views.skip(0) == views);
    assert(texts.deep_view() == Seq::<Seq<char>>::empty());
    while i < parts.len()
        invariant
            i <= parts@.len(),
            node < document@.nodes.len(),
            crate::xpath::scope_is_in(variables@, document@),
            views == parts.deep_view(),
            scope == scope_at(document@, node as int, variables@, namespaces.deep_view()),
            semantics::prepend(
                texts.deep_view(),
                scope.part_texts(views.skip(i as int)),
            ) == scope.part_texts(views),
        decreases parts@.len() - i,
    {
        let ghost before = texts.deep_view();
        let ghost rest = views.skip(i as int);
        assert(rest[0] == parts@[i as int].deep_view());
        assert(rest.skip(1) == views.skip(i + 1));
        let text = match &parts[i] {
            MessagePart::Text(text) => text.clone(),
            MessagePart::ValueOf(select) => {
                match evaluate_xpath(select.as_str(), document, node, variables, namespaces) {
                    Ok(value) => string_of(&value),
                    Err(error) => {
                        return Err(error);
                    },
                }
            },
            MessagePart::Name(path) => {
                let expression = name_call(path);
                match evaluate_xpath(expression.as_str(), document, node, variables, namespaces) {
                    Ok(value) => string_of(&value),
                    Err(error) => {
                        return Err(error);
                    },
                }
            },
        };
        let ghost own = text@;
        texts.push(text);
        proof {
            assert(scope.part_text(rest[0]) == Ok::<Seq<char>, SchematronEvalErrorView>(own));
            assert(texts.deep_view() == before.push(own));
            if let Ok(more) = scope.part_texts(rest.skip(1)) {
                assert(before + (seq![own] + more) == texts.deep_view() + more);
            }
        }
        i += 1;
    }
    assert(views.skip(i as int).len() == 0);
    assert(texts.deep_view() + Seq::<Seq<char>>::empty() == texts.deep_view());
    Ok(finish_message(&texts))
}

/// The expression that gives the name of the node at `path`, or of the
/// context node.
fn name_call(path: &Option<String>) -> (result: String)
    ensures
        result@ == semantics::name_expression(path.deep_view()),
{
    match path {
        Some(path) => {
            let mut expression = "name(".to_owned();
            expression.push_str(path.as_str());
            expression.push_str(")");
            expression
        },
        None => "name()".to_owned(),
    }
}

/// The diagnostic with the identifier `id`.
fn find_diagnostic<'d>(diagnostics: &'d Vec<Diagnostic>, id: &str) -> (result: Option<
    &'d Diagnostic,
>)
    ensures
        match result {
            Some(diagnostic) => semantics::diagnostic_named(diagnostics.deep_view(), id@) == Some(
                diagnostic.deep_view(),
            ),
            None => semantics::diagnostic_named(diagnostics.deep_view(), id@) is None,
        },
{
    let ghost views = diagnostics.deep_view();
    let mut i: usize = 0;
    assert(views.skip(0) == views);
    while i < diagnostics.len()
        invariant
            i <= diagnostics@.len(),
            views == diagnostics.deep_view(),
            semantics::diagnostic_named(views.skip(i as int), id@)
                == semantics::diagnostic_named(views, id@),
        decreases diagnostics@.len() - i,
    {
        assert(views.skip(i as int)[0] == diagnostics@[i as int].deep_view());
        assert(views.skip(i as int).skip(1) == views.skip(i + 1));
        if diagnostics[i].id.as_str().eq(id) {
            return Some(&diagnostics[i]);
        }
        i += 1;
    }
    None
}

/// Renders the diagnostics `ids` at a node; identifiers that name none are
/// passed over.
fn render_diagnostics<'a>(
    ids: &Vec<String>,
    diagnostics: &Vec<Diagnostic>,
    document: &'a Document,
    node: usize,
    variables: &Vec<(String, xpath_eval::Value<Handle<'a>>)>,
    namespaces: &Vec<NamespaceBinding>,
) -> (result: Result<Vec<String>, SchematronEvalError>)
    requires
        node < document@.nodes.len(),
        crate::xpath::scope_is_in(variables@, document@),
    ensures
        outcome(result) == scope_at(
            document@,
            node as int,
            variables@,
            namespaces.deep_view(),
        ).rendered_diagnostics(ids.deep_view(), diagnostics.deep_view()),
{
    let ghost views = ids.deep_view();
    let ghost known = diagnostics.deep_view();
    let ghost scope = scope_at(document@, node as int, variables@, namespaces.deep_view());
    let mut rendered: Vec<String> = Vec::new();
    let mut i: usize = 0;
    assert(views.skip(0) == views);
    assert(rendered.deep_view() == Seq::<Seq<char>>::empty());
    while i < ids.len()
        invariant
            i <= ids@.len(),
            node < document@.nodes.len(),
            crate::xpath::scope_is_in(variables@, document@),
            views == ids.deep_view(),
            known == diagnostics.deep_view(),
            scope == scope_at(document@, node as int, variables@, namespaces.deep_view()),
            semantics::prepend(
                rendered.deep_view(),
                scope.rendered_diagnostics(views.skip(i as int), known),
            ) == scope.rendered_diagnostics(views, known),
        decreases ids@.len() - i,
    {
        let ghost before = rendered.deep_view();
        let ghost rest = views.skip(i as int);
        assert(rest[0] == ids@[i as int]@);
        assert(rest.skip(1) == views.skip(i + 1));
        if let Some(diagnostic) = find_diagnostic(diagnostics, ids[i].as_str()) {
            match render_message(&diagnostic.message, document, node, variables, namespaces) {
                Ok(text) => {
                    let ghost own = text@;
                    rendered.push(text);
                    assert(rendered.deep_view() == before.push(own));
                    proof {
                        if let Ok(more) = scope.rendered_diagnostics(rest.skip(1), known) {
                            assert(before + (seq![own] + more) == rendered.deep_view() + more);
                        }
                    }
                },
                Err(error) => {
                    return Err(error);
                },
            }
        }
        i += 1;
    }
    assert(views.skip(i as int).len() == 0);
    assert(rendered.deep_view() + Seq::<Seq<char>>::empty() == rendered.deep_view());
    Ok(rendered)
}

/// Evaluates a check at a node: its report where it fires, else `None`. Only
/// the message of a check that fires is rendered.
fn evaluate_check<'a>(
    check: &Check,
    document: &'a Document,
    node: usize,
    pattern_id: &Option<String>,
    variables: &Vec<(String, xpath_eval::Value<Handle<'a>>)>,
    namespaces: &Vec<NamespaceBinding>,
    diagnostics: &Vec<Diagnostic>,
) -> (result: Result<Option<Report<usize>>, SchematronEvalError>)
    requires
        node < document@.nodes.len(),
        crate::xpath::scope_is_in(variables@, document@),
    ensures
        match (
            result,
            scope_at(document@, node as int, variables@, namespaces.deep_view()).checked(
                check.deep_view(),
                pattern_id.deep_view(),
                diagnostics.deep_view(),
            ),
        ) {
            (Ok(Some(report)), Ok(reports)) => reports == seq![report.deep_view()],
            (Ok(None), Ok(reports)) => reports.len() == 0,
            (Err(error), Err(view)) => error.deep_view() == view,
            _ => false,
        },
{
    let value = match evaluate_xpath(
        check.test.as_str(),
        document,
        node,
        variables,
        namespaces,
    ) {
        Ok(value) => value,
        Err(error) => {
            return Err(error);
        },
    };
    if !check_fires(check.kind, boolean_of(&value)) {
        return Ok(None);
    }
    let message = match render_message(&check.message, document, node, variables, namespaces) {
        Ok(message) => message,
        Err(error) => {
            return Err(error);
        },
    };
    let rendered = match render_diagnostics(
        &check.diagnostics,
        diagnostics,
        document,
        node,
        variables,
        namespaces,
    ) {
        Ok(rendered) => rendered,
        Err(error) => {
            return Err(error);
        },
    };
    Ok(
        Some(
            Report {
                pattern_id: copied(pattern_id.as_ref()),
                check_id: copied(check.id.as_ref()),
                role: copied(check.role.as_ref()),
                kind: check.kind,
                message,
                diagnostics: rendered,
                node,
            },
        ),
    )
}

/// Applies a rule at a node: binds its variables there and evaluates its
/// checks, appending their reports.
fn apply_rule_at<'a>(
    rule: &Rule,
    document: &'a Document,
    node: usize,
    pattern_id: &Option<String>,
    variables: &mut Vec<(String, xpath_eval::Value<Handle<'a>>)>,
    namespaces: &Vec<NamespaceBinding>,
    diagnostics: &Vec<Diagnostic>,
    reports: &mut Vec<Report<usize>>,
) -> (result: Result<(), SchematronEvalError>)
    requires
        node < document@.nodes.len(),
        crate::xpath::scope_is_in(old(variables)@, document@),
    ensures
        match (
            result,
            scope_at(document@, 0, old(variables)@, namespaces.deep_view()).rule_at(
                node as int,
                rule.deep_view(),
                pattern_id.deep_view(),
                diagnostics.deep_view(),
            ),
        ) {
            (Ok(_), Ok(more)) => {
                &&& final(variables)@ == old(variables)@
                &&& final(reports).deep_view() == old(reports).deep_view() + more
            },
            (Err(error), Err(view)) => error.deep_view() == view,
            _ => false,
        },
{
    let outer: usize = variables.len();
    if let Err(error) = extend_lets(&rule.lets, document, node, variables, namespaces) {
        return Err(error);
    }
    let ghost scope = scope_at(document@, node as int, variables@, namespaces.deep_view());
    let ghost checks = rule.checks.deep_view();
    let ghost id = pattern_id.deep_view();
    let ghost known = diagnostics.deep_view();
    let ghost whole = semantics::prepend(reports.deep_view(), scope.all_checked(checks, id, known));
    let mut i: usize = 0;
    assert(checks.skip(0) == checks);
    while i < rule.checks.len()
        invariant
            i <= rule.checks@.len(),
            node < document@.nodes.len(),
            crate::xpath::scope_is_in(variables@, document@),
            outer == old(variables)@.len(),
            outer <= variables@.len(),
            variables@.take(outer as int) == old(variables)@,
            checks == rule.checks.deep_view(),
            id == pattern_id.deep_view(),
            known == diagnostics.deep_view(),
            scope == scope_at(document@, node as int, variables@, namespaces.deep_view()),
            scope_at(document@, 0, old(variables)@, namespaces.deep_view()).at(
                node as int,
            ).extended(rule.lets.deep_view()) == Ok::<Scope, SchematronEvalErrorView>(scope),
            whole == semantics::prepend(
                old(reports).deep_view(),
                scope.all_checked(checks, id, known),
            ),
            semantics::prepend(
                reports.deep_view(),
                scope.all_checked(checks.skip(i as int), id, known),
            ) == whole,
        decreases rule.checks@.len() - i,
    {
        let ghost before = reports.deep_view();
        let ghost rest = checks.skip(i as int);
        assert(rest[0] == rule.checks@[i as int].deep_view());
        assert(rest.skip(1) == checks.skip(i + 1));
        match evaluate_check(
            &rule.checks[i],
            document,
            node,
            pattern_id,
            variables,
            namespaces,
            diagnostics,
        ) {
            Ok(Some(report)) => {
                reports.push(report);
                assert(reports.deep_view() == before + seq![report.deep_view()]);
            },
            Ok(None) => {
                assert(reports.deep_view() == before + Seq::<ReportView>::empty());
            },
            Err(error) => {
                return Err(error);
            },
        }
        proof {
            let own = scope.checked(rest[0], id, known)->Ok_0;
            assert(reports.deep_view() == before + own);
            if let Ok(more) = scope.all_checked(rest.skip(1), id, known) {
                assert(before + (own + more) == reports.deep_view() + more);
            }
        }
        i += 1;
    }
    assert(checks.skip(i as int).len() == 0);
    assert(reports.deep_view() + Seq::<ReportView>::empty() == reports.deep_view());
    variables.truncate(outer);
    Ok(())
}

/// The nodes that `flags` marks.
pub open spec fn marked(flags: Seq<bool>) -> Set<int> {
    Set::new(|n: int| 0 <= n < flags.len() && flags[n])
}

/// `count` flags that mark nothing.
fn no_marks(count: usize) -> (result: Vec<bool>)
    ensures
        result@.len() == count,
        marked(result@) == Set::<int>::empty(),
{
    let mut flags: Vec<bool> = Vec::new();
    let mut n: usize = 0;
    while n < count
        invariant
            n <= count,
            flags@.len() == n,
            forall|k: int| 0 <= k < n ==> !(#[trigger] flags@[k]),
        decreases count - n,
    {
        flags.push(false);
        n += 1;
    }
    assert(marked(flags@) == Set::<int>::empty());
    flags
}

/// The nodes that a rule with the context `context` applies to, given the
/// node-set that the context's path evaluates to, among `count` nodes; `None`
/// stands for a value that is not a node-set.
pub fn context_nodes(nodes: Option<Vec<Handle<'_>>>, context: &str, count: usize) -> (result:
    Result<Vec<bool>, SchematronEvalError>)
    requires
        nodes matches Some(list) ==> forall|i: int|
            0 <= i < list@.len() ==> (#[trigger] list@[i]).index < count,
    ensures
        match nodes {
            Some(list) => result matches Ok(flags) && flags@.len() == count && marked(flags@)
                == semantics::indices(list.deep_view()),
            None => result matches Err(error) && error.deep_view() == (
            SchematronEvalErrorView::ContextNotNodeSet { context: context@ }),
        },
{
    let list = match nodes {
        Some(list) => list,
        None => {
            return Err(SchematronEvalError::ContextNotNodeSet { context: context.to_owned() });
        },
    };
    let ghost views = list.deep_view();
    let mut flags = no_marks(count);
    let mut i: usize = 0;
    while i < list.len()
        invariant
            i <= list@.len(),
            flags@.len() == count,
            views == list.deep_view(),
            forall|i: int| 0 <= i < list@.len() ==> (#[trigger] list@[i]).index < count,
            marked(flags@) == semantics::indices(views.take(i as int)),
        decreases list@.len() - i,
    {
        let ghost before = flags@;
        let index: usize = list[i].index;
        assert(views.take(i + 1).drop_last() == views.take(i as int));
        assert(views.take(i + 1).last() == list@[i as int].deep_view());
        flags.set(index, true);
        assert(marked(flags@) == marked(before).insert(index as int));
        i += 1;
    }
    assert(views.take(i as int) == views);
    Ok(flags)
}

/// Selects the nodes that a rule with this context applies to.
fn select_nodes<'a>(
    context: &str,
    document: &'a Document,
    variables: &Vec<(String, xpath_eval::Value<Handle<'a>>)>,
    namespaces: &Vec<NamespaceBinding>,
) -> (result: Result<Vec<bool>, SchematronEvalError>)
    requires
        document@.nodes.len() > 0,
        crate::xpath::scope_is_in(variables@, document@),
    ensures
        match (
            result,
            scope_at(document@, 0, variables@, namespaces.deep_view()).selected(context@),
        ) {
            (Ok(flags), Ok(nodes)) => flags@.len() == document@.nodes.len() && marked(flags@)
                == nodes,
            (Err(error), Err(view)) => error.deep_view() == view,
            _ => false,
        },
{
    let path = path_of_context(context);
    let value = match evaluate_xpath(path.as_str(), document, 0, variables, namespaces) {
        Ok(value) => value,
        Err(error) => {
            return Err(error);
        },
    };
    let nodes = node_set(value);
    proof {
        if let Some(list) = &nodes {
            assert forall|i: int| 0 <= i < list@.len() implies (#[trigger] list@[i]).index
                < document@.nodes.len() by {
                assert(list.deep_view()[i].is_in(document@));
            }
        }
    }
    context_nodes(nodes, context, document.len())
}

/// The nodes that are `selected` and not yet `claimed`, in document order; all
/// that are selected are then claimed.
pub fn claim_nodes(selected: &Vec<bool>, claimed: &mut Vec<bool>) -> (result: Vec<usize>)
    requires
        selected@.len() == old(claimed)@.len(),
    ensures
        crate::xml::lists(
            result@,
            semantics::due(
                marked(selected@),
                marked(old(claimed)@),
                selected@.len() as int,
            ),
        ),
        final(claimed)@.len() == old(claimed)@.len(),
        marked(final(claimed)@) == marked(old(claimed)@).union(marked(selected@)),
        forall|i: int| 0 <= i < result@.len() ==> #[trigger] result@[i] < selected@.len(),
{
    let ghost before = claimed@;
    let mut nodes: Vec<usize> = Vec::new();
    let mut n: usize = 0;
    while n < selected.len()
        invariant
            n <= selected@.len(),
            before == old(claimed)@,
            selected@.len() == before.len(),
            claimed@.len() == before.len(),
            forall|k: int|
                0 <= k < before.len() ==> #[trigger] claimed@[k] == (before[k] || (k < n
                    && selected@[k])),
            crate::xml::lists(
                nodes@,
                semantics::due(marked(selected@), marked(before), n as int),
            ),
            forall|i: int| 0 <= i < nodes@.len() ==> #[trigger] nodes@[i] < n,
        decreases selected@.len() - n,
    {
        assert(marked(selected@).contains(n as int) == selected@[n as int]);
        assert(marked(before).contains(n as int) == before[n as int]);
        assert(claimed@[n as int] == before[n as int]);
        if selected[n] && !claimed[n] {
            claimed.set(n, true);
            nodes.push(n);
        }
        n += 1;
    }
    assert(marked(claimed@) == marked(before).union(marked(selected@)));
    nodes
}

/// Applies a rule to the nodes it selects that are not claimed, in document
/// order, appending reports; these nodes are then claimed.
fn apply_rule<'a>(
    rule: &Rule,
    document: &'a Document,
    pattern_id: &Option<String>,
    variables: &mut Vec<(String, xpath_eval::Value<Handle<'a>>)>,
    namespaces: &Vec<NamespaceBinding>,
    diagnostics: &Vec<Diagnostic>,
    claimed: &mut Vec<bool>,
    reports: &mut Vec<Report<usize>>,
) -> (result: Result<(), SchematronEvalError>)
    requires
        document@.nodes.len() > 0,
        crate::xpath::scope_is_in(old(variables)@, document@),
        old(claimed)@.len() == document@.nodes.len(),
    ensures
        match scope_at(document@, 0, old(variables)@, namespaces.deep_view()).selected(
            rule.context@,
        ) {
            Err(view) => result matches Err(error) && error.deep_view() == view,
            Ok(nodes) => match (
                result,
                scope_at(document@, 0, old(variables)@, namespaces.deep_view()).rule_over(
                    semantics::due(
                        nodes,
                        marked(old(claimed)@),
                        document@.nodes.len() as int,
                    ),
                    rule.deep_view(),
                    pattern_id.deep_view(),
                    diagnostics.deep_view(),
                ),
            ) {
                (Ok(_), Ok(more)) => {
                    &&& final(variables)@ == old(variables)@
                    &&& final(reports).deep_view() == old(reports).deep_view() + more
                    &&& final(claimed)@.len() == document@.nodes.len()
                    &&& marked(final(claimed)@) == marked(old(claimed)@).union(nodes)
                },
                (Err(error), Err(view)) => error.deep_view() == view,
                _ => false,
            },
        },
{
    let selected = match select_nodes(rule.context.as_str(), document, variables, namespaces) {
        Ok(selected) => selected,
        Err(error) => {
            return Err(error);
        },
    };
    let list = claim_nodes(&selected, claimed);
    let ghost scope = scope_at(document@, 0, variables@, namespaces.deep_view());
    let ghost taken = marked(claimed@);
    let ghost nodes = semantics::due(
        marked(selected@),
        marked(old(claimed)@),
        document@.nodes.len() as int,
    );
    let ghost id = pattern_id.deep_view();
    let ghost known = diagnostics.deep_view();
    let ghost view = rule.deep_view();
    let ghost whole = semantics::prepend(
        reports.deep_view(),
        scope.rule_over(nodes, view, id, known),
    );
    let mut i: usize = 0;
    assert(nodes.skip(0) == nodes);
    while i < list.len()
        invariant
            i <= list@.len(),
            crate::xml::lists(list@, nodes),
            forall|i: int| 0 <= i < list@.len() ==> #[trigger] list@[i] < document@.nodes.len(),
            variables@ == old(variables)@,
            crate::xpath::scope_is_in(variables@, document@),
            scope == scope_at(document@, 0, variables@, namespaces.deep_view()),
            view == rule.deep_view(),
            id == pattern_id.deep_view(),
            known == diagnostics.deep_view(),
            scope.selected(rule.context@) == Ok::<Set<int>, SchematronEvalErrorView>(
                marked(selected@),
            ),
            nodes == semantics::due(
                marked(selected@),
                marked(old(claimed)@),
                document@.nodes.len() as int,
            ),
            whole == semantics::prepend(
                old(reports).deep_view(),
                scope.rule_over(nodes, view, id, known),
            ),
            semantics::prepend(
                reports.deep_view(),
                scope.rule_over(nodes.skip(i as int), view, id, known),
            ) == whole,
        decreases list@.len() - i,
    {
        let ghost before = reports.deep_view();
        let ghost rest = nodes.skip(i as int);
        let n: usize = list[i];
        assert(rest[0] == n);
        assert(rest.skip(1) == nodes.skip(i + 1));
        if let Err(error) = apply_rule_at(
            rule,
            document,
            n,
            pattern_id,
            variables,
            namespaces,
            diagnostics,
            reports,
        ) {
            return Err(error);
        }
        proof {
            let own = scope.rule_at(n as int, view, id, known)->Ok_0;
            if let Ok(more) = scope.rule_over(rest.skip(1), view, id, known) {
                assert(before + (own + more) == reports.deep_view() + more);
            }
        }
        i += 1;
    }
    assert(nodes.skip(i as int).len() == 0);
    assert(reports.deep_view() + Seq::<ReportView>::empty() == reports.deep_view());
    Ok(())
}

/// Applies a pattern: binds its variables and applies its rules in order,
/// appending reports.
fn apply_pattern<'a>(
    pattern: &Pattern,
    document: &'a Document,
    variables: &mut Vec<(String, xpath_eval::Value<Handle<'a>>)>,
    namespaces: &Vec<NamespaceBinding>,
    diagnostics: &Vec<Diagnostic>,
    reports: &mut Vec<Report<usize>>,
) -> (result: Result<(), SchematronEvalError>)
    requires
        document@.nodes.len() > 0,
        crate::xpath::scope_is_in(old(variables)@, document@),
    ensures
        match (
            result,
            scope_at(document@, 0, old(variables)@, namespaces.deep_view()).pattern_applied(
                pattern.deep_view(),
                diagnostics.deep_view(),
            ),
        ) {
            (Ok(_), Ok(more)) => {
                &&& final(variables)@ == old(variables)@
                &&& final(reports).deep_view() == old(reports).deep_view() + more
            },
            (Err(error), Err(view)) => error.deep_view() == view,
            _ => false,
        },
{
    let outer: usize = variables.len();
    if let Err(error) = extend_lets(&pattern.lets, document, 0, variables, namespaces) {
        return Err(error);
    }
    let mut claimed = no_marks(document.len());
    let ghost scope = scope_at(document@, 0, variables@, namespaces.deep_view());
    let ghost rules = pattern.rules.deep_view();
    let ghost id = pattern.id.deep_view();
    let ghost known = diagnostics.deep_view();
    let ghost inner = variables@;
    let ghost whole = semantics::prepend(
        reports.deep_view(),
        scope.rules_applied(rules, marked(claimed@), id, known),
    );
    let mut i: usize = 0;
    assert(rules.skip(0) == rules);
    while i < pattern.rules.len()
        invariant
            i <= pattern.rules@.len(),
            document@.nodes.len() > 0,
            outer == old(variables)@.len(),
            outer <= inner.len(),
            inner.take(outer as int) == old(variables)@,
            variables@ == inner,
            crate::xpath::scope_is_in(inner, document@),
            claimed@.len() == document@.nodes.len(),
            rules == pattern.rules.deep_view(),
            id == pattern.id.deep_view(),
            known == diagnostics.deep_view(),
            scope == scope_at(document@, 0, inner, namespaces.deep_view()),
            scope_at(document@, 0, old(variables)@, namespaces.deep_view()).extended(
                pattern.lets.deep_view(),
            ) == Ok::<Scope, SchematronEvalErrorView>(scope),
            whole == semantics::prepend(
                old(reports).deep_view(),
                scope.rules_applied(rules, Set::empty(), id, known),
            ),
            semantics::prepend(
                reports.deep_view(),
                scope.rules_applied(rules.skip(i as int), marked(claimed@), id, known),
            ) == whole,
        decreases pattern.rules@.len() - i,
    {
        let ghost before = reports.deep_view();
        let ghost taken = marked(claimed@);
        let ghost rest = rules.skip(i as int);
        assert(rest[0] == pattern.rules@[i as int].deep_view());
        assert(rest.skip(1) == rules.skip(i + 1));
        if let Err(error) = apply_rule(
            &pattern.rules[i],
            document,
            &pattern.id,
            variables,
            namespaces,
            diagnostics,
            &mut claimed,
            reports,
        ) {
            return Err(error);
        }
        proof {
            let nodes = scope.selected(rest[0].context)->Ok_0;
            let list = semantics::due(nodes, taken, document@.nodes.len() as int);
            let own = scope.rule_over(list, rest[0], id, known)->Ok_0;
            if let Ok(more) = scope.rules_applied(rest.skip(1), marked(claimed@), id, known) {
                assert(before + (own + more) == reports.deep_view() + more);
            }
        }
        i += 1;
    }
    assert(rules.skip(i as int).len() == 0);
    assert(reports.deep_view() + Seq::<ReportView>::empty() == reports.deep_view());
    variables.truncate(outer);
    Ok(())
}

/// The phase with the identifier `id`.
fn find_phase<'s>(phases: &'s Vec<Phase>, id: &str) -> (result: Option<&'s Phase>)
    ensures
        match result {
            Some(phase) => semantics::phase_named(phases.deep_view(), id@) == Some(
                phase.deep_view(),
            ),
            None => semantics::phase_named(phases.deep_view(), id@) is None,
        },
{
    let ghost views = phases.deep_view();
    let mut i: usize = 0;
    assert(views.skip(0) == views);
    while i < phases.len()
        invariant
            i <= phases@.len(),
            views == phases.deep_view(),
            semantics::phase_named(views.skip(i as int), id@) == semantics::phase_named(views, id@),
        decreases phases@.len() - i,
    {
        assert(views.skip(i as int)[0] == phases@[i as int].deep_view());
        assert(views.skip(i as int).skip(1) == views.skip(i + 1));
        if phases[i].id.as_str().eq(id) {
            return Some(&phases[i]);
        }
        i += 1;
    }
    None
}

/// The view of an optional phase.
pub open spec fn phase_view(phase: Option<&Phase>) -> Option<PhaseView> {
    match phase {
        Some(phase) => Some(phase.deep_view()),
        None => None,
    }
}

/// Whether a pattern is evaluated in `phase`; without a phase every one is.
fn pattern_is_active(pattern: &Pattern, phase: Option<&Phase>) -> (result: bool)
    ensures
        result == semantics::is_active(pattern.deep_view(), phase_view(phase)),
{
    match phase {
        None => true,
        Some(phase) => match &pattern.id {
            Some(id) => contains_text(&phase.active, id.as_str()),
            None => false,
        },
    }
}

/// Evaluates `schema` against `document`, restricted to `phase`.
fn evaluate_in_phase(schema: &Schema, document: &Document, phase: Option<&Phase>) -> (result:
    Result<Vec<Report<usize>>, SchematronEvalError>)
    ensures
        outcome(result) == semantics::evaluated_in(
            schema.deep_view(),
            document@,
            phase_view(phase),
        ),
{
    // A document has at least its root, at which these bindings are evaluated.
    let _count: usize = document.len();
    let mut variables: Vec<(String, xpath_eval::Value<Handle<'_>>)> = Vec::new();
    assert(crate::xpath::scope(variables@) == Map::<Seq<char>, XPathValueView>::empty());
    if let Err(error) = extend_lets(&schema.lets, document, 0, &mut variables, &schema.ns) {
        return Err(error);
    }
    let none: Vec<LetBinding> = Vec::new();
    assert(none.deep_view() == Seq::<LetBindingView>::empty());
    let phase_lets = match phase {
        Some(phase) => &phase.lets,
        None => &none,
    };
    if let Err(error) = extend_lets(phase_lets, document, 0, &mut variables, &schema.ns) {
        return Err(error);
    }
    let ghost scope = scope_at(document@, 0, variables@, schema.ns.deep_view());
    let ghost patterns = schema.patterns.deep_view();
    let ghost known = schema.diagnostics.deep_view();
    let ghost selected = phase_view(phase);
    let ghost inner = variables@;
    let mut reports: Vec<Report<usize>> = Vec::new();
    let mut i: usize = 0;
    assert(patterns.skip(0) == patterns);
    assert(reports.deep_view() == Seq::<ReportView>::empty());
    let ghost meaning = semantics::evaluated_in(schema.deep_view(), document@, selected);
    assert(meaning == scope.patterns_applied(patterns, selected, known));
    proof {
        if let Ok(all) = scope.patterns_applied(patterns, selected, known) {
            assert(Seq::<ReportView>::empty() + all == all);
        }
    }
    while i < schema.patterns.len()
        invariant
            i <= schema.patterns@.len(),
            document@.nodes.len() > 0,
            variables@ == inner,
            crate::xpath::scope_is_in(inner, document@),
            scope == scope_at(document@, 0, inner, schema.ns.deep_view()),
            patterns == schema.patterns.deep_view(),
            known == schema.diagnostics.deep_view(),
            selected == phase_view(phase),
            meaning == semantics::evaluated_in(schema.deep_view(), document@, selected),
            meaning == scope.patterns_applied(patterns, selected, known),
            semantics::prepend(
                reports.deep_view(),
                scope.patterns_applied(patterns.skip(i as int), selected, known),
            ) == scope.patterns_applied(patterns, selected, known),
        decreases schema.patterns@.len() - i,
    {
        let ghost before = reports.deep_view();
        let ghost rest = patterns.skip(i as int);
        assert(rest[0] == schema.patterns@[i as int].deep_view());
        assert(rest.skip(1) == patterns.skip(i + 1));
        if pattern_is_active(&schema.patterns[i], phase) {
            if let Err(error) = apply_pattern(
                &schema.patterns[i],
                document,
                &mut variables,
                &schema.ns,
                &schema.diagnostics,
                &mut reports,
            ) {
                return Err(error);
            }
            proof {
                let own = scope.pattern_applied(rest[0], known)->Ok_0;
                if let Ok(more) = scope.patterns_applied(rest.skip(1), selected, known) {
                    assert(before + (own + more) == reports.deep_view() + more);
                }
            }
        }
        i += 1;
    }
    assert(patterns.skip(i as int).len() == 0);
    assert(reports.deep_view() + Seq::<ReportView>::empty() == reports.deep_view());
    Ok(reports)
}

/// Evaluates `schema` against `document`, restricted to the patterns that the
/// phase named `phase_id` activates; `None` means every pattern. One report
/// is returned for each check that fires, in the order of patterns, rules,
/// nodes and checks; `Report::node` is a node's index in the document.
pub fn evaluate_with_phase(schema: &Schema, document: &Document, phase_id: Option<&str>) -> (result:
    Result<Vec<Report<usize>>, SchematronEvalError>)
    ensures
        outcome(result) == semantics::evaluated(
            schema.deep_view(),
            document@,
            phase_id.deep_view(),
        ),
{
    match phase_id {
        None => evaluate_in_phase(schema, document, None),
        Some(id) => match find_phase(&schema.phases, id) {
            Some(phase) => evaluate_in_phase(schema, document, Some(phase)),
            None => Err(SchematronEvalError::UnknownPhase { phase: id.to_owned() }),
        },
    }
}

/// Evaluates `schema` against `document` in the schema's default phase if it
/// has one, else over every pattern.
pub fn evaluate(schema: &Schema, document: &Document) -> (result: Result<
    Vec<Report<usize>>,
    SchematronEvalError,
>)
    ensures
        outcome(result) == semantics::evaluated(
            schema.deep_view(),
            document@,
            schema.default_phase.deep_view(),
        ),
{
    match &schema.default_phase {
        Some(id) => evaluate_with_phase(schema, document, Some(id.as_str())),
        None => evaluate_with_phase(schema, document, None),
    }
}

} // verus!
