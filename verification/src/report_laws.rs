//! What evaluation is for: the reports of a schema on a document are those of
//! the checks that fire, each once and in order.
//!
//! The statements here speak of XPath values and of the schema's own parts;
//! none of them goes through the definitions of [`crate::semantics`] but for
//! the result that they are about.

use vstd::prelude::*;

use crate::document::{DocumentView, NodeRef, Place};
use crate::evaluation_laws;
use crate::schema::{
    CheckKind, CheckView, DiagnosticView, LetBindingView, LetValueView, MessagePartView,
    NamespaceBindingView, PatternView, PhaseView, RuleView, SchemaView,
};
use crate::semantics;
use crate::semantics::{ReportView, SchematronEvalErrorView, Scope};
use crate::text;
use crate::xpath;
use crate::xpath::XPathValueView;

verus! {

/// Whether the expression `text` has the value `value` in `scope`.
pub open spec fn gives(scope: Scope, text: Seq<char>, value: XPathValueView) -> bool {
    &&& xpath::xpath_expression(text) is Ok
    &&& xpath::xpath_value(
        xpath::xpath_expression(text)->Ok_0,
        NodeRef { document: scope.document, index: scope.node },
        scope.variables,
        scope.namespaces,
    ) == Ok::<XPathValueView, xpath::XPathEvalErrorView>(value)
}

/// `variables` with the names of `lets` bound to `values`, one after the
/// other.
pub open spec fn bound_to(
    variables: Map<Seq<char>, XPathValueView>,
    lets: Seq<LetBindingView>,
    values: Seq<XPathValueView>,
) -> Map<Seq<char>, XPathValueView>
    decreases lets.len(),
{
    if lets.len() == 0 {
        variables
    } else {
        bound_to(variables, lets.drop_last(), values.drop_last()).insert(
            lets.last().name,
            values.last(),
        )
    }
}

/// `scope` with other variables.
pub open spec fn with_variables(
    scope: Scope,
    variables: Map<Seq<char>, XPathValueView>,
) -> Scope {
    Scope {
        document: scope.document,
        node: scope.node,
        variables,
        namespaces: scope.namespaces,
    }
}

/// `scope` at another node.
pub open spec fn at_node(scope: Scope, node: int) -> Scope {
    Scope {
        document: scope.document,
        node,
        variables: scope.variables,
        namespaces: scope.namespaces,
    }
}

/// Whether a `<let>` with this value binds its name to `value` in `scope`.
pub open spec fn let_gives(scope: Scope, content: LetValueView, value: XPathValueView) -> bool {
    match content {
        LetValueView::Expr(text) => gives(scope, text, value),
        LetValueView::Literal(text) => value == XPathValueView::Text(text),
    }
}

/// Whether each of `lets` has the value of the same index, given those before
/// it.
pub open spec fn let_values(
    scope: Scope,
    lets: Seq<LetBindingView>,
    values: Seq<XPathValueView>,
) -> bool {
    &&& values.len() == lets.len()
    &&& forall|i: int|
        0 <= i < lets.len() ==> let_gives(
            with_variables(scope, bound_to(scope.variables, lets.take(i), values.take(i))),
            lets[i].value,
            #[trigger] values[i],
        )
}

/// Whether `inner` is `outer` with `lets` bound.
pub open spec fn binds(outer: Scope, lets: Seq<LetBindingView>, inner: Scope) -> bool {
    exists|values: Seq<XPathValueView>| #[trigger]
        let_values(outer, lets, values) && inner == with_variables(
            outer,
            bound_to(outer.variables, lets, values),
        )
}

proof fn lemma_bound_to_front(
    variables: Map<Seq<char>, XPathValueView>,
    lets: Seq<LetBindingView>,
    values: Seq<XPathValueView>,
)
    requires
        lets.len() > 0,
        values.len() == lets.len(),
    ensures
        bound_to(variables, lets, values) == bound_to(
            variables.insert(lets[0].name, values[0]),
            lets.skip(1),
            values.skip(1),
        ),
    decreases lets.len(),
{
    if lets.len() == 1 {
        assert(bound_to(variables, lets.drop_last(), values.drop_last()) == variables);
        assert(lets.last() == lets[0] && values.last() == values[0]);
    } else {
        lemma_bound_to_front(variables, lets.drop_last(), values.drop_last());
        assert(lets.drop_last().skip(1) == lets.skip(1).drop_last());
        assert(values.drop_last().skip(1) == values.skip(1).drop_last());
        assert(lets.skip(1).last() == lets.last());
        assert(values.skip(1).last() == values.last());
    }
}

/// What the first value and the values of the rest bind, all of them bind.
proof fn lemma_binds_all(
    outer: Scope,
    lets: Seq<LetBindingView>,
    inner: Scope,
    value: XPathValueView,
)
    requires
        lets.len() > 0,
        outer.let_value(lets[0].value) == Ok::<XPathValueView, SchematronEvalErrorView>(value),
        binds(outer.with(lets[0].name, value), lets.skip(1), inner),
    ensures
        binds(outer, lets, inner),
{
    let rest = lets.skip(1);
    let first = lets[0];
    assert(lets.take(0).len() == 0);
    let next = outer.with(first.name, value);
    let more = choose|values: Seq<XPathValueView>| #[trigger]
        let_values(next, rest, values) && inner == with_variables(
            next,
            bound_to(next.variables, rest, values),
        );
    let values = seq![value] + more;
    assert(values.skip(1) == more);
    lemma_bound_to_front(outer.variables, lets, values);
    assert forall|i: int| 0 <= i < lets.len() implies let_gives(
        with_variables(outer, bound_to(outer.variables, lets.take(i), values.take(i))),
        lets[i].value,
        #[trigger] values[i],
    ) by {
        if i == 0 {
            assert(values.take(0).len() == 0);
            assert(with_variables(outer, outer.variables) == outer);
        } else {
            lemma_bound_to_front(outer.variables, lets.take(i), values.take(i));
            assert(lets.take(i).skip(1) == rest.take(i - 1));
            assert(values.take(i).skip(1) == more.take(i - 1));
            assert(values[i] == more[i - 1]);
            assert(rest[i - 1] == lets[i]);
            assert(with_variables(
                next,
                bound_to(next.variables, rest.take(i - 1), more.take(i - 1)),
            ) == with_variables(
                outer,
                bound_to(outer.variables, lets.take(i), values.take(i)),
            ));
            assert(let_gives(
                with_variables(
                    next,
                    bound_to(next.variables, rest.take(i - 1), more.take(i - 1)),
                ),
                rest[i - 1].value,
                more[i - 1],
            ));
        }
    }
    assert(let_values(outer, lets, values));
    assert(inner == with_variables(outer, bound_to(outer.variables, lets, values)));
}

/// What all values bind, the first and then the rest bind.
proof fn lemma_binds_rest(outer: Scope, lets: Seq<LetBindingView>, inner: Scope) -> (value:
    XPathValueView)
    requires
        lets.len() > 0,
        binds(outer, lets, inner),
    ensures
        outer.let_value(lets[0].value) == Ok::<XPathValueView, SchematronEvalErrorView>(value),
        binds(outer.with(lets[0].name, value), lets.skip(1), inner),
{
    let rest = lets.skip(1);
    let first = lets[0];
    assert(lets.take(0).len() == 0);
    let values = choose|values: Seq<XPathValueView>| #[trigger]
        let_values(outer, lets, values) && inner == with_variables(
            outer,
            bound_to(outer.variables, lets, values),
        );
    let value = values[0];
    let more = values.skip(1);
    assert(values.take(0).len() == 0);
    assert(with_variables(outer, outer.variables) == outer);
    assert(let_gives(
        with_variables(outer, bound_to(outer.variables, lets.take(0), values.take(0))),
        lets[0].value,
        values[0],
    ));
    assert(outer.let_value(first.value) == Ok::<XPathValueView, SchematronEvalErrorView>(
        value,
    ));
    let next = outer.with(first.name, value);
    lemma_bound_to_front(outer.variables, lets, values);
    assert forall|i: int| 0 <= i < rest.len() implies let_gives(
        with_variables(next, bound_to(next.variables, rest.take(i), more.take(i))),
        rest[i].value,
        #[trigger] more[i],
    ) by {
        lemma_bound_to_front(outer.variables, lets.take(i + 1), values.take(i + 1));
        assert(lets.take(i + 1).skip(1) == rest.take(i));
        assert(values.take(i + 1).skip(1) == more.take(i));
        assert(values[i + 1] == more[i]);
        assert(with_variables(
            next,
            bound_to(next.variables, rest.take(i), more.take(i)),
        ) == with_variables(
            outer,
            bound_to(outer.variables, lets.take(i + 1), values.take(i + 1)),
        ));
        assert(let_gives(
            with_variables(
                outer,
                bound_to(outer.variables, lets.take(i + 1), values.take(i + 1)),
            ),
            lets[i + 1].value,
            values[i + 1],
        ));
    }
    assert(let_values(next, rest, more));
    assert(inner == with_variables(next, bound_to(next.variables, rest, more)));
    value
}

/// Binding succeeds with a scope exactly where that scope binds the values.
proof fn lemma_binds(outer: Scope, lets: Seq<LetBindingView>, inner: Scope)
    ensures
        binds(outer, lets, inner) <==> outer.extended(lets) == Ok::<Scope, SchematronEvalErrorView>(
            inner,
        ),
    decreases lets.len(),
{
    if lets.len() == 0 {
        let none: Seq<XPathValueView> = seq![];
        assert(let_values(outer, lets, none));
        assert(bound_to(outer.variables, lets, none) == outer.variables);
        assert(with_variables(outer, outer.variables) == outer);
    } else {
        if let Ok(value) = outer.let_value(lets[0].value) {
            lemma_binds(outer.with(lets[0].name, value), lets.skip(1), inner);
            if outer.extended(lets) == Ok::<Scope, SchematronEvalErrorView>(inner) {
                lemma_binds_all(outer, lets, inner, value);
            }
        }
        if binds(outer, lets, inner) {
            let value = lemma_binds_rest(outer, lets, inner);
        }
    }
}

/// `texts`, one after the other.
pub open spec fn all_of(texts: Seq<Seq<char>>) -> Seq<char>
    decreases texts.len(),
{
    if texts.len() == 0 {
        seq![]
    } else {
        texts[0] + all_of(texts.skip(1))
    }
}

proof fn lemma_joined_front(texts: Seq<Seq<char>>)
    requires
        texts.len() > 0,
    ensures
        crate::error::joined(texts) == texts[0] + crate::error::joined(texts.skip(1)),
    decreases texts.len(),
{
    if texts.len() == 1 {
        assert(texts.drop_last().len() == 0);
        assert(crate::error::joined(texts.drop_last()) == Seq::<char>::empty());
        assert(crate::error::joined(texts.skip(1)) == Seq::<char>::empty());
        assert(Seq::<char>::empty() + texts[0] == texts[0] + Seq::<char>::empty());
    } else {
        lemma_joined_front(texts.drop_last());
        assert(texts.drop_last().skip(1) == texts.skip(1).drop_last());
        assert(texts.skip(1).last() == texts.last());
        assert(texts.drop_last()[0] == texts[0]);
        let middle = crate::error::joined(texts.skip(1).drop_last());
        assert((texts[0] + middle) + texts.last() == texts[0] + (middle + texts.last()));
    }
}

proof fn lemma_all_of(texts: Seq<Seq<char>>)
    ensures
        all_of(texts) == crate::error::joined(texts),
    decreases texts.len(),
{
    if texts.len() > 0 {
        lemma_all_of(texts.skip(1));
        lemma_joined_front(texts);
    }
}

/// Whether one part of a message has this text in `scope`.
pub open spec fn part_gives(scope: Scope, part: MessagePartView, characters: Seq<char>) -> bool {
    match part {
        MessagePartView::Text(text) => characters == text,
        MessagePartView::ValueOf(select) => exists|value: XPathValueView| #[trigger]
            gives(scope, select, value) && characters == value.text(),
        MessagePartView::Name(Some(path)) => exists|value: XPathValueView| #[trigger]
            gives(scope, "name("@ + path + ")"@, value) && characters == value.text(),
        MessagePartView::Name(None) => exists|value: XPathValueView| #[trigger]
            gives(scope, "name()"@, value) && characters == value.text(),
    }
}

/// Whether the parts of a message have these texts in `scope`.
pub open spec fn parts_give(
    scope: Scope,
    parts: Seq<MessagePartView>,
    texts: Seq<Seq<char>>,
) -> bool {
    &&& texts.len() == parts.len()
    &&& forall|i: int| 0 <= i < parts.len() ==> part_gives(scope, parts[i], #[trigger] texts[i])
}

/// Whether a message reads `message` in `scope`: the texts of its parts, one
/// after the other, without the whitespace around the whole.
pub open spec fn renders(scope: Scope, parts: Seq<MessagePartView>, message: Seq<char>) -> bool {
    exists|texts: Seq<Seq<char>>| #[trigger]
        parts_give(scope, parts, texts) && crate::text_laws::is_trim(all_of(texts), message)
}

proof fn lemma_gives(scope: Scope, expression: Seq<char>, value: XPathValueView)
    ensures
        gives(scope, expression, value) <==> scope.value_of(expression) == Ok::<
            XPathValueView,
            SchematronEvalErrorView,
        >(value),
{
}

proof fn lemma_part_gives(scope: Scope, part: MessagePartView, characters: Seq<char>)
    ensures
        part_gives(scope, part, characters) <==> scope.part_text(part) == Ok::<
            Seq<char>,
            SchematronEvalErrorView,
        >(characters),
{
    let expression = match part {
        MessagePartView::Text(text) => text,
        MessagePartView::ValueOf(select) => select,
        MessagePartView::Name(Some(path)) => "name("@ + path + ")"@,
        MessagePartView::Name(None) => "name()"@,
    };
    if let Ok(value) = scope.value_of(expression) {
        assert(gives(scope, expression, value));
    }
}

proof fn lemma_parts_give(scope: Scope, parts: Seq<MessagePartView>, texts: Seq<Seq<char>>)
    ensures
        parts_give(scope, parts, texts) <==> scope.part_texts(parts) == Ok::<
            Seq<Seq<char>>,
            SchematronEvalErrorView,
        >(texts),
    decreases parts.len(),
{
    if parts.len() == 0 {
        if parts_give(scope, parts, texts) {
            assert(texts == Seq::<Seq<char>>::empty());
        }
    } else {
        let rest = parts.skip(1);
        if parts_give(scope, parts, texts) {
            let more = texts.skip(1);
            assert forall|i: int| 0 <= i < rest.len() implies part_gives(
                scope,
                rest[i],
                #[trigger] more[i],
            ) by {
                assert(more[i] == texts[i + 1]);
                assert(rest[i] == parts[i + 1]);
            }
            lemma_parts_give(scope, rest, more);
            lemma_part_gives(scope, parts[0], texts[0]);
            assert(seq![texts[0]] + more == texts);
        }
        if scope.part_texts(parts) == Ok::<Seq<Seq<char>>, SchematronEvalErrorView>(texts) {
            let own = scope.part_text(parts[0])->Ok_0;
            let more = scope.part_texts(rest)->Ok_0;
            lemma_part_gives(scope, parts[0], own);
            lemma_parts_give(scope, rest, more);
            assert forall|i: int| 0 <= i < parts.len() implies part_gives(
                scope,
                parts[i],
                #[trigger] texts[i],
            ) by {
                if i > 0 {
                    assert(texts[i] == more[i - 1]);
                    assert(rest[i - 1] == parts[i]);
                }
            }
        }
    }
}

proof fn lemma_renders(scope: Scope, parts: Seq<MessagePartView>, message: Seq<char>)
    ensures
        renders(scope, parts, message) <==> scope.rendered(parts) == Ok::<
            Seq<char>,
            SchematronEvalErrorView,
        >(message),
{
    if let Ok(texts) = scope.part_texts(parts) {
        lemma_parts_give(scope, parts, texts);
        lemma_all_of(texts);
        crate::text_laws::trimming_takes_the_whitespace_around(all_of(texts), message);
    }
    if renders(scope, parts, message) {
        let texts = choose|texts: Seq<Seq<char>>| #[trigger]
            parts_give(scope, parts, texts) && crate::text_laws::is_trim(all_of(texts), message);
        lemma_parts_give(scope, parts, texts);
    }
}

/// Whether diagnostic `d` is the one that `id` refers to, the first with this
/// identifier.
pub open spec fn is_diagnostic(
    diagnostics: Seq<DiagnosticView>,
    id: Seq<char>,
    d: int,
) -> bool {
    &&& 0 <= d < diagnostics.len()
    &&& diagnostics[d].id == id
    &&& forall|k: int| 0 <= k < d ==> (#[trigger] diagnostics[k]).id != id
}

/// Whether some diagnostic has the identifier `id`.
pub open spec fn is_known(diagnostics: Seq<DiagnosticView>, id: Seq<char>) -> bool {
    exists|d: int| is_diagnostic(diagnostics, id, d)
}

/// Those of `ids` that some diagnostic has.
pub open spec fn known_ids(ids: Seq<Seq<char>>, diagnostics: Seq<DiagnosticView>) -> Seq<Seq<char>>
    decreases ids.len(),
{
    if ids.len() == 0 {
        seq![]
    } else if is_known(diagnostics, ids[0]) {
        seq![ids[0]] + known_ids(ids.skip(1), diagnostics)
    } else {
        known_ids(ids.skip(1), diagnostics)
    }
}

/// Whether the diagnostic that `id` refers to reads `message` in `scope`.
pub open spec fn diagnostic_reads(
    scope: Scope,
    id: Seq<char>,
    diagnostics: Seq<DiagnosticView>,
    message: Seq<char>,
) -> bool {
    exists|d: int| #[trigger]
        is_diagnostic(diagnostics, id, d) && renders(scope, diagnostics[d].message, message)
}

/// Whether the diagnostics that `ids` refer to read `messages` in `scope`.
pub open spec fn diagnostics_read(
    scope: Scope,
    ids: Seq<Seq<char>>,
    diagnostics: Seq<DiagnosticView>,
    messages: Seq<Seq<char>>,
) -> bool {
    &&& messages.len() == known_ids(ids, diagnostics).len()
    &&& forall|i: int|
        0 <= i < messages.len() ==> diagnostic_reads(
            scope,
            known_ids(ids, diagnostics)[i],
            diagnostics,
            #[trigger] messages[i],
        )
}

proof fn lemma_diagnostic_named(diagnostics: Seq<DiagnosticView>, id: Seq<char>)
    ensures
        match semantics::diagnostic_named(diagnostics, id) {
            Some(diagnostic) => exists|d: int| #[trigger]
                is_diagnostic(diagnostics, id, d) && diagnostics[d] == diagnostic,
            None => forall|d: int| !is_diagnostic(diagnostics, id, d),
        },
        forall|d: int, e: int|
            is_diagnostic(diagnostics, id, d) && is_diagnostic(diagnostics, id, e) ==> d == e,
    decreases diagnostics.len(),
{
    assert forall|d: int, e: int|
        is_diagnostic(diagnostics, id, d) && is_diagnostic(diagnostics, id, e) implies d == e by {
        if d < e {
            assert(diagnostics[d].id != id);
        }
        if e < d {
            assert(diagnostics[e].id != id);
        }
    }
    if diagnostics.len() > 0 {
        let rest = diagnostics.skip(1);
        lemma_diagnostic_named(rest, id);
        if diagnostics[0].id == id {
            assert(is_diagnostic(diagnostics, id, 0));
        } else {
            match semantics::diagnostic_named(rest, id) {
                Some(diagnostic) => {
                    let d = choose|d: int| #[trigger]
                        is_diagnostic(rest, id, d) && rest[d] == diagnostic;
                    assert forall|k: int| 0 <= k < d + 1 implies (#[trigger] diagnostics[k]).id
                        != id by {
                        if k > 0 {
                            assert(rest[k - 1].id != id);
                        }
                    }
                    assert(is_diagnostic(diagnostics, id, d + 1));
                },
                None => {
                    assert forall|d: int| !is_diagnostic(diagnostics, id, d) by {
                        if is_diagnostic(diagnostics, id, d) {
                            assert(d > 0);
                            assert forall|k: int| 0 <= k < d - 1 implies (#[trigger] rest[k]).id
                                != id by {
                                assert(rest[k] == diagnostics[k + 1]);
                            }
                            assert(rest[d - 1] == diagnostics[d]);
                            assert(is_diagnostic(rest, id, d - 1));
                        }
                    }
                },
            }
        }
    }
}

proof fn lemma_diagnostics_read(
    scope: Scope,
    ids: Seq<Seq<char>>,
    diagnostics: Seq<DiagnosticView>,
    messages: Seq<Seq<char>>,
)
    ensures
        diagnostics_read(scope, ids, diagnostics, messages) <==> scope.rendered_diagnostics(
            ids,
            diagnostics,
        ) == Ok::<Seq<Seq<char>>, SchematronEvalErrorView>(messages),
    decreases ids.len(),
{
    if ids.len() == 0 {
        if diagnostics_read(scope, ids, diagnostics, messages) {
            assert(messages == Seq::<Seq<char>>::empty());
        }
    } else {
        let rest = ids.skip(1);
        let known = known_ids(ids, diagnostics);
        let others = known_ids(rest, diagnostics);
        lemma_diagnostic_named(diagnostics, ids[0]);
        match semantics::diagnostic_named(diagnostics, ids[0]) {
            None => {
                lemma_diagnostics_read(scope, rest, diagnostics, messages);
                assert(known == others);
            },
            Some(diagnostic) => {
                let d = choose|d: int| #[trigger]
                    is_diagnostic(diagnostics, ids[0], d) && diagnostics[d] == diagnostic;
                assert(is_diagnostic(diagnostics, ids[0], d));
                assert(known == seq![ids[0]] + others);
                if diagnostics_read(scope, ids, diagnostics, messages) {
                    let more = messages.skip(1);
                    assert(diagnostic_reads(scope, known[0], diagnostics, messages[0]));
                    lemma_renders(scope, diagnostic.message, messages[0]);
                    assert forall|i: int| 0 <= i < more.len() implies diagnostic_reads(
                        scope,
                        others[i],
                        diagnostics,
                        #[trigger] more[i],
                    ) by {
                        assert(more[i] == messages[i + 1]);
                        assert(known[i + 1] == others[i]);
                    }
                    lemma_diagnostics_read(scope, rest, diagnostics, more);
                    assert(seq![messages[0]] + more == messages);
                }
                if scope.rendered_diagnostics(ids, diagnostics) == Ok::<
                    Seq<Seq<char>>,
                    SchematronEvalErrorView,
                >(messages) {
                    let own = scope.rendered(diagnostic.message)->Ok_0;
                    let more = scope.rendered_diagnostics(rest, diagnostics)->Ok_0;
                    lemma_renders(scope, diagnostic.message, own);
                    lemma_diagnostics_read(scope, rest, diagnostics, more);
                    assert forall|i: int| 0 <= i < messages.len() implies diagnostic_reads(
                        scope,
                        known[i],
                        diagnostics,
                        #[trigger] messages[i],
                    ) by {
                        if i == 0 {
                            assert(renders(scope, diagnostics[d].message, messages[0]));
                        } else {
                            assert(messages[i] == more[i - 1]);
                            assert(known[i] == others[i - 1]);
                        }
                    }
                }
            },
        }
    }
}

/// Whether the test of a check comes out as the check reports: false for an
/// assert, true for a report.
pub open spec fn fires(scope: Scope, check: CheckView) -> bool {
    exists|value: XPathValueView| #[trigger]
        gives(scope, check.test, value) && (match check.kind {
            CheckKind::Assert => !value.truth(),
            CheckKind::Report => value.truth(),
        })
}

/// Whether `report` is that of a check which fires in `scope`: on the node of
/// the scope, with the check's own data, and with its message and its
/// diagnostics as they read in that very scope.
pub open spec fn reports(
    scope: Scope,
    check: CheckView,
    pattern_id: Option<Seq<char>>,
    diagnostics: Seq<DiagnosticView>,
    report: ReportView,
) -> bool {
    &&& report.pattern_id == pattern_id
    &&& report.check_id == check.id
    &&& report.role == check.role
    &&& report.kind == check.kind
    &&& report.node == scope.node
    &&& renders(scope, check.message, report.message)
    &&& diagnostics_read(scope, check.diagnostics, diagnostics, report.diagnostics)
}

/// Whether a check can be evaluated in `scope`: its test has a value and, if
/// it fires, its message and diagnostics can be rendered.
pub open spec fn runs(
    scope: Scope,
    check: CheckView,
    pattern_id: Option<Seq<char>>,
    diagnostics: Seq<DiagnosticView>,
) -> bool {
    &&& exists|value: XPathValueView| gives(scope, check.test, value)
    &&& fires(scope, check) ==> exists|report: ReportView|
        reports(scope, check, pattern_id, diagnostics, report)
}

proof fn lemma_report(
    scope: Scope,
    check: CheckView,
    pattern_id: Option<Seq<char>>,
    diagnostics: Seq<DiagnosticView>,
    report: ReportView,
)
    ensures
        reports(scope, check, pattern_id, diagnostics, report) <==> scope.report(
            check,
            pattern_id,
            diagnostics,
        ) == Ok::<ReportView, SchematronEvalErrorView>(report),
{
    lemma_renders(scope, check.message, report.message);
    lemma_diagnostics_read(scope, check.diagnostics, diagnostics, report.diagnostics);
}

proof fn lemma_checked(
    scope: Scope,
    check: CheckView,
    pattern_id: Option<Seq<char>>,
    diagnostics: Seq<DiagnosticView>,
)
    ensures
        match scope.checked(check, pattern_id, diagnostics) {
            Ok(list) => {
                &&& runs(scope, check, pattern_id, diagnostics)
                &&& if fires(scope, check) {
                    list.len() == 1 && reports(scope, check, pattern_id, diagnostics, list[0])
                } else {
                    list.len() == 0
                }
            },
            Err(_) => !runs(scope, check, pattern_id, diagnostics),
        },
{
    match scope.value_of(check.test) {
        Ok(value) => {
            assert(gives(scope, check.test, value));
            assert(fires(scope, check) == semantics::fires(check.kind, value.truth()));
            if let Ok(report) = scope.report(check, pattern_id, diagnostics) {
                lemma_report(scope, check, pattern_id, diagnostics, report);
            } else if runs(scope, check, pattern_id, diagnostics) && fires(scope, check) {
                let report = choose|report: ReportView|
                    reports(scope, check, pattern_id, diagnostics, report);
                lemma_report(scope, check, pattern_id, diagnostics, report);
            }
        },
        Err(_) => {
            if runs(scope, check, pattern_id, diagnostics) {
                let value = choose|value: XPathValueView| gives(scope, check.test, value);
                lemma_gives(scope, check.test, value);
            }
        },
    }
}

/// A check of a schema at a node: which pattern, which of its rules, the node,
/// and which of the rule's checks.
#[verifier::ext_equal]
pub struct Key {
    pub pattern: int,
    pub rule: int,
    pub node: int,
    pub check: int,
}

impl Key {
    /// Whether this comes first: patterns come in schema order, in a pattern
    /// rules, of a rule nodes in document order, at a node checks.
    pub open spec fn is_before(self, other: Key) -> bool {
        ||| self.pattern < other.pattern
        ||| self.pattern == other.pattern && self.rule < other.rule
        ||| self.pattern == other.pattern && self.rule == other.rule && self.node < other.node
        ||| self.pattern == other.pattern && self.rule == other.rule && self.node == other.node
            && self.check < other.check
    }
}

/// Whether `list` holds one report for each key of `keys`, and these are the
/// keys in `due`, each once and in order.
pub open spec fn tells(
    keys: Seq<Key>,
    list: Seq<ReportView>,
    due: spec_fn(Key) -> bool,
    of: spec_fn(Key, ReportView) -> bool,
) -> bool {
    &&& keys.len() == list.len()
    &&& forall|i: int, j: int| 0 <= i < j < keys.len() ==> (#[trigger] keys[i]).is_before(
        #[trigger] keys[j],
    )
    &&& forall|i: int| 0 <= i < keys.len() ==> due(#[trigger] keys[i]) && of(keys[i], list[i])
    &&& forall|key: Key| #[trigger] due(key) ==> keys.contains(key)
}

proof fn lemma_tells_both(
    keys: Seq<Key>,
    list: Seq<ReportView>,
    due: spec_fn(Key) -> bool,
    more_keys: Seq<Key>,
    more: Seq<ReportView>,
    more_due: spec_fn(Key) -> bool,
    all_due: spec_fn(Key) -> bool,
    of: spec_fn(Key, ReportView) -> bool,
)
    requires
        tells(keys, list, due, of),
        tells(more_keys, more, more_due, of),
        forall|key: Key, other: Key| #[trigger]
            due(key) && #[trigger] more_due(other) ==> key.is_before(other),
        forall|key: Key| #[trigger] all_due(key) <==> due(key) || more_due(key),
    ensures
        tells(keys + more_keys, list + more, all_due, of),
{
    let all = keys + more_keys;
    assert forall|i: int, j: int| 0 <= i < j < all.len() implies (#[trigger] all[i]).is_before(
        #[trigger] all[j],
    ) by {
        if j < keys.len() {
            assert(all[i] == keys[i] && all[j] == keys[j]);
        } else if i >= keys.len() {
            assert(all[i] == more_keys[i - keys.len()] && all[j] == more_keys[j - keys.len()]);
        } else {
            assert(all[i] == keys[i] && all[j] == more_keys[j - keys.len()]);
            assert(due(keys[i]) && more_due(more_keys[j - keys.len()]));
        }
    }
    assert forall|i: int| 0 <= i < all.len() implies all_due(#[trigger] all[i]) && of(
        all[i],
        (list + more)[i],
    ) by {
        if i < keys.len() {
            assert(all[i] == keys[i]);
        } else {
            assert(all[i] == more_keys[i - keys.len()]);
            assert(more_due(more_keys[i - keys.len()]));
        }
    }
    assert forall|key: Key| #[trigger] all_due(key) implies all.contains(key) by {
        if due(key) {
            let i = choose|i: int| 0 <= i < keys.len() && keys[i] == key;
            assert(all[i] == key);
        } else {
            assert(more_due(key));
            let i = choose|i: int| 0 <= i < more_keys.len() && more_keys[i] == key;
            assert(all[keys.len() + i] == key);
        }
    }
}

proof fn lemma_tells_same(
    keys: Seq<Key>,
    list: Seq<ReportView>,
    due: spec_fn(Key) -> bool,
    of: spec_fn(Key, ReportView) -> bool,
    same_due: spec_fn(Key) -> bool,
    same_of: spec_fn(Key, ReportView) -> bool,
)
    requires
        tells(keys, list, due, of),
        forall|key: Key| #[trigger] same_due(key) <==> due(key),
        forall|key: Key, report: ReportView|
            due(key) && #[trigger] of(key, report) ==> same_of(key, report),
    ensures
        tells(keys, list, same_due, same_of),
{
    assert forall|i: int| 0 <= i < keys.len() implies same_due(#[trigger] keys[i]) && same_of(
        keys[i],
        list[i],
    ) by {
        assert(due(keys[i]) && of(keys[i], list[i]));
    }
}

proof fn lemma_tells_nothing(due: spec_fn(Key) -> bool, of: spec_fn(Key, ReportView) -> bool)
    requires
        forall|key: Key| !#[trigger] due(key),
    ensures
        tells(seq![], seq![], due, of),
{
}

/// Whether a check from `first` on fires, in `scope` at its node.
spec fn checks_due(
    scope: Scope,
    rule: RuleView,
    p: int,
    r: int,
    first: int,
) -> spec_fn(Key) -> bool {
    |key: Key|
        key.pattern == p && key.rule == r && key.node == scope.node && first <= key.check
            < rule.checks.len() && fires(scope, rule.checks[key.check])
}

spec fn check_report(
    scope: Scope,
    rule: RuleView,
    id: Option<Seq<char>>,
    diagnostics: Seq<DiagnosticView>,
) -> spec_fn(Key, ReportView) -> bool {
    |key: Key, report: ReportView|
        reports(scope, rule.checks[key.check], id, diagnostics, report)
}

proof fn lemma_checks(
    scope: Scope,
    rule: RuleView,
    id: Option<Seq<char>>,
    diagnostics: Seq<DiagnosticView>,
    p: int,
    r: int,
    first: int,
) -> (keys: Seq<Key>)
    requires
        0 <= first <= rule.checks.len(),
    ensures
        match scope.all_checked(rule.checks.skip(first), id, diagnostics) {
            Ok(list) => {
                &&& tells(
                    keys,
                    list,
                    checks_due(scope, rule, p, r, first),
                    check_report(scope, rule, id, diagnostics),
                )
                &&& forall|c: int|
                    first <= c < rule.checks.len() ==> runs(
                        scope,
                        #[trigger] rule.checks[c],
                        id,
                        diagnostics,
                    )
            },
            Err(_) => exists|c: int|
                first <= c < rule.checks.len() && !runs(
                    scope,
                    #[trigger] rule.checks[c],
                    id,
                    diagnostics,
                ),
        },
    decreases rule.checks.len() - first,
{
    let rest = rule.checks.skip(first);
    let due = checks_due(scope, rule, p, r, first);
    let of = check_report(scope, rule, id, diagnostics);
    if first == rule.checks.len() {
        lemma_tells_nothing(due, of);
        seq![]
    } else {
        let check = rule.checks[first];
        assert(rest[0] == check);
        assert(rest.skip(1) == rule.checks.skip(first + 1));
        lemma_checked(scope, check, id, diagnostics);
        let more_keys = lemma_checks(scope, rule, id, diagnostics, p, r, first + 1);
        let key = Key { pattern: p, rule: r, node: scope.node, check: first };
        let keys = if fires(scope, check) {
            seq![key]
        } else {
            seq![]
        };
        match scope.checked(check, id, diagnostics) {
            Ok(own) => {
                let own_due = |other: Key| other == key && fires(scope, check);
                assert(tells(keys, own, own_due, of)) by {
                    if fires(scope, check) {
                        assert(keys[0] == key);
                    }
                }
                if let Ok(more) = scope.all_checked(rest.skip(1), id, diagnostics) {
                    lemma_tells_both(
                        keys,
                        own,
                        own_due,
                        more_keys,
                        more,
                        checks_due(scope, rule, p, r, first + 1),
                        due,
                        of,
                    );
                }
                keys + more_keys
            },
            Err(_) => seq![],
        }
    }
}

/// Whether a rule's check fires at a node in the scope of the pattern, with the
/// rule's own bindings.
pub open spec fn rule_fires(outer: Scope, rule: RuleView, n: int, c: int) -> bool {
    &&& 0 <= c < rule.checks.len()
    &&& exists|inner: Scope| #[trigger]
        binds(at_node(outer, n), rule.lets, inner) && fires(inner, rule.checks[c])
}

/// Whether `report` is that of a rule's check at a node.
pub open spec fn rule_reports(
    outer: Scope,
    rule: RuleView,
    n: int,
    c: int,
    id: Option<Seq<char>>,
    diagnostics: Seq<DiagnosticView>,
    report: ReportView,
) -> bool {
    exists|inner: Scope| #[trigger]
        binds(at_node(outer, n), rule.lets, inner) && reports(
            inner,
            rule.checks[c],
            id,
            diagnostics,
            report,
        )
}

/// Whether a rule can be evaluated at a node: its bindings have values there,
/// and every check can be evaluated with them.
pub open spec fn rule_runs(
    outer: Scope,
    rule: RuleView,
    n: int,
    id: Option<Seq<char>>,
    diagnostics: Seq<DiagnosticView>,
) -> bool {
    exists|inner: Scope| #[trigger]
        binds(at_node(outer, n), rule.lets, inner) && forall|c: int|
            0 <= c < rule.checks.len() ==> runs(inner, #[trigger] rule.checks[c], id, diagnostics)
}

spec fn nodes_due(
    outer: Scope,
    rule: RuleView,
    p: int,
    r: int,
    nodes: Seq<int>,
) -> spec_fn(Key) -> bool {
    |key: Key|
        key.pattern == p && key.rule == r && nodes.contains(key.node) && rule_fires(
            outer,
            rule,
            key.node,
            key.check,
        )
}

spec fn node_report(
    outer: Scope,
    rule: RuleView,
    id: Option<Seq<char>>,
    diagnostics: Seq<DiagnosticView>,
) -> spec_fn(Key, ReportView) -> bool {
    |key: Key, report: ReportView|
        rule_reports(outer, rule, key.node, key.check, id, diagnostics, report)
}

proof fn lemma_rule_at(
    outer: Scope,
    rule: RuleView,
    n: int,
    id: Option<Seq<char>>,
    diagnostics: Seq<DiagnosticView>,
    p: int,
    r: int,
) -> (keys: Seq<Key>)
    ensures
        match outer.rule_at(n, rule, id, diagnostics) {
            Ok(list) => {
                &&& tells(
                    keys,
                    list,
                    nodes_due(outer, rule, p, r, seq![n]),
                    node_report(outer, rule, id, diagnostics),
                )
                &&& rule_runs(outer, rule, n, id, diagnostics)
            },
            Err(_) => !rule_runs(outer, rule, n, id, diagnostics),
        },
{
    let start = at_node(outer, n);
    assert(start == outer.at(n));
    let due = nodes_due(outer, rule, p, r, seq![n]);
    let of = node_report(outer, rule, id, diagnostics);
    match start.extended(rule.lets) {
        Ok(inner) => {
            lemma_binds(start, rule.lets, inner);
            evaluation_laws::lets_keep_the_node(start, rule.lets);
            let keys = lemma_checks(inner, rule, id, diagnostics, p, r, 0);
            assert(rule.checks.skip(0) == rule.checks);
            assert forall|other: Scope| #[trigger]
                binds(start, rule.lets, other) implies other == inner by {
                lemma_binds(start, rule.lets, other);
            }
            if let Ok(list) = inner.all_checked(rule.checks, id, diagnostics) {
                assert(seq![n][0] == n);
                lemma_tells_same(
                    keys,
                    list,
                    checks_due(inner, rule, p, r, 0),
                    check_report(inner, rule, id, diagnostics),
                    due,
                    of,
                );
            }
            keys
        },
        Err(_) => {
            assert forall|other: Scope| !#[trigger] binds(start, rule.lets, other) by {
                lemma_binds(start, rule.lets, other);
            }
            seq![]
        },
    }
}

proof fn lemma_rule_over(
    outer: Scope,
    rule: RuleView,
    nodes: Seq<int>,
    id: Option<Seq<char>>,
    diagnostics: Seq<DiagnosticView>,
    p: int,
    r: int,
) -> (keys: Seq<Key>)
    requires
        forall|i: int, j: int| 0 <= i < j < nodes.len() ==> nodes[i] < nodes[j],
    ensures
        match outer.rule_over(nodes, rule, id, diagnostics) {
            Ok(list) => {
                &&& tells(
                    keys,
                    list,
                    nodes_due(outer, rule, p, r, nodes),
                    node_report(outer, rule, id, diagnostics),
                )
                &&& forall|i: int|
                    0 <= i < nodes.len() ==> rule_runs(
                        outer,
                        rule,
                        #[trigger] nodes[i],
                        id,
                        diagnostics,
                    )
            },
            Err(_) => exists|i: int|
                0 <= i < nodes.len() && !rule_runs(
                    outer,
                    rule,
                    #[trigger] nodes[i],
                    id,
                    diagnostics,
                ),
        },
    decreases nodes.len(),
{
    let due = nodes_due(outer, rule, p, r, nodes);
    let of = node_report(outer, rule, id, diagnostics);
    if nodes.len() == 0 {
        lemma_tells_nothing(due, of);
        seq![]
    } else {
        let n = nodes[0];
        let rest = nodes.skip(1);
        assert forall|i: int, j: int| 0 <= i < j < rest.len() implies rest[i] < rest[j] by {
            assert(nodes[i + 1] < nodes[j + 1]);
        }
        let keys = lemma_rule_at(outer, rule, n, id, diagnostics, p, r);
        let more_keys = lemma_rule_over(outer, rule, rest, id, diagnostics, p, r);
        let own_due = nodes_due(outer, rule, p, r, seq![n]);
        let more_due = nodes_due(outer, rule, p, r, rest);
        assert(seq![n][0] == n);
        assert forall|m: int| nodes.contains(m) <==> m == n || rest.contains(m) by {
            if nodes.contains(m) && m != n {
                let i = choose|i: int| 0 <= i < nodes.len() && nodes[i] == m;
                assert(rest[i - 1] == m);
            }
            if rest.contains(m) {
                let i = choose|i: int| 0 <= i < rest.len() && rest[i] == m;
                assert(nodes[i + 1] == m);
            }
        }
        assert forall|m: int| seq![n].contains(m) <==> m == n by {
            if seq![n].contains(m) {
                let i = choose|i: int| 0 <= i < seq![n].len() && seq![n][i] == m;
            }
        }
        if outer.rule_at(n, rule, id, diagnostics) is Ok {
            match outer.rule_over(rest, rule, id, diagnostics) {
                Ok(more) => {
                    let own = outer.rule_at(n, rule, id, diagnostics)->Ok_0;
                    assert forall|key: Key, other: Key| #[trigger]
                        own_due(key) && #[trigger] more_due(other) implies key.is_before(other) by {
                        let i = choose|i: int| 0 <= i < rest.len() && rest[i] == other.node;
                        assert(nodes[0] < nodes[i + 1]);
                    }
                    lemma_tells_both(keys, own, own_due, more_keys, more, more_due, due, of);
                    assert forall|i: int| 0 <= i < nodes.len() implies rule_runs(
                        outer,
                        rule,
                        #[trigger] nodes[i],
                        id,
                        diagnostics,
                    ) by {
                        if i > 0 {
                            assert(rest[i - 1] == nodes[i]);
                        }
                    }
                },
                Err(_) => {
                    let i = choose|i: int|
                        0 <= i < rest.len() && !rule_runs(
                            outer,
                            rule,
                            #[trigger] rest[i],
                            id,
                            diagnostics,
                        );
                    assert(nodes[i + 1] == rest[i]);
                },
            }
        } else {
            assert(!rule_runs(outer, rule, nodes[0], id, diagnostics));
        }
        keys + more_keys
    }
}

/// Whether the path of `context` has a node-set as its value in `scope`.
pub open spec fn selects_nodes(scope: Scope, context: Seq<char>) -> bool {
    exists|nodes: Seq<NodeRef>|
        gives(scope, crate::context::context_path(context), XPathValueView::NodeSet(nodes))
}

/// Whether node `n` is in the node-set that the path of `context` has as its
/// value in `scope`, of whatever kind the node is.
pub open spec fn selects(scope: Scope, context: Seq<char>, n: int) -> bool {
    exists|nodes: Seq<NodeRef>, i: int|
        gives(scope, crate::context::context_path(context), XPathValueView::NodeSet(nodes)) && 0
            <= i < nodes.len() && (#[trigger] nodes[i]).index == n
}

proof fn lemma_indices(nodes: Seq<NodeRef>, n: int)
    ensures
        semantics::indices(nodes).contains(n) <==> exists|i: int|
            0 <= i < nodes.len() && (#[trigger] nodes[i]).index == n,
    decreases nodes.len(),
{
    if nodes.len() > 0 {
        let before = nodes.drop_last();
        lemma_indices(before, n);
        if semantics::indices(before).contains(n) {
            let i = choose|i: int| 0 <= i < before.len() && (#[trigger] before[i]).index == n;
            assert(nodes[i].index == n);
        }
        if nodes.last().index == n {
            assert(nodes[nodes.len() - 1].index == n);
        }
        if exists|i: int| 0 <= i < nodes.len() && (#[trigger] nodes[i]).index == n {
            let i = choose|i: int| 0 <= i < nodes.len() && (#[trigger] nodes[i]).index == n;
            if i < before.len() {
                assert(before[i].index == n);
            }
        }
    }
}

/// A context selects exactly the members of the node-set that its path has as
/// its value, whatever their kind; a value of another kind is an error that
/// names the context.
pub proof fn a_context_selects_the_nodes_of_its_path(scope: Scope, context: Seq<char>)
    ensures
        scope.selected(context) is Ok <==> selects_nodes(scope, context),
        scope.selected(context) matches Ok(set) ==> forall|n: int| #[trigger]
            set.contains(n) <==> selects(scope, context, n),
        forall|value: XPathValueView| #[trigger]
            gives(scope, crate::context::context_path(context), value) && !(value is NodeSet)
                ==> scope.selected(context) == Err::<Set<int>, SchematronEvalErrorView>(
                SchematronEvalErrorView::ContextNotNodeSet { context },
            ),
        scope.value_of(crate::context::context_path(context)) matches Err(error)
            ==> scope.selected(context) == Err::<Set<int>, SchematronEvalErrorView>(error),
{
    let path = crate::context::context_path(context);
    match scope.value_of(path) {
        Ok(value) => {
            assert(gives(scope, path, value));
            if let XPathValueView::NodeSet(nodes) = value {
                assert forall|n: int| #[trigger]
                    semantics::indices(nodes).contains(n) <==> selects(scope, context, n) by {
                    lemma_indices(nodes, n);
                    if semantics::indices(nodes).contains(n) {
                        let i = choose|i: int|
                            0 <= i < nodes.len() && (#[trigger] nodes[i]).index == n;
                        assert(nodes[i].index == n);
                    }
                    if selects(scope, context, n) {
                        let (others, i) = choose|others: Seq<NodeRef>, i: int|
                            gives(scope, path, XPathValueView::NodeSet(others)) && 0 <= i
                                < others.len() && (#[trigger] others[i]).index == n;
                        assert(others == nodes);
                        assert(nodes[i].index == n);
                    }
                }
            }
        },
        Err(_) => {},
    }
}

/// Whether rule `r` is the one that applies to node `n`: the first of its
/// pattern that selects it.
pub open spec fn applies(scope: Scope, rules: Seq<RuleView>, r: int, n: int) -> bool {
    &&& 0 <= r < rules.len()
    &&& 0 <= n < scope.document.nodes.len()
    &&& selects(scope, rules[r].context, n)
    &&& forall|q: int| 0 <= q < r ==> !selects(scope, (#[trigger] rules[q]).context, n)
}

/// Whether rule `r` can be evaluated: its context selects nodes, and it can be
/// evaluated at each node it applies to.
pub open spec fn rule_works(
    scope: Scope,
    rules: Seq<RuleView>,
    r: int,
    id: Option<Seq<char>>,
    diagnostics: Seq<DiagnosticView>,
) -> bool {
    &&& selects_nodes(scope, rules[r].context)
    &&& forall|n: int| #[trigger]
        applies(scope, rules, r, n) ==> rule_runs(scope, rules[r], n, id, diagnostics)
}

spec fn rules_due(scope: Scope, rules: Seq<RuleView>, p: int, first: int) -> spec_fn(Key) -> bool {
    |key: Key|
        key.pattern == p && first <= key.rule && applies(scope, rules, key.rule, key.node)
            && rule_fires(scope, rules[key.rule], key.node, key.check)
}

spec fn rules_report(
    scope: Scope,
    rules: Seq<RuleView>,
    id: Option<Seq<char>>,
    diagnostics: Seq<DiagnosticView>,
) -> spec_fn(Key, ReportView) -> bool {
    |key: Key, report: ReportView|
        rule_reports(scope, rules[key.rule], key.node, key.check, id, diagnostics, report)
}

/// Whether a rule before `first` selects node `n`.
spec fn is_claimed(scope: Scope, rules: Seq<RuleView>, first: int, n: int) -> bool {
    exists|q: int| 0 <= q < first && selects(scope, (#[trigger] rules[q]).context, n)
}

proof fn lemma_rules(
    scope: Scope,
    rules: Seq<RuleView>,
    first: int,
    claimed: Set<int>,
    id: Option<Seq<char>>,
    diagnostics: Seq<DiagnosticView>,
    p: int,
) -> (keys: Seq<Key>)
    requires
        0 <= first <= rules.len(),
        forall|n: int| #[trigger] claimed.contains(n) <==> is_claimed(scope, rules, first, n),
    ensures
        match scope.rules_applied(rules.skip(first), claimed, id, diagnostics) {
            Ok(list) => {
                &&& tells(
                    keys,
                    list,
                    rules_due(scope, rules, p, first),
                    rules_report(scope, rules, id, diagnostics),
                )
                &&& forall|r: int|
                    first <= r < rules.len() ==> #[trigger] rule_works(
                        scope,
                        rules,
                        r,
                        id,
                        diagnostics,
                    )
            },
            Err(_) => exists|r: int|
                first <= r < rules.len() && !#[trigger] rule_works(
                    scope,
                    rules,
                    r,
                    id,
                    diagnostics,
                ),
        },
    decreases rules.len() - first,
{
    let due = rules_due(scope, rules, p, first);
    let of = rules_report(scope, rules, id, diagnostics);
    if first == rules.len() {
        lemma_tells_nothing(due, of);
        seq![]
    } else {
        let rule = rules[first];
        let rest = rules.skip(first);
        assert(rest[0] == rule);
        assert(rest.skip(1) == rules.skip(first + 1));
        a_context_selects_the_nodes_of_its_path(scope, rule.context);
        match scope.selected(rule.context) {
            Err(_) => {
                assert(!rule_works(scope, rules, first, id, diagnostics));
                seq![]
            },
            Ok(set) => {
                let count = scope.document.nodes.len() as int;
                let nodes = semantics::due(set, claimed, count);
                evaluation_laws::due_nodes_are_the_unclaimed_selected_ones(set, claimed, count);
                assert forall|n: int| #[trigger] nodes.contains(n) <==> applies(
                    scope,
                    rules,
                    first,
                    n,
                ) by {
                    if 0 <= n < count && set.contains(n) {
                        assert(claimed.contains(n) <==> is_claimed(scope, rules, first, n));
                    }
                }
                let taken = claimed.union(set);
                assert forall|n: int| #[trigger] taken.contains(n) <==> is_claimed(
                    scope,
                    rules,
                    first + 1,
                    n,
                ) by {
                    if set.contains(n) {
                        assert(selects(scope, rules[first].context, n));
                    }
                    if is_claimed(scope, rules, first + 1, n) && !set.contains(n) {
                        let q = choose|q: int|
                            0 <= q < first + 1 && selects(scope, (#[trigger] rules[q]).context, n);
                        assert(q < first);
                        assert(claimed.contains(n));
                    }
                    if claimed.contains(n) {
                        let q = choose|q: int|
                            0 <= q < first && selects(scope, (#[trigger] rules[q]).context, n);
                        assert(selects(scope, rules[q].context, n));
                    }
                }
                let own_keys = lemma_rule_over(scope, rule, nodes, id, diagnostics, p, first);
                let more_keys = lemma_rules(scope, rules, first + 1, taken, id, diagnostics, p);
                match scope.rule_over(nodes, rule, id, diagnostics) {
                    Err(_) => {
                        let i = choose|i: int|
                            0 <= i < nodes.len() && !rule_runs(
                                scope,
                                rule,
                                #[trigger] nodes[i],
                                id,
                                diagnostics,
                            );
                        assert(nodes.contains(nodes[i]));
                        assert(applies(scope, rules, first, nodes[i]));
                        assert(!rule_works(scope, rules, first, id, diagnostics));
                    },
                    Ok(own) => {
                        assert forall|n: int| #[trigger]
                            applies(scope, rules, first, n) implies rule_runs(
                            scope,
                            rule,
                            n,
                            id,
                            diagnostics,
                        ) by {
                            assert(nodes.contains(n));
                            let i = choose|i: int| 0 <= i < nodes.len() && nodes[i] == n;
                            assert(rule_runs(scope, rule, nodes[i], id, diagnostics));
                        }
                        assert(rule_works(scope, rules, first, id, diagnostics));
                        if let Ok(more) = scope.rules_applied(
                            rest.skip(1),
                            taken,
                            id,
                            diagnostics,
                        ) {
                            let own_due = |key: Key| due(key) && key.rule == first;
                            lemma_tells_same(
                                own_keys,
                                own,
                                nodes_due(scope, rule, p, first, nodes),
                                node_report(scope, rule, id, diagnostics),
                                own_due,
                                |key: Key, report: ReportView|
                                    key.rule == first && node_report(
                                        scope,
                                        rule,
                                        id,
                                        diagnostics,
                                    )(key, report),
                            );
                            lemma_tells_same(
                                own_keys,
                                own,
                                own_due,
                                |key: Key, report: ReportView|
                                    key.rule == first && node_report(
                                        scope,
                                        rule,
                                        id,
                                        diagnostics,
                                    )(key, report),
                                own_due,
                                of,
                            );
                            lemma_tells_both(
                                own_keys,
                                own,
                                own_due,
                                more_keys,
                                more,
                                rules_due(scope, rules, p, first + 1),
                                due,
                                of,
                            );
                        }
                    },
                }
                own_keys + more_keys
            },
        }
    }
}

/// Whether a check of a pattern fires: the pattern's bindings have values at
/// the root, the rule applies to the node, and the check fires there.
pub open spec fn pattern_fires(outer: Scope, pattern: PatternView, r: int, n: int, c: int) -> bool {
    exists|scope: Scope| #[trigger]
        binds(outer, pattern.lets, scope) && applies(scope, pattern.rules, r, n) && rule_fires(
            scope,
            pattern.rules[r],
            n,
            c,
        )
}

/// Whether `report` is that of a check of a pattern.
pub open spec fn pattern_reports(
    outer: Scope,
    pattern: PatternView,
    r: int,
    n: int,
    c: int,
    diagnostics: Seq<DiagnosticView>,
    report: ReportView,
) -> bool {
    exists|scope: Scope| #[trigger]
        binds(outer, pattern.lets, scope) && rule_reports(
            scope,
            pattern.rules[r],
            n,
            c,
            pattern.id,
            diagnostics,
            report,
        )
}

/// Whether a pattern can be evaluated: its bindings have values at the root,
/// and each of its rules can be evaluated with them.
pub open spec fn pattern_works(
    outer: Scope,
    pattern: PatternView,
    diagnostics: Seq<DiagnosticView>,
) -> bool {
    exists|scope: Scope| #[trigger]
        binds(outer, pattern.lets, scope) && forall|r: int|
            0 <= r < pattern.rules.len() ==> #[trigger] rule_works(
                scope,
                pattern.rules,
                r,
                pattern.id,
                diagnostics,
            )
}

/// Whether a pattern takes part in `phase`: without a phase every one does, in
/// a phase those whose identifier it lists.
pub open spec fn takes_part(pattern: PatternView, phase: Option<PhaseView>) -> bool {
    match phase {
        None => true,
        Some(phase) => exists|i: int|
            0 <= i < phase.active.len() && pattern.id == Some(#[trigger] phase.active[i]),
    }
}

spec fn pattern_due(outer: Scope, pattern: PatternView, p: int) -> spec_fn(Key) -> bool {
    |key: Key|
        key.pattern == p && pattern_fires(outer, pattern, key.rule, key.node, key.check)
}

spec fn pattern_report(
    outer: Scope,
    pattern: PatternView,
    diagnostics: Seq<DiagnosticView>,
) -> spec_fn(Key, ReportView) -> bool {
    |key: Key, report: ReportView|
        pattern_reports(outer, pattern, key.rule, key.node, key.check, diagnostics, report)
}

proof fn lemma_pattern(
    outer: Scope,
    pattern: PatternView,
    diagnostics: Seq<DiagnosticView>,
    p: int,
) -> (keys: Seq<Key>)
    ensures
        match outer.pattern_applied(pattern, diagnostics) {
            Ok(list) => {
                &&& tells(
                    keys,
                    list,
                    pattern_due(outer, pattern, p),
                    pattern_report(outer, pattern, diagnostics),
                )
                &&& pattern_works(outer, pattern, diagnostics)
            },
            Err(_) => !pattern_works(outer, pattern, diagnostics),
        },
{
    match outer.extended(pattern.lets) {
        Ok(scope) => {
            lemma_binds(outer, pattern.lets, scope);
            assert forall|other: Scope| #[trigger]
                binds(outer, pattern.lets, other) implies other == scope by {
                lemma_binds(outer, pattern.lets, other);
            }
            assert(pattern.rules.skip(0) == pattern.rules);
            let keys = lemma_rules(
                scope,
                pattern.rules,
                0,
                Set::empty(),
                pattern.id,
                diagnostics,
                p,
            );
            if let Ok(list) = outer.pattern_applied(pattern, diagnostics) {
                lemma_tells_same(
                    keys,
                    list,
                    rules_due(scope, pattern.rules, p, 0),
                    rules_report(scope, pattern.rules, pattern.id, diagnostics),
                    pattern_due(outer, pattern, p),
                    pattern_report(outer, pattern, diagnostics),
                );
            }
            keys
        },
        Err(_) => {
            assert forall|other: Scope| !#[trigger] binds(outer, pattern.lets, other) by {
                lemma_binds(outer, pattern.lets, other);
            }
            seq![]
        },
    }
}

spec fn patterns_due(
    outer: Scope,
    patterns: Seq<PatternView>,
    phase: Option<PhaseView>,
    first: int,
) -> spec_fn(Key) -> bool {
    |key: Key|
        first <= key.pattern < patterns.len() && takes_part(patterns[key.pattern], phase)
            && pattern_fires(outer, patterns[key.pattern], key.rule, key.node, key.check)
}

spec fn patterns_report(
    outer: Scope,
    patterns: Seq<PatternView>,
    diagnostics: Seq<DiagnosticView>,
) -> spec_fn(Key, ReportView) -> bool {
    |key: Key, report: ReportView|
        pattern_reports(
            outer,
            patterns[key.pattern],
            key.rule,
            key.node,
            key.check,
            diagnostics,
            report,
        )
}

proof fn lemma_patterns(
    outer: Scope,
    patterns: Seq<PatternView>,
    phase: Option<PhaseView>,
    diagnostics: Seq<DiagnosticView>,
    first: int,
) -> (keys: Seq<Key>)
    requires
        0 <= first <= patterns.len(),
    ensures
        match outer.patterns_applied(patterns.skip(first), phase, diagnostics) {
            Ok(list) => {
                &&& tells(
                    keys,
                    list,
                    patterns_due(outer, patterns, phase, first),
                    patterns_report(outer, patterns, diagnostics),
                )
                &&& forall|p: int|
                    first <= p < patterns.len() && takes_part(#[trigger] patterns[p], phase)
                        ==> pattern_works(outer, patterns[p], diagnostics)
            },
            Err(_) => exists|p: int|
                first <= p < patterns.len() && takes_part(#[trigger] patterns[p], phase)
                    && !pattern_works(outer, patterns[p], diagnostics),
        },
    decreases patterns.len() - first,
{
    let due = patterns_due(outer, patterns, phase, first);
    let of = patterns_report(outer, patterns, diagnostics);
    if first == patterns.len() {
        lemma_tells_nothing(due, of);
        seq![]
    } else {
        let pattern = patterns[first];
        let rest = patterns.skip(first);
        assert(rest[0] == pattern);
        assert(rest.skip(1) == patterns.skip(first + 1));
        let more_keys = lemma_patterns(outer, patterns, phase, diagnostics, first + 1);
        let more_due = patterns_due(outer, patterns, phase, first + 1);
        assert(semantics::is_active(pattern, phase) == takes_part(pattern, phase)) by {
            if let Some(named) = phase {
                if let Some(id) = pattern.id {
                    if named.active.contains(id) {
                        let i = choose|i: int|
                            0 <= i < named.active.len() && named.active[i] == id;
                        assert(pattern.id == Some(named.active[i]));
                    }
                    if takes_part(pattern, phase) {
                        let i = choose|i: int|
                            0 <= i < named.active.len() && pattern.id == Some(
                                #[trigger] named.active[i],
                            );
                        assert(named.active[i] == id);
                    }
                }
            }
        }
        if !semantics::is_active(pattern, phase) {
            if let Ok(more) = outer.patterns_applied(rest.skip(1), phase, diagnostics) {
                lemma_tells_same(more_keys, more, more_due, of, due, of);
            }
            more_keys
        } else {
            let keys = lemma_pattern(outer, pattern, diagnostics, first);
            match outer.pattern_applied(pattern, diagnostics) {
                Ok(own) => {
                    if let Ok(more) = outer.patterns_applied(rest.skip(1), phase, diagnostics) {
                        let own_due = pattern_due(outer, pattern, first);
                        let own_of = |key: Key, report: ReportView|
                            key.pattern == first && pattern_report(outer, pattern, diagnostics)(
                                key,
                                report,
                            );
                        lemma_tells_same(
                            keys,
                            own,
                            own_due,
                            pattern_report(outer, pattern, diagnostics),
                            own_due,
                            own_of,
                        );
                        lemma_tells_same(keys, own, own_due, own_of, own_due, of);
                        lemma_tells_both(keys, own, own_due, more_keys, more, more_due, due, of);
                    }
                },
                Err(_) => {
                    assert(takes_part(patterns[first], phase));
                },
            }
            keys + more_keys
        }
    }
}

/// Whether `namespaces` gives each prefix the namespace of the first of `ns`
/// that binds it, and no other prefix any.
pub open spec fn resolves_prefixes(
    ns: Seq<NamespaceBindingView>,
    namespaces: Map<Seq<char>, Seq<char>>,
) -> bool {
    &&& forall|prefix: Seq<char>| #[trigger]
        namespaces.dom().contains(prefix) <==> exists|i: int| binds_prefix(ns, prefix, i)
    &&& forall|prefix: Seq<char>, i: int| #[trigger]
        binds_prefix(ns, prefix, i) ==> namespaces[prefix] == ns[i].uri
}

/// Whether binding `i` is the first of `prefix`.
pub open spec fn binds_prefix(ns: Seq<NamespaceBindingView>, prefix: Seq<char>, i: int) -> bool {
    &&& 0 <= i < ns.len()
    &&& ns[i].prefix == prefix
    &&& forall|k: int| 0 <= k < i ==> (#[trigger] ns[k]).prefix != prefix
}

/// The prefixes in scope are those that the schema binds, each with its first
/// binding.
pub proof fn prefixes_are_those_of_the_schema(
    ns: Seq<NamespaceBindingView>,
    namespaces: Map<Seq<char>, Seq<char>>,
)
    ensures
        resolves_prefixes(ns, namespaces) <==> namespaces == xpath::prefixes(ns),
{
    lemma_prefixes(ns);
    if resolves_prefixes(ns, namespaces) {
        assert forall|prefix: Seq<char>| #[trigger]
            namespaces.dom().contains(prefix) implies namespaces[prefix] == xpath::prefixes(
            ns,
        )[prefix] by {
            let i = choose|i: int| binds_prefix(ns, prefix, i);
            assert(binds_prefix(ns, prefix, i));
        }
        assert(namespaces.dom() == xpath::prefixes(ns).dom()) by {
            assert forall|prefix: Seq<char>|
                namespaces.dom().contains(prefix) <==> xpath::prefixes(ns).dom().contains(
                    prefix,
                ) by {}
        }
        assert(namespaces == xpath::prefixes(ns));
    }
}

proof fn lemma_prefixes(ns: Seq<NamespaceBindingView>)
    ensures
        resolves_prefixes(ns, xpath::prefixes(ns)),
    decreases ns.len(),
{
    let map = xpath::prefixes(ns);
    if ns.len() > 0 {
        let rest = ns.skip(1);
        lemma_prefixes(rest);
        assert forall|prefix: Seq<char>, i: int| #[trigger]
            binds_prefix(ns, prefix, i) implies map.dom().contains(prefix) && map[prefix]
            == ns[i].uri by {
            if i > 0 {
                assert(ns[0].prefix != prefix);
                assert forall|k: int| 0 <= k < i - 1 implies (#[trigger] rest[k]).prefix
                    != prefix by {
                    assert(rest[k] == ns[k + 1]);
                }
                assert(rest[i - 1] == ns[i]);
                assert(binds_prefix(rest, prefix, i - 1));
            }
        }
        assert forall|prefix: Seq<char>| #[trigger]
            map.dom().contains(prefix) implies exists|i: int| binds_prefix(ns, prefix, i) by {
            if prefix == ns[0].prefix {
                assert(binds_prefix(ns, prefix, 0));
            } else {
                assert(xpath::prefixes(rest).dom().contains(prefix));
                let i = choose|i: int| binds_prefix(rest, prefix, i);
                assert forall|k: int| 0 <= k < i + 1 implies (#[trigger] ns[k]).prefix
                    != prefix by {
                    if k > 0 {
                        assert(rest[k - 1] == ns[k]);
                    }
                }
                assert(rest[i] == ns[i + 1]);
                assert(binds_prefix(ns, prefix, i + 1));
            }
        }
    }
}

/// Whether phase `k` is the one that `id` names.
pub open spec fn names_phase(phases: Seq<PhaseView>, id: Seq<char>, k: int) -> bool {
    &&& 0 <= k < phases.len()
    &&& phases[k].id == id
    &&& forall|j: int| 0 <= j < k ==> (#[trigger] phases[j]).id != id
}

/// Whether `phase` is what evaluation is restricted to.
pub open spec fn is_phase(
    phases: Seq<PhaseView>,
    phase_id: Option<Seq<char>>,
    phase: Option<PhaseView>,
) -> bool {
    match phase_id {
        None => phase is None,
        Some(id) => phase is Some && is_named_phase(phases, id, phase->0),
    }
}

/// Whether `phase` is the one that `id` names.
pub open spec fn is_named_phase(phases: Seq<PhaseView>, id: Seq<char>, phase: PhaseView) -> bool {
    exists|k: int| #[trigger] names_phase(phases, id, k) && phases[k] == phase
}

proof fn lemma_named_phase(phases: Seq<PhaseView>, id: Seq<char>, phase: PhaseView)
    ensures
        is_named_phase(phases, id, phase) <==> semantics::phase_named(phases, id) == Some(phase),
    decreases phases.len(),
{
    if phases.len() > 0 {
        let rest = phases.skip(1);
        lemma_named_phase(rest, id, phase);
        if phases[0].id == id {
            assert(names_phase(phases, id, 0));
            if is_named_phase(phases, id, phase) {
                let k = choose|k: int| #[trigger]
                    names_phase(phases, id, k) && phases[k] == phase;
                if k > 0 {
                    assert(phases[0].id != id);
                }
            }
        } else {
            if is_named_phase(phases, id, phase) {
                let k = choose|k: int| #[trigger]
                    names_phase(phases, id, k) && phases[k] == phase;
                assert forall|j: int| 0 <= j < k - 1 implies (#[trigger] rest[j]).id != id by {
                    assert(rest[j] == phases[j + 1]);
                }
                assert(rest[k - 1] == phases[k]);
                assert(names_phase(rest, id, k - 1));
            }
            if is_named_phase(rest, id, phase) {
                let k = choose|k: int| #[trigger] names_phase(rest, id, k) && rest[k] == phase;
                assert forall|j: int| 0 <= j < k + 1 implies (#[trigger] phases[j]).id != id by {
                    if j > 0 {
                        assert(rest[j - 1] == phases[j]);
                    }
                }
                assert(rest[k] == phases[k + 1]);
                assert(names_phase(phases, id, k + 1));
            }
        }
    }
}

proof fn lemma_phase(phases: Seq<PhaseView>, id: Seq<char>, phase: Option<PhaseView>)
    ensures
        is_phase(phases, Some(id), phase) <==> phase is Some && semantics::phase_named(phases, id)
            == phase,
{
    if let Some(named) = phase {
        lemma_named_phase(phases, id, named);
    }
}

/// The bindings that hold for all patterns: those of the schema, then those of
/// the phase.
pub open spec fn common_lets(schema: SchemaView, phase: Option<PhaseView>) -> Seq<LetBindingView> {
    match phase {
        Some(phase) => schema.lets + phase.lets,
        None => schema.lets,
    }
}

/// Whether `scope` is what all patterns are evaluated in: the root node, the
/// schema's prefixes, and the common bindings, evaluated at the root.
pub open spec fn is_common_scope(
    schema: SchemaView,
    document: DocumentView,
    phase: Option<PhaseView>,
    scope: Scope,
) -> bool {
    exists|root: Scope|
        root.document == document && root.node == 0 && root.variables == Map::<
            Seq<char>,
            XPathValueView,
        >::empty() && resolves_prefixes(schema.ns, root.namespaces) && #[trigger] binds(
            root,
            common_lets(schema, phase),
            scope,
        )
}

/// Whether the check that `key` stands for fires.
pub open spec fn is_due(
    scope: Scope,
    schema: SchemaView,
    phase: Option<PhaseView>,
    key: Key,
) -> bool {
    &&& 0 <= key.pattern < schema.patterns.len()
    &&& takes_part(schema.patterns[key.pattern], phase)
    &&& pattern_fires(scope, schema.patterns[key.pattern], key.rule, key.node, key.check)
}

/// Whether `report` is that of the check that `key` stands for.
pub open spec fn is_report_of(
    scope: Scope,
    schema: SchemaView,
    key: Key,
    report: ReportView,
) -> bool {
    pattern_reports(
        scope,
        schema.patterns[key.pattern],
        key.rule,
        key.node,
        key.check,
        schema.diagnostics,
        report,
    )
}

/// Whether `list` holds the report of each check that fires, once and in
/// order, and no other.
pub open spec fn accounts_for(
    scope: Scope,
    schema: SchemaView,
    phase: Option<PhaseView>,
    keys: Seq<Key>,
    list: Seq<ReportView>,
) -> bool {
    tells(
        keys,
        list,
        |key: Key| is_due(scope, schema, phase, key),
        |key: Key, report: ReportView| is_report_of(scope, schema, key, report),
    )
}

/// Whether everything that is to be evaluated has a value.
pub open spec fn everything_works(
    scope: Scope,
    schema: SchemaView,
    phase: Option<PhaseView>,
) -> bool {
    forall|p: int|
        0 <= p < schema.patterns.len() && takes_part(#[trigger] schema.patterns[p], phase)
            ==> pattern_works(scope, schema.patterns[p], schema.diagnostics)
}

proof fn lemma_common_scope(
    schema: SchemaView,
    document: DocumentView,
    phase: Option<PhaseView>,
    scope: Scope,
)
    ensures
        is_common_scope(schema, document, phase, scope) <==> (Scope {
            document,
            node: 0,
            variables: Map::empty(),
            namespaces: xpath::prefixes(schema.ns),
        }).extended(common_lets(schema, phase)) == Ok::<Scope, SchematronEvalErrorView>(scope),
{
    let start = Scope {
        document,
        node: 0,
        variables: Map::empty(),
        namespaces: xpath::prefixes(schema.ns),
    };
    lemma_binds(start, common_lets(schema, phase), scope);
    prefixes_are_those_of_the_schema(schema.ns, start.namespaces);
    if is_common_scope(schema, document, phase, scope) {
        let root = choose|root: Scope|
            root.document == document && root.node == 0 && root.variables == Map::<
                Seq<char>,
                XPathValueView,
            >::empty() && resolves_prefixes(schema.ns, root.namespaces) && #[trigger] binds(
                root,
                common_lets(schema, phase),
                scope,
            );
        prefixes_are_those_of_the_schema(schema.ns, root.namespaces);
        assert(root == start);
    }
}

/// In a phase the patterns are evaluated with the schema's bindings followed by
/// the phase's: a name that both bind has the phase's value, and the phase's
/// bindings see the schema's.
pub proof fn a_phase_binds_after_the_schema(
    schema: SchemaView,
    document: DocumentView,
    phase: Option<PhaseView>,
)
    ensures
        semantics::evaluated_in(schema, document, phase) == (match (Scope {
            document,
            node: 0,
            variables: Map::empty(),
            namespaces: xpath::prefixes(schema.ns),
        }).extended(common_lets(schema, phase)) {
            Err(error) => Err(error),
            Ok(scope) => scope.patterns_applied(schema.patterns, phase, schema.diagnostics),
        }),
{
    let root = Scope {
        document,
        node: 0,
        variables: Map::empty(),
        namespaces: xpath::prefixes(schema.ns),
    };
    if let Some(named) = phase {
        evaluation_laws::bindings_are_sequential(root, schema.lets, named.lets);
    } else {
        let none: Seq<LetBindingView> = seq![];
        evaluation_laws::bindings_are_sequential(root, schema.lets, none);
        assert(schema.lets + none == schema.lets);
    }
}

/// Evaluation gives one report for each check that fires and no other: for
/// every pattern that takes part, every node and every check of the rule that
/// applies to the node, in the order of patterns, rules, nodes and checks. A
/// check is evaluated at its node with the bindings of the schema, the phase,
/// the pattern and the rule, whatever other checks give; its message and its
/// diagnostics are rendered with the same. Evaluation succeeds exactly when
/// the phase exists and everything that is to be evaluated has a value.
pub proof fn reports_are_those_of_the_checks_that_fire(
    schema: SchemaView,
    document: DocumentView,
    phase_id: Option<Seq<char>>,
)
    ensures
        match semantics::evaluated(schema, document, phase_id) {
            Ok(list) => exists|phase: Option<PhaseView>, scope: Scope, keys: Seq<Key>| #[trigger]
                accounts_for(scope, schema, phase, keys, list) && is_phase(
                    schema.phases,
                    phase_id,
                    phase,
                ) && is_common_scope(schema, document, phase, scope) && everything_works(
                    scope,
                    schema,
                    phase,
                ),
            Err(_) => forall|phase: Option<PhaseView>, scope: Scope|
                is_phase(schema.phases, phase_id, phase) && #[trigger] is_common_scope(
                    schema,
                    document,
                    phase,
                    scope,
                ) ==> !everything_works(scope, schema, phase),
        },
{
    let phase = match phase_id {
        Some(id) => semantics::phase_named(schema.phases, id),
        None => None,
    };
    assert forall|other: Option<PhaseView>| #[trigger]
        is_phase(schema.phases, phase_id, other) implies other == phase by {
        if let Some(id) = phase_id {
            lemma_phase(schema.phases, id, other);
        }
    }
    if phase_id is Some && phase is None {
        assert forall|other: Option<PhaseView>| !#[trigger]
            is_phase(schema.phases, phase_id, other) by {
            lemma_phase(schema.phases, phase_id->0, other);
        }
    } else {
        if let Some(id) = phase_id {
            lemma_phase(schema.phases, id, phase);
        }
        assert(is_phase(schema.phases, phase_id, phase));
        let root = Scope {
            document,
            node: 0,
            variables: Map::empty(),
            namespaces: xpath::prefixes(schema.ns),
        };
        a_phase_binds_after_the_schema(schema, document, phase);
        match root.extended(common_lets(schema, phase)) {
            Err(_) => {
                assert forall|other: Scope| !#[trigger]
                    is_common_scope(schema, document, phase, other) by {
                    lemma_common_scope(schema, document, phase, other);
                }
            },
            Ok(scope) => {
                assert forall|other: Scope| #[trigger]
                    is_common_scope(schema, document, phase, other) <==> other == scope by {
                    lemma_common_scope(schema, document, phase, other);
                }
                assert(is_common_scope(schema, document, phase, scope));
                let keys = lemma_patterns(scope, schema.patterns, phase, schema.diagnostics, 0);
                assert(schema.patterns.skip(0) == schema.patterns);
                if let Ok(list) = semantics::evaluated(schema, document, phase_id) {
                    lemma_tells_same(
                        keys,
                        list,
                        patterns_due(scope, schema.patterns, phase, 0),
                        patterns_report(scope, schema.patterns, schema.diagnostics),
                        |key: Key| is_due(scope, schema, phase, key),
                        |key: Key, report: ReportView| is_report_of(scope, schema, key, report),
                    );
                    assert(accounts_for(scope, schema, phase, keys, list));
                    assert(everything_works(scope, schema, phase));
                }
            },
        }
    }
}

/// What two outcomes make up, one after the other: the first failure, or the
/// items of both.
pub open spec fn one_after_the_other<T>(
    first: Result<Seq<T>, SchematronEvalErrorView>,
    second: Result<Seq<T>, SchematronEvalErrorView>,
) -> Result<Seq<T>, SchematronEvalErrorView> {
    match (first, second) {
        (Ok(items), Ok(more)) => Ok(items + more),
        (Ok(_), Err(error)) => Err(error),
        (Err(error), _) => Err(error),
    }
}

/// Checks are independent: two lists of checks give what the first gives and
/// then what the second gives in the same scope, and a single check gives what
/// it gives alone.
pub proof fn checks_are_independent(
    scope: Scope,
    first: Seq<CheckView>,
    second: Seq<CheckView>,
    id: Option<Seq<char>>,
    diagnostics: Seq<DiagnosticView>,
)
    ensures
        scope.all_checked(first + second, id, diagnostics) == one_after_the_other(
            scope.all_checked(first, id, diagnostics),
            scope.all_checked(second, id, diagnostics),
        ),
        first.len() == 1 ==> scope.all_checked(first, id, diagnostics) == scope.checked(
            first[0],
            id,
            diagnostics,
        ),
        first.len() == 0 ==> scope.all_checked(first, id, diagnostics) == Ok::<
            Seq<ReportView>,
            SchematronEvalErrorView,
        >(seq![]),
    decreases first.len(),
{
    let rest = scope.all_checked(second, id, diagnostics);
    if first.len() == 0 {
        assert(first + second == second);
        if let Ok(more) = rest {
            assert(Seq::<ReportView>::empty() + more == more);
        }
    } else {
        assert((first + second).skip(1) == first.skip(1) + second);
        checks_are_independent(scope, first.skip(1), second, id, diagnostics);
        if let Ok(own) = scope.checked(first[0], id, diagnostics) {
            assert(own + Seq::<ReportView>::empty() == own);
            if let Ok(more) = scope.all_checked(first.skip(1), id, diagnostics) {
                if let Ok(last) = rest {
                    assert(own + (more + last) == (own + more) + last);
                }
            }
        }
    }
}

/// A rule gives at two lists of nodes what it gives at the first and then what
/// it gives at the second, and at a single node what it gives there.
pub proof fn nodes_are_independent(
    scope: Scope,
    first: Seq<int>,
    second: Seq<int>,
    rule: RuleView,
    id: Option<Seq<char>>,
    diagnostics: Seq<DiagnosticView>,
)
    ensures
        scope.rule_over(first + second, rule, id, diagnostics) == one_after_the_other(
            scope.rule_over(first, rule, id, diagnostics),
            scope.rule_over(second, rule, id, diagnostics),
        ),
        first.len() == 1 ==> scope.rule_over(first, rule, id, diagnostics) == scope.rule_at(
            first[0],
            rule,
            id,
            diagnostics,
        ),
        first.len() == 0 ==> scope.rule_over(first, rule, id, diagnostics) == Ok::<
            Seq<ReportView>,
            SchematronEvalErrorView,
        >(seq![]),
    decreases first.len(),
{
    let rest = scope.rule_over(second, rule, id, diagnostics);
    if first.len() == 0 {
        assert(first + second == second);
        if let Ok(more) = rest {
            assert(Seq::<ReportView>::empty() + more == more);
        }
    } else {
        assert((first + second).skip(1) == first.skip(1) + second);
        nodes_are_independent(scope, first.skip(1), second, rule, id, diagnostics);
        if let Ok(own) = scope.rule_at(first[0], rule, id, diagnostics) {
            assert(own + Seq::<ReportView>::empty() == own);
            if let Ok(more) = scope.rule_over(first.skip(1), rule, id, diagnostics) {
                if let Ok(last) = rest {
                    assert(own + (more + last) == (own + more) + last);
                }
            }
        }
    }
}

/// `claimed` and the nodes that one of `rules` selects.
pub open spec fn claimed_by(scope: Scope, rules: Seq<RuleView>, claimed: Set<int>) -> Set<int> {
    Set::new(
        |n: int|
            claimed.contains(n) || exists|i: int|
                0 <= i < rules.len() && selects(scope, (#[trigger] rules[i]).context, n),
    )
}

/// Two lists of rules give what the first gives and then what the second gives
/// at the nodes that the first leaves.
pub proof fn later_rules_get_what_earlier_ones_leave(
    scope: Scope,
    first: Seq<RuleView>,
    second: Seq<RuleView>,
    claimed: Set<int>,
    id: Option<Seq<char>>,
    diagnostics: Seq<DiagnosticView>,
)
    ensures
        scope.rules_applied(first + second, claimed, id, diagnostics) == (
        match scope.rules_applied(first, claimed, id, diagnostics) {
            Err(error) => Err(error),
            Ok(list) => one_after_the_other(
                Ok(list),
                scope.rules_applied(second, claimed_by(scope, first, claimed), id, diagnostics),
            ),
        }),
    decreases first.len(),
{
    if first.len() == 0 {
        assert(first + second == second);
        assert(claimed_by(scope, first, claimed) == claimed);
        if let Ok(more) = scope.rules_applied(second, claimed, id, diagnostics) {
            assert(Seq::<ReportView>::empty() + more == more);
        }
    } else {
        let rest = first.skip(1);
        assert((first + second).skip(1) == rest + second);
        a_context_selects_the_nodes_of_its_path(scope, first[0].context);
        if let Ok(set) = scope.selected(first[0].context) {
            let taken = claimed.union(set);
            later_rules_get_what_earlier_ones_leave(
                scope,
                rest,
                second,
                taken,
                id,
                diagnostics,
            );
            let all = claimed_by(scope, first, claimed);
            let others = claimed_by(scope, rest, taken);
            assert forall|n: int| all.contains(n) <==> others.contains(n) by {
                if all.contains(n) && !claimed.contains(n) && !set.contains(n) {
                    let i = choose|i: int|
                        0 <= i < first.len() && selects(scope, (#[trigger] first[i]).context, n);
                    assert(i > 0);
                    assert(rest[i - 1] == first[i]);
                }
                if set.contains(n) {
                    assert(selects(scope, first[0].context, n));
                }
                if others.contains(n) && !taken.contains(n) {
                    let i = choose|i: int|
                        0 <= i < rest.len() && selects(scope, (#[trigger] rest[i]).context, n);
                    assert(first[i + 1] == rest[i]);
                }
            }
            assert(all == others);
            let nodes = semantics::due(set, claimed, scope.document.nodes.len() as int);
            if let Ok(own) = scope.rule_over(nodes, first[0], id, diagnostics) {
                if let Ok(more) = scope.rules_applied(rest, taken, id, diagnostics) {
                    if let Ok(last) = scope.rules_applied(second, others, id, diagnostics) {
                        assert(own + (more + last) == (own + more) + last);
                    }
                }
            }
        }
    }
}

/// The parts of a message are rendered one after the other, and so are the
/// diagnostics of a check.
pub proof fn messages_are_rendered_part_by_part(
    scope: Scope,
    first: Seq<MessagePartView>,
    second: Seq<MessagePartView>,
)
    ensures
        scope.part_texts(first + second) == one_after_the_other(
            scope.part_texts(first),
            scope.part_texts(second),
        ),
    decreases first.len(),
{
    if first.len() == 0 {
        assert(first + second == second);
        if let Ok(more) = scope.part_texts(second) {
            assert(Seq::<Seq<char>>::empty() + more == more);
        }
    } else {
        assert((first + second).skip(1) == first.skip(1) + second);
        messages_are_rendered_part_by_part(scope, first.skip(1), second);
        if let Ok(own) = scope.part_text(first[0]) {
            if let Ok(more) = scope.part_texts(first.skip(1)) {
                if let Ok(last) = scope.part_texts(second) {
                    assert(seq![own] + (more + last) == (seq![own] + more) + last);
                }
            }
        }
    }
}

/// The diagnostics of a check are rendered one after the other.
pub proof fn diagnostics_are_rendered_one_by_one(
    scope: Scope,
    first: Seq<Seq<char>>,
    second: Seq<Seq<char>>,
    diagnostics: Seq<DiagnosticView>,
)
    ensures
        scope.rendered_diagnostics(first + second, diagnostics) == one_after_the_other(
            scope.rendered_diagnostics(first, diagnostics),
            scope.rendered_diagnostics(second, diagnostics),
        ),
    decreases first.len(),
{
    if first.len() == 0 {
        assert(first + second == second);
        if let Ok(more) = scope.rendered_diagnostics(second, diagnostics) {
            assert(Seq::<Seq<char>>::empty() + more == more);
        }
    } else {
        assert((first + second).skip(1) == first.skip(1) + second);
        diagnostics_are_rendered_one_by_one(scope, first.skip(1), second, diagnostics);
        if let Some(diagnostic) = semantics::diagnostic_named(diagnostics, first[0]) {
            if let Ok(own) = scope.rendered(diagnostic.message) {
                if let Ok(more) = scope.rendered_diagnostics(first.skip(1), diagnostics) {
                    if let Ok(last) = scope.rendered_diagnostics(second, diagnostics) {
                        assert(seq![own] + (more + last) == (seq![own] + more) + last);
                    }
                }
            }
        }
    }
}

/// In the report of a check that fires, each diagnostic is what the message of
/// the diagnostic referred to renders to in the very scope of the check.
pub proof fn diagnostics_are_rendered_in_the_scope_of_the_check(
    scope: Scope,
    check: CheckView,
    id: Option<Seq<char>>,
    diagnostics: Seq<DiagnosticView>,
    i: int,
    d: int,
)
    requires
        forall|k: int|
            0 <= k < check.diagnostics.len() ==> is_known(
                diagnostics,
                #[trigger] check.diagnostics[k],
            ),
        0 <= i < check.diagnostics.len(),
        is_diagnostic(diagnostics, check.diagnostics[i], d),
    ensures
        scope.report(check, id, diagnostics) matches Ok(report) ==> {
            &&& report.diagnostics.len() == check.diagnostics.len()
            &&& scope.rendered(diagnostics[d].message) == Ok::<Seq<char>, SchematronEvalErrorView>(
                report.diagnostics[i],
            )
            &&& scope.rendered(check.message) == Ok::<Seq<char>, SchematronEvalErrorView>(
                report.message,
            )
        },
{
    if let Ok(report) = scope.report(check, id, diagnostics) {
        lemma_report(scope, check, id, diagnostics, report);
        lemma_all_known(check.diagnostics, diagnostics);
        lemma_diagnostic_named(diagnostics, check.diagnostics[i]);
        assert(diagnostic_reads(
            scope,
            known_ids(check.diagnostics, diagnostics)[i],
            diagnostics,
            report.diagnostics[i],
        ));
        lemma_renders(scope, diagnostics[d].message, report.diagnostics[i]);
        lemma_renders(scope, check.message, report.message);
    }
}

proof fn lemma_all_known(ids: Seq<Seq<char>>, diagnostics: Seq<DiagnosticView>)
    requires
        forall|k: int| 0 <= k < ids.len() ==> is_known(diagnostics, #[trigger] ids[k]),
    ensures
        known_ids(ids, diagnostics) == ids,
    decreases ids.len(),
{
    if ids.len() > 0 {
        assert forall|k: int| 0 <= k < ids.skip(1).len() implies is_known(
            diagnostics,
            #[trigger] ids.skip(1)[k],
        ) by {
            assert(ids.skip(1)[k] == ids[k + 1]);
        }
        lemma_all_known(ids.skip(1), diagnostics);
        assert(is_known(diagnostics, ids[0]));
        assert(seq![ids[0]] + ids.skip(1) == ids);
    }
}

/// An expression that cannot be parsed or evaluated fails with the reason that
/// XPath gives.
pub proof fn expressions_fail_for_the_reason_that_xpath_gives(scope: Scope, expression: Seq<char>)
    ensures
        match xpath::xpath_expression(expression) {
            Err(error) => scope.value_of(expression) == Err::<
                XPathValueView,
                SchematronEvalErrorView,
            >(SchematronEvalErrorView::Parse(error)),
            Ok(parsed) => match xpath::xpath_value(
                parsed,
                NodeRef { document: scope.document, index: scope.node },
                scope.variables,
                scope.namespaces,
            ) {
                Err(error) => scope.value_of(expression) == Err::<
                    XPathValueView,
                    SchematronEvalErrorView,
                >(SchematronEvalErrorView::Eval(error)),
                Ok(value) => gives(scope, expression, value),
            },
        },
{
}

/// A check fails for the first reason among its test, its message and its
/// diagnostics; the latter two count only where it fires.
pub proof fn a_check_fails_for_its_first_reason(
    scope: Scope,
    check: CheckView,
    id: Option<Seq<char>>,
    diagnostics: Seq<DiagnosticView>,
    error: SchematronEvalErrorView,
)
    ensures
        scope.checked(check, id, diagnostics) == Err::<Seq<ReportView>, SchematronEvalErrorView>(
            error,
        ) <==> {
            ||| scope.value_of(check.test) == Err::<XPathValueView, SchematronEvalErrorView>(error)
            ||| fires(scope, check) && scope.rendered(check.message) == Err::<
                Seq<char>,
                SchematronEvalErrorView,
            >(error)
            ||| fires(scope, check) && scope.rendered(check.message) is Ok
                && scope.rendered_diagnostics(check.diagnostics, diagnostics) == Err::<
                Seq<Seq<char>>,
                SchematronEvalErrorView,
            >(error)
        },
{
    if let Ok(value) = scope.value_of(check.test) {
        assert(gives(scope, check.test, value));
    }
}

/// Bindings come before what they are for: where those of a rule or of a
/// pattern fail, it fails so; else it is evaluated with them, the rule at its
/// node.
pub proof fn bindings_come_first(
    scope: Scope,
    n: int,
    rule: RuleView,
    pattern: PatternView,
    id: Option<Seq<char>>,
    diagnostics: Seq<DiagnosticView>,
)
    ensures
        scope.rule_at(n, rule, id, diagnostics) == (match at_node(scope, n).extended(rule.lets) {
            Err(error) => Err(error),
            Ok(inner) => inner.all_checked(rule.checks, id, diagnostics),
        }),
        scope.pattern_applied(pattern, diagnostics) == (match scope.extended(pattern.lets) {
            Err(error) => Err(error),
            Ok(inner) => inner.rules_applied(
                pattern.rules,
                Set::empty(),
                pattern.id,
                diagnostics,
            ),
        }),
{
    assert(at_node(scope, n) == scope.at(n));
}

/// A rule that stands alone is evaluated at the nodes its context selects that
/// are not claimed; where the context selects none, the rule fails so.
pub proof fn a_rule_is_evaluated_at_the_nodes_it_selects(
    scope: Scope,
    rule: RuleView,
    claimed: Set<int>,
    nodes: Seq<int>,
    id: Option<Seq<char>>,
    diagnostics: Seq<DiagnosticView>,
)
    requires
        forall|i: int, j: int| 0 <= i < j < nodes.len() ==> nodes[i] < nodes[j],
        forall|n: int|
            nodes.contains(n) <==> 0 <= n < scope.document.nodes.len() && !claimed.contains(n)
                && selects(scope, rule.context, n),
    ensures
        scope.rules_applied(seq![rule], claimed, id, diagnostics) == (match scope.selected(
            rule.context,
        ) {
            Err(error) => Err(error),
            Ok(_) => scope.rule_over(nodes, rule, id, diagnostics),
        }),
{
    a_context_selects_the_nodes_of_its_path(scope, rule.context);
    let rules = seq![rule];
    let none: Seq<ReportView> = seq![];
    assert(rules[0] == rule);
    assert(rules.skip(1).len() == 0);
    if let Ok(set) = scope.selected(rule.context) {
        let count = scope.document.nodes.len() as int;
        let list = semantics::due(set, claimed, count);
        evaluation_laws::due_nodes_are_the_unclaimed_selected_ones(set, claimed, count);
        assert forall|n: int| list.contains(n) <==> nodes.contains(n) by {}
        lemma_same_sorted(list, nodes);
        assert(scope.rules_applied(rules.skip(1), claimed.union(set), id, diagnostics) == Ok::<
            Seq<ReportView>,
            SchematronEvalErrorView,
        >(none));
        if let Ok(own) = scope.rule_over(list, rule, id, diagnostics) {
            assert(own + Seq::<ReportView>::empty() == own);
        }
    }
}

/// Two ascending lists of the same numbers are the same.
proof fn lemma_same_sorted(left: Seq<int>, right: Seq<int>)
    requires
        forall|i: int, j: int| 0 <= i < j < left.len() ==> left[i] < left[j],
        forall|i: int, j: int| 0 <= i < j < right.len() ==> right[i] < right[j],
        forall|n: int| left.contains(n) <==> right.contains(n),
    ensures
        left == right,
    decreases left.len(),
{
    if left.len() == 0 {
        if right.len() > 0 {
            assert(right.contains(right[0]));
            assert(left.contains(right[0]));
        }
        assert(left == right);
    } else {
        assert(left.contains(left.last()));
        assert(right.contains(left.last()));
        assert(right.len() > 0);
        assert(right.contains(right.last()));
        assert(left.contains(right.last()));
        let i = choose|i: int| 0 <= i < right.len() && right[i] == left.last();
        let k = choose|k: int| 0 <= k < left.len() && left[k] == right.last();
        if i < right.len() - 1 {
            assert(right[i] < right[right.len() - 1]);
        }
        if k < left.len() - 1 {
            assert(left[k] < left[left.len() - 1]);
        }
        assert(left.last() == right.last());
        let l = left.drop_last();
        let r = right.drop_last();
        assert forall|n: int| l.contains(n) <==> r.contains(n) by {
            if l.contains(n) {
                let a = choose|a: int| 0 <= a < l.len() && l[a] == n;
                assert(left[a] == n && left[a] < left[left.len() - 1]);
                assert(left.contains(n));
                let b = choose|b: int| 0 <= b < right.len() && right[b] == n;
                assert(b < r.len());
                assert(r[b] == n);
            }
            if r.contains(n) {
                let a = choose|a: int| 0 <= a < r.len() && r[a] == n;
                assert(right[a] == n && right[a] < right[right.len() - 1]);
                assert(right.contains(n));
                let b = choose|b: int| 0 <= b < left.len() && left[b] == n;
                assert(b < l.len());
                assert(l[b] == n);
            }
        }
        lemma_same_sorted(l, r);
        assert(left == l.push(left.last()));
        assert(right == r.push(right.last()));
    }
}

/// A phase is found by its identifier, the first one where there are several;
/// without an identifier evaluation is not restricted, and an identifier that
/// no phase has is refused.
pub proof fn a_phase_is_found_by_its_identifier(
    schema: SchemaView,
    document: DocumentView,
    id: Seq<char>,
    phase: PhaseView,
)
    ensures
        semantics::evaluated(schema, document, None) == semantics::evaluated_in(
            schema,
            document,
            None,
        ),
        is_named_phase(schema.phases, id, phase) ==> semantics::evaluated(
            schema,
            document,
            Some(id),
        ) == semantics::evaluated_in(schema, document, Some(phase)),
        (forall|k: int| 0 <= k < schema.phases.len() ==> (#[trigger] schema.phases[k]).id != id)
            ==> semantics::evaluated(schema, document, Some(id)) == Err::<
            Seq<ReportView>,
            SchematronEvalErrorView,
        >(SchematronEvalErrorView::UnknownPhase { phase: id }),
{
    lemma_named_phase(schema.phases, id, phase);
    if forall|k: int| 0 <= k < schema.phases.len() ==> (#[trigger] schema.phases[k]).id != id {
        if let Some(found) = semantics::phase_named(schema.phases, id) {
            lemma_named_phase(schema.phases, id, found);
            let k = choose|k: int| #[trigger]
                names_phase(schema.phases, id, k) && schema.phases[k] == found;
            assert(schema.phases[k].id != id);
        }
    }
}

proof fn lemma_first_node(nodes: Seq<NodeRef>)
    requires
        nodes.len() > 0,
    ensures
        nodes.contains(xpath::first_node(nodes)),
        forall|i: int|
            0 <= i < nodes.len() ==> xpath::first_node(nodes).index <= (
            #[trigger] nodes[i]).index,
    decreases nodes.len(),
{
    if nodes.len() == 1 {
        assert(nodes[0] == xpath::first_node(nodes));
    } else {
        let before = nodes.drop_last();
        lemma_first_node(before);
        let first = xpath::first_node(before);
        let k = choose|k: int| 0 <= k < before.len() && before[k] == first;
        assert(nodes[k] == first);
        assert(nodes[nodes.len() - 1] == nodes.last());
        assert forall|i: int| 0 <= i < nodes.len() implies xpath::first_node(nodes).index <= (
        #[trigger] nodes[i]).index by {
            if i < before.len() {
                assert(before[i] == nodes[i]);
            }
        }
    }
}

/// A node-set of one document reads as the string-value of the first of its
/// nodes in document order, whatever the order in which it lists them.
pub proof fn a_node_set_reads_as_its_first_node(
    document: DocumentView,
    nodes: Seq<NodeRef>,
    k: int,
)
    requires
        0 <= k < nodes.len(),
        forall|i: int| 0 <= i < nodes.len() ==> (#[trigger] nodes[i]).document == document,
        forall|i: int| 0 <= i < nodes.len() ==> nodes[k].index <= (#[trigger] nodes[i]).index,
    ensures
        XPathValueView::NodeSet(nodes).text() == document.nodes[nodes[k].index].string_value,
{
    lemma_first_node(nodes);
    let first = xpath::first_node(nodes);
    let i = choose|i: int| 0 <= i < nodes.len() && nodes[i] == first;
    assert(nodes[i].index >= nodes[k].index);
    assert(first.index <= nodes[k].index);
}

/// Whether node `m` belongs to node `n` in this way: as one of its attributes,
/// as one of its namespace nodes, or as a child of any other kind.
pub open spec fn belongs(document: DocumentView, n: int, place: Place, m: int) -> bool {
    &&& 0 <= m < document.nodes.len()
    &&& document.nodes[m].parent is Some
    &&& document.nodes[m].parent->0 == n
    &&& match place {
        Place::Attribute => document.nodes[m].kind is Attribute,
        Place::Namespace => document.nodes[m].kind is Namespace,
        Place::Child => !(document.nodes[m].kind is Attribute)
            && !(document.nodes[m].kind is Namespace),
    }
}

proof fn lemma_belonging(document: DocumentView, n: int, place: Place, k: int)
    requires
        0 <= n <= usize::MAX,
        0 <= k <= document.nodes.len(),
    ensures
        forall|m: int| #[trigger]
            document.belonging_before(n, place, k).contains(m) <==> m < k && belongs(
                document,
                n,
                place,
                m,
            ),
        forall|i: int, j: int|
            0 <= i < j < document.belonging_before(n, place, k).len()
                ==> document.belonging_before(n, place, k)[i] < document.belonging_before(
                n,
                place,
                k,
            )[j],
    decreases k,
{
    let list = document.belonging_before(n, place, k);
    if k > 0 {
        lemma_belonging(document, n, place, k - 1);
        let before = document.belonging_before(n, place, k - 1);
        assert forall|m: int| #[trigger] list.contains(m) <==> m < k && belongs(
            document,
            n,
            place,
            m,
        ) by {
            assert(before.contains(m) <==> m < k - 1 && belongs(document, n, place, m));
            if before.contains(m) {
                let i = choose|i: int| 0 <= i < before.len() && before[i] == m;
                assert(list[i] == m);
            }
            if list.contains(m) && m != k - 1 {
                let i = choose|i: int| 0 <= i < list.len() && list[i] == m;
                assert(before[i] == m);
            }
            if belongs(document, n, place, k - 1) {
                assert(list[list.len() - 1] == k - 1);
            } else if m == k - 1 {
                assert(!before.contains(m));
            }
        }
        assert forall|i: int, j: int| 0 <= i < j < list.len() implies list[i] < list[j] by {
            assert(list[i] == before[i]);
            if j < before.len() {
                assert(list[j] == before[j]);
            } else {
                assert(before.contains(before[i]));
            }
        }
    } else {
        assert forall|m: int| !#[trigger] list.contains(m) && !(m < k && belongs(
            document,
            n,
            place,
            m,
        )) by {}
    }
}

/// The children, attributes and namespace nodes of a node are exactly the
/// nodes that belong to it so, in document order.
pub proof fn what_belongs_to_a_node(document: DocumentView, n: int, place: Place)
    requires
        0 <= n <= usize::MAX,
    ensures
        forall|m: int| #[trigger]
            document.belonging(n, place).contains(m) <==> belongs(document, n, place, m),
        forall|i: int, j: int|
            0 <= i < j < document.belonging(n, place).len() ==> document.belonging(n, place)[i]
                < document.belonging(n, place)[j],
{
    lemma_belonging(document, n, place, document.nodes.len() as int);
}

/// A message fails as the first of its parts that fails, and a single part as
/// its expression does; a text never fails.
pub proof fn a_message_fails_as_its_expressions_do(
    scope: Scope,
    part: MessagePartView,
    parts: Seq<MessagePartView>,
    error: SchematronEvalErrorView,
)
    ensures
        scope.part_texts(seq![part]) == Err::<Seq<Seq<char>>, SchematronEvalErrorView>(error) <==> (
        match part {
            MessagePartView::Text(_) => false,
            MessagePartView::ValueOf(select) => scope.value_of(select) == Err::<
                XPathValueView,
                SchematronEvalErrorView,
            >(error),
            MessagePartView::Name(Some(path)) => scope.value_of("name("@ + path + ")"@) == Err::<
                XPathValueView,
                SchematronEvalErrorView,
            >(error),
            MessagePartView::Name(None) => scope.value_of("name()"@) == Err::<
                XPathValueView,
                SchematronEvalErrorView,
            >(error),
        }),
        scope.rendered(parts) == Err::<Seq<char>, SchematronEvalErrorView>(error)
            <==> scope.part_texts(parts) == Err::<Seq<Seq<char>>, SchematronEvalErrorView>(error),
{
    let one = seq![part];
    assert(one[0] == part && one.skip(1).len() == 0);
    assert(scope.part_texts(one.skip(1)) is Ok);
}

/// A diagnostic that is referred to fails as its message does; one that does
/// not exist is passed over.
pub proof fn a_diagnostic_fails_as_its_message_does(
    scope: Scope,
    id: Seq<char>,
    diagnostics: Seq<DiagnosticView>,
    error: SchematronEvalErrorView,
)
    ensures
        scope.rendered_diagnostics(seq![id], diagnostics) == Err::<
            Seq<Seq<char>>,
            SchematronEvalErrorView,
        >(error) <==> exists|d: int| #[trigger]
            is_diagnostic(diagnostics, id, d) && scope.rendered(diagnostics[d].message) == Err::<
                Seq<char>,
                SchematronEvalErrorView,
            >(error),
{
    let one = seq![id];
    assert(one[0] == id && one.skip(1).len() == 0);
    assert(scope.rendered_diagnostics(one.skip(1), diagnostics) is Ok);
    lemma_diagnostic_named(diagnostics, id);
    if let Some(diagnostic) = semantics::diagnostic_named(diagnostics, id) {
        let d = choose|d: int| #[trigger]
            is_diagnostic(diagnostics, id, d) && diagnostics[d] == diagnostic;
        assert(is_diagnostic(diagnostics, id, d));
    }
}

/// A single binding binds its name to its value, a literal to its text, and
/// fails as its expression does.
pub proof fn a_binding_is_its_value(scope: Scope, binding: LetBindingView)
    ensures
        scope.extended(seq![binding]) == (match binding.value {
            LetValueView::Literal(text) => Ok(
                with_variables(
                    scope,
                    scope.variables.insert(binding.name, XPathValueView::Text(text)),
                ),
            ),
            LetValueView::Expr(text) => match scope.value_of(text) {
                Ok(value) => Ok(
                    with_variables(scope, scope.variables.insert(binding.name, value)),
                ),
                Err(error) => Err(error),
            },
        }),
{
    let one = seq![binding];
    assert(one[0] == binding && one.skip(1).len() == 0);
    if let Ok(value) = scope.let_value(binding.value) {
        let inner = scope.with(binding.name, value);
        assert(inner.extended(one.skip(1)) == Ok::<Scope, SchematronEvalErrorView>(inner));
    }
}

/// A pattern that takes part gives what it gives alone, and one that does not
/// gives nothing.
pub proof fn a_pattern_takes_part_or_gives_nothing(
    scope: Scope,
    pattern: PatternView,
    phase: Option<PhaseView>,
    diagnostics: Seq<DiagnosticView>,
)
    ensures
        scope.patterns_applied(seq![pattern], phase, diagnostics) == (if takes_part(
            pattern,
            phase,
        ) {
            scope.pattern_applied(pattern, diagnostics)
        } else {
            Ok(seq![])
        }),
{
    let one = seq![pattern];
    let none: Seq<ReportView> = seq![];
    assert(one[0] == pattern && one.skip(1).len() == 0);
    assert(scope.patterns_applied(one.skip(1), phase, diagnostics) == Ok::<
        Seq<ReportView>,
        SchematronEvalErrorView,
    >(none));
    assert(takes_part(pattern, phase) <==> semantics::is_active(pattern, phase));
    if let Ok(own) = scope.pattern_applied(pattern, diagnostics) {
        assert(own + none == own);
    }
}

/// What makes a list of nodes a document: there is a first one, which is
/// neither an attribute nor a namespace node, it alone has no parent, and every
/// parent comes before its children.
pub proof fn a_document_hangs_from_its_first_node(document: DocumentView)
    ensures
        document.well_formed() <==> {
            &&& document.nodes.len() > 0
            &&& !(document.nodes[0].kind is Attribute) && !(document.nodes[0].kind is Namespace)
            &&& forall|n: int|
                0 <= n < document.nodes.len() ==> ((#[trigger] document.nodes[n]).parent is None
                    <==> n == 0)
            &&& forall|n: int|
                0 <= n < document.nodes.len() && (#[trigger] document.nodes[n]).parent is Some
                    ==> document.nodes[n].parent->0 < n
        },
{
    if document.well_formed() {
        assert forall|n: int| 0 <= n < document.nodes.len() implies ((
        #[trigger] document.nodes[n]).parent is None <==> n == 0) && (document.nodes[n].parent
            is Some ==> document.nodes[n].parent->0 < n) by {
            assert(n > 0 ==> document.nodes[n].parent is Some);
        }
    } else if document.nodes.len() > 0 && document.nodes[0].parent is None
        && document.nodes[0].kind.spec_place() == Place::Child {
        let n = choose|n: int|
            0 < n < document.nodes.len() && !(match #[trigger] document.nodes[n].parent {
                Some(parent) => parent < n,
                None => false,
            });
        assert(document.nodes[n].parent is None || document.nodes[n].parent->0 >= n);
    }
}

} // verus!
