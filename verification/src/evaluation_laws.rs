//! Laws of evaluation: what holds of the reports of every schema on every
//! document.

use vstd::prelude::*;

use crate::document::DocumentView;
use crate::schema::{
    CheckKind, CheckView, DiagnosticView, LetBindingView, LetValueView, MessagePartView,
    NamespaceBindingView, PatternView, PhaseView, RuleView, SchemaView,
};
use crate::semantics;
use crate::semantics::{ReportView, SchematronEvalErrorView, Scope};
use crate::xml::XmlTree;
use crate::xpath::XPathValueView;

verus! {

/// Those of `reports` that are on node `n`.
pub open spec fn on_node(reports: Seq<ReportView>, n: int) -> Seq<ReportView>
    decreases reports.len(),
{
    if reports.len() == 0 {
        seq![]
    } else if reports[0].node == n {
        seq![reports[0]] + on_node(reports.skip(1), n)
    } else {
        on_node(reports.skip(1), n)
    }
}

/// The first of `rules` whose context selects node `n`.
pub open spec fn first_selecting(scope: Scope, rules: Seq<RuleView>, n: int) -> Option<RuleView>
    decreases rules.len(),
{
    if rules.len() == 0 {
        None
    } else {
        match scope.selected(rules[0].context) {
            Ok(nodes) => if nodes.contains(n) {
                Some(rules[0])
            } else {
                first_selecting(scope, rules.skip(1), n)
            },
            Err(_) => first_selecting(scope, rules.skip(1), n),
        }
    }
}

proof fn lemma_on_node_concat(left: Seq<ReportView>, right: Seq<ReportView>, n: int)
    ensures
        on_node(left + right, n) == on_node(left, n) + on_node(right, n),
    decreases left.len(),
{
    if left.len() == 0 {
        assert(left + right == right);
        assert(on_node(left, n) + on_node(right, n) == on_node(right, n));
    } else {
        assert((left + right).skip(1) == left.skip(1) + right);
        lemma_on_node_concat(left.skip(1), right, n);
        assert(on_node(left + right, n) == on_node(left, n) + on_node(right, n));
    }
}

proof fn lemma_on_node_uniform(reports: Seq<ReportView>, m: int, n: int)
    requires
        forall|i: int| 0 <= i < reports.len() ==> (#[trigger] reports[i]).node == m,
    ensures
        on_node(reports, n) == (if m == n {
            reports
        } else {
            seq![]
        }),
    decreases reports.len(),
{
    if reports.len() > 0 {
        assert forall|i: int| 0 <= i < reports.skip(1).len() implies (#[trigger] reports.skip(
            1,
        )[i]).node == m by {
            assert(reports.skip(1)[i] == reports[i + 1]);
        }
        lemma_on_node_uniform(reports.skip(1), m, n);
        assert(reports == seq![reports[0]] + reports.skip(1));
    }
}

/// Binding variables changes neither the node, nor the document, nor the
/// namespaces.
pub proof fn lets_keep_the_node(scope: Scope, lets: Seq<LetBindingView>)
    ensures
        scope.extended(lets) matches Ok(inner) ==> inner.node == scope.node && inner.document
            == scope.document && inner.namespaces == scope.namespaces,
    decreases lets.len(),
{
    if lets.len() > 0 {
        if let Ok(value) = scope.let_value(lets[0].value) {
            lets_keep_the_node(scope.with(lets[0].name, value), lets.skip(1));
        }
    }
}

proof fn lemma_checks_report_their_node(
    scope: Scope,
    checks: Seq<CheckView>,
    id: Option<Seq<char>>,
    diagnostics: Seq<DiagnosticView>,
)
    ensures
        scope.all_checked(checks, id, diagnostics) matches Ok(reports) ==> forall|i: int|
            0 <= i < reports.len() ==> (#[trigger] reports[i]).node == scope.node
                && reports[i].pattern_id == id,
    decreases checks.len(),
{
    if checks.len() > 0 {
        lemma_checks_report_their_node(scope, checks.skip(1), id, diagnostics);
    }
}

/// The reports of a rule at a node are on that node and name the pattern.
pub proof fn a_rule_reports_the_node_it_is_applied_to(
    scope: Scope,
    node: int,
    rule: RuleView,
    id: Option<Seq<char>>,
    diagnostics: Seq<DiagnosticView>,
)
    ensures
        scope.rule_at(node, rule, id, diagnostics) matches Ok(reports) ==> forall|i: int|
            0 <= i < reports.len() ==> (#[trigger] reports[i]).node == node
                && reports[i].pattern_id == id,
{
    lets_keep_the_node(scope.at(node), rule.lets);
    if let Ok(inner) = scope.at(node).extended(rule.lets) {
        lemma_checks_report_their_node(inner, rule.checks, id, diagnostics);
    }
}

/// The nodes a rule is due at are those it selects that are not claimed, each
/// once, in document order.
pub proof fn due_nodes_are_the_unclaimed_selected_ones(
    nodes: Set<int>,
    claimed: Set<int>,
    count: int,
)
    ensures
        forall|n: int|
            #[trigger] semantics::due(nodes, claimed, count).contains(n) <==> {
                &&& 0 <= n < count
                &&& nodes.contains(n)
                &&& !claimed.contains(n)
            },
        forall|i: int, j: int|
            0 <= i < j < semantics::due(nodes, claimed, count).len() ==> semantics::due(
                nodes,
                claimed,
                count,
            )[i] < semantics::due(nodes, claimed, count)[j],
    decreases count,
{
    if count > 0 {
        due_nodes_are_the_unclaimed_selected_ones(nodes, claimed, count - 1);
        let before = semantics::due(nodes, claimed, count - 1);
        let list = semantics::due(nodes, claimed, count);
        assert forall|i: int| 0 <= i < before.len() implies #[trigger] before[i] < count - 1 by {
            assert(before.contains(before[i]));
        }
        assert forall|n: int| #[trigger] list.contains(n) <==> 0 <= n < count && nodes.contains(n)
            && !claimed.contains(n) by {
            if nodes.contains(count - 1) && !claimed.contains(count - 1) {
                assert(list == before.push(count - 1));
                assert(list[before.len() as int] == count - 1);
                if before.contains(n) {
                    let i = choose|i: int| 0 <= i < before.len() && before[i] == n;
                    assert(list[i] == n);
                }
                if list.contains(n) && n != count - 1 {
                    let i = choose|i: int| 0 <= i < list.len() && list[i] == n;
                    assert(before[i] == n);
                }
            }
        }
    }
}

proof fn lemma_rule_over_on_node(
    scope: Scope,
    nodes: Seq<int>,
    rule: RuleView,
    id: Option<Seq<char>>,
    diagnostics: Seq<DiagnosticView>,
    n: int,
)
    requires
        forall|i: int, j: int| 0 <= i < j < nodes.len() ==> nodes[i] < nodes[j],
    ensures
        scope.rule_over(nodes, rule, id, diagnostics) matches Ok(reports) ==> {
            if nodes.contains(n) {
                scope.rule_at(n, rule, id, diagnostics) == Ok::<
                    Seq<ReportView>,
                    SchematronEvalErrorView,
                >(on_node(reports, n))
            } else {
                on_node(reports, n).len() == 0
            }
        },
    decreases nodes.len(),
{
    if nodes.len() > 0 {
        let rest = nodes.skip(1);
        assert forall|i: int, j: int| 0 <= i < j < rest.len() implies rest[i] < rest[j] by {
            assert(nodes[i + 1] < nodes[j + 1]);
        }
        lemma_rule_over_on_node(scope, rest, rule, id, diagnostics, n);
        a_rule_reports_the_node_it_is_applied_to(scope, nodes[0], rule, id, diagnostics);
        if let Ok(reports) = scope.rule_over(nodes, rule, id, diagnostics) {
            let own = scope.rule_at(nodes[0], rule, id, diagnostics)->Ok_0;
            let more = scope.rule_over(rest, rule, id, diagnostics)->Ok_0;
            lemma_on_node_concat(own, more, n);
            lemma_on_node_uniform(own, nodes[0], n);
            if rest.contains(n) {
                let i = choose|i: int| 0 <= i < rest.len() && rest[i] == n;
                assert(nodes[i + 1] == n);
                assert(nodes[0] < nodes[i + 1]);
                assert(on_node(reports, n) == on_node(more, n));
            } else if n == nodes[0] {
                assert(nodes.contains(n));
                assert(on_node(reports, n) == own);
            } else {
                if nodes.contains(n) {
                    let i = choose|i: int| 0 <= i < nodes.len() && nodes[i] == n;
                    assert(rest[i - 1] == n);
                }
            }
        }
    }
}

/// Within a pattern at most one rule applies to a node, the first that
/// selects it: the reports on a node are those of that rule alone, and there
/// are none where the node is claimed or no rule selects it.
pub proof fn first_matching_rule_wins(
    scope: Scope,
    rules: Seq<RuleView>,
    claimed: Set<int>,
    id: Option<Seq<char>>,
    diagnostics: Seq<DiagnosticView>,
    n: int,
)
    requires
        0 <= n < scope.document.nodes.len(),
    ensures
        scope.rules_applied(rules, claimed, id, diagnostics) matches Ok(reports) ==> {
            if claimed.contains(n) {
                on_node(reports, n).len() == 0
            } else {
                match first_selecting(scope, rules, n) {
                    Some(rule) => scope.rule_at(n, rule, id, diagnostics) == Ok::<
                        Seq<ReportView>,
                        SchematronEvalErrorView,
                    >(on_node(reports, n)),
                    None => on_node(reports, n).len() == 0,
                }
            }
        },
    decreases rules.len(),
{
    if rules.len() > 0 {
        if let Ok(reports) = scope.rules_applied(rules, claimed, id, diagnostics) {
            let count = scope.document.nodes.len() as int;
            let nodes = scope.selected(rules[0].context)->Ok_0;
            let list = semantics::due(nodes, claimed, count);
            let own = scope.rule_over(list, rules[0], id, diagnostics)->Ok_0;
            let taken = claimed.union(nodes);
            let more = scope.rules_applied(rules.skip(1), taken, id, diagnostics)->Ok_0;
            due_nodes_are_the_unclaimed_selected_ones(nodes, claimed, count);
            lemma_rule_over_on_node(scope, list, rules[0], id, diagnostics, n);
            first_matching_rule_wins(scope, rules.skip(1), taken, id, diagnostics, n);
            lemma_on_node_concat(own, more, n);
            assert(reports == own + more);
            if on_node(own, n).len() == 0 {
                assert(on_node(reports, n) == on_node(more, n));
            }
            if on_node(more, n).len() == 0 {
                assert(on_node(reports, n) == on_node(own, n));
            }
        }
    }
}

/// The reports of a rule come in document order.
pub proof fn a_rule_reports_in_document_order(
    scope: Scope,
    nodes: Set<int>,
    claimed: Set<int>,
    rule: RuleView,
    id: Option<Seq<char>>,
    diagnostics: Seq<DiagnosticView>,
)
    ensures
        scope.rule_over(
            semantics::due(nodes, claimed, scope.document.nodes.len() as int),
            rule,
            id,
            diagnostics,
        ) matches Ok(reports) ==> forall|i: int, j: int|
            0 <= i <= j < reports.len() ==> (#[trigger] reports[i]).node <= (
            #[trigger] reports[j]).node,
{
    let count = scope.document.nodes.len() as int;
    due_nodes_are_the_unclaimed_selected_ones(nodes, claimed, count);
    lemma_ordered(scope, semantics::due(nodes, claimed, count), rule, id, diagnostics);
}

proof fn lemma_ordered(
    scope: Scope,
    nodes: Seq<int>,
    rule: RuleView,
    id: Option<Seq<char>>,
    diagnostics: Seq<DiagnosticView>,
)
    requires
        forall|i: int, j: int| 0 <= i < j < nodes.len() ==> nodes[i] < nodes[j],
    ensures
        scope.rule_over(nodes, rule, id, diagnostics) matches Ok(reports) ==> {
            &&& forall|i: int, j: int|
                0 <= i <= j < reports.len() ==> (#[trigger] reports[i]).node <= (
                #[trigger] reports[j]).node
            &&& forall|i: int|
                0 <= i < reports.len() ==> nodes.contains((#[trigger] reports[i]).node)
        },
    decreases nodes.len(),
{
    if nodes.len() > 0 {
        let rest = nodes.skip(1);
        assert forall|i: int, j: int| 0 <= i < j < rest.len() implies rest[i] < rest[j] by {
            assert(nodes[i + 1] < nodes[j + 1]);
        }
        lemma_ordered(scope, rest, rule, id, diagnostics);
        a_rule_reports_the_node_it_is_applied_to(scope, nodes[0], rule, id, diagnostics);
        if let Ok(reports) = scope.rule_over(nodes, rule, id, diagnostics) {
            let own = scope.rule_at(nodes[0], rule, id, diagnostics)->Ok_0;
            let more = scope.rule_over(rest, rule, id, diagnostics)->Ok_0;
            assert forall|i: int| 0 <= i < reports.len() implies nodes.contains(
                (#[trigger] reports[i]).node,
            ) && nodes[0] <= reports[i].node by {
                if i < own.len() {
                    assert(reports[i] == own[i]);
                    assert(nodes.contains(nodes[0]));
                } else {
                    assert(reports[i] == more[i - own.len()]);
                    let k = choose|k: int| 0 <= k < rest.len() && rest[k] == reports[i].node;
                    assert(nodes[k + 1] == reports[i].node);
                    assert(nodes[0] < nodes[k + 1]);
                }
            }
            assert forall|i: int, j: int| 0 <= i <= j < reports.len() implies (
            #[trigger] reports[i]).node <= (#[trigger] reports[j]).node by {
                if i < own.len() {
                    assert(reports[i] == own[i]);
                } else {
                    assert(reports[i] == more[i - own.len()]);
                    assert(reports[j] == more[j - own.len()]);
                }
            }
        }
    }
}

/// Patterns are independent: what a list of patterns gives is what its parts
/// give, one after the other, each in the same scope.
pub proof fn patterns_are_independent(
    scope: Scope,
    first: Seq<PatternView>,
    second: Seq<PatternView>,
    phase: Option<PhaseView>,
    diagnostics: Seq<DiagnosticView>,
)
    ensures
        scope.patterns_applied(first + second, phase, diagnostics) == (
        match scope.patterns_applied(first, phase, diagnostics) {
            Err(error) => Err(error),
            Ok(reports) => semantics::prepend(
                reports,
                scope.patterns_applied(second, phase, diagnostics),
            ),
        }),
    decreases first.len(),
{
    let rest = scope.patterns_applied(second, phase, diagnostics);
    if first.len() == 0 {
        assert(first + second == second);
        if let Ok(reports) = rest {
            assert(Seq::<ReportView>::empty() + reports == reports);
        }
    } else {
        assert((first + second).skip(1) == first.skip(1) + second);
        patterns_are_independent(scope, first.skip(1), second, phase, diagnostics);
        if semantics::is_active(first[0], phase) {
            if let Ok(own) = scope.pattern_applied(first[0], diagnostics) {
                if let Ok(more) = scope.patterns_applied(first.skip(1), phase, diagnostics) {
                    if let Ok(reports) = rest {
                        assert(own + (more + reports) == (own + more) + reports);
                    }
                }
            }
        }
    }
}

/// Those of `patterns` that are active in `phase`.
pub open spec fn active_patterns(patterns: Seq<PatternView>, phase: PhaseView) -> Seq<PatternView>
    decreases patterns.len(),
{
    if patterns.len() == 0 {
        seq![]
    } else if semantics::is_active(patterns[0], Some(phase)) {
        seq![patterns[0]] + active_patterns(patterns.skip(1), phase)
    } else {
        active_patterns(patterns.skip(1), phase)
    }
}

/// A phase restricts evaluation to the patterns it activates: these give what
/// they would give if the schema had no others.
pub proof fn a_phase_selects_its_patterns(
    scope: Scope,
    patterns: Seq<PatternView>,
    phase: PhaseView,
    diagnostics: Seq<DiagnosticView>,
)
    ensures
        scope.patterns_applied(patterns, Some(phase), diagnostics) == scope.patterns_applied(
            active_patterns(patterns, phase),
            None,
            diagnostics,
        ),
    decreases patterns.len(),
{
    if patterns.len() > 0 {
        a_phase_selects_its_patterns(scope, patterns.skip(1), phase, diagnostics);
        if semantics::is_active(patterns[0], Some(phase)) {
            let active = active_patterns(patterns, phase);
            assert(active[0] == patterns[0]);
            assert(active.skip(1) == active_patterns(patterns.skip(1), phase));
        }
    }
}

proof fn lemma_rule_over_names_pattern(
    scope: Scope,
    nodes: Seq<int>,
    rule: RuleView,
    id: Option<Seq<char>>,
    diagnostics: Seq<DiagnosticView>,
)
    ensures
        scope.rule_over(nodes, rule, id, diagnostics) matches Ok(reports) ==> forall|i: int|
            0 <= i < reports.len() ==> (#[trigger] reports[i]).pattern_id == id,
    decreases nodes.len(),
{
    if nodes.len() > 0 {
        a_rule_reports_the_node_it_is_applied_to(scope, nodes[0], rule, id, diagnostics);
        lemma_rule_over_names_pattern(scope, nodes.skip(1), rule, id, diagnostics);
    }
}

proof fn lemma_rules_name_pattern(
    scope: Scope,
    rules: Seq<RuleView>,
    claimed: Set<int>,
    id: Option<Seq<char>>,
    diagnostics: Seq<DiagnosticView>,
)
    ensures
        scope.rules_applied(rules, claimed, id, diagnostics) matches Ok(reports) ==> forall|i: int|
            0 <= i < reports.len() ==> (#[trigger] reports[i]).pattern_id == id,
    decreases rules.len(),
{
    if rules.len() > 0 {
        if let Ok(nodes) = scope.selected(rules[0].context) {
            let list = semantics::due(nodes, claimed, scope.document.nodes.len() as int);
            lemma_rule_over_names_pattern(scope, list, rules[0], id, diagnostics);
            lemma_rules_name_pattern(
                scope,
                rules.skip(1),
                claimed.union(nodes),
                id,
                diagnostics,
            );
        }
    }
}

/// In a phase, every report names a pattern that the phase activates.
pub proof fn reports_name_active_patterns(
    scope: Scope,
    patterns: Seq<PatternView>,
    phase: PhaseView,
    diagnostics: Seq<DiagnosticView>,
)
    ensures
        scope.patterns_applied(patterns, Some(phase), diagnostics) matches Ok(reports)
            ==> forall|i: int|
            0 <= i < reports.len() ==> ((#[trigger] reports[i]).pattern_id matches Some(id)
                && phase.active.contains(id)),
    decreases patterns.len(),
{
    if patterns.len() > 0 {
        reports_name_active_patterns(scope, patterns.skip(1), phase, diagnostics);
        if let Ok(inner) = scope.extended(patterns[0].lets) {
            lemma_rules_name_pattern(
                inner,
                patterns[0].rules,
                Set::empty(),
                patterns[0].id,
                diagnostics,
            );
        }
    }
}

/// Without a phase the schema's phases play no part.
pub proof fn without_a_phase_all_patterns_count(
    schema: SchemaView,
    other: SchemaView,
    document: DocumentView,
)
    requires
        schema.ns == other.ns,
        schema.lets == other.lets,
        schema.patterns == other.patterns,
        schema.diagnostics == other.diagnostics,
    ensures
        semantics::evaluated(schema, document, None) == semantics::evaluated(
            other,
            document,
            None,
        ),
{
}

/// The properties and the query binding of a schema do not affect its
/// evaluation.
pub proof fn properties_do_not_affect_evaluation(
    schema: SchemaView,
    other: SchemaView,
    document: DocumentView,
    phase_id: Option<Seq<char>>,
)
    requires
        schema.ns == other.ns,
        schema.lets == other.lets,
        schema.phases == other.phases,
        schema.patterns == other.patterns,
        schema.diagnostics == other.diagnostics,
    ensures
        semantics::evaluated(schema, document, phase_id) == semantics::evaluated(
            other,
            document,
            phase_id,
        ),
{
}

/// Where a prefix is bound more than once, its first binding holds.
pub proof fn the_first_binding_of_a_prefix_holds(
    first: Seq<NamespaceBindingView>,
    second: Seq<NamespaceBindingView>,
    prefix: Seq<char>,
)
    ensures
        crate::xpath::prefixes(first + second).dom().contains(prefix) <==> crate::xpath::prefixes(
            first,
        ).dom().contains(prefix) || crate::xpath::prefixes(second).dom().contains(prefix),
        crate::xpath::prefixes(first).dom().contains(prefix) ==> crate::xpath::prefixes(
            first + second,
        )[prefix] == crate::xpath::prefixes(first)[prefix],
    decreases first.len(),
{
    if first.len() == 0 {
        assert(first + second == second);
    } else {
        assert((first + second).skip(1) == first.skip(1) + second);
        the_first_binding_of_a_prefix_holds(first.skip(1), second, prefix);
    }
}

/// A message without `<value-of>` and `<name>` is its text, trimmed; nothing
/// is evaluated for it.
pub proof fn plain_messages_are_their_text(scope: Scope, texts: Seq<Seq<char>>)
    ensures
        scope.part_texts(texts.map_values(|text: Seq<char>| MessagePartView::Text(text))) == Ok::<
            Seq<Seq<char>>,
            SchematronEvalErrorView,
        >(texts),
        scope.rendered(texts.map_values(|text: Seq<char>| MessagePartView::Text(text))) == Ok::<
            Seq<char>,
            SchematronEvalErrorView,
        >(crate::text::trimmed(crate::error::joined(texts))),
    decreases texts.len(),
{
    let parts = texts.map_values(|text: Seq<char>| MessagePartView::Text(text));
    if texts.len() > 0 {
        plain_messages_are_their_text(scope, texts.skip(1));
        assert(parts.skip(1) == texts.skip(1).map_values(
            |text: Seq<char>| MessagePartView::Text(text),
        ));
        assert(seq![texts[0]] + texts.skip(1) == texts);
    } else {
        assert(texts == Seq::<Seq<char>>::empty());
    }
}

/// Literal content is bound as its text; nothing is evaluated for it.
pub proof fn literal_content_is_bound_as_text(
    scope: Scope,
    name: Seq<char>,
    text: Seq<char>,
    rest: Seq<LetBindingView>,
)
    ensures
        scope.extended(
            seq![LetBindingView { name, value: LetValueView::Literal(text) }] + rest,
        ) == scope.with(name, XPathValueView::Text(text)).extended(rest),
{
    let lets = seq![LetBindingView { name, value: LetValueView::Literal(text) }] + rest;
    assert(lets.skip(1) == rest);
}

/// An `assert` fires exactly when a `report` with the same test does not.
pub proof fn assert_and_report_are_opposite(truth: bool)
    ensures
        semantics::fires(CheckKind::Assert, truth) == !semantics::fires(CheckKind::Report, truth),
{
}

/// A check whose test can be evaluated gives one report if it fires, with the
/// check's kind, identifier and role, and none if it does not.
pub proof fn a_check_reports_exactly_when_it_fires(
    scope: Scope,
    check: CheckView,
    id: Option<Seq<char>>,
    diagnostics: Seq<DiagnosticView>,
    value: XPathValueView,
)
    requires
        scope.value_of(check.test) == Ok::<XPathValueView, SchematronEvalErrorView>(value),
    ensures
        scope.checked(check, id, diagnostics) matches Ok(reports) ==> {
            if semantics::fires(check.kind, value.truth()) {
                &&& reports.len() == 1
                &&& reports[0].kind == check.kind
                &&& reports[0].check_id == check.id
                &&& reports[0].role == check.role
                &&& reports[0].pattern_id == id
                &&& reports[0].node == scope.node
            } else {
                reports.len() == 0
            }
        },
{
}

/// A check that does not fire gives no report and no error, whatever its
/// message and diagnostics hold.
pub proof fn the_message_of_a_quiet_check_is_not_rendered(
    scope: Scope,
    check: CheckView,
    id: Option<Seq<char>>,
    diagnostics: Seq<DiagnosticView>,
    value: XPathValueView,
)
    requires
        scope.value_of(check.test) == Ok::<XPathValueView, SchematronEvalErrorView>(value),
        !semantics::fires(check.kind, value.truth()),
    ensures
        scope.checked(check, id, diagnostics) == Ok::<Seq<ReportView>, SchematronEvalErrorView>(
            seq![],
        ),
{
}

/// Binding two lists of variables is binding the first and then, in the scope
/// that results, the second.
pub proof fn bindings_are_sequential(
    scope: Scope,
    first: Seq<LetBindingView>,
    second: Seq<LetBindingView>,
)
    ensures
        scope.extended(first + second) == (match scope.extended(first) {
            Err(error) => Err(error),
            Ok(inner) => inner.extended(second),
        }),
    decreases first.len(),
{
    if first.len() == 0 {
        assert(first + second == second);
    } else {
        assert((first + second).skip(1) == first.skip(1) + second);
        if let Ok(value) = scope.let_value(first[0].value) {
            bindings_are_sequential(scope.with(first[0].name, value), first.skip(1), second);
        }
    }
}

/// What two lists of bindings leave bound is what the second leaves in the
/// scope of the first; where the first fails, the second is not reached.
pub proof fn bindings_stop_at_the_first_failure(
    scope: Scope,
    first: Seq<LetBindingView>,
    second: Seq<LetBindingView>,
)
    ensures
        scope.bound(first + second) == (match scope.extended(first) {
            Err(_) => scope.bound(first),
            Ok(inner) => inner.bound(second),
        }),
        scope.extended(first) matches Ok(inner) ==> scope.bound(first) == inner,
    decreases first.len(),
{
    if first.len() == 0 {
        assert(first + second == second);
    } else {
        assert((first + second).skip(1) == first.skip(1) + second);
        if let Ok(value) = scope.let_value(first[0].value) {
            bindings_stop_at_the_first_failure(
                scope.with(first[0].name, value),
                first.skip(1),
                second,
            );
        }
    }
}

/// A list of bindings adds the names it binds to those in scope, and no others.
pub proof fn bindings_add_their_names(scope: Scope, lets: Seq<LetBindingView>, name: Seq<char>)
    ensures
        scope.extended(lets) matches Ok(inner) ==> (inner.variables.dom().contains(name)
            <==> scope.variables.dom().contains(name) || exists|i: int|
            0 <= i < lets.len() && (#[trigger] lets[i]).name == name),
    decreases lets.len(),
{
    if lets.len() > 0 {
        if let Ok(value) = scope.let_value(lets[0].value) {
            let rest = lets.skip(1);
            bindings_add_their_names(scope.with(lets[0].name, value), rest, name);
            if exists|i: int| 0 <= i < rest.len() && (#[trigger] rest[i]).name == name {
                let i = choose|i: int| 0 <= i < rest.len() && (#[trigger] rest[i]).name == name;
                assert(lets[i + 1].name == name);
            }
            if exists|i: int| 0 <= i < lets.len() && (#[trigger] lets[i]).name == name {
                let i = choose|i: int| 0 <= i < lets.len() && (#[trigger] lets[i]).name == name;
                if i > 0 {
                    assert(rest[i - 1].name == name);
                }
            }
        }
    }
}

/// A later binding of a name shadows an earlier one: it alone counts.
pub proof fn a_later_binding_shadows_an_earlier_one(
    scope: Scope,
    name: Seq<char>,
    earlier: XPathValueView,
    later: XPathValueView,
)
    ensures
        scope.with(name, earlier).with(name, later) == scope.with(name, later),
        scope.with(name, later).variables[name] == later,
{
    assert(scope.with(name, earlier).with(name, later).variables == scope.with(
        name,
        later,
    ).variables);
}

/// A variable that a list of bindings does not name keeps its outer value.
pub proof fn other_variables_keep_their_values(
    scope: Scope,
    lets: Seq<LetBindingView>,
    name: Seq<char>,
)
    requires
        forall|i: int| 0 <= i < lets.len() ==> (#[trigger] lets[i]).name != name,
    ensures
        scope.extended(lets) matches Ok(inner) ==> {
            &&& inner.variables.dom().contains(name) == scope.variables.dom().contains(name)
            &&& inner.variables[name] == scope.variables[name]
        },
    decreases lets.len(),
{
    if lets.len() > 0 {
        assert(lets[0].name != name);
        if let Ok(value) = scope.let_value(lets[0].value) {
            assert forall|i: int| 0 <= i < lets.skip(1).len() implies (#[trigger] lets.skip(
                1,
            )[i]).name != name by {
                assert(lets.skip(1)[i] == lets[i + 1]);
            }
            other_variables_keep_their_values(
                scope.with(lets[0].name, value),
                lets.skip(1),
                name,
            );
        }
    }
}

/// The last binding of a name holds: its value is what its expression has in
/// the scope of the bindings before it.
pub proof fn the_last_binding_holds(scope: Scope, lets: Seq<LetBindingView>, i: int)
    requires
        0 <= i < lets.len(),
        forall|k: int| i < k < lets.len() ==> (#[trigger] lets[k]).name != lets[i].name,
    ensures
        scope.extended(lets) matches Ok(inner) ==> {
            &&& scope.extended(lets.take(i)) matches Ok(before)
            &&& before.let_value(lets[i].value) == Ok::<XPathValueView, SchematronEvalErrorView>(
                inner.variables[lets[i].name],
            )
        },
{
    let before = lets.take(i);
    let rest = lets.skip(i);
    assert(before + rest == lets);
    bindings_are_sequential(scope, before, rest);
    if let Ok(outer) = scope.extended(before) {
        if let Ok(value) = outer.let_value(rest[0].value) {
            let more = rest.skip(1);
            assert forall|k: int| 0 <= k < more.len() implies (#[trigger] more[k]).name
                != lets[i].name by {
                assert(more[k] == lets[i + 1 + k]);
            }
            other_variables_keep_their_values(
                outer.with(rest[0].name, value),
                more,
                lets[i].name,
            );
        }
    }
}

/// Where every identifier names a diagnostic, each of them is rendered.
pub proof fn known_diagnostics_are_all_rendered(
    scope: Scope,
    ids: Seq<Seq<char>>,
    diagnostics: Seq<DiagnosticView>,
)
    requires
        forall|i: int|
            0 <= i < ids.len() ==> semantics::diagnostic_named(diagnostics, #[trigger] ids[i])
                is Some,
    ensures
        scope.rendered_diagnostics(ids, diagnostics) matches Ok(texts) ==> {
            &&& texts.len() == ids.len()
            &&& forall|i: int|
                0 <= i < ids.len() ==> scope.rendered(
                    semantics::diagnostic_named(diagnostics, ids[i])->0.message,
                ) == Ok::<Seq<char>, SchematronEvalErrorView>(#[trigger] texts[i])
        },
    decreases ids.len(),
{
    if ids.len() > 0 {
        assert(semantics::diagnostic_named(diagnostics, ids[0]) is Some);
        assert forall|i: int| 0 <= i < ids.skip(1).len() implies semantics::diagnostic_named(
            diagnostics,
            #[trigger] ids.skip(1)[i],
        ) is Some by {
            assert(ids.skip(1)[i] == ids[i + 1]);
        }
        known_diagnostics_are_all_rendered(scope, ids.skip(1), diagnostics);
        if let Ok(texts) = scope.rendered_diagnostics(ids, diagnostics) {
            let more = scope.rendered_diagnostics(ids.skip(1), diagnostics)->Ok_0;
            assert forall|i: int| 0 <= i < ids.len() implies scope.rendered(
                semantics::diagnostic_named(diagnostics, ids[i])->0.message,
            ) == Ok::<Seq<char>, SchematronEvalErrorView>(#[trigger] texts[i]) by {
                if i > 0 {
                    assert(texts[i] == more[i - 1]);
                    assert(ids[i] == ids.skip(1)[i - 1]);
                }
            }
        }
    }
}

/// A check of an accepted schema that fires carries the message of each of
/// the diagnostics it refers to, in reference order.
pub proof fn a_fired_check_carries_all_its_diagnostics(
    tree: XmlTree,
    schema: SchemaView,
    scope: Scope,
    p: int,
    r: int,
    c: int,
)
    requires
        tree.schema() == Ok::<SchemaView, crate::error::ParseErrorView>(schema),
        0 <= p < schema.patterns.len(),
        0 <= r < schema.patterns[p].rules.len(),
        0 <= c < schema.patterns[p].rules[r].checks.len(),
    ensures
        ({
            let check = schema.patterns[p].rules[r].checks[c];
            scope.report(check, schema.patterns[p].id, schema.diagnostics) matches Ok(report)
                ==> report.diagnostics.len() == check.diagnostics.len()
        }),
{
    let check = schema.patterns[p].rules[r].checks[c];
    let known = crate::grammar::diagnostic_ids(schema.diagnostics);
    crate::parsing_laws::references_are_resolved(tree);
    assert(crate::parsing_laws::pattern_refers_to(schema.patterns[p], known));
    assert(crate::parsing_laws::rule_refers_to(schema.patterns[p].rules[r], known));
    assert(crate::parsing_laws::check_refers_to(check, known));
    assert forall|i: int| 0 <= i < check.diagnostics.len() implies semantics::diagnostic_named(
        schema.diagnostics,
        #[trigger] check.diagnostics[i],
    ) is Some by {
        crate::parsing_laws::diagnostic_ids_are_those_of_diagnostics(
            schema.diagnostics,
            check.diagnostics[i],
        );
    }
    known_diagnostics_are_all_rendered(scope, check.diagnostics, schema.diagnostics);
}

/// Whether every one of `reports` is on a node of `document`.
pub open spec fn reports_are_in(reports: Seq<ReportView>, document: DocumentView) -> bool {
    forall|i: int|
        0 <= i < reports.len() ==> 0 <= (#[trigger] reports[i]).node < document.nodes.len()
}

proof fn lemma_rules_report_in(
    scope: Scope,
    rules: Seq<RuleView>,
    claimed: Set<int>,
    id: Option<Seq<char>>,
    diagnostics: Seq<DiagnosticView>,
)
    ensures
        scope.rules_applied(rules, claimed, id, diagnostics) matches Ok(reports) ==> reports_are_in(
            reports,
            scope.document,
        ),
    decreases rules.len(),
{
    if rules.len() > 0 {
        if let Ok(nodes) = scope.selected(rules[0].context) {
            let count = scope.document.nodes.len() as int;
            let list = semantics::due(nodes, claimed, count);
            due_nodes_are_the_unclaimed_selected_ones(nodes, claimed, count);
            lemma_ordered(scope, list, rules[0], id, diagnostics);
            lemma_rules_report_in(scope, rules.skip(1), claimed.union(nodes), id, diagnostics);
            if let Ok(own) = scope.rule_over(list, rules[0], id, diagnostics) {
                assert forall|i: int| 0 <= i < own.len() implies 0 <= (#[trigger] own[i]).node
                    < count by {
                    assert(list.contains(own[i].node));
                }
            }
        }
    }
}

proof fn lemma_patterns_report_in(
    scope: Scope,
    patterns: Seq<PatternView>,
    phase: Option<PhaseView>,
    diagnostics: Seq<DiagnosticView>,
)
    ensures
        scope.patterns_applied(patterns, phase, diagnostics) matches Ok(reports)
            ==> reports_are_in(reports, scope.document),
    decreases patterns.len(),
{
    if patterns.len() > 0 {
        lemma_patterns_report_in(scope, patterns.skip(1), phase, diagnostics);
        lets_keep_the_node(scope, patterns[0].lets);
        if let Ok(inner) = scope.extended(patterns[0].lets) {
            lemma_rules_report_in(
                inner,
                patterns[0].rules,
                Set::empty(),
                patterns[0].id,
                diagnostics,
            );
        }
    }
}

/// Reports are on nodes of the document that was evaluated.
pub proof fn reports_are_on_nodes_of_the_document(
    schema: SchemaView,
    document: DocumentView,
    phase_id: Option<Seq<char>>,
)
    ensures
        semantics::evaluated(schema, document, phase_id) matches Ok(reports) ==> reports_are_in(
            reports,
            document,
        ),
{
    let phase = match phase_id {
        Some(id) => semantics::phase_named(schema.phases, id),
        None => None,
    };
    let root = Scope {
        document,
        node: 0,
        variables: Map::empty(),
        namespaces: crate::xpath::prefixes(schema.ns),
    };
    let phase_lets = match phase {
        Some(phase) => phase.lets,
        None => seq![],
    };
    lets_keep_the_node(root, schema.lets);
    if let Ok(scope) = root.extended(schema.lets) {
        lets_keep_the_node(scope, phase_lets);
        if let Ok(inner) = scope.extended(phase_lets) {
            lemma_patterns_report_in(inner, schema.patterns, phase, schema.diagnostics);
        }
    }
}

/// Whether an error can come out of evaluating patterns.
spec fn is_pattern_error(error: SchematronEvalErrorView) -> bool {
    !(error is UnknownPhase)
}

proof fn lemma_lets_error(scope: Scope, lets: Seq<LetBindingView>)
    ensures
        scope.extended(lets) matches Err(error) ==> is_pattern_error(error),
    decreases lets.len(),
{
    if lets.len() > 0 {
        if let Ok(value) = scope.let_value(lets[0].value) {
            lemma_lets_error(scope.with(lets[0].name, value), lets.skip(1));
        }
    }
}

proof fn lemma_message_error(scope: Scope, parts: Seq<MessagePartView>)
    ensures
        scope.part_texts(parts) matches Err(error) ==> is_pattern_error(error),
    decreases parts.len(),
{
    if parts.len() > 0 {
        lemma_message_error(scope, parts.skip(1));
    }
}

proof fn lemma_diagnostics_error(
    scope: Scope,
    ids: Seq<Seq<char>>,
    diagnostics: Seq<DiagnosticView>,
)
    ensures
        scope.rendered_diagnostics(ids, diagnostics) matches Err(error) ==> is_pattern_error(error),
    decreases ids.len(),
{
    if ids.len() > 0 {
        lemma_diagnostics_error(scope, ids.skip(1), diagnostics);
        if let Some(diagnostic) = semantics::diagnostic_named(diagnostics, ids[0]) {
            lemma_message_error(scope, diagnostic.message);
        }
    }
}

proof fn lemma_checks_error(
    scope: Scope,
    checks: Seq<CheckView>,
    id: Option<Seq<char>>,
    diagnostics: Seq<DiagnosticView>,
)
    ensures
        scope.all_checked(checks, id, diagnostics) matches Err(error) ==> is_pattern_error(error),
    decreases checks.len(),
{
    if checks.len() > 0 {
        lemma_checks_error(scope, checks.skip(1), id, diagnostics);
        lemma_message_error(scope, checks[0].message);
        lemma_diagnostics_error(scope, checks[0].diagnostics, diagnostics);
    }
}

proof fn lemma_rule_error(
    scope: Scope,
    nodes: Seq<int>,
    rule: RuleView,
    id: Option<Seq<char>>,
    diagnostics: Seq<DiagnosticView>,
)
    ensures
        scope.rule_over(nodes, rule, id, diagnostics) matches Err(error) ==> is_pattern_error(
            error,
        ),
    decreases nodes.len(),
{
    if nodes.len() > 0 {
        lemma_rule_error(scope, nodes.skip(1), rule, id, diagnostics);
        lemma_lets_error(scope.at(nodes[0]), rule.lets);
        if let Ok(inner) = scope.at(nodes[0]).extended(rule.lets) {
            lemma_checks_error(inner, rule.checks, id, diagnostics);
        }
    }
}

proof fn lemma_rules_error(
    scope: Scope,
    rules: Seq<RuleView>,
    claimed: Set<int>,
    id: Option<Seq<char>>,
    diagnostics: Seq<DiagnosticView>,
)
    ensures
        scope.rules_applied(rules, claimed, id, diagnostics) matches Err(error)
            ==> is_pattern_error(error),
    decreases rules.len(),
{
    if rules.len() > 0 {
        if let Ok(nodes) = scope.selected(rules[0].context) {
            let list = semantics::due(nodes, claimed, scope.document.nodes.len() as int);
            lemma_rule_error(scope, list, rules[0], id, diagnostics);
            lemma_rules_error(scope, rules.skip(1), claimed.union(nodes), id, diagnostics);
        }
    }
}

proof fn lemma_patterns_error(
    scope: Scope,
    patterns: Seq<PatternView>,
    phase: Option<PhaseView>,
    diagnostics: Seq<DiagnosticView>,
)
    ensures
        scope.patterns_applied(patterns, phase, diagnostics) matches Err(error)
            ==> is_pattern_error(error),
    decreases patterns.len(),
{
    if patterns.len() > 0 {
        lemma_patterns_error(scope, patterns.skip(1), phase, diagnostics);
        lemma_lets_error(scope, patterns[0].lets);
        if let Ok(inner) = scope.extended(patterns[0].lets) {
            lemma_rules_error(
                inner,
                patterns[0].rules,
                Set::empty(),
                patterns[0].id,
                diagnostics,
            );
        }
    }
}

/// Whether the schema has a phase named `id`.
pub open spec fn has_phase(schema: SchemaView, id: Seq<char>) -> bool {
    exists|i: int| 0 <= i < schema.phases.len() && (#[trigger] schema.phases[i]).id == id
}

proof fn lemma_phase_named(phases: Seq<PhaseView>, id: Seq<char>)
    ensures
        semantics::phase_named(phases, id) is Some <==> exists|i: int|
            0 <= i < phases.len() && (#[trigger] phases[i]).id == id,
    decreases phases.len(),
{
    if phases.len() > 0 {
        lemma_phase_named(phases.skip(1), id);
        if semantics::phase_named(phases.skip(1), id) is Some {
            let i = choose|i: int|
                0 <= i < phases.skip(1).len() && (#[trigger] phases.skip(1)[i]).id == id;
            assert(phases[i + 1].id == id);
        }
        if exists|i: int| 0 <= i < phases.len() && (#[trigger] phases[i]).id == id {
            let i = choose|i: int| 0 <= i < phases.len() && (#[trigger] phases[i]).id == id;
            if i > 0 {
                assert(phases.skip(1)[i - 1].id == id);
            }
        }
    }
}

/// Evaluation fails for want of a phase exactly when it is asked for one that
/// the schema does not have.
pub proof fn only_a_missing_phase_is_unknown(
    schema: SchemaView,
    document: DocumentView,
    phase_id: Option<Seq<char>>,
)
    ensures
        (semantics::evaluated(schema, document, phase_id) matches Err(error) && error
            is UnknownPhase) <==> (phase_id matches Some(id) && !has_phase(schema, id)),
{
    if let Some(id) = phase_id {
        lemma_phase_named(schema.phases, id);
    }
    let phase = match phase_id {
        Some(id) => semantics::phase_named(schema.phases, id),
        None => None,
    };
    let root = Scope {
        document,
        node: 0,
        variables: Map::empty(),
        namespaces: crate::xpath::prefixes(schema.ns),
    };
    let phase_lets = match phase {
        Some(phase) => phase.lets,
        None => seq![],
    };
    lemma_lets_error(root, schema.lets);
    if let Ok(scope) = root.extended(schema.lets) {
        lemma_lets_error(scope, phase_lets);
        if let Ok(inner) = scope.extended(phase_lets) {
            lemma_patterns_error(inner, schema.patterns, phase, schema.diagnostics);
        }
    }
}

} // verus!
