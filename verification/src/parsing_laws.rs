//! Laws of parsing: what holds of every schema that is accepted, and of what
//! is refused.

use vstd::prelude::*;

use crate::error::ParseErrorView;
use crate::grammar;
use crate::grammar::{Container, RuleContent};
use crate::inclusion;
use crate::inclusion::{Answer, InclusionView};
use crate::schema::{
    CheckView, DiagnosticView, LetBindingView, MessagePartView, PatternView, PhaseView,
    PropertyView, RuleView, SchemaView,
};
use crate::text;
use crate::xml::XmlTree;

verus! {

/// Whether no two of `nodes` have the same identifier.
pub open spec fn identifiers_differ(tree: XmlTree, nodes: Seq<int>) -> bool {
    forall|i: int, j: int|
        0 <= i < j < nodes.len() && tree.identity(#[trigger] nodes[i]) is Some ==> tree.identity(
            nodes[i],
        ) != tree.identity(#[trigger] nodes[j])
}

/// Whether no one of `nodes` has an identifier among `seen`.
pub open spec fn identifiers_are_new(tree: XmlTree, nodes: Seq<int>, seen: Set<Seq<char>>) -> bool {
    forall|i: int|
        0 <= i < nodes.len() ==> (tree.identity(#[trigger] nodes[i]) matches Some(id)
            ==> !seen.contains(id))
}

pub proof fn lemma_unique_ids(tree: XmlTree, nodes: Seq<int>, seen: Set<Seq<char>>)
    ensures
        tree.unique_ids(nodes, seen) is Ok <==> identifiers_differ(tree, nodes)
            && identifiers_are_new(tree, nodes, seen),
    decreases nodes.len(),
{
    if nodes.len() > 0 {
        let rest = nodes.skip(1);
        assert(forall|i: int| 0 <= i < rest.len() ==> #[trigger] rest[i] == nodes[i + 1]);
        match tree.identity(nodes[0]) {
            None => {
                lemma_unique_ids(tree, rest, seen);
                if identifiers_differ(tree, rest) && identifiers_are_new(tree, rest, seen) {
                    assert forall|i: int, j: int|
                        0 <= i < j < nodes.len() && tree.identity(
                            #[trigger] nodes[i],
                        ) is Some implies tree.identity(nodes[i]) != tree.identity(
                        #[trigger] nodes[j],
                    ) by {
                        if i > 0 {
                            assert(rest[i - 1] == nodes[i] && rest[j - 1] == nodes[j]);
                        }
                    }
                    assert forall|i: int| 0 <= i < nodes.len() implies (tree.identity(
                        #[trigger] nodes[i],
                    ) matches Some(id) ==> !seen.contains(id)) by {
                        if i > 0 {
                            assert(rest[i - 1] == nodes[i]);
                        }
                    }
                }
                if identifiers_differ(tree, nodes) && identifiers_are_new(tree, nodes, seen) {
                    assert forall|i: int, j: int|
                        0 <= i < j < rest.len() && tree.identity(
                            #[trigger] rest[i],
                        ) is Some implies tree.identity(rest[i]) != tree.identity(
                        #[trigger] rest[j],
                    ) by {
                        assert(rest[i] == nodes[i + 1] && rest[j] == nodes[j + 1]);
                    }
                }
            },
            Some(id) => {
                let more = seen.insert(id);
                lemma_unique_ids(tree, rest, more);
                if !seen.contains(id) && identifiers_differ(tree, rest) && identifiers_are_new(
                    tree,
                    rest,
                    more,
                ) {
                    assert forall|i: int, j: int|
                        0 <= i < j < nodes.len() && tree.identity(
                            #[trigger] nodes[i],
                        ) is Some implies tree.identity(nodes[i]) != tree.identity(
                        #[trigger] nodes[j],
                    ) by {
                        assert(rest[j - 1] == nodes[j]);
                        if i > 0 {
                            assert(rest[i - 1] == nodes[i]);
                        } else {
                            assert(more.contains(id));
                        }
                    }
                    assert forall|i: int| 0 <= i < nodes.len() implies (tree.identity(
                        #[trigger] nodes[i],
                    ) matches Some(other) ==> !seen.contains(other)) by {
                        if i > 0 {
                            assert(rest[i - 1] == nodes[i]);
                        }
                    }
                }
                if identifiers_differ(tree, nodes) && identifiers_are_new(tree, nodes, seen) {
                    assert(tree.identity(nodes[0]) is Some);
                    assert forall|i: int, j: int|
                        0 <= i < j < rest.len() && tree.identity(
                            #[trigger] rest[i],
                        ) is Some implies tree.identity(rest[i]) != tree.identity(
                        #[trigger] rest[j],
                    ) by {
                        assert(rest[i] == nodes[i + 1] && rest[j] == nodes[j + 1]);
                    }
                    assert forall|i: int| 0 <= i < rest.len() implies (tree.identity(
                        #[trigger] rest[i],
                    ) matches Some(other) ==> !more.contains(other)) by {
                        assert(rest[i] == nodes[i + 1]);
                        assert(tree.identity(nodes[0]) != tree.identity(nodes[i + 1]));
                    }
                }
            },
        }
    }
}

/// The first node whose identifier is among `seen`, or belongs to an earlier
/// one, is the one that is refused.
proof fn lemma_repeated_id(tree: XmlTree, nodes: Seq<int>, seen: Set<Seq<char>>, j: int)
    requires
        0 <= j < nodes.len(),
        tree.identity(nodes[j]) is Some,
        identifiers_differ(tree, nodes.take(j)),
        identifiers_are_new(tree, nodes.take(j), seen),
        seen.contains(tree.identity(nodes[j])->0) || exists|i: int|
            0 <= i < j && tree.identity(#[trigger] nodes[i]) == tree.identity(nodes[j]),
    ensures
        tree.unique_ids(nodes, seen) == Err::<(), ParseErrorView>(
            ParseErrorView::DuplicateId {
                element: tree.nodes[nodes[j]].name,
                id: tree.identity(nodes[j])->0,
                position: tree.position(nodes[j]),
            },
        ),
    decreases nodes.len(),
{
    if j > 0 {
        let rest = nodes.skip(1);
        let before = nodes.take(j);
        let id = tree.identity(nodes[j])->0;
        assert(before[0] == nodes[0]);
        assert(rest[j - 1] == nodes[j]);
        assert(rest.take(j - 1) == before.skip(1));
        let more = match tree.identity(nodes[0]) {
            None => seen,
            Some(first) => seen.insert(first),
        };
        assert forall|i: int, k: int|
            0 <= i < k < rest.take(j - 1).len() && tree.identity(
                #[trigger] rest.take(j - 1)[i],
            ) is Some implies tree.identity(rest.take(j - 1)[i]) != tree.identity(
            #[trigger] rest.take(j - 1)[k],
        ) by {
            assert(rest.take(j - 1)[i] == before[i + 1] && rest.take(j - 1)[k] == before[k + 1]);
        }
        assert forall|i: int| 0 <= i < rest.take(j - 1).len() implies (tree.identity(
            #[trigger] rest.take(j - 1)[i],
        ) matches Some(other) ==> !more.contains(other)) by {
            assert(rest.take(j - 1)[i] == before[i + 1]);
            assert(tree.identity(before[0]) is Some ==> tree.identity(before[0]) != tree.identity(
                before[i + 1],
            ));
        }
        if !more.contains(id) {
            let i = choose|i: int|
                0 <= i < j && tree.identity(#[trigger] nodes[i]) == tree.identity(nodes[j]);
            assert(i > 0);
            assert(rest[i - 1] == nodes[i]);
        }
        lemma_repeated_id(tree, rest, more, j - 1);
        assert(tree.identity(before[0]) matches Some(first) ==> !seen.contains(first));
    } else {
        assert(seen.contains(tree.identity(nodes[0])->0));
    }
}

/// Identifiers are unique in the whole document: they are accepted exactly
/// when no two elements have the same one.
pub proof fn identifiers_are_unique(tree: XmlTree)
    ensures
        tree.schema() is Ok ==> identifiers_differ(
            tree,
            tree.descendants(tree.root_element()->0),
        ),
        tree.unique_ids(tree.descendants(tree.root_element()->0), Set::empty()) is Ok
            <==> identifiers_differ(tree, tree.descendants(tree.root_element()->0)),
{
    let nodes = tree.descendants(tree.root_element()->0);
    lemma_unique_ids(tree, nodes, Set::empty());
}

/// Of the elements of a schema that repeat an identifier, the first in
/// document order is refused, once the root element and its children have
/// passed.
pub proof fn the_first_repeated_identifier_is_refused(tree: XmlTree, i: int, j: int)
    requires
        tree.has_tag(tree.root_element()->0, "schema"@),
        tree.known_children(tree.root_element()->0, Container::Schema) is Ok,
        0 <= i < j < tree.descendants(tree.root_element()->0).len(),
        tree.identity(tree.descendants(tree.root_element()->0)[j]) is Some,
        tree.identity(tree.descendants(tree.root_element()->0)[i]) == tree.identity(
            tree.descendants(tree.root_element()->0)[j],
        ),
        identifiers_differ(tree, tree.descendants(tree.root_element()->0).take(j)),
    ensures
        tree.schema() == Err::<SchemaView, ParseErrorView>(
            ParseErrorView::DuplicateId {
                element: tree.nodes[tree.descendants(tree.root_element()->0)[j]].name,
                id: tree.identity(tree.descendants(tree.root_element()->0)[j])->0,
                position: tree.position(tree.descendants(tree.root_element()->0)[j]),
            },
        ),
{
    let nodes = tree.descendants(tree.root_element()->0);
    assert(tree.identity(nodes[i]) == tree.identity(nodes[j]));
    lemma_repeated_id(tree, nodes, Set::empty(), j);
}

/// A schema document has the root element `<schema>`: any other is refused.
pub proof fn the_root_element_is_a_schema(tree: XmlTree)
    ensures
        tree.schema() is Ok ==> tree.has_tag(tree.root_element()->0, "schema"@),
        !tree.has_tag(tree.root_element()->0, "schema"@) ==> tree.schema() == Err::<
            SchemaView,
            ParseErrorView,
        >(
            ParseErrorView::WrongRootNamespace {
                found: tree.nodes[tree.root_element()->0].namespace,
                position: tree.position(tree.root_element()->0),
            },
        ),
{
}

proof fn lemma_first_outside(ids: Seq<Seq<char>>, known: Set<Seq<char>>)
    ensures
        grammar::first_outside(ids, known) is None <==> forall|i: int|
            0 <= i < ids.len() ==> known.contains(#[trigger] ids[i]),
    decreases ids.len(),
{
    if ids.len() > 0 {
        let rest = ids.skip(1);
        lemma_first_outside(rest, known);
        if forall|i: int| 0 <= i < ids.len() ==> known.contains(#[trigger] ids[i]) {
            assert forall|i: int| 0 <= i < rest.len() implies known.contains(
                #[trigger] rest[i],
            ) by {
                assert(rest[i] == ids[i + 1]);
            }
        }
        if known.contains(ids[0]) && forall|i: int|
            0 <= i < rest.len() ==> known.contains(#[trigger] rest[i]) {
            assert forall|i: int| 0 <= i < ids.len() implies known.contains(#[trigger] ids[i]) by {
                if i > 0 {
                    assert(rest[i - 1] == ids[i]);
                }
            }
        }
    }
}

/// Whether a check refers to diagnostics among `known` only.
pub open spec fn check_refers_to(check: CheckView, known: Set<Seq<char>>) -> bool {
    forall|i: int| 0 <= i < check.diagnostics.len() ==> known.contains(
        #[trigger] check.diagnostics[i],
    )
}

/// Whether the checks of a rule refer to diagnostics among `known` only.
pub open spec fn rule_refers_to(rule: RuleView, known: Set<Seq<char>>) -> bool {
    forall|i: int| 0 <= i < rule.checks.len() ==> check_refers_to(#[trigger] rule.checks[i], known)
}

/// Whether the checks of a pattern refer to diagnostics among `known` only.
pub open spec fn pattern_refers_to(pattern: PatternView, known: Set<Seq<char>>) -> bool {
    forall|i: int|
        0 <= i < pattern.rules.len() ==> rule_refers_to(#[trigger] pattern.rules[i], known)
}

proof fn lemma_rule_content_refers(
    tree: XmlTree,
    nodes: Seq<int>,
    rules: Seq<(Seq<char>, int)>,
    params: Seq<(Seq<char>, Seq<char>)>,
    visiting: Seq<Seq<char>>,
    known: Set<Seq<char>>,
)
    ensures
        tree.rule_content(nodes, rules, params, visiting, known) matches Ok(content)
            ==> forall|i: int|
            0 <= i < content.checks.len() ==> check_refers_to(#[trigger] content.checks[i], known),
    decreases grammar::unvisited(rules, visiting), nodes.len(),
{
    if nodes.len() > 0 {
        let child = nodes[0];
        lemma_rule_content_refers(tree, nodes.skip(1), rules, params, visiting, known);
        if let Some(kind) = tree.check_kind(child) {
            if let Ok(ids) = tree.references_of(child, known) {
                lemma_first_outside(ids, known);
            }
        } else if tree.has_tag(child, "extends"@) {
            if let Ok(id) = tree.required(child, "extends"@, "rule"@) {
                if let Some(target) = grammar::entry_named(rules, id) {
                    if !visiting.contains(id) {
                        grammar::lemma_unvisited_decreases(rules, visiting, id);
                        lemma_rule_content_refers(
                            tree,
                            tree.children(target),
                            rules,
                            params,
                            visiting.push(id),
                            known,
                        );
                    }
                }
            }
        }
        if let Ok(content) = tree.rule_content(nodes, rules, params, visiting, known) {
            let own = tree.rule_content_of_child(child, rules, params, visiting, known)->Ok_0;
            let more = tree.rule_content(nodes.skip(1), rules, params, visiting, known)->Ok_0;
            assert forall|i: int| 0 <= i < own.checks.len() implies check_refers_to(
                #[trigger] own.checks[i],
                known,
            ) by {}
            assert forall|i: int| 0 <= i < content.checks.len() implies check_refers_to(
                #[trigger] content.checks[i],
                known,
            ) by {
                if i < own.checks.len() {
                    assert(content.checks[i] == own.checks[i]);
                } else {
                    assert(content.checks[i] == more.checks[i - own.checks.len()]);
                }
            }
        }
    }
}

proof fn lemma_rules_refer(
    tree: XmlTree,
    nodes: Seq<int>,
    rules: Seq<(Seq<char>, int)>,
    params: Seq<(Seq<char>, Seq<char>)>,
    known: Set<Seq<char>>,
)
    ensures
        tree.rules_of(nodes, rules, params, known) matches Ok(list) ==> forall|i: int|
            0 <= i < list.len() ==> rule_refers_to(#[trigger] list[i], known),
    decreases nodes.len(),
{
    if nodes.len() > 0 {
        lemma_rules_refer(tree, nodes.skip(1), rules, params, known);
        let visiting = match tree.attribute(nodes[0], "id"@) {
            Some(id) => seq![id],
            None => seq![],
        };
        lemma_rule_content_refers(
            tree,
            tree.children(nodes[0]),
            rules,
            params,
            visiting,
            known,
        );
    }
}

proof fn lemma_patterns_refer(
    tree: XmlTree,
    nodes: Seq<int>,
    templates: Seq<(Seq<char>, int)>,
    known: Set<Seq<char>>,
)
    ensures
        tree.patterns_of(nodes, templates, known) matches Ok(list) ==> forall|i: int|
            0 <= i < list.len() ==> pattern_refers_to(#[trigger] list[i], known),
    decreases nodes.len(),
{
    if nodes.len() > 0 {
        let n = nodes[0];
        lemma_patterns_refer(tree, nodes.skip(1), templates, known);
        match tree.attribute(n, "is-a"@) {
            None => {
                let kids = tree.children(n);
                lemma_rules_refer(tree, kids, tree.named_rules(kids), seq![], known);
            },
            Some(template) => {
                if let Some(source) = grammar::entry_named(templates, template) {
                    if let Ok(params) = tree.collect(
                        tree.children(n),
                        "param"@,
                        tree.param_reader(),
                    ) {
                        let kids = tree.children(source);
                        lemma_rules_refer(tree, kids, tree.named_rules(kids), params, known);
                    }
                }
            },
        }
    }
}

/// Whether a phase activates patterns among `known` only.
pub open spec fn phase_refers_to(phase: PhaseView, known: Set<Seq<char>>) -> bool {
    forall|i: int| 0 <= i < phase.active.len() ==> known.contains(#[trigger] phase.active[i])
}

proof fn lemma_phases_refer(tree: XmlTree, nodes: Seq<int>, known: Set<Seq<char>>)
    ensures
        tree.collect(nodes, "phase"@, tree.phase_reader(known)) matches Ok(list) ==> forall|i: int|
            0 <= i < list.len() ==> phase_refers_to(#[trigger] list[i], known),
{
    let read = tree.phase_reader(known);
    grammar::lemma_collect(tree, nodes, "phase"@, read);
    if let Ok(list) = tree.collect(nodes, "phase"@, read) {
        assert forall|i: int| 0 <= i < list.len() implies phase_refers_to(
            #[trigger] list[i],
            known,
        ) by {
            assert(grammar::collected_from(tree, nodes, "phase"@, read, list[i]));
            let n = choose|n: int| #[trigger]
                nodes.contains(n) && tree.has_tag(n, "phase"@) && read(n) == Ok::<
                    PhaseView,
                    ParseErrorView,
                >(list[i]);
            assert(tree.phase_of(n, known) == Ok::<PhaseView, ParseErrorView>(list[i]));
            let kids = tree.children(n);
            let active = tree.active_reader(known);
            grammar::lemma_collect(tree, kids, "active"@, active);
            assert forall|k: int| 0 <= k < list[i].active.len() implies known.contains(
                #[trigger] list[i].active[k],
            ) by {
                assert(grammar::collected_from(
                    tree,
                    kids,
                    "active"@,
                    active,
                    list[i].active[k],
                ));
            }
        }
    }
}

/// A schema that is accepted has a pattern; its checks refer to its own
/// diagnostics only, and its phases activate its own patterns only.
pub proof fn references_are_resolved(tree: XmlTree)
    ensures
        tree.schema() matches Ok(schema) ==> {
            &&& schema.patterns.len() > 0
            &&& forall|i: int|
                0 <= i < schema.patterns.len() ==> pattern_refers_to(
                    #[trigger] schema.patterns[i],
                    grammar::diagnostic_ids(schema.diagnostics),
                )
            &&& forall|i: int|
                0 <= i < schema.phases.len() ==> phase_refers_to(
                    #[trigger] schema.phases[i],
                    grammar::pattern_ids(schema.patterns),
                )
        },
{
    if let Ok(schema) = tree.schema() {
        let nodes = tree.children(tree.root_element()->0);
        let templates = tree.templates_of(nodes)->Ok_0;
        lemma_patterns_refer(tree, nodes, templates, grammar::diagnostic_ids(schema.diagnostics));
        lemma_phases_refer(tree, nodes, grammar::pattern_ids(schema.patterns));
    }
}

/// The identifiers of diagnostics are those that a diagnostic has.
pub proof fn diagnostic_ids_are_those_of_diagnostics(
    diagnostics: Seq<DiagnosticView>,
    id: Seq<char>,
)
    ensures
        grammar::diagnostic_ids(diagnostics).contains(id) <==> crate::semantics::diagnostic_named(
            diagnostics,
            id,
        ) is Some,
{
    lemma_diagnostic_ids(diagnostics, id);
    lemma_diagnostic_named(diagnostics, id);
}

proof fn lemma_diagnostic_ids(diagnostics: Seq<DiagnosticView>, id: Seq<char>)
    ensures
        grammar::diagnostic_ids(diagnostics).contains(id) <==> exists|i: int|
            0 <= i < diagnostics.len() && (#[trigger] diagnostics[i]).id == id,
    decreases diagnostics.len(),
{
    if diagnostics.len() > 0 {
        let before = diagnostics.drop_last();
        lemma_diagnostic_ids(before, id);
        if grammar::diagnostic_ids(before).contains(id) {
            let i = choose|i: int| 0 <= i < before.len() && (#[trigger] before[i]).id == id;
            assert(diagnostics[i].id == id);
        }
        if exists|i: int| 0 <= i < diagnostics.len() && (#[trigger] diagnostics[i]).id == id {
            let i = choose|i: int|
                0 <= i < diagnostics.len() && (#[trigger] diagnostics[i]).id == id;
            if i < before.len() {
                assert(before[i].id == id);
            }
        }
    }
}

proof fn lemma_diagnostic_named(diagnostics: Seq<DiagnosticView>, id: Seq<char>)
    ensures
        crate::semantics::diagnostic_named(diagnostics, id) is Some <==> exists|i: int|
            0 <= i < diagnostics.len() && (#[trigger] diagnostics[i]).id == id,
    decreases diagnostics.len(),
{
    if diagnostics.len() > 0 {
        let rest = diagnostics.skip(1);
        lemma_diagnostic_named(rest, id);
        if crate::semantics::diagnostic_named(rest, id) is Some {
            let i = choose|i: int| 0 <= i < rest.len() && (#[trigger] rest[i]).id == id;
            assert(diagnostics[i + 1].id == id);
        }
        if exists|i: int| 0 <= i < diagnostics.len() && (#[trigger] diagnostics[i]).id == id {
            let i = choose|i: int|
                0 <= i < diagnostics.len() && (#[trigger] diagnostics[i]).id == id;
            if i > 0 {
                assert(rest[i - 1].id == id);
            }
        }
    }
}

/// Those of `nodes` that declare a concrete element named `tag`.
pub open spec fn concrete(tree: XmlTree, nodes: Seq<int>, tag: Seq<char>) -> Seq<int>
    decreases nodes.len(),
{
    if nodes.len() == 0 {
        seq![]
    } else if tree.has_tag(nodes[0], tag) && !tree.is_abstract(nodes[0]) {
        seq![nodes[0]] + concrete(tree, nodes.skip(1), tag)
    } else {
        concrete(tree, nodes.skip(1), tag)
    }
}

proof fn lemma_patterns_concrete(
    tree: XmlTree,
    nodes: Seq<int>,
    templates: Seq<(Seq<char>, int)>,
    known: Set<Seq<char>>,
)
    ensures
        tree.patterns_of(nodes, templates, known) matches Ok(list) ==> {
            &&& list.len() == concrete(tree, nodes, "pattern"@).len()
            &&& forall|i: int|
                0 <= i < list.len() ==> (#[trigger] list[i]).id == tree.attribute(
                    concrete(tree, nodes, "pattern"@)[i],
                    "id"@,
                )
        },
    decreases nodes.len(),
{
    if nodes.len() > 0 {
        lemma_patterns_concrete(tree, nodes.skip(1), templates, known);
        if let Ok(list) = tree.patterns_of(nodes, templates, known) {
            if tree.has_tag(nodes[0], "pattern"@) && !tree.is_abstract(nodes[0]) {
                let own = tree.pattern_at(nodes[0], templates, known)->Ok_0;
                let more = tree.patterns_of(nodes.skip(1), templates, known)->Ok_0;
                let all = concrete(tree, nodes, "pattern"@);
                let others = concrete(tree, nodes.skip(1), "pattern"@);
                assert(list == seq![own] + more);
                assert forall|i: int| 0 <= i < list.len() implies (#[trigger] list[i]).id
                    == tree.attribute(all[i], "id"@) by {
                    if i > 0 {
                        assert(list[i] == more[i - 1]);
                        assert(all[i] == others[i - 1]);
                    }
                }
            }
        }
    }
}

/// The patterns of an accepted schema are its concrete ones, in document
/// order and with their own identifiers; abstract patterns are only templates.
pub proof fn only_concrete_patterns_appear(tree: XmlTree)
    ensures
        tree.schema() matches Ok(schema) ==> {
            let declared = concrete(tree, tree.children(tree.root_element()->0), "pattern"@);
            &&& schema.patterns.len() == declared.len()
            &&& forall|i: int|
                0 <= i < declared.len() ==> (#[trigger] schema.patterns[i]).id == tree.attribute(
                    declared[i],
                    "id"@,
                )
        },
{
    if let Ok(schema) = tree.schema() {
        let nodes = tree.children(tree.root_element()->0);
        let templates = tree.templates_of(nodes)->Ok_0;
        lemma_patterns_concrete(
            tree,
            nodes,
            templates,
            grammar::diagnostic_ids(schema.diagnostics),
        );
    }
}

/// Whether `rule` has the context that element `n` declares, after
/// substitution.
pub open spec fn has_context_of(
    tree: XmlTree,
    n: int,
    params: Seq<(Seq<char>, Seq<char>)>,
    rule: RuleView,
) -> bool {
    match tree.attribute(n, "context"@) {
        Some(context) => rule.context == grammar::substituted(context, params),
        None => false,
    }
}

/// The rules of a pattern are its concrete ones, in document order, each with
/// its own context; abstract rules are only there to be extended.
pub proof fn only_concrete_rules_appear(
    tree: XmlTree,
    nodes: Seq<int>,
    rules: Seq<(Seq<char>, int)>,
    params: Seq<(Seq<char>, Seq<char>)>,
    known: Set<Seq<char>>,
)
    ensures
        tree.rules_of(nodes, rules, params, known) matches Ok(list) ==> {
            let declared = concrete(tree, nodes, "rule"@);
            &&& list.len() == declared.len()
            &&& forall|i: int|
                0 <= i < list.len() ==> has_context_of(
                    tree,
                    declared[i],
                    params,
                    #[trigger] list[i],
                )
        },
    decreases nodes.len(),
{
    if nodes.len() > 0 {
        only_concrete_rules_appear(tree, nodes.skip(1), rules, params, known);
        if let Ok(list) = tree.rules_of(nodes, rules, params, known) {
            if tree.has_tag(nodes[0], "rule"@) && !tree.is_abstract(nodes[0]) {
                let own = tree.rule_of(nodes[0], rules, params, known)->Ok_0;
                let more = tree.rules_of(nodes.skip(1), rules, params, known)->Ok_0;
                let all = concrete(tree, nodes, "rule"@);
                let others = concrete(tree, nodes.skip(1), "rule"@);
                assert(list == seq![own] + more);
                assert forall|i: int| 0 <= i < list.len() implies has_context_of(
                    tree,
                    all[i],
                    params,
                    #[trigger] list[i],
                ) by {
                    if i > 0 {
                        assert(list[i] == more[i - 1]);
                        assert(all[i] == others[i - 1]);
                    }
                }
            }
        }
    }
}

/// The parameters of an abstract pattern's use do not reach the bindings of
/// its rules: these are the same whatever the parameters.
pub proof fn let_values_are_not_substituted(
    tree: XmlTree,
    nodes: Seq<int>,
    rules: Seq<(Seq<char>, int)>,
    params: Seq<(Seq<char>, Seq<char>)>,
    others: Seq<(Seq<char>, Seq<char>)>,
    visiting: Seq<Seq<char>>,
    known: Set<Seq<char>>,
)
    ensures
        match (
            tree.rule_content(nodes, rules, params, visiting, known),
            tree.rule_content(nodes, rules, others, visiting, known),
        ) {
            (Ok(content), Ok(other)) => content.lets == other.lets,
            _ => true,
        },
    decreases grammar::unvisited(rules, visiting), nodes.len(),
{
    if nodes.len() > 0 {
        let child = nodes[0];
        let_values_are_not_substituted(
            tree,
            nodes.skip(1),
            rules,
            params,
            others,
            visiting,
            known,
        );
        if tree.check_kind(child) is None && tree.has_tag(child, "extends"@) {
            if let Ok(id) = tree.required(child, "extends"@, "rule"@) {
                if let Some(target) = grammar::entry_named(rules, id) {
                    if !visiting.contains(id) {
                        grammar::lemma_unvisited_decreases(rules, visiting, id);
                        let_values_are_not_substituted(
                            tree,
                            tree.children(target),
                            rules,
                            params,
                            others,
                            visiting.push(id),
                            known,
                        );
                    }
                }
            }
        }
        if tree.rule_content(nodes, rules, params, visiting, known) is Ok && tree.rule_content(
            nodes,
            rules,
            others,
            visiting,
            known,
        ) is Ok {
            let own = tree.rule_content_of_child(child, rules, params, visiting, known)->Ok_0;
            let own_other = tree.rule_content_of_child(
                child,
                rules,
                others,
                visiting,
                known,
            )->Ok_0;
            assert(own.lets == own_other.lets);
        }
    }
}

/// The content of a rule is that of its children, one after the other: checks
/// and bindings keep their order, own and inherited ones alike.
pub proof fn rule_content_is_sequential(
    tree: XmlTree,
    first: Seq<int>,
    second: Seq<int>,
    rules: Seq<(Seq<char>, int)>,
    params: Seq<(Seq<char>, Seq<char>)>,
    visiting: Seq<Seq<char>>,
    known: Set<Seq<char>>,
)
    ensures
        tree.rule_content(first + second, rules, params, visiting, known) == (
        match tree.rule_content(first, rules, params, visiting, known) {
            Err(error) => Err(error),
            Ok(content) => content.followed_by(
                tree.rule_content(second, rules, params, visiting, known),
            ),
        }),
    decreases first.len(),
{
    let rest = tree.rule_content(second, rules, params, visiting, known);
    if first.len() == 0 {
        assert(first + second == second);
        if let Ok(content) = rest {
            assert(Seq::<CheckView>::empty() + content.checks == content.checks);
            assert(Seq::<LetBindingView>::empty() + content.lets == content.lets);
        }
    } else {
        assert((first + second).skip(1) == first.skip(1) + second);
        rule_content_is_sequential(
            tree,
            first.skip(1),
            second,
            rules,
            params,
            visiting,
            known,
        );
        if let Ok(own) = tree.rule_content_of_child(first[0], rules, params, visiting, known) {
            if let Ok(more) = tree.rule_content(first.skip(1), rules, params, visiting, known) {
                if let Ok(last) = rest {
                    assert(own.checks + (more.checks + last.checks) == (own.checks + more.checks)
                        + last.checks);
                    assert(own.lets + (more.lets + last.lets) == (own.lets + more.lets)
                        + last.lets);
                }
            }
        }
    }
}

/// An `<extends>` contributes the checks and the bindings of the rule it
/// names, unless that is already being extended: then it is refused.
pub proof fn extends_contributes_the_named_rule(
    tree: XmlTree,
    child: int,
    rules: Seq<(Seq<char>, int)>,
    params: Seq<(Seq<char>, Seq<char>)>,
    visiting: Seq<Seq<char>>,
    known: Set<Seq<char>>,
    id: Seq<char>,
    target: int,
)
    requires
        tree.has_tag(child, "extends"@),
        tree.attribute(child, "rule"@) == Some(id),
        grammar::entry_named(rules, id) == Some(target),
    ensures
        tree.rule_content_of_child(child, rules, params, visiting, known) == (
        if visiting.contains(id) {
            Err(ParseErrorView::CyclicRuleExtends { rule: id, position: tree.position(child) })
        } else {
            tree.rule_content(tree.children(target), rules, params, visiting.push(id), known)
        }),
{
    reveal_strlit("extends");
    reveal_strlit("assert");
    reveal_strlit("report");
    reveal_strlit("let");
    assert("extends"@.len() == 7 && "assert"@.len() == 6 && "report"@.len() == 6 && "let"@.len()
        == 3);
}

proof fn lemma_first_unexpected(tree: XmlTree, nodes: Seq<int>, container: Container)
    ensures
        match tree.first_unexpected(nodes, container) {
            Some(n) => nodes.contains(n) && tree.is_schematron(n) && !container.spec_admits(
                tree.nodes[n].name,
            ),
            None => forall|i: int|
                0 <= i < nodes.len() && tree.is_schematron(#[trigger] nodes[i])
                    ==> container.spec_admits(tree.nodes[nodes[i]].name),
        },
    decreases nodes.len(),
{
    if nodes.len() > 0 {
        let rest = nodes.skip(1);
        lemma_first_unexpected(tree, rest, container);
        match tree.first_unexpected(rest, container) {
            Some(n) => {
                let i = choose|i: int| 0 <= i < rest.len() && rest[i] == n;
                assert(nodes[i + 1] == n);
            },
            None => {
                assert forall|i: int|
                    1 <= i < nodes.len() && tree.is_schematron(
                        #[trigger] nodes[i],
                    ) implies container.spec_admits(tree.nodes[nodes[i]].name) by {
                    assert(rest[i - 1] == nodes[i]);
                }
            },
        }
        assert(nodes.contains(nodes[0]));
    }
}

/// A container passes exactly when every Schematron child is one that it
/// admits; elements of other namespaces are not looked at.
pub proof fn children_are_admitted_or_refused(tree: XmlTree, n: int, container: Container)
    ensures
        tree.known_children(n, container) is Ok <==> forall|i: int|
            0 <= i < tree.children(n).len() && tree.is_schematron(#[trigger] tree.children(n)[i])
                ==> container.spec_admits(tree.nodes[tree.children(n)[i]].name),
{
    lemma_first_unexpected(tree, tree.children(n), container);
    if let Some(child) = tree.first_unexpected(tree.children(n), container) {
        let i = choose|i: int| 0 <= i < tree.children(n).len() && tree.children(n)[i] == child;
        assert(tree.is_schematron(tree.children(n)[i]));
    }
}

/// No container admits an `<include>`: it has to be expanded before parsing.
pub proof fn inclusions_are_not_part_of_a_schema(container: Container)
    ensures
        !container.spec_admits("include"@),
{
    reveal_strlit("include");
    reveal_strlit("title");
    reveal_strlit("p");
    reveal_strlit("ns");
    reveal_strlit("let");
    reveal_strlit("phase");
    reveal_strlit("pattern");
    reveal_strlit("diagnostics");
    reveal_strlit("properties");
    reveal_strlit("property");
    reveal_strlit("diagnostic");
    reveal_strlit("rule");
    reveal_strlit("param");
    reveal_strlit("assert");
    reveal_strlit("report");
    reveal_strlit("extends");
    reveal_strlit("active");
    reveal_strlit("value-of");
    reveal_strlit("name");
    reveal_strlit("emph");
    reveal_strlit("dir");
    reveal_strlit("span");
    assert("include"@[0] == 'i');
    assert("title"@[0] == 't' && "p"@[0] == 'p' && "ns"@[0] == 'n' && "let"@[0] == 'l');
    assert("phase"@[0] == 'p' && "pattern"@[0] == 'p' && "diagnostics"@[0] == 'd');
    assert("properties"@[0] == 'p' && "property"@[0] == 'p' && "diagnostic"@[0] == 'd');
    assert("rule"@[0] == 'r' && "param"@[0] == 'p' && "assert"@[0] == 'a');
    assert("report"@[0] == 'r' && "extends"@[0] == 'e' && "active"@[0] == 'a');
    assert("value-of"@[0] == 'v' && "name"@[0] == 'n' && "emph"@[0] == 'e');
    assert("dir"@[0] == 'd' && "span"@[0] == 's');
}

pub proof fn lemma_first_misplaced(tree: XmlTree, root: int, n: int)
    requires
        0 <= n,
    ensures
        match tree.first_misplaced(root, n) {
            Some(m) => n <= m < tree.nodes.len() && tree.is_misplaced(root, m) && forall|k: int|
                n <= k < m ==> !#[trigger] tree.is_misplaced(root, k),
            None => forall|k: int|
                n <= k < tree.nodes.len() ==> !#[trigger] tree.is_misplaced(root, k),
        },
    decreases tree.nodes.len() - n,
{
    if n < tree.nodes.len() {
        lemma_first_misplaced(tree, root, n + 1);
    }
}

/// Containers are found at the root element and below it only.
pub proof fn lemma_containers_below(tree: XmlTree, root: int, n: int)
    requires
        0 <= n < root,
    ensures
        tree.container_of(root, n) is None,
    decreases n,
{
    if let Some(parent) = tree.nodes[n].parent {
        if parent < n {
            lemma_containers_below(tree, root, parent as int);
        }
    }
}

/// Nothing is dropped in silence: in an accepted schema every Schematron child
/// of a container is one that the container admits, be it in an abstract
/// rule, in a pattern that nothing uses, or in a message.
pub proof fn no_element_is_misplaced(tree: XmlTree, n: int, container: Container, child: int)
    requires
        tree.well_formed(),
        tree.schema() is Ok,
        0 <= n < tree.nodes.len(),
        tree.container_of(tree.root_element()->0, n) == Some(container),
        tree.children(n).contains(child),
        tree.is_schematron(child),
    ensures
        container.spec_admits(tree.nodes[child].name),
{
    let root = tree.root_element()->0;
    crate::xml::lemma_children(tree, n, tree.nodes.len() as int);
    crate::xml::lemma_root_element(tree);
    let i = choose|i: int| 0 <= i < tree.children(n).len() && tree.children(n)[i] == child;
    assert(tree.children(n)[i] == child);
    assert(tree.is_child(n, child));
    assert(tree.nodes[child].parent is Some);
    if n < root {
        lemma_containers_below(tree, root, n);
    }
    lemma_first_misplaced(tree, root, 0);
    assert(!tree.is_misplaced(root, child));
}

/// Of the misplaced elements of a schema with nothing else to refuse, the
/// first in document order is refused.
pub proof fn the_first_misplaced_element_is_refused(tree: XmlTree, n: int)
    requires
        tree.has_tag(tree.root_element()->0, "schema"@),
        tree.content_of(tree.root_element()->0) is Ok,
        0 <= n < tree.nodes.len(),
        tree.is_misplaced(tree.root_element()->0, n),
        forall|k: int| 0 <= k < n ==> !#[trigger] tree.is_misplaced(tree.root_element()->0, k),
    ensures
        tree.schema() == Err::<SchemaView, ParseErrorView>(
            ParseErrorView::UnexpectedElement {
                element: tree.nodes[n].name,
                position: tree.position(n),
            },
        ),
{
    lemma_first_misplaced(tree, tree.root_element()->0, 0);
}

/// A schema document with an `<include>` in a container, at any depth, is
/// refused unless it is expanded first.
pub proof fn unexpanded_inclusions_are_refused(tree: XmlTree, n: int, child: int)
    requires
        tree.well_formed(),
        0 <= n < tree.nodes.len(),
        tree.container_of(tree.root_element()->0, n) is Some,
        tree.children(n).contains(child),
        tree.has_tag(child, "include"@),
    ensures
        tree.schema() is Err,
{
    let container = tree.container_of(tree.root_element()->0, n)->0;
    inclusions_are_not_part_of_a_schema(container);
    if tree.schema() is Ok {
        no_element_is_misplaced(tree, n, container, child);
    }
}

/// A text without inclusions is parsed as it is, and the resolver is not
/// asked.
pub proof fn without_inclusions_nothing_is_resolved(
    xml: Seq<char>,
    base_uri: Seq<char>,
    answers: Seq<Answer>,
)
    requires
        inclusion::inclusions_in(xml) == Ok::<Seq<InclusionView>, ParseErrorView>(seq![]),
    ensures
        inclusion::parsed_with(xml, base_uri, seq![]) == Some(crate::parser::parsed(xml)),
        inclusion::parsed_with(xml, base_uri, answers) is Some ==> answers.len() == 0,
{
    crate::xml::lemma_whole_slice(xml);
}

/// A text without inclusions expands to itself, on whatever way it was
/// reached, and the resolver is not asked: so an expanded text that holds no
/// inclusion stays as it is.
pub proof fn without_inclusions_a_text_stays(
    xml: Seq<char>,
    base_uri: Seq<char>,
    loading: Seq<Seq<char>>,
    answers: Seq<Answer>,
)
    requires
        inclusion::inclusions_in(xml) == Ok::<Seq<InclusionView>, ParseErrorView>(seq![]),
    ensures
        inclusion::expanded(xml, base_uri, loading, answers) == (if answers.len() == 0 {
            Some(Ok::<Seq<char>, ParseErrorView>(xml))
        } else {
            None
        }),
{
    crate::xml::lemma_whole_slice(xml);
}

/// A reference that is being loaded already is refused, and the resolver is
/// not asked.
pub proof fn a_reference_being_loaded_is_cyclic(
    xml: Seq<char>,
    base_uri: Seq<char>,
    loading: Seq<Seq<char>>,
    list: Seq<InclusionView>,
    answers: Seq<Answer>,
)
    requires
        inclusion::inclusions_in(xml) == Ok::<Seq<InclusionView>, ParseErrorView>(list),
        list.len() > 0,
        loading.contains(inclusion::reference_key(base_uri, list[0].href)),
    ensures
        inclusion::expanded(xml, base_uri, loading, answers) == (if answers.len() == 0 {
            Some(
                Err::<Seq<char>, ParseErrorView>(
                    ParseErrorView::CyclicInclude {
                        href: list[0].href,
                        position: list[0].position,
                    },
                ),
            )
        } else {
            None
        }),
{
}

/// A text that is not well-formed XML is refused as such, with and without a
/// resolver, which is not asked.
pub proof fn malformed_xml_is_refused(xml: Seq<char>, base_uri: Seq<char>, answers: Seq<Answer>)
    requires
        crate::xml::xml_nodes(xml) is Err,
    ensures
        crate::parser::parsed(xml) == Err::<SchemaView, ParseErrorView>(
            ParseErrorView::InvalidXml(crate::xml::xml_nodes(xml)->Err_0),
        ),
        inclusion::parsed_with(xml, base_uri, seq![]) == Some(crate::parser::parsed(xml)),
        inclusion::parsed_with(xml, base_uri, answers) is Some ==> answers.len() == 0,
{
}

/// A text that leads back to itself is refused as a cyclic inclusion, after one
/// answer of the resolver.
pub proof fn a_text_cannot_include_itself(
    xml: Seq<char>,
    base_uri: Seq<char>,
    list: Seq<InclusionView>,
)
    requires
        inclusion::inclusions_in(xml) == Ok::<Seq<InclusionView>, ParseErrorView>(list),
        list.len() > 0,
    ensures
        inclusion::parsed_with(
            xml,
            base_uri,
            seq![Answer::Found { text: xml, base_uri, nested: seq![] }],
        ) == Some(
            Err::<SchemaView, ParseErrorView>(
                ParseErrorView::CyclicInclude { href: list[0].href, position: list[0].position },
            ),
        ),
{
    let key = inclusion::reference_key(base_uri, list[0].href);
    let none: Seq<Seq<char>> = seq![];
    let answers = seq![Answer::Found { text: xml, base_uri, nested: seq![] }];
    assert(none.push(key)[0] == key);
    assert(none.push(key).contains(key));
    assert(!none.contains(key));
    assert(inclusion::expanded(xml, base_uri, none.push(key), seq![]) == Some(
        Err::<Seq<char>, ParseErrorView>(
            ParseErrorView::CyclicInclude { href: list[0].href, position: list[0].position },
        ),
    ));
    assert(answers[0] == Answer::Found { text: xml, base_uri, nested: seq![] });
    assert(inclusion::expanded(xml, base_uri, none, answers) == inclusion::spliced(
        xml,
        base_uri,
        none,
        list,
        0,
        answers,
    ));
}

/// An inclusion is replaced, where it stands, by the source of the root element
/// of what its reference leads to, itself expanded; the text before it and
/// behind it stays.
pub proof fn an_inclusion_is_replaced_in_place(
    xml: Seq<char>,
    base_uri: Seq<char>,
    only: InclusionView,
    found: Seq<char>,
    found_base: Seq<char>,
    nested: Seq<Answer>,
    resolved: Seq<char>,
    source: Seq<char>,
)
    requires
        inclusion::inclusions_in(xml) == Ok::<Seq<InclusionView>, ParseErrorView>(seq![only]),
        inclusion::expanded(
            found,
            found_base,
            seq![inclusion::reference_key(base_uri, only.href)],
            nested,
        ) == Some(Ok::<Seq<char>, ParseErrorView>(resolved)),
        inclusion::fragment(resolved, only.href, only.position) == Ok::<Seq<char>, ParseErrorView>(
            source,
        ),
    ensures
        inclusion::expanded(
            xml,
            base_uri,
            seq![],
            seq![Answer::Found { text: found, base_uri: found_base, nested }],
        ) == Some(
            Ok::<Seq<char>, ParseErrorView>(
                crate::xml::slice(xml, 0, only.start as int) + source + crate::xml::slice(
                    xml,
                    only.end as int,
                    vstd::utf8::encode_utf8(xml).len() as int,
                ),
            ),
        ),
{
    let none: Seq<Seq<char>> = seq![];
    let key = inclusion::reference_key(base_uri, only.href);
    let answers = seq![Answer::Found { text: found, base_uri: found_base, nested }];
    let list = seq![only];
    assert(none.push(key) == seq![key]);
    assert(!none.contains(key));
    assert(answers[0] == Answer::Found { text: found, base_uri: found_base, nested });
    assert(list[0] == only);
    assert(list.skip(1).len() == 0);
    let tail = inclusion::spliced(
        xml,
        base_uri,
        none,
        list.skip(1),
        only.end as int,
        answers.skip(1),
    );
    assert(tail is Some);
    assert(inclusion::expanded(xml, base_uri, none, answers) == inclusion::spliced(
        xml,
        base_uri,
        none,
        list,
        0,
        answers,
    ));
}

/// The resolver's failure on the first inclusion of a text is what parsing
/// reports, with the resolver's message.
pub proof fn a_failed_resolution_is_reported(
    xml: Seq<char>,
    base_uri: Seq<char>,
    list: Seq<InclusionView>,
    message: Seq<char>,
)
    requires
        inclusion::inclusions_in(xml) == Ok::<Seq<InclusionView>, ParseErrorView>(list),
        list.len() > 0,
    ensures
        inclusion::parsed_with(xml, base_uri, seq![Answer::Failed(message)]) == Some(
            Err::<SchemaView, ParseErrorView>(
                ParseErrorView::UnresolvableInclude {
                    href: list[0].href,
                    message,
                    position: list[0].position,
                },
            ),
        ),
{
    let none: Seq<Seq<char>> = seq![];
    let key = inclusion::reference_key(base_uri, list[0].href);
    let answers = seq![Answer::Failed(message)];
    assert(!none.contains(key));
    assert(answers[0] == Answer::Failed(message));
    assert(inclusion::expanded(xml, base_uri, none, answers) == inclusion::spliced(
        xml,
        base_uri,
        none,
        list,
        0,
        answers,
    ));
}

/// An accepted schema declares no query binding, or one that stands for
/// XPath 1.0.
pub proof fn query_bindings_are_xpath(tree: XmlTree)
    ensures
        tree.schema() matches Ok(schema) ==> (schema.query_binding matches Some(binding)
            ==> text::same_ignoring_case("xslt"@, binding) || text::same_ignoring_case(
            "xpath"@,
            binding,
        )),
{
}

/// Whether an error that refuses an element refuses a Schematron element, by
/// its name and at its position.
pub open spec fn refuses_schematron_only(tree: XmlTree, error: ParseErrorView) -> bool {
    match error {
        ParseErrorView::UnexpectedElement { element, position } => exists|n: int| #[trigger]
            tree.is_schematron(n) && tree.nodes[n].name == element && tree.position(n) == position,
        _ => true,
    }
}

proof fn lemma_known_children_error(tree: XmlTree, n: int, container: Container)
    ensures
        tree.known_children(n, container) matches Err(error) ==> refuses_schematron_only(
            tree,
            error,
        ),
{
    lemma_first_unexpected(tree, tree.children(n), container);
}

/// An error in collecting is the error of one of the nodes.
proof fn lemma_collect_error<T>(
    tree: XmlTree,
    nodes: Seq<int>,
    tag: Seq<char>,
    read: spec_fn(int) -> Result<T, ParseErrorView>,
)
    ensures
        tree.collect(nodes, tag, read) matches Err(error) ==> exists|n: int| #[trigger]
            read(n) == Err::<T, ParseErrorView>(error),
    decreases nodes.len(),
{
    if nodes.len() > 0 {
        lemma_collect_error(tree, nodes.skip(1), tag, read);
        if let Err(error) = tree.collect(nodes, tag, read) {
            if tree.has_tag(nodes[0], tag) && read(nodes[0]) is Err {
                assert(read(nodes[0]) == Err::<T, ParseErrorView>(error));
            }
        }
    }
}

proof fn lemma_lets_error(tree: XmlTree, n: int)
    ensures
        tree.lets_of(n) matches Err(error) ==> refuses_schematron_only(tree, error),
{
    let read = tree.let_reader();
    lemma_collect_error(tree, tree.children(n), "let"@, read);
    if let Err(error) = tree.lets_of(n) {
        let c = choose|c: int| #[trigger] read(c) == Err::<LetBindingView, ParseErrorView>(error);
        assert(tree.let_of(c) == Err::<LetBindingView, ParseErrorView>(error));
    }
}

proof fn lemma_message_error(
    tree: XmlTree,
    n: int,
    nodes: Seq<int>,
    params: Seq<(Seq<char>, Seq<char>)>,
)
    ensures
        tree.message_of(n, nodes, params) matches Err(error) ==> refuses_schematron_only(
            tree,
            error,
        ),
    decreases tree.nodes.len() - n, nodes.len(),
{
    if nodes.len() > 0 {
        lemma_message_error(tree, n, nodes.skip(1), params);
        let child = nodes[0];
        if n < child < tree.nodes.len() {
            lemma_message_error(tree, child, tree.children(child), params);
        }
        assert(tree.message_of_child(n, child, params) matches Err(error)
            ==> refuses_schematron_only(tree, error));
    }
}

proof fn lemma_diagnostics_error(tree: XmlTree, nodes: Seq<int>)
    ensures
        tree.diagnostics_of(nodes) matches Err(error) ==> refuses_schematron_only(tree, error),
{
    if let Some(list) = tree.first_tagged(nodes, "diagnostics"@) {
        let read = tree.diagnostic_reader();
        let kids = tree.children(list);
        lemma_known_children_error(tree, list, Container::Diagnostics);
        lemma_collect_error(tree, kids, "diagnostic"@, read);
        if let Err(error) = tree.collect(kids, "diagnostic"@, read) {
            let c = choose|c: int| #[trigger]
                read(c) == Err::<DiagnosticView, ParseErrorView>(error);
            assert(tree.diagnostic_of(c) == Err::<DiagnosticView, ParseErrorView>(error));
            lemma_message_error(tree, c, tree.children(c), seq![]);
        }
    }
}

proof fn lemma_properties_error(tree: XmlTree, nodes: Seq<int>)
    ensures
        tree.properties_of(nodes) matches Err(error) ==> refuses_schematron_only(tree, error),
{
    if let Some(list) = tree.first_tagged(nodes, "properties"@) {
        let read = tree.property_reader();
        let kids = tree.children(list);
        lemma_known_children_error(tree, list, Container::Properties);
        lemma_collect_error(tree, kids, "property"@, read);
        if let Err(error) = tree.collect(kids, "property"@, read) {
            let c = choose|c: int| #[trigger] read(c) == Err::<PropertyView, ParseErrorView>(error);
            assert(tree.property_of(c) == Err::<PropertyView, ParseErrorView>(error));
            lemma_message_error(tree, c, tree.children(c), seq![]);
        }
    }
}

proof fn lemma_rule_content_error(
    tree: XmlTree,
    nodes: Seq<int>,
    rules: Seq<(Seq<char>, int)>,
    params: Seq<(Seq<char>, Seq<char>)>,
    visiting: Seq<Seq<char>>,
    known: Set<Seq<char>>,
)
    ensures
        tree.rule_content(nodes, rules, params, visiting, known) matches Err(error)
            ==> refuses_schematron_only(tree, error),
    decreases grammar::unvisited(rules, visiting), nodes.len(),
{
    if nodes.len() > 0 {
        let child = nodes[0];
        lemma_rule_content_error(tree, nodes.skip(1), rules, params, visiting, known);
        lemma_message_error(tree, child, tree.children(child), params);
        if tree.check_kind(child) is None && tree.has_tag(child, "extends"@) {
            if let Ok(id) = tree.required(child, "extends"@, "rule"@) {
                if let Some(target) = grammar::entry_named(rules, id) {
                    if !visiting.contains(id) {
                        grammar::lemma_unvisited_decreases(rules, visiting, id);
                        lemma_rule_content_error(
                            tree,
                            tree.children(target),
                            rules,
                            params,
                            visiting.push(id),
                            known,
                        );
                    }
                }
            }
        }
        assert(tree.rule_content_of_child(child, rules, params, visiting, known) matches Err(error)
            ==> refuses_schematron_only(tree, error));
    }
}

proof fn lemma_rules_error(
    tree: XmlTree,
    nodes: Seq<int>,
    rules: Seq<(Seq<char>, int)>,
    params: Seq<(Seq<char>, Seq<char>)>,
    known: Set<Seq<char>>,
)
    ensures
        tree.rules_of(nodes, rules, params, known) matches Err(error) ==> refuses_schematron_only(
            tree,
            error,
        ),
    decreases nodes.len(),
{
    if nodes.len() > 0 {
        lemma_rules_error(tree, nodes.skip(1), rules, params, known);
        lemma_known_children_error(tree, nodes[0], Container::Rule);
        let visiting = match tree.attribute(nodes[0], "id"@) {
            Some(id) => seq![id],
            None => seq![],
        };
        lemma_rule_content_error(
            tree,
            tree.children(nodes[0]),
            rules,
            params,
            visiting,
            known,
        );
    }
}

proof fn lemma_pattern_error(
    tree: XmlTree,
    n: int,
    id: Option<Seq<char>>,
    params: Seq<(Seq<char>, Seq<char>)>,
    known: Set<Seq<char>>,
)
    ensures
        tree.pattern_of(n, id, params, known) matches Err(error) ==> refuses_schematron_only(
            tree,
            error,
        ),
{
    let kids = tree.children(n);
    lemma_known_children_error(tree, n, Container::Pattern);
    lemma_lets_error(tree, n);
    lemma_rules_error(tree, kids, tree.named_rules(kids), params, known);
}

proof fn lemma_patterns_error(
    tree: XmlTree,
    nodes: Seq<int>,
    templates: Seq<(Seq<char>, int)>,
    known: Set<Seq<char>>,
)
    ensures
        tree.patterns_of(nodes, templates, known) matches Err(error) ==> refuses_schematron_only(
            tree,
            error,
        ),
    decreases nodes.len(),
{
    if nodes.len() > 0 {
        let n = nodes[0];
        let id = tree.attribute(n, "id"@);
        lemma_patterns_error(tree, nodes.skip(1), templates, known);
        match tree.attribute(n, "is-a"@) {
            None => {
                lemma_pattern_error(tree, n, id, seq![], known);
            },
            Some(template) => {
                let read = tree.param_reader();
                let kids = tree.children(n);
                lemma_known_children_error(tree, n, Container::PatternUse);
                lemma_collect_error(tree, kids, "param"@, read);
                if let Some(source) = grammar::entry_named(templates, template) {
                    match tree.collect(kids, "param"@, read) {
                        Ok(params) => {
                            lemma_pattern_error(tree, source, id, params, known);
                        },
                        Err(error) => {
                            let c = choose|c: int| #[trigger]
                                read(c) == Err::<(Seq<char>, Seq<char>), ParseErrorView>(error);
                            assert(tree.param_of(c) == Err::<
                                (Seq<char>, Seq<char>),
                                ParseErrorView,
                            >(error));
                        },
                    }
                }
            },
        }
    }
}

proof fn lemma_templates_error(tree: XmlTree, nodes: Seq<int>)
    ensures
        tree.templates_of(nodes) matches Err(error) ==> refuses_schematron_only(tree, error),
    decreases nodes.len(),
{
    if nodes.len() > 0 {
        lemma_templates_error(tree, nodes.skip(1));
    }
}

proof fn lemma_phases_error(tree: XmlTree, nodes: Seq<int>, known: Set<Seq<char>>)
    ensures
        tree.collect(nodes, "phase"@, tree.phase_reader(known)) matches Err(error)
            ==> refuses_schematron_only(tree, error),
{
    let read = tree.phase_reader(known);
    lemma_collect_error(tree, nodes, "phase"@, read);
    if let Err(error) = tree.collect(nodes, "phase"@, read) {
        let c = choose|c: int| #[trigger] read(c) == Err::<PhaseView, ParseErrorView>(error);
        assert(tree.phase_of(c, known) == Err::<PhaseView, ParseErrorView>(error));
        let active = tree.active_reader(known);
        let kids = tree.children(c);
        lemma_known_children_error(tree, c, Container::Phase);
        lemma_lets_error(tree, c);
        lemma_collect_error(tree, kids, "active"@, active);
        if let Err(other) = tree.collect(kids, "active"@, active) {
            let a = choose|a: int| #[trigger] active(a) == Err::<Seq<char>, ParseErrorView>(other);
            assert(tree.active_of(a, known) == Err::<Seq<char>, ParseErrorView>(other));
        }
    }
}

proof fn lemma_ids_error(tree: XmlTree, nodes: Seq<int>, seen: Set<Seq<char>>)
    ensures
        tree.unique_ids(nodes, seen) matches Err(error) ==> refuses_schematron_only(tree, error),
    decreases nodes.len(),
{
    if nodes.len() > 0 {
        match tree.identity(nodes[0]) {
            None => {
                lemma_ids_error(tree, nodes.skip(1), seen);
            },
            Some(id) => {
                lemma_ids_error(tree, nodes.skip(1), seen.insert(id));
            },
        }
    }
}

/// Elements of other namespaces are allowed anywhere: whatever element is
/// refused as unexpected is a Schematron element.
pub proof fn foreign_elements_are_never_refused(tree: XmlTree)
    ensures
        tree.schema() matches Err(error) ==> refuses_schematron_only(tree, error),
{
    let root = tree.root_element()->0;
    let nodes = tree.children(root);
    lemma_first_misplaced(tree, root, 0);
    lemma_known_children_error(tree, root, Container::Schema);
    lemma_ids_error(tree, tree.descendants(root), Set::empty());
    let read = tree.ns_reader();
    lemma_collect_error(tree, nodes, "ns"@, read);
    if let Err(error) = tree.collect(nodes, "ns"@, read) {
        let c = choose|c: int| #[trigger]
            read(c) == Err::<crate::schema::NamespaceBindingView, ParseErrorView>(error);
        assert(tree.ns_of(c) == Err::<crate::schema::NamespaceBindingView, ParseErrorView>(error));
    }
    lemma_lets_error(tree, root);
    lemma_diagnostics_error(tree, nodes);
    lemma_properties_error(tree, nodes);
    lemma_templates_error(tree, nodes);
    if let Ok(diagnostics) = tree.diagnostics_of(nodes) {
        if let Ok(templates) = tree.templates_of(nodes) {
            let known = grammar::diagnostic_ids(diagnostics);
            lemma_patterns_error(tree, nodes, templates, known);
            if let Ok(patterns) = tree.patterns_of(nodes, templates, known) {
                lemma_phases_error(tree, nodes, grammar::pattern_ids(patterns));
            }
        }
    }
}

} // verus!
