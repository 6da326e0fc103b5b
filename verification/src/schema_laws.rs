//! What parsing is for: the schema that a document stands for holds what the
//! document declares, each part once and in order, and a document that
//! declares a schema is accepted.
//!
//! The statements here speak of the elements of the document and of their
//! attributes; none of them goes through the definitions of
//! [`crate::grammar`] but for the result that they are about and for how a
//! text is substituted.

use vstd::prelude::*;

use crate::error::ParseErrorView;
use crate::grammar;
use crate::grammar::{Container, RuleContent};
use crate::parsing_laws;
use crate::schema::{
    CheckKind, CheckView, DiagnosticView, LetBindingView, LetValueView, MessagePartView,
    NamespaceBindingView, PatternView, PhaseView, PropertyView, RuleView, SchemaView,
};
use crate::text;
use crate::xml;
use crate::xml::XmlTree;

verus! {

/// Whether attribute `i` of node `n` is the one that `name` names: the first
/// with that local name.
pub open spec fn names_attribute(tree: XmlTree, n: int, name: Seq<char>, i: int) -> bool {
    &&& 0 <= i < tree.nodes[n].attributes.len()
    &&& tree.nodes[n].attributes[i].0 == name
    &&& forall|j: int| 0 <= j < i ==> (#[trigger] tree.nodes[n].attributes[j]).0 != name
}

proof fn lemma_first_value(pairs: Seq<(Seq<char>, Seq<char>)>, name: Seq<char>, i: int)
    requires
        0 <= i < pairs.len(),
        pairs[i].0 == name,
        forall|j: int| 0 <= j < i ==> (#[trigger] pairs[j]).0 != name,
    ensures
        xml::first_value(pairs, name) == Some(pairs[i].1),
    decreases i,
{
    if i > 0 {
        let rest = pairs.skip(1);
        assert(pairs[0].0 != name);
        assert forall|j: int| 0 <= j < i - 1 implies (#[trigger] rest[j]).0 != name by {
            assert(rest[j] == pairs[j + 1]);
        }
        lemma_first_value(rest, name, i - 1);
    }
}

proof fn lemma_no_value(pairs: Seq<(Seq<char>, Seq<char>)>, name: Seq<char>)
    requires
        forall|j: int| 0 <= j < pairs.len() ==> (#[trigger] pairs[j]).0 != name,
    ensures
        xml::first_value(pairs, name) is None,
    decreases pairs.len(),
{
    if pairs.len() > 0 {
        let rest = pairs.skip(1);
        assert(pairs[0].0 != name);
        assert forall|j: int| 0 <= j < rest.len() implies (#[trigger] rest[j]).0 != name by {
            assert(rest[j] == pairs[j + 1]);
        }
        lemma_no_value(rest, name);
    }
}

/// The value of an attribute is that of the first attribute with its local
/// name; without one there is none.
pub proof fn an_attribute_is_the_first_with_its_name(tree: XmlTree, n: int, name: Seq<char>)
    ensures
        forall|i: int| #[trigger]
            names_attribute(tree, n, name, i) ==> tree.attribute(n, name) == Some(
                tree.nodes[n].attributes[i].1,
            ),
        (forall|i: int|
            0 <= i < tree.nodes[n].attributes.len() ==> (
            #[trigger] tree.nodes[n].attributes[i]).0 != name) ==> tree.attribute(n, name) is None,
{
    let pairs = tree.nodes[n].attributes;
    assert forall|i: int| #[trigger] names_attribute(tree, n, name, i) implies tree.attribute(
        n,
        name,
    ) == Some(tree.nodes[n].attributes[i].1) by {
        lemma_first_value(pairs, name, i);
    }
    if forall|i: int|
        0 <= i < tree.nodes[n].attributes.len() ==> (
        #[trigger] tree.nodes[n].attributes[i]).0 != name {
        assert forall|j: int| 0 <= j < pairs.len() implies (#[trigger] pairs[j]).0 != name by {
            assert(tree.nodes[n].attributes[j].0 != name);
        }
        lemma_no_value(pairs, name);
    }
}

/// An element is a Schematron element of some name where it is in the
/// namespace of Schematron and has that local name, whatever its prefix.
pub proof fn schematron_elements_are_known_by_namespace_and_name(
    tree: XmlTree,
    n: int,
    tag: Seq<char>,
)
    ensures
        tree.has_tag(n, tag) <==> {
            &&& tree.nodes[n].is_element
            &&& tree.nodes[n].namespace == Some("http://purl.oclc.org/dsdl/schematron"@)
            &&& tree.nodes[n].name == tag
        },
        tree.is_schematron(n) <==> {
            &&& tree.nodes[n].is_element
            &&& tree.nodes[n].namespace == Some("http://purl.oclc.org/dsdl/schematron"@)
        },
{
}

proof fn lemma_children_before(tree: XmlTree, n: int, k: int)
    requires
        0 <= k,
    ensures
        forall|m: int| #[trigger]
            tree.children_before(n, k).contains(m) <==> 0 <= m < k
                && tree.nodes[m].parent is Some && tree.nodes[m].parent->0 == n,
        forall|i: int, j: int|
            0 <= i < j < tree.children_before(n, k).len() ==> tree.children_before(n, k)[i]
                < tree.children_before(n, k)[j],
    decreases k,
{
    if k > 0 {
        lemma_children_before(tree, n, k - 1);
        let before = tree.children_before(n, k - 1);
        let list = tree.children_before(n, k);
        assert forall|m: int| #[trigger] list.contains(m) <==> 0 <= m < k
            && tree.nodes[m].parent is Some && tree.nodes[m].parent->0 == n by {
            assert(before.contains(m) <==> 0 <= m < k - 1 && tree.nodes[m].parent is Some
                && tree.nodes[m].parent->0 == n);
            if before.contains(m) {
                let i = choose|i: int| 0 <= i < before.len() && before[i] == m;
                assert(list[i] == m);
            }
            if list.contains(m) && m != k - 1 {
                let i = choose|i: int| 0 <= i < list.len() && list[i] == m;
                assert(before[i] == m);
            }
            if tree.is_child(n, k - 1) {
                assert(list[list.len() - 1] == k - 1);
            } else if m == k - 1 {
                assert(!before.contains(m));
            }
        }
        assert forall|i: int, j: int| 0 <= i < j < list.len() implies list[i] < list[j] by {
            if j < before.len() {
                assert(list[i] == before[i] && list[j] == before[j]);
            } else {
                assert(list[i] == before[i]);
                assert(before.contains(before[i]));
            }
        }
    } else {
        assert forall|m: int| !#[trigger] tree.children_before(n, k).contains(m) by {}
    }
}

/// The children of a node are exactly the nodes that have it as their parent,
/// in document order.
pub proof fn children_are_the_nodes_with_that_parent(tree: XmlTree, n: int)
    ensures
        forall|m: int| #[trigger]
            tree.children(n).contains(m) <==> 0 <= m < tree.nodes.len()
                && tree.nodes[m].parent is Some && tree.nodes[m].parent->0 == n,
        forall|i: int, j: int|
            0 <= i < j < tree.children(n).len() ==> tree.children(n)[i] < tree.children(n)[j],
{
    lemma_children_before(tree, n, tree.nodes.len() as int);
}

/// Those of `nodes` that are Schematron elements named `tag`, in order.
pub open spec fn tagged(tree: XmlTree, nodes: Seq<int>, tag: Seq<char>) -> Seq<int>
    decreases nodes.len(),
{
    if nodes.len() == 0 {
        seq![]
    } else {
        let before = tagged(tree, nodes.drop_last(), tag);
        if tree.has_tag(nodes.last(), tag) {
            before.push(nodes.last())
        } else {
            before
        }
    }
}

proof fn lemma_tagged_front(tree: XmlTree, nodes: Seq<int>, tag: Seq<char>)
    requires
        nodes.len() > 0,
    ensures
        tagged(tree, nodes, tag) == (if tree.has_tag(nodes[0], tag) {
            seq![nodes[0]] + tagged(tree, nodes.skip(1), tag)
        } else {
            tagged(tree, nodes.skip(1), tag)
        }),
    decreases nodes.len(),
{
    if nodes.len() == 1 {
        assert(nodes.drop_last().len() == 0);
        assert(nodes.last() == nodes[0]);
        assert(tagged(tree, nodes.drop_last(), tag) == Seq::<int>::empty());
        assert(tagged(tree, nodes.skip(1), tag) == Seq::<int>::empty());
        assert(Seq::<int>::empty().push(nodes[0]) == seq![nodes[0]] + Seq::<int>::empty());
    } else {
        lemma_tagged_front(tree, nodes.drop_last(), tag);
        assert(nodes.drop_last().skip(1) == nodes.skip(1).drop_last());
        assert(nodes.drop_last()[0] == nodes[0]);
        assert(nodes.skip(1).last() == nodes.last());
        let middle = tagged(tree, nodes.skip(1).drop_last(), tag);
        assert((seq![nodes[0]] + middle).push(nodes.last()) == seq![nodes[0]] + middle.push(
            nodes.last(),
        ));
    }
}

/// Whether `items` are what `elements` say, one by one.
pub open spec fn is_each<T>(
    elements: Seq<int>,
    says: spec_fn(int, T) -> bool,
    items: Seq<T>,
) -> bool {
    &&& items.len() == elements.len()
    &&& forall|i: int| 0 <= i < items.len() ==> says(elements[i], #[trigger] items[i])
}

/// `is_each` of a first element and the rest.
proof fn lemma_is_each_front<T>(
    first: int,
    rest: Seq<int>,
    says: spec_fn(int, T) -> bool,
    items: Seq<T>,
)
    ensures
        is_each(seq![first] + rest, says, items) <==> items.len() > 0 && says(first, items[0])
            && is_each(rest, says, items.skip(1)),
{
    let all = seq![first] + rest;
    if is_each(all, says, items) {
        assert(items[0] == items[0]);
        assert(all[0] == first);
        assert forall|i: int| 0 <= i < items.skip(1).len() implies says(
            rest[i],
            #[trigger] items.skip(1)[i],
        ) by {
            assert(items.skip(1)[i] == items[i + 1]);
            assert(all[i + 1] == rest[i]);
        }
    }
    if items.len() > 0 && says(first, items[0]) && is_each(rest, says, items.skip(1)) {
        assert forall|i: int| 0 <= i < items.len() implies says(all[i], #[trigger] items[i]) by {
            if i > 0 {
                assert(items.skip(1)[i - 1] == items[i]);
                assert(all[i] == rest[i - 1]);
            }
        }
    }
}

/// Collecting succeeds with what the elements say, each in its place.
pub proof fn lemma_collected<T>(
    tree: XmlTree,
    nodes: Seq<int>,
    tag: Seq<char>,
    read: spec_fn(int) -> Result<T, ParseErrorView>,
    says: spec_fn(int, T) -> bool,
    items: Seq<T>,
)
    requires
        forall|n: int, item: T| #[trigger]
            says(n, item) <==> read(n) == Ok::<T, ParseErrorView>(item),
    ensures
        tree.collect(nodes, tag, read) == Ok::<Seq<T>, ParseErrorView>(items) <==> is_each(
            tagged(tree, nodes, tag),
            says,
            items,
        ),
    decreases nodes.len(),
{
    if nodes.len() == 0 {
        if is_each(tagged(tree, nodes, tag), says, items) {
            assert(items == Seq::<T>::empty());
        }
    } else {
        let rest = nodes.skip(1);
        lemma_tagged_front(tree, nodes, tag);
        if !tree.has_tag(nodes[0], tag) {
            lemma_collected(tree, rest, tag, read, says, items);
        } else {
            lemma_is_each_front(nodes[0], tagged(tree, rest, tag), says, items);
            if let Ok(first) = read(nodes[0]) {
                assert(says(nodes[0], first));
                if let Ok(more) = tree.collect(rest, tag, read) {
                    lemma_collected(tree, rest, tag, read, says, more);
                    assert((seq![first] + more).skip(1) == more);
                }
                lemma_collected(tree, rest, tag, read, says, items.skip(1));
                if items.len() > 0 && says(nodes[0], items[0]) {
                    assert(seq![items[0]] + items.skip(1) == items);
                }
            }
        }
    }
}

/// Where an element cannot be read and those before it can, collecting fails
/// as that element does.
pub proof fn the_first_unreadable_element_is_refused<T>(
    tree: XmlTree,
    nodes: Seq<int>,
    tag: Seq<char>,
    read: spec_fn(int) -> Result<T, ParseErrorView>,
    i: int,
)
    requires
        0 <= i < tagged(tree, nodes, tag).len(),
        read(tagged(tree, nodes, tag)[i]) is Err,
        forall|j: int| 0 <= j < i ==> read(#[trigger] tagged(tree, nodes, tag)[j]) is Ok,
    ensures
        tree.collect(nodes, tag, read) == Err::<Seq<T>, ParseErrorView>(
            read(tagged(tree, nodes, tag)[i])->Err_0,
        ),
    decreases nodes.len(),
{
    if nodes.len() > 0 {
        let all = tagged(tree, nodes, tag);
        let rest = nodes.skip(1);
        let others = tagged(tree, rest, tag);
        lemma_tagged_front(tree, nodes, tag);
        if tree.has_tag(nodes[0], tag) {
            assert(all[0] == nodes[0]);
            if i > 0 {
                assert(read(all[0]) is Ok);
                assert(all[i] == others[i - 1]);
                assert forall|j: int| 0 <= j < i - 1 implies read(#[trigger] others[j]) is Ok by {
                    assert(all[j + 1] == others[j]);
                }
                the_first_unreadable_element_is_refused(tree, rest, tag, read, i - 1);
            }
        } else {
            the_first_unreadable_element_is_refused(tree, rest, tag, read, i);
        }
    }
}

/// Whether an `<ns>` declares this binding.
pub open spec fn declares_ns(tree: XmlTree, n: int, binding: NamespaceBindingView) -> bool {
    &&& tree.attribute(n, "prefix"@) == Some(binding.prefix)
    &&& tree.attribute(n, "uri"@) == Some(binding.uri)
}

pub open spec fn ns_says(tree: XmlTree) -> spec_fn(int, NamespaceBindingView) -> bool {
    |n: int, binding: NamespaceBindingView| declares_ns(tree, n, binding)
}

/// Whether a `<param>` declares this name and this value.
pub open spec fn declares_param(tree: XmlTree, n: int, param: (Seq<char>, Seq<char>)) -> bool {
    &&& tree.attribute(n, "name"@) == Some(param.0)
    &&& tree.attribute(n, "value"@) == Some(param.1)
}

pub open spec fn param_says(tree: XmlTree) -> spec_fn(int, (Seq<char>, Seq<char>)) -> bool {
    |n: int, param: (Seq<char>, Seq<char>)| declares_param(tree, n, param)
}

/// Whether an `<active>` names this pattern, which is among `known`.
pub open spec fn activates(
    tree: XmlTree,
    n: int,
    known: Set<Seq<char>>,
    pattern: Seq<char>,
) -> bool {
    tree.attribute(n, "pattern"@) == Some(pattern) && known.contains(pattern)
}

pub open spec fn active_says(tree: XmlTree, known: Set<Seq<char>>) -> spec_fn(
    int,
    Seq<char>,
) -> bool {
    |n: int, pattern: Seq<char>| activates(tree, n, known, pattern)
}

/// Whether node `n` has an element among its children.
pub open spec fn has_element_child(tree: XmlTree, n: int) -> bool {
    exists|m: int|
        0 <= m < tree.nodes.len() && (#[trigger] tree.nodes[m]).is_element
            && tree.nodes[m].parent is Some && tree.nodes[m].parent->0 == n
}

/// Whether a `<let>` declares this binding: a `value` attribute is an
/// expression, and element content without one is taken as text.
pub open spec fn declares_let(tree: XmlTree, n: int, binding: LetBindingView) -> bool {
    &&& tree.attribute(n, "name"@) == Some(binding.name)
    &&& match tree.attribute(n, "value"@) {
        Some(value) => binding.value == LetValueView::Expr(value),
        None => has_element_child(tree, n) && binding.value == LetValueView::Literal(
            tree.text_of(n, tree.children(n)),
        ),
    }
}

pub open spec fn let_says(tree: XmlTree) -> spec_fn(int, LetBindingView) -> bool {
    |n: int, binding: LetBindingView| declares_let(tree, n, binding)
}

/// Whether the `<let>` children of node `n` declare these bindings.
pub open spec fn declares_lets(tree: XmlTree, n: int, lets: Seq<LetBindingView>) -> bool {
    is_each(tagged(tree, tree.children(n), "let"@), let_says(tree), lets)
}

proof fn lemma_some_element(tree: XmlTree, nodes: Seq<int>)
    ensures
        tree.first_element(nodes) is Some <==> exists|i: int|
            0 <= i < nodes.len() && tree.nodes[#[trigger] nodes[i]].is_element,
    decreases nodes.len(),
{
    if nodes.len() > 0 {
        let rest = nodes.skip(1);
        lemma_some_element(tree, rest);
        if exists|i: int| 0 <= i < rest.len() && tree.nodes[#[trigger] rest[i]].is_element {
            let i = choose|i: int| 0 <= i < rest.len() && tree.nodes[#[trigger] rest[i]].is_element;
            assert(tree.nodes[nodes[i + 1]].is_element);
        }
        if exists|i: int| 0 <= i < nodes.len() && tree.nodes[#[trigger] nodes[i]].is_element {
            let i = choose|i: int|
                0 <= i < nodes.len() && tree.nodes[#[trigger] nodes[i]].is_element;
            if i > 0 {
                assert(tree.nodes[rest[i - 1]].is_element);
            }
        }
    }
}

proof fn lemma_element_child(tree: XmlTree, n: int)
    ensures
        tree.first_element(tree.children(n)) is Some <==> has_element_child(tree, n),
{
    let nodes = tree.children(n);
    lemma_some_element(tree, nodes);
    children_are_the_nodes_with_that_parent(tree, n);
    if has_element_child(tree, n) {
        let m = choose|m: int|
            0 <= m < tree.nodes.len() && (#[trigger] tree.nodes[m]).is_element
                && tree.nodes[m].parent is Some && tree.nodes[m].parent->0 == n;
        assert(nodes.contains(m));
        let i = choose|i: int| 0 <= i < nodes.len() && nodes[i] == m;
        assert(tree.nodes[nodes[i]].is_element);
    }
    if tree.first_element(nodes) is Some {
        let i = choose|i: int| 0 <= i < nodes.len() && tree.nodes[#[trigger] nodes[i]].is_element;
        assert(nodes.contains(nodes[i]));
    }
}

/// Whether a `<let>` declares a binding is what reading it says.
proof fn lemma_let(tree: XmlTree, n: int, binding: LetBindingView)
    ensures
        declares_let(tree, n, binding) <==> tree.let_of(n) == Ok::<LetBindingView, ParseErrorView>(
            binding,
        ),
{
    lemma_element_child(tree, n);
    if declares_let(tree, n, binding) {
        match tree.attribute(n, "value"@) {
            Some(value) => {
                assert(binding == LetBindingView {
                    name: binding.name,
                    value: LetValueView::Expr(value),
                });
            },
            None => {
                assert(binding == LetBindingView {
                    name: binding.name,
                    value: LetValueView::Literal(tree.text_of(n, tree.children(n))),
                });
            },
        }
    }
}

proof fn lemma_lets(tree: XmlTree, n: int, lets: Seq<LetBindingView>)
    ensures
        declares_lets(tree, n, lets) <==> tree.lets_of(n) == Ok::<
            Seq<LetBindingView>,
            ParseErrorView,
        >(lets),
{
    let read = tree.let_reader();
    let says = let_says(tree);
    assert forall|c: int, item: LetBindingView| #[trigger] says(c, item) <==> read(c) == Ok::<
        LetBindingView,
        ParseErrorView,
    >(item) by {
        lemma_let(tree, c, item);
    }
    lemma_collected(tree, tree.children(n), "let"@, read, says, lets);
}

/// Whether node `n` has the message `message`, with `params` substituted in
/// its expressions.
pub open spec fn has_message(
    tree: XmlTree,
    n: int,
    params: Seq<(Seq<char>, Seq<char>)>,
    message: Seq<MessagePartView>,
) -> bool {
    tree.message_of(n, tree.children(n), params) == Ok::<Seq<MessagePartView>, ParseErrorView>(
        message,
    )
}

/// Whether a `<diagnostic>` declares this diagnostic.
pub open spec fn declares_diagnostic(
    tree: XmlTree,
    n: int,
    diagnostic: DiagnosticView,
) -> bool {
    &&& tree.attribute(n, "id"@) == Some(diagnostic.id)
    &&& diagnostic.role == tree.attribute(n, "role"@)
    &&& has_message(tree, n, seq![], diagnostic.message)
}

pub open spec fn diagnostic_says(tree: XmlTree) -> spec_fn(int, DiagnosticView) -> bool {
    |n: int, diagnostic: DiagnosticView| declares_diagnostic(tree, n, diagnostic)
}

/// Whether a `<property>` declares this property.
pub open spec fn declares_property(tree: XmlTree, n: int, property: PropertyView) -> bool {
    &&& tree.attribute(n, "id"@) == Some(property.id)
    &&& property.role == tree.attribute(n, "role"@)
    &&& property.scheme == tree.attribute(n, "scheme"@)
    &&& has_message(tree, n, seq![], property.message)
}

pub open spec fn property_says(tree: XmlTree) -> spec_fn(int, PropertyView) -> bool {
    |n: int, property: PropertyView| declares_property(tree, n, property)
}

/// Whether every Schematron child of node `n` is one that `container` admits.
pub open spec fn admits_children(tree: XmlTree, n: int, container: Container) -> bool {
    forall|m: int|
        0 <= m < tree.nodes.len() && tree.nodes[m].parent is Some && tree.nodes[m].parent->0 == n
            && #[trigger] tree.is_schematron(m) ==> container.spec_admits(tree.nodes[m].name)
}

proof fn lemma_admits_children(tree: XmlTree, n: int, container: Container)
    ensures
        tree.known_children(n, container) is Ok <==> admits_children(tree, n, container),
{
    let nodes = tree.children(n);
    children_are_the_nodes_with_that_parent(tree, n);
    parsing_laws::children_are_admitted_or_refused(tree, n, container);
    if admits_children(tree, n, container) {
        assert forall|i: int| 0 <= i < nodes.len() && tree.is_schematron(#[trigger] nodes[i])
            implies container.spec_admits(tree.nodes[nodes[i]].name) by {
            assert(nodes.contains(nodes[i]));
        }
    }
    if tree.known_children(n, container) is Ok {
        assert forall|m: int|
            0 <= m < tree.nodes.len() && tree.nodes[m].parent is Some && tree.nodes[m].parent->0
                == n && #[trigger] tree.is_schematron(m) implies container.spec_admits(
            tree.nodes[m].name,
        ) by {
            assert(nodes.contains(m));
            let i = choose|i: int| 0 <= i < nodes.len() && nodes[i] == m;
            assert(tree.is_schematron(nodes[i]));
        }
    }
}

/// Whether the schema element with these children declares these diagnostics:
/// those of its first `<diagnostics>`.
pub open spec fn declares_diagnostics(
    tree: XmlTree,
    nodes: Seq<int>,
    diagnostics: Seq<DiagnosticView>,
) -> bool {
    let lists = tagged(tree, nodes, "diagnostics"@);
    if lists.len() == 0 {
        diagnostics.len() == 0
    } else {
        &&& admits_children(tree, lists[0], Container::Diagnostics)
        &&& is_each(
            tagged(tree, tree.children(lists[0]), "diagnostic"@),
            diagnostic_says(tree),
            diagnostics,
        )
    }
}

/// Whether the schema element with these children declares these properties:
/// those of its first `<properties>`.
pub open spec fn declares_properties(
    tree: XmlTree,
    nodes: Seq<int>,
    properties: Seq<PropertyView>,
) -> bool {
    let lists = tagged(tree, nodes, "properties"@);
    if lists.len() == 0 {
        properties.len() == 0
    } else {
        &&& admits_children(tree, lists[0], Container::Properties)
        &&& is_each(
            tagged(tree, tree.children(lists[0]), "property"@),
            property_says(tree),
            properties,
        )
    }
}

proof fn lemma_first_tagged(tree: XmlTree, nodes: Seq<int>, tag: Seq<char>)
    ensures
        tree.first_tagged(nodes, tag) == (if tagged(tree, nodes, tag).len() == 0 {
            None
        } else {
            Some(tagged(tree, nodes, tag)[0])
        }),
    decreases nodes.len(),
{
    if nodes.len() > 0 {
        lemma_tagged_front(tree, nodes, tag);
        lemma_first_tagged(tree, nodes.skip(1), tag);
    }
}

proof fn lemma_diagnostics(tree: XmlTree, nodes: Seq<int>, diagnostics: Seq<DiagnosticView>)
    ensures
        declares_diagnostics(tree, nodes, diagnostics) <==> tree.diagnostics_of(nodes) == Ok::<
            Seq<DiagnosticView>,
            ParseErrorView,
        >(diagnostics),
{
    let lists = tagged(tree, nodes, "diagnostics"@);
    lemma_first_tagged(tree, nodes, "diagnostics"@);
    if lists.len() == 0 {
        if diagnostics.len() == 0 {
            assert(diagnostics == Seq::<DiagnosticView>::empty());
        }
    } else {
        let read = tree.diagnostic_reader();
        let says = diagnostic_says(tree);
        assert forall|c: int, item: DiagnosticView| #[trigger] says(c, item) <==> read(c) == Ok::<
            DiagnosticView,
            ParseErrorView,
        >(item) by {
            if declares_diagnostic(tree, c, item) {
                assert(item == DiagnosticView {
                    id: item.id,
                    role: tree.attribute(c, "role"@),
                    message: item.message,
                });
            }
        }
        lemma_admits_children(tree, lists[0], Container::Diagnostics);
        lemma_collected(
            tree,
            tree.children(lists[0]),
            "diagnostic"@,
            read,
            says,
            diagnostics,
        );
    }
}

proof fn lemma_properties(tree: XmlTree, nodes: Seq<int>, properties: Seq<PropertyView>)
    ensures
        declares_properties(tree, nodes, properties) <==> tree.properties_of(nodes) == Ok::<
            Seq<PropertyView>,
            ParseErrorView,
        >(properties),
{
    let lists = tagged(tree, nodes, "properties"@);
    lemma_first_tagged(tree, nodes, "properties"@);
    if lists.len() == 0 {
        if properties.len() == 0 {
            assert(properties == Seq::<PropertyView>::empty());
        }
    } else {
        let read = tree.property_reader();
        let says = property_says(tree);
        assert forall|c: int, item: PropertyView| #[trigger] says(c, item) <==> read(c) == Ok::<
            PropertyView,
            ParseErrorView,
        >(item) by {
            if declares_property(tree, c, item) {
                assert(item == PropertyView {
                    id: item.id,
                    role: tree.attribute(c, "role"@),
                    scheme: tree.attribute(c, "scheme"@),
                    message: item.message,
                });
            }
        }
        lemma_admits_children(tree, lists[0], Container::Properties);
        lemma_collected(tree, tree.children(lists[0]), "property"@, read, says, properties);
    }
}

proof fn lemma_prefixes(tree: XmlTree, nodes: Seq<int>, ns: Seq<NamespaceBindingView>)
    ensures
        is_each(tagged(tree, nodes, "ns"@), ns_says(tree), ns) <==> tree.collect(
            nodes,
            "ns"@,
            tree.ns_reader(),
        ) == Ok::<Seq<NamespaceBindingView>, ParseErrorView>(ns),
{
    let read = tree.ns_reader();
    let says = ns_says(tree);
    assert forall|c: int, item: NamespaceBindingView| #[trigger]
        says(c, item) <==> read(c) == Ok::<NamespaceBindingView, ParseErrorView>(item) by {
        if declares_ns(tree, c, item) {
            assert(item == NamespaceBindingView { prefix: item.prefix, uri: item.uri });
        }
    }
    lemma_collected(tree, nodes, "ns"@, read, says, ns);
}

proof fn lemma_params(tree: XmlTree, nodes: Seq<int>, params: Seq<(Seq<char>, Seq<char>)>)
    ensures
        is_each(tagged(tree, nodes, "param"@), param_says(tree), params) <==> tree.collect(
            nodes,
            "param"@,
            tree.param_reader(),
        ) == Ok::<Seq<(Seq<char>, Seq<char>)>, ParseErrorView>(params),
{
    let read = tree.param_reader();
    let says = param_says(tree);
    assert forall|c: int, item: (Seq<char>, Seq<char>)| #[trigger]
        says(c, item) <==> read(c) == Ok::<(Seq<char>, Seq<char>), ParseErrorView>(item) by {
        if declares_param(tree, c, item) {
            assert(item == (item.0, item.1));
        }
    }
    lemma_collected(tree, nodes, "param"@, read, says, params);
}

proof fn lemma_active(
    tree: XmlTree,
    nodes: Seq<int>,
    known: Set<Seq<char>>,
    active: Seq<Seq<char>>,
)
    ensures
        is_each(tagged(tree, nodes, "active"@), active_says(tree, known), active)
            <==> tree.collect(nodes, "active"@, tree.active_reader(known)) == Ok::<
            Seq<Seq<char>>,
            ParseErrorView,
        >(active),
{
    let read = tree.active_reader(known);
    let says = active_says(tree, known);
    assert forall|c: int, item: Seq<char>| #[trigger] says(c, item) <==> read(c) == Ok::<
        Seq<char>,
        ParseErrorView,
    >(item) by {
        assert(read(c) == tree.active_of(c, known));
    }
    lemma_collected(tree, nodes, "active"@, read, says, active);
}

/// Whether a `<phase>` declares this phase, with patterns among `known`.
pub open spec fn declares_phase(
    tree: XmlTree,
    n: int,
    known: Set<Seq<char>>,
    phase: PhaseView,
) -> bool {
    &&& admits_children(tree, n, Container::Phase)
    &&& tree.attribute(n, "id"@) == Some(phase.id)
    &&& declares_lets(tree, n, phase.lets)
    &&& is_each(
        tagged(tree, tree.children(n), "active"@),
        active_says(tree, known),
        phase.active,
    )
}

pub open spec fn phase_says(tree: XmlTree, known: Set<Seq<char>>) -> spec_fn(
    int,
    PhaseView,
) -> bool {
    |n: int, phase: PhaseView| declares_phase(tree, n, known, phase)
}

proof fn lemma_phase(tree: XmlTree, n: int, known: Set<Seq<char>>, phase: PhaseView)
    ensures
        declares_phase(tree, n, known, phase) <==> tree.phase_of(n, known) == Ok::<
            PhaseView,
            ParseErrorView,
        >(phase),
{
    let nodes = tree.children(n);
    lemma_admits_children(tree, n, Container::Phase);
    lemma_lets(tree, n, phase.lets);
    lemma_active(tree, nodes, known, phase.active);
    if let Ok(lets) = tree.lets_of(n) {
        lemma_lets(tree, n, lets);
        if let Ok(active) = tree.collect(nodes, "active"@, tree.active_reader(known)) {
            lemma_active(tree, nodes, known, active);
            if declares_phase(tree, n, known, phase) {
                assert(phase == PhaseView { id: phase.id, lets, active });
            }
        }
    }
}

proof fn lemma_phases(
    tree: XmlTree,
    nodes: Seq<int>,
    known: Set<Seq<char>>,
    phases: Seq<PhaseView>,
)
    ensures
        is_each(tagged(tree, nodes, "phase"@), phase_says(tree, known), phases) <==> tree.collect(
            nodes,
            "phase"@,
            tree.phase_reader(known),
        ) == Ok::<Seq<PhaseView>, ParseErrorView>(phases),
{
    let read = tree.phase_reader(known);
    let says = phase_says(tree, known);
    assert forall|c: int, item: PhaseView| #[trigger] says(c, item) <==> read(c) == Ok::<
        PhaseView,
        ParseErrorView,
    >(item) by {
        lemma_phase(tree, c, known, item);
    }
    lemma_collected(tree, nodes, "phase"@, read, says, phases);
}

/// The identifiers that a `diagnostics` attribute of node `n` lists.
pub open spec fn listed_diagnostics(tree: XmlTree, n: int) -> Seq<Seq<char>> {
    match tree.attribute(n, "diagnostics"@) {
        Some(list) => text::words(list),
        None => seq![],
    }
}

/// Whether a check has the test that element `n` declares, with the
/// parameters substituted.
pub open spec fn has_test_of(
    tree: XmlTree,
    n: int,
    params: Seq<(Seq<char>, Seq<char>)>,
    check: CheckView,
) -> bool {
    match tree.attribute(n, "test"@) {
        Some(test) => check.test == grammar::substituted(test, params),
        None => false,
    }
}

/// Whether an `<assert>` or a `<report>` declares this check, which refers to
/// diagnostics among `known`.
pub open spec fn declares_check(
    tree: XmlTree,
    n: int,
    params: Seq<(Seq<char>, Seq<char>)>,
    known: Set<Seq<char>>,
    check: CheckView,
) -> bool {
    &&& check.kind == CheckKind::Assert ==> tree.has_tag(n, "assert"@)
    &&& check.kind == CheckKind::Report ==> tree.has_tag(n, "report"@)
    &&& has_test_of(tree, n, params, check)
    &&& check.id == tree.attribute(n, "id"@)
    &&& check.role == tree.attribute(n, "role"@)
    &&& has_message(tree, n, params, check.message)
    &&& check.diagnostics == listed_diagnostics(tree, n)
    &&& forall|i: int|
        0 <= i < check.diagnostics.len() ==> known.contains(#[trigger] check.diagnostics[i])
}

pub open spec fn check_says(
    tree: XmlTree,
    params: Seq<(Seq<char>, Seq<char>)>,
    known: Set<Seq<char>>,
) -> spec_fn(int, CheckView) -> bool {
    |n: int, check: CheckView| declares_check(tree, n, params, known, check)
}

proof fn lemma_none_outside(ids: Seq<Seq<char>>, known: Set<Seq<char>>)
    ensures
        grammar::first_outside(ids, known) is None <==> forall|i: int|
            0 <= i < ids.len() ==> known.contains(#[trigger] ids[i]),
    decreases ids.len(),
{
    if ids.len() > 0 {
        let rest = ids.skip(1);
        lemma_none_outside(rest, known);
        if forall|i: int| 0 <= i < ids.len() ==> known.contains(#[trigger] ids[i]) {
            assert forall|i: int| 0 <= i < rest.len() implies known.contains(
                #[trigger] rest[i],
            ) by {
                assert(rest[i] == ids[i + 1]);
            }
        }
        if known.contains(ids[0]) && forall|i: int|
            0 <= i < rest.len() ==> known.contains(#[trigger] rest[i]) {
            assert forall|i: int| 0 <= i < ids.len() implies known.contains(#[trigger] ids[i]) by {
                if i > 0 {
                    assert(rest[i - 1] == ids[i]);
                }
            }
        }
    }
}

proof fn lemma_tags_differ()
    ensures
        "assert"@ != "report"@,
        "assert"@ != "let"@,
        "report"@ != "let"@,
        "assert"@ != "extends"@,
        "report"@ != "extends"@,
        "let"@ != "extends"@,
{
    reveal_strlit("assert");
    reveal_strlit("report");
    reveal_strlit("let");
    reveal_strlit("extends");
    assert("assert"@[0] == 'a' && "report"@[0] == 'r' && "let"@[0] == 'l' && "extends"@[0] == 'e');
}

proof fn lemma_check(
    tree: XmlTree,
    n: int,
    params: Seq<(Seq<char>, Seq<char>)>,
    known: Set<Seq<char>>,
    kind: CheckKind,
    check: CheckView,
)
    requires
        tree.check_kind(n) == Some(kind),
    ensures
        declares_check(tree, n, params, known, check) <==> tree.check_of(kind, n, params, known)
            == Ok::<CheckView, ParseErrorView>(check),
{
    lemma_tags_differ();
    let ids = listed_diagnostics(tree, n);
    lemma_none_outside(ids, known);
    if declares_check(tree, n, params, known, check) {
        assert(check.kind == kind);
        assert(forall|i: int| 0 <= i < ids.len() ==> known.contains(#[trigger] ids[i]));
        assert(check == CheckView {
            kind,
            test: grammar::substituted(tree.attribute(n, "test"@)->0, params),
            id: tree.attribute(n, "id"@),
            role: tree.attribute(n, "role"@),
            message: check.message,
            diagnostics: ids,
        });
    }
}

/// Those of `nodes` that are checks, in order.
pub open spec fn checks_among(tree: XmlTree, nodes: Seq<int>) -> Seq<int>
    decreases nodes.len(),
{
    if nodes.len() == 0 {
        seq![]
    } else {
        let before = checks_among(tree, nodes.drop_last());
        if tree.has_tag(nodes.last(), "assert"@) || tree.has_tag(nodes.last(), "report"@) {
            before.push(nodes.last())
        } else {
            before
        }
    }
}

/// The checks and bindings that the children `nodes` of a rule contribute to
/// it, in order: the children themselves, and in place of an `<extends>` those
/// of the rule it names, unless that one is being extended already. `None`
/// where an `<extends>` names no rule, or leads back.
pub open spec fn contributors(
    tree: XmlTree,
    nodes: Seq<int>,
    rules: Seq<(Seq<char>, int)>,
    visiting: Seq<Seq<char>>,
) -> Option<Seq<int>>
    decreases grammar::unvisited(rules, visiting), nodes.len(),
{
    if nodes.len() == 0 {
        Some(seq![])
    } else {
        match (
            contributors_of(tree, nodes[0], rules, visiting),
            contributors(tree, nodes.skip(1), rules, visiting),
        ) {
            (Some(first), Some(rest)) => Some(first + rest),
            _ => None,
        }
    }
}

/// What one child of a rule contributes to it.
pub open spec fn contributors_of(
    tree: XmlTree,
    child: int,
    rules: Seq<(Seq<char>, int)>,
    visiting: Seq<Seq<char>>,
) -> Option<Seq<int>>
    decreases grammar::unvisited(rules, visiting), 0nat,
{
    if tree.has_tag(child, "extends"@) {
        match tree.attribute(child, "rule"@) {
            None => None,
            Some(id) => match grammar::entry_named(rules, id) {
                None => None,
                Some(target) => if visiting.contains(id) {
                    None
                } else {
                    proof {
                        grammar::lemma_unvisited_decreases(rules, visiting, id);
                    }
                    contributors(tree, tree.children(target), rules, visiting.push(id))
                },
            },
        }
    } else if tree.has_tag(child, "assert"@) || tree.has_tag(child, "report"@) || tree.has_tag(
        child,
        "let"@,
    ) {
        Some(seq![child])
    } else {
        Some(seq![])
    }
}

/// Whether the elements `list` declare these checks and these bindings.
pub open spec fn declares_content(
    tree: XmlTree,
    list: Seq<int>,
    params: Seq<(Seq<char>, Seq<char>)>,
    known: Set<Seq<char>>,
    checks: Seq<CheckView>,
    lets: Seq<LetBindingView>,
) -> bool {
    &&& is_each(checks_among(tree, list), check_says(tree, params, known), checks)
    &&& is_each(tagged(tree, list, "let"@), let_says(tree), lets)
}

proof fn lemma_tagged_both(tree: XmlTree, first: Seq<int>, second: Seq<int>, tag: Seq<char>)
    ensures
        tagged(tree, first + second, tag) == tagged(tree, first, tag) + tagged(tree, second, tag),
    decreases second.len(),
{
    if second.len() == 0 {
        assert(first + second == first);
        assert(tagged(tree, first, tag) + Seq::<int>::empty() == tagged(tree, first, tag));
    } else {
        assert((first + second).drop_last() == first + second.drop_last());
        assert((first + second).last() == second.last());
        lemma_tagged_both(tree, first, second.drop_last(), tag);
        let a = tagged(tree, first, tag);
        let b = tagged(tree, second.drop_last(), tag);
        assert((a + b).push(second.last()) == a + b.push(second.last()));
    }
}

proof fn lemma_checks_both(tree: XmlTree, first: Seq<int>, second: Seq<int>)
    ensures
        checks_among(tree, first + second) == checks_among(tree, first) + checks_among(
            tree,
            second,
        ),
    decreases second.len(),
{
    if second.len() == 0 {
        assert(first + second == first);
        assert(checks_among(tree, first) + Seq::<int>::empty() == checks_among(tree, first));
    } else {
        assert((first + second).drop_last() == first + second.drop_last());
        assert((first + second).last() == second.last());
        lemma_checks_both(tree, first, second.drop_last());
        let a = checks_among(tree, first);
        let b = checks_among(tree, second.drop_last());
        assert((a + b).push(second.last()) == a + b.push(second.last()));
    }
}

proof fn lemma_is_each_both<T>(
    first: Seq<int>,
    second: Seq<int>,
    says: spec_fn(int, T) -> bool,
    items: Seq<T>,
    more: Seq<T>,
)
    requires
        is_each(first, says, items),
        is_each(second, says, more),
    ensures
        is_each(first + second, says, items + more),
{
    let all = items + more;
    assert forall|i: int| 0 <= i < all.len() implies says(
        (first + second)[i],
        #[trigger] all[i],
    ) by {
        if i < items.len() {
            assert(all[i] == items[i]);
        } else {
            assert(all[i] == more[i - items.len()]);
        }
    }
}

proof fn lemma_is_each_parts<T>(
    first: Seq<int>,
    second: Seq<int>,
    says: spec_fn(int, T) -> bool,
    all: Seq<T>,
)
    requires
        is_each(first + second, says, all),
    ensures
        is_each(first, says, all.take(first.len() as int)),
        is_each(second, says, all.skip(first.len() as int)),
        all == all.take(first.len() as int) + all.skip(first.len() as int),
{
    let k = first.len() as int;
    assert forall|i: int| 0 <= i < all.take(k).len() implies says(
        first[i],
        #[trigger] all.take(k)[i],
    ) by {
        assert(all.take(k)[i] == all[i]);
        assert((first + second)[i] == first[i]);
    }
    assert forall|i: int| 0 <= i < all.skip(k).len() implies says(
        second[i],
        #[trigger] all.skip(k)[i],
    ) by {
        assert(all.skip(k)[i] == all[i + k]);
        assert((first + second)[i + k] == second[i]);
    }
    assert(all == all.take(k) + all.skip(k));
}

/// A single check or binding declares itself.
proof fn lemma_single_content(
    tree: XmlTree,
    child: int,
    rules: Seq<(Seq<char>, int)>,
    params: Seq<(Seq<char>, Seq<char>)>,
    visiting: Seq<Seq<char>>,
    known: Set<Seq<char>>,
    content: RuleContent,
)
    requires
        !tree.has_tag(child, "extends"@),
    ensures
        tree.rule_content_of_child(child, rules, params, visiting, known) == Ok::<
            RuleContent,
            ParseErrorView,
        >(content) <==> declares_content(
            tree,
            contributors_of(tree, child, rules, visiting)->0,
            params,
            known,
            content.checks,
            content.lets,
        ),
{
    lemma_tags_differ();
    let list = contributors_of(tree, child, rules, visiting)->0;
    let none: Seq<int> = seq![];
    assert(checks_among(tree, none) == none && tagged(tree, none, "let"@) == none);
    if list.len() > 0 {
        assert(list == seq![child]);
        assert(list.drop_last() == none);
        assert(list.last() == child);
        assert(none.push(child) == seq![child]);
    }
    let checks = checks_among(tree, list);
    let lets = tagged(tree, list, "let"@);
    if let Some(kind) = tree.check_kind(child) {
        assert(checks == seq![child] && lets == none);
        if content.checks.len() == 1 && content.lets.len() == 0 {
            lemma_check(tree, child, params, known, kind, content.checks[0]);
            assert(content.checks == seq![content.checks[0]]);
            assert(content.lets == Seq::<LetBindingView>::empty());
            assert(content == RuleContent {
                checks: seq![content.checks[0]],
                lets: seq![],
            });
        }
        if let Ok(check) = tree.check_of(kind, child, params, known) {
            lemma_check(tree, child, params, known, kind, check);
        }
    } else if tree.has_tag(child, "let"@) {
        assert(checks == none && lets == seq![child]);
        if content.lets.len() == 1 && content.checks.len() == 0 {
            lemma_let(tree, child, content.lets[0]);
            assert(content.lets == seq![content.lets[0]]);
            assert(content.checks == Seq::<CheckView>::empty());
            assert(content == RuleContent { checks: seq![], lets: seq![content.lets[0]] });
        }
        if let Ok(binding) = tree.let_of(child) {
            lemma_let(tree, child, binding);
        }
    } else {
        assert(checks == none && lets == none);
        if content.lets.len() == 0 && content.checks.len() == 0 {
            assert(content == RuleContent { checks: seq![], lets: seq![] });
        }
    }
}

/// The content of a rule is what its contributors declare.
proof fn lemma_content(
    tree: XmlTree,
    nodes: Seq<int>,
    rules: Seq<(Seq<char>, int)>,
    params: Seq<(Seq<char>, Seq<char>)>,
    visiting: Seq<Seq<char>>,
    known: Set<Seq<char>>,
    content: RuleContent,
)
    ensures
        tree.rule_content(nodes, rules, params, visiting, known) == Ok::<
            RuleContent,
            ParseErrorView,
        >(content) <==> contributors(tree, nodes, rules, visiting) is Some && declares_content(
            tree,
            contributors(tree, nodes, rules, visiting)->0,
            params,
            known,
            content.checks,
            content.lets,
        ),
    decreases grammar::unvisited(rules, visiting), nodes.len(),
{
    if nodes.len() == 0 {
        let none: Seq<int> = seq![];
        assert(checks_among(tree, none) == none && tagged(tree, none, "let"@) == none);
        if content.lets.len() == 0 && content.checks.len() == 0 {
            assert(content == RuleContent { checks: seq![], lets: seq![] });
        }
    } else {
        let rest = nodes.skip(1);
        let own_list = contributors_of(tree, nodes[0], rules, visiting);
        let more_list = contributors(tree, rest, rules, visiting);
        if tree.rule_content(nodes, rules, params, visiting, known) == Ok::<
            RuleContent,
            ParseErrorView,
        >(content) {
            let own = tree.rule_content_of_child(nodes[0], rules, params, visiting, known)->Ok_0;
            let more = tree.rule_content(rest, rules, params, visiting, known)->Ok_0;
            lemma_child_content(tree, nodes[0], rules, params, visiting, known, own);
            lemma_content(tree, rest, rules, params, visiting, known, more);
            lemma_content_both(tree, own_list->0, more_list->0, params, known, own, more);
        }
        if own_list is Some && more_list is Some && declares_content(
            tree,
            own_list->0 + more_list->0,
            params,
            known,
            content.checks,
            content.lets,
        ) {
            let parts = lemma_content_parts(
                tree,
                own_list->0,
                more_list->0,
                params,
                known,
                content,
            );
            lemma_child_content(tree, nodes[0], rules, params, visiting, known, parts.0);
            lemma_content(tree, rest, rules, params, visiting, known, parts.1);
        }
    }
}

proof fn lemma_content_both(
    tree: XmlTree,
    first: Seq<int>,
    second: Seq<int>,
    params: Seq<(Seq<char>, Seq<char>)>,
    known: Set<Seq<char>>,
    own: RuleContent,
    more: RuleContent,
)
    requires
        declares_content(tree, first, params, known, own.checks, own.lets),
        declares_content(tree, second, params, known, more.checks, more.lets),
    ensures
        declares_content(
            tree,
            first + second,
            params,
            known,
            own.checks + more.checks,
            own.lets + more.lets,
        ),
{
    lemma_checks_both(tree, first, second);
    lemma_tagged_both(tree, first, second, "let"@);
    lemma_is_each_both(
        checks_among(tree, first),
        checks_among(tree, second),
        check_says(tree, params, known),
        own.checks,
        more.checks,
    );
    lemma_is_each_both(
        tagged(tree, first, "let"@),
        tagged(tree, second, "let"@),
        let_says(tree),
        own.lets,
        more.lets,
    );
}

proof fn lemma_content_parts(
    tree: XmlTree,
    first: Seq<int>,
    second: Seq<int>,
    params: Seq<(Seq<char>, Seq<char>)>,
    known: Set<Seq<char>>,
    content: RuleContent,
) -> (parts: (RuleContent, RuleContent))
    requires
        declares_content(tree, first + second, params, known, content.checks, content.lets),
    ensures
        declares_content(tree, first, params, known, parts.0.checks, parts.0.lets),
        declares_content(tree, second, params, known, parts.1.checks, parts.1.lets),
        parts.0.followed_by(Ok(parts.1)) == Ok::<RuleContent, ParseErrorView>(content),
{
    lemma_checks_both(tree, first, second);
    lemma_tagged_both(tree, first, second, "let"@);
    let c = checks_among(tree, first).len() as int;
    let l = tagged(tree, first, "let"@).len() as int;
    lemma_is_each_parts(
        checks_among(tree, first),
        checks_among(tree, second),
        check_says(tree, params, known),
        content.checks,
    );
    lemma_is_each_parts(
        tagged(tree, first, "let"@),
        tagged(tree, second, "let"@),
        let_says(tree),
        content.lets,
    );
    let own = RuleContent { checks: content.checks.take(c), lets: content.lets.take(l) };
    let more = RuleContent { checks: content.checks.skip(c), lets: content.lets.skip(l) };
    assert(content == RuleContent {
        checks: own.checks + more.checks,
        lets: own.lets + more.lets,
    });
    (own, more)
}

proof fn lemma_child_content(
    tree: XmlTree,
    child: int,
    rules: Seq<(Seq<char>, int)>,
    params: Seq<(Seq<char>, Seq<char>)>,
    visiting: Seq<Seq<char>>,
    known: Set<Seq<char>>,
    content: RuleContent,
)
    ensures
        tree.rule_content_of_child(child, rules, params, visiting, known) == Ok::<
            RuleContent,
            ParseErrorView,
        >(content) <==> contributors_of(tree, child, rules, visiting) is Some && declares_content(
            tree,
            contributors_of(tree, child, rules, visiting)->0,
            params,
            known,
            content.checks,
            content.lets,
        ),
    decreases grammar::unvisited(rules, visiting), 0nat,
{
    if tree.has_tag(child, "extends"@) {
        lemma_tags_differ();
        if let Some(id) = tree.attribute(child, "rule"@) {
            if let Some(target) = grammar::entry_named(rules, id) {
                if !visiting.contains(id) {
                    grammar::lemma_unvisited_decreases(rules, visiting, id);
                    lemma_content(
                        tree,
                        tree.children(target),
                        rules,
                        params,
                        visiting.push(id),
                        known,
                        content,
                    );
                }
            }
        }
    } else {
        lemma_single_content(tree, child, rules, params, visiting, known, content);
    }
}

/// The rules that are being extended from the start: the rule itself, where it
/// has an identifier.
pub open spec fn own_identifier(tree: XmlTree, n: int) -> Seq<Seq<char>> {
    match tree.attribute(n, "id"@) {
        Some(id) => seq![id],
        None => seq![],
    }
}

/// Whether a `<rule>` declares this rule, where `rules` are those that it can
/// extend.
pub open spec fn declares_rule(
    tree: XmlTree,
    n: int,
    rules: Seq<(Seq<char>, int)>,
    params: Seq<(Seq<char>, Seq<char>)>,
    known: Set<Seq<char>>,
    rule: RuleView,
) -> bool {
    let list = contributors(tree, tree.children(n), rules, own_identifier(tree, n));
    &&& admits_children(tree, n, Container::Rule)
    &&& parsing_laws::has_context_of(tree, n, params, rule)
    &&& list is Some
    &&& declares_content(tree, list->0, params, known, rule.checks, rule.lets)
}

pub open spec fn rule_says(
    tree: XmlTree,
    rules: Seq<(Seq<char>, int)>,
    params: Seq<(Seq<char>, Seq<char>)>,
    known: Set<Seq<char>>,
) -> spec_fn(int, RuleView) -> bool {
    |n: int, rule: RuleView| declares_rule(tree, n, rules, params, known, rule)
}

proof fn lemma_rule(
    tree: XmlTree,
    n: int,
    rules: Seq<(Seq<char>, int)>,
    params: Seq<(Seq<char>, Seq<char>)>,
    known: Set<Seq<char>>,
    rule: RuleView,
)
    ensures
        declares_rule(tree, n, rules, params, known, rule) <==> tree.rule_of(
            n,
            rules,
            params,
            known,
        ) == Ok::<RuleView, ParseErrorView>(rule),
{
    let visiting = own_identifier(tree, n);
    let nodes = tree.children(n);
    let content = RuleContent { checks: rule.checks, lets: rule.lets };
    lemma_admits_children(tree, n, Container::Rule);
    lemma_content(tree, nodes, rules, params, visiting, known, content);
    if declares_rule(tree, n, rules, params, known, rule) {
        assert(rule == RuleView {
            context: grammar::substituted(tree.attribute(n, "context"@)->0, params),
            lets: content.lets,
            checks: content.checks,
        });
    }
    if tree.rule_of(n, rules, params, known) == Ok::<RuleView, ParseErrorView>(rule) {
        let own = tree.rule_content(nodes, rules, params, visiting, known)->Ok_0;
        assert(own == content);
    }
}

proof fn lemma_rules(
    tree: XmlTree,
    nodes: Seq<int>,
    rules: Seq<(Seq<char>, int)>,
    params: Seq<(Seq<char>, Seq<char>)>,
    known: Set<Seq<char>>,
    list: Seq<RuleView>,
)
    ensures
        tree.rules_of(nodes, rules, params, known) == Ok::<Seq<RuleView>, ParseErrorView>(list)
            <==> is_each(
            parsing_laws::concrete(tree, nodes, "rule"@),
            rule_says(tree, rules, params, known),
            list,
        ),
    decreases nodes.len(),
{
    let says = rule_says(tree, rules, params, known);
    if nodes.len() == 0 {
        if list.len() == 0 {
            assert(list == Seq::<RuleView>::empty());
        }
    } else {
        let rest = nodes.skip(1);
        if !tree.has_tag(nodes[0], "rule"@) || tree.is_abstract(nodes[0]) {
            lemma_rules(tree, rest, rules, params, known, list);
        } else {
            let others = parsing_laws::concrete(tree, rest, "rule"@);
            lemma_is_each_front(nodes[0], others, says, list);
            lemma_rules(tree, rest, rules, params, known, list.skip(1));
            if list.len() > 0 {
                lemma_rule(tree, nodes[0], rules, params, known, list[0]);
                assert(seq![list[0]] + list.skip(1) == list);
            }
            if let Ok(own) = tree.rule_of(nodes[0], rules, params, known) {
                if let Ok(more) = tree.rules_of(rest, rules, params, known) {
                    assert((seq![own] + more).skip(1) == more);
                    assert((seq![own] + more)[0] == own);
                }
            }
        }
    }
}

/// Whether item `k` of `list` is the last one with the identifier `id`.
pub open spec fn is_last_named_at(tree: XmlTree, list: Seq<int>, id: Seq<char>, k: int) -> bool {
    &&& 0 <= k < list.len()
    &&& tree.attribute(list[k], "id"@) == Some(id)
    &&& forall|j: int|
        k < j < list.len() ==> tree.attribute(#[trigger] list[j], "id"@) != Some(id)
}

/// Whether node `n` is the last of `list` with the identifier `id`.
pub open spec fn is_last_named(tree: XmlTree, list: Seq<int>, id: Seq<char>, n: int) -> bool {
    exists|k: int| #[trigger] is_last_named_at(tree, list, id, k) && list[k] == n
}

/// Whether the last item has the identifier, or else one before it.
proof fn lemma_last_named(tree: XmlTree, list: Seq<int>, id: Seq<char>, n: int)
    requires
        list.len() > 0,
    ensures
        tree.attribute(list.last(), "id"@) == Some(id) ==> (is_last_named(tree, list, id, n) <==> n
            == list.last()),
        tree.attribute(list.last(), "id"@) != Some(id) ==> (is_last_named(tree, list, id, n)
            <==> is_last_named(tree, list.drop_last(), id, n)),
{
    let before = list.drop_last();
    let end = list.len() - 1;
    assert(list[end] == list.last());
    if tree.attribute(list.last(), "id"@) == Some(id) {
        assert(is_last_named_at(tree, list, id, end));
        if is_last_named(tree, list, id, n) {
            let k = choose|k: int| #[trigger] is_last_named_at(tree, list, id, k) && list[k] == n;
            if k < end {
                assert(tree.attribute(list[end], "id"@) != Some(id));
            }
        }
    } else {
        if is_last_named(tree, list, id, n) {
            let k = choose|k: int| #[trigger] is_last_named_at(tree, list, id, k) && list[k] == n;
            assert(before[k] == list[k]);
            assert forall|j: int| k < j < before.len() implies tree.attribute(
                #[trigger] before[j],
                "id"@,
            ) != Some(id) by {
                assert(before[j] == list[j]);
            }
            assert(is_last_named_at(tree, before, id, k));
        }
        if is_last_named(tree, before, id, n) {
            let k = choose|k: int| #[trigger]
                is_last_named_at(tree, before, id, k) && before[k] == n;
            assert(before[k] == list[k]);
            assert forall|j: int| k < j < list.len() implies tree.attribute(
                #[trigger] list[j],
                "id"@,
            ) != Some(id) by {
                if j < end {
                    assert(before[j] == list[j]);
                }
            }
            assert(is_last_named_at(tree, list, id, k));
        }
    }
}

/// The rule that an `<extends>` names is the last rule of the same pattern
/// with that identifier, abstract or not.
pub proof fn an_extended_rule_is_one_of_its_pattern(
    tree: XmlTree,
    nodes: Seq<int>,
    id: Seq<char>,
    n: int,
)
    ensures
        grammar::entry_named(tree.named_rules(nodes), id) == Some(n) <==> is_last_named(
            tree,
            tagged(tree, nodes, "rule"@),
            id,
            n,
        ),
    decreases nodes.len(),
{
    if nodes.len() == 0 {
        assert(tagged(tree, nodes, "rule"@).len() == 0);
        assert(tree.named_rules(nodes).len() == 0);
        assert(!is_last_named(tree, tagged(tree, nodes, "rule"@), id, n));
    } else {
        let rest = nodes.drop_last();
        an_extended_rule_is_one_of_its_pattern(tree, rest, id, n);
        if tree.has_tag(nodes.last(), "rule"@) {
            let list = tagged(tree, nodes, "rule"@);
            assert(list.drop_last() == tagged(tree, rest, "rule"@));
            lemma_last_named(tree, list, id, n);
            if let Some(own) = tree.attribute(nodes.last(), "id"@) {
                let entries = tree.named_rules(nodes);
                assert(entries.drop_last() == tree.named_rules(rest));
            }
        }
    }
}

/// Those of `nodes` that declare abstract patterns, in order.
pub open spec fn abstract_patterns(tree: XmlTree, nodes: Seq<int>) -> Seq<int>
    decreases nodes.len(),
{
    if nodes.len() == 0 {
        seq![]
    } else if tree.has_tag(nodes[0], "pattern"@) && tree.attribute(nodes[0], "abstract"@) == Some(
        "true"@,
    ) {
        seq![nodes[0]] + abstract_patterns(tree, nodes.skip(1))
    } else {
        abstract_patterns(tree, nodes.skip(1))
    }
}

/// Whether every one of `list` has an identifier.
pub open spec fn all_named(tree: XmlTree, list: Seq<int>) -> bool {
    forall|i: int| 0 <= i < list.len() ==> tree.attribute(#[trigger] list[i], "id"@) is Some
}

/// Whether `entries` are `list` with their identifiers.
spec fn are_entries(tree: XmlTree, list: Seq<int>, entries: Seq<(Seq<char>, int)>) -> bool {
    &&& entries.len() == list.len()
    &&& forall|i: int|
        0 <= i < list.len() ==> (#[trigger] entries[i]).1 == list[i] && tree.attribute(
            list[i],
            "id"@,
        ) == Some(entries[i].0)
}

proof fn lemma_templates(tree: XmlTree, nodes: Seq<int>)
    ensures
        tree.templates_of(nodes) is Ok <==> all_named(tree, abstract_patterns(tree, nodes)),
        tree.templates_of(nodes) matches Ok(entries) ==> are_entries(
            tree,
            abstract_patterns(tree, nodes),
            entries,
        ),
    decreases nodes.len(),
{
    if nodes.len() > 0 {
        let rest = nodes.skip(1);
        lemma_templates(tree, rest);
        let list = abstract_patterns(tree, nodes);
        let others = abstract_patterns(tree, rest);
        if tree.has_tag(nodes[0], "pattern"@) && tree.is_abstract(nodes[0]) {
            assert(list[0] == nodes[0]);
            if all_named(tree, list) {
                assert(tree.attribute(list[0], "id"@) is Some);
                assert forall|i: int| 0 <= i < others.len() implies tree.attribute(
                    #[trigger] others[i],
                    "id"@,
                ) is Some by {
                    assert(list[i + 1] == others[i]);
                }
            }
            if tree.attribute(nodes[0], "id"@) is Some && all_named(tree, others) {
                assert forall|i: int| 0 <= i < list.len() implies tree.attribute(
                    #[trigger] list[i],
                    "id"@,
                ) is Some by {
                    if i > 0 {
                        assert(list[i] == others[i - 1]);
                    }
                }
            }
            if let Ok(entries) = tree.templates_of(nodes) {
                let more = tree.templates_of(rest)->Ok_0;
                assert forall|i: int| 0 <= i < list.len() implies (#[trigger] entries[i]).1
                    == list[i] && tree.attribute(list[i], "id"@) == Some(entries[i].0) by {
                    if i > 0 {
                        assert(entries[i] == more[i - 1]);
                        assert(list[i] == others[i - 1]);
                    }
                }
            }
        }
    }
}

proof fn lemma_entries(
    tree: XmlTree,
    list: Seq<int>,
    entries: Seq<(Seq<char>, int)>,
    id: Seq<char>,
    n: int,
)
    requires
        are_entries(tree, list, entries),
    ensures
        grammar::entry_named(entries, id) == Some(n) <==> is_last_named(tree, list, id, n),
    decreases list.len(),
{
    if list.len() == 0 {
        assert(!is_last_named(tree, list, id, n));
    } else {
        let before = list.drop_last();
        let fewer = entries.drop_last();
        assert forall|i: int| 0 <= i < before.len() implies (#[trigger] fewer[i]).1 == before[i]
            && tree.attribute(before[i], "id"@) == Some(fewer[i].0) by {
            assert(fewer[i] == entries[i] && before[i] == list[i]);
        }
        lemma_entries(tree, before, fewer, id, n);
        lemma_last_named(tree, list, id, n);
        let end = list.len() - 1;
        assert(entries[end].1 == list[end] && entries[end] == entries.last() && list[end]
            == list.last());
    }
}

/// Whether the content of the pattern element `n` declares this pattern, with
/// these parameters.
pub open spec fn declares_pattern_content(
    tree: XmlTree,
    n: int,
    params: Seq<(Seq<char>, Seq<char>)>,
    known: Set<Seq<char>>,
    pattern: PatternView,
) -> bool {
    let nodes = tree.children(n);
    &&& admits_children(tree, n, Container::Pattern)
    &&& declares_lets(tree, n, pattern.lets)
    &&& is_each(
        parsing_laws::concrete(tree, nodes, "rule"@),
        rule_says(tree, tree.named_rules(nodes), params, known),
        pattern.rules,
    )
}

/// Whether the children of the element `n`, which uses an abstract pattern,
/// declare these parameters.
pub open spec fn declares_params(
    tree: XmlTree,
    n: int,
    params: Seq<(Seq<char>, Seq<char>)>,
) -> bool {
    is_each(tagged(tree, tree.children(n), "param"@), param_says(tree), params)
}

/// Whether element `n` takes the content of its pattern from element `source`
/// with the parameters `params`: from itself and without any, or from the
/// abstract pattern that it names, which is one of `templates`.
pub open spec fn draws_on(
    tree: XmlTree,
    n: int,
    templates: Seq<int>,
    source: int,
    params: Seq<(Seq<char>, Seq<char>)>,
) -> bool {
    match tree.attribute(n, "is-a"@) {
        None => source == n && params.len() == 0,
        Some(name) => {
            &&& admits_children(tree, n, Container::PatternUse)
            &&& is_last_named(tree, templates, name, source)
            &&& declares_params(tree, n, params)
        },
    }
}

/// Whether a concrete `<pattern>` declares this pattern.
pub open spec fn declares_pattern(
    tree: XmlTree,
    n: int,
    templates: Seq<int>,
    known: Set<Seq<char>>,
    pattern: PatternView,
) -> bool {
    &&& pattern.id == tree.attribute(n, "id"@)
    &&& exists|source: int, params: Seq<(Seq<char>, Seq<char>)>| #[trigger]
        draws_on(tree, n, templates, source, params) && declares_pattern_content(
            tree,
            source,
            params,
            known,
            pattern,
        )
}

pub open spec fn pattern_says(
    tree: XmlTree,
    templates: Seq<int>,
    known: Set<Seq<char>>,
) -> spec_fn(int, PatternView) -> bool {
    |n: int, pattern: PatternView| declares_pattern(tree, n, templates, known, pattern)
}

proof fn lemma_pattern_content(
    tree: XmlTree,
    n: int,
    id: Option<Seq<char>>,
    params: Seq<(Seq<char>, Seq<char>)>,
    known: Set<Seq<char>>,
    pattern: PatternView,
)
    ensures
        tree.pattern_of(n, id, params, known) == Ok::<PatternView, ParseErrorView>(pattern)
            <==> pattern.id == id && declares_pattern_content(tree, n, params, known, pattern),
{
    let nodes = tree.children(n);
    let rules = tree.named_rules(nodes);
    lemma_admits_children(tree, n, Container::Pattern);
    lemma_lets(tree, n, pattern.lets);
    lemma_rules(tree, nodes, rules, params, known, pattern.rules);
    if pattern.id == id && declares_pattern_content(tree, n, params, known, pattern) {
        assert(pattern == PatternView { id, lets: pattern.lets, rules: pattern.rules });
    }
}

proof fn lemma_pattern(
    tree: XmlTree,
    n: int,
    list: Seq<int>,
    templates: Seq<(Seq<char>, int)>,
    known: Set<Seq<char>>,
    pattern: PatternView,
)
    requires
        are_entries(tree, list, templates),
    ensures
        tree.pattern_at(n, templates, known) == Ok::<PatternView, ParseErrorView>(pattern)
            <==> declares_pattern(tree, n, list, known, pattern),
{
    let id = tree.attribute(n, "id"@);
    let none: Seq<(Seq<char>, Seq<char>)> = seq![];
    match tree.attribute(n, "is-a"@) {
        None => {
            lemma_pattern_content(tree, n, id, none, known, pattern);
            assert(draws_on(tree, n, list, n, none));
            if declares_pattern(tree, n, list, known, pattern) {
                let (source, params) = choose|source: int, params: Seq<(Seq<char>, Seq<char>)>|
                    #[trigger]
                    draws_on(tree, n, list, source, params) && declares_pattern_content(
                        tree,
                        source,
                        params,
                        known,
                        pattern,
                    );
                assert(params == none);
            }
        },
        Some(name) => {
            let nodes = tree.children(n);
            lemma_admits_children(tree, n, Container::PatternUse);
            if tree.pattern_at(n, templates, known) == Ok::<PatternView, ParseErrorView>(
                pattern,
            ) {
                let source = grammar::entry_named(templates, name)->0;
                let params = tree.collect(nodes, "param"@, tree.param_reader())->Ok_0;
                lemma_entries(tree, list, templates, name, source);
                lemma_params(tree, nodes, params);
                lemma_pattern_content(tree, source, id, params, known, pattern);
                assert(draws_on(tree, n, list, source, params));
            }
            if declares_pattern(tree, n, list, known, pattern) {
                let (source, params) = choose|source: int, params: Seq<(Seq<char>, Seq<char>)>|
                    #[trigger]
                    draws_on(tree, n, list, source, params) && declares_pattern_content(
                        tree,
                        source,
                        params,
                        known,
                        pattern,
                    );
                lemma_entries(tree, list, templates, name, source);
                lemma_params(tree, nodes, params);
                lemma_pattern_content(tree, source, id, params, known, pattern);
            }
        },
    }
}

proof fn lemma_patterns(
    tree: XmlTree,
    nodes: Seq<int>,
    list: Seq<int>,
    templates: Seq<(Seq<char>, int)>,
    known: Set<Seq<char>>,
    patterns: Seq<PatternView>,
)
    requires
        are_entries(tree, list, templates),
    ensures
        tree.patterns_of(nodes, templates, known) == Ok::<Seq<PatternView>, ParseErrorView>(
            patterns,
        ) <==> is_each(
            parsing_laws::concrete(tree, nodes, "pattern"@),
            pattern_says(tree, list, known),
            patterns,
        ),
    decreases nodes.len(),
{
    let says = pattern_says(tree, list, known);
    if nodes.len() == 0 {
        if patterns.len() == 0 {
            assert(patterns == Seq::<PatternView>::empty());
        }
    } else {
        let rest = nodes.skip(1);
        if !tree.has_tag(nodes[0], "pattern"@) || tree.is_abstract(nodes[0]) {
            lemma_patterns(tree, rest, list, templates, known, patterns);
        } else {
            let others = parsing_laws::concrete(tree, rest, "pattern"@);
            lemma_is_each_front(nodes[0], others, says, patterns);
            lemma_patterns(tree, rest, list, templates, known, patterns.skip(1));
            if patterns.len() > 0 {
                lemma_pattern(tree, nodes[0], list, templates, known, patterns[0]);
                assert(seq![patterns[0]] + patterns.skip(1) == patterns);
            }
            if let Ok(own) = tree.pattern_at(nodes[0], templates, known) {
                if let Ok(more) = tree.patterns_of(rest, templates, known) {
                    assert((seq![own] + more).skip(1) == more);
                    assert((seq![own] + more)[0] == own);
                }
            }
        }
    }
}

/// The identifiers that `diagnostics` have.
pub open spec fn identifiers_of_diagnostics(diagnostics: Seq<DiagnosticView>) -> Set<Seq<char>> {
    Set::new(
        |id: Seq<char>|
            exists|i: int| 0 <= i < diagnostics.len() && (#[trigger] diagnostics[i]).id == id,
    )
}

/// The identifiers that `patterns` have.
pub open spec fn identifiers_of_patterns(patterns: Seq<PatternView>) -> Set<Seq<char>> {
    Set::new(
        |id: Seq<char>|
            exists|i: int| 0 <= i < patterns.len() && (#[trigger] patterns[i]).id == Some(id),
    )
}

proof fn lemma_diagnostic_identifiers(diagnostics: Seq<DiagnosticView>)
    ensures
        grammar::diagnostic_ids(diagnostics) == identifiers_of_diagnostics(diagnostics),
    decreases diagnostics.len(),
{
    let all = grammar::diagnostic_ids(diagnostics);
    let set = identifiers_of_diagnostics(diagnostics);
    if diagnostics.len() > 0 {
        let before = diagnostics.drop_last();
        lemma_diagnostic_identifiers(before);
        assert forall|id: Seq<char>| all.contains(id) <==> set.contains(id) by {
            if identifiers_of_diagnostics(before).contains(id) {
                let i = choose|i: int| 0 <= i < before.len() && (#[trigger] before[i]).id == id;
                assert(diagnostics[i].id == id);
            }
            if set.contains(id) {
                let i = choose|i: int|
                    0 <= i < diagnostics.len() && (#[trigger] diagnostics[i]).id == id;
                if i < before.len() {
                    assert(before[i].id == id);
                }
            }
            if diagnostics.last().id == id {
                assert(diagnostics[diagnostics.len() - 1].id == id);
            }
        }
    }
    assert(all == set);
}

proof fn lemma_pattern_identifiers(patterns: Seq<PatternView>)
    ensures
        grammar::pattern_ids(patterns) == identifiers_of_patterns(patterns),
    decreases patterns.len(),
{
    let all = grammar::pattern_ids(patterns);
    let set = identifiers_of_patterns(patterns);
    if patterns.len() > 0 {
        let before = patterns.drop_last();
        lemma_pattern_identifiers(before);
        assert forall|id: Seq<char>| all.contains(id) <==> set.contains(id) by {
            if identifiers_of_patterns(before).contains(id) {
                let i = choose|i: int|
                    0 <= i < before.len() && (#[trigger] before[i]).id == Some(id);
                assert(patterns[i].id == Some(id));
            }
            if set.contains(id) {
                let i = choose|i: int|
                    0 <= i < patterns.len() && (#[trigger] patterns[i]).id == Some(id);
                if i < before.len() {
                    assert(before[i].id == Some(id));
                }
            }
            if patterns.last().id == Some(id) {
                assert(patterns[patterns.len() - 1].id == Some(id));
            }
        }
    }
    assert(all == set);
}

/// Whether the schema element `n` declares this query binding: none, or one
/// that stands for XPath 1.0.
pub open spec fn declares_binding(tree: XmlTree, n: int, binding: Option<Seq<char>>) -> bool {
    &&& binding == tree.attribute(n, "queryBinding"@)
    &&& binding is Some ==> text::same_ignoring_case("xslt"@, binding->0)
        || text::same_ignoring_case("xpath"@, binding->0)
}

/// Whether the root element `n` declares this schema.
pub open spec fn declares_schema(tree: XmlTree, n: int, schema: SchemaView) -> bool {
    let nodes = tree.children(n);
    let templates = abstract_patterns(tree, nodes);
    &&& tree.has_tag(n, "schema"@)
    &&& admits_children(tree, n, Container::Schema)
    &&& parsing_laws::identifiers_differ(tree, tree.descendants(n))
    &&& is_each(tagged(tree, nodes, "ns"@), ns_says(tree), schema.ns)
    &&& declares_lets(tree, n, schema.lets)
    &&& declares_binding(tree, n, schema.query_binding)
    &&& declares_diagnostics(tree, nodes, schema.diagnostics)
    &&& declares_properties(tree, nodes, schema.properties)
    &&& all_named(tree, templates)
    &&& is_each(
        parsing_laws::concrete(tree, nodes, "pattern"@),
        pattern_says(tree, templates, identifiers_of_diagnostics(schema.diagnostics)),
        schema.patterns,
    )
    &&& schema.patterns.len() > 0
    &&& is_each(
        tagged(tree, nodes, "phase"@),
        phase_says(tree, identifiers_of_patterns(schema.patterns)),
        schema.phases,
    )
    &&& schema.default_phase == tree.attribute(n, "defaultPhase"@)
    &&& forall|m: int| 0 <= m < tree.nodes.len() ==> !#[trigger] tree.is_misplaced(n, m)
}

proof fn lemma_body(
    tree: XmlTree,
    n: int,
    ns: Seq<NamespaceBindingView>,
    lets: Seq<LetBindingView>,
    query_binding: Option<Seq<char>>,
    schema: SchemaView,
)
    ensures
        tree.body_of(n, ns, lets, query_binding) == Ok::<SchemaView, ParseErrorView>(schema) <==> {
            let nodes = tree.children(n);
            let templates = abstract_patterns(tree, nodes);
            &&& schema.ns == ns
            &&& schema.lets == lets
            &&& schema.query_binding == query_binding
            &&& declares_diagnostics(tree, nodes, schema.diagnostics)
            &&& declares_properties(tree, nodes, schema.properties)
            &&& all_named(tree, templates)
            &&& is_each(
                parsing_laws::concrete(tree, nodes, "pattern"@),
                pattern_says(tree, templates, identifiers_of_diagnostics(schema.diagnostics)),
                schema.patterns,
            )
            &&& schema.patterns.len() > 0
            &&& is_each(
                tagged(tree, nodes, "phase"@),
                phase_says(tree, identifiers_of_patterns(schema.patterns)),
                schema.phases,
            )
            &&& schema.default_phase == tree.attribute(n, "defaultPhase"@)
        },
{
    let nodes = tree.children(n);
    let templates = abstract_patterns(tree, nodes);
    lemma_diagnostics(tree, nodes, schema.diagnostics);
    lemma_properties(tree, nodes, schema.properties);
    lemma_templates(tree, nodes);
    lemma_diagnostic_identifiers(schema.diagnostics);
    lemma_pattern_identifiers(schema.patterns);
    lemma_phases(tree, nodes, grammar::pattern_ids(schema.patterns), schema.phases);
    if let Ok(entries) = tree.templates_of(nodes) {
        lemma_patterns(
            tree,
            nodes,
            templates,
            entries,
            grammar::diagnostic_ids(schema.diagnostics),
            schema.patterns,
        );
    }
    if let Ok(diagnostics) = tree.diagnostics_of(nodes) {
        if diagnostics == schema.diagnostics {
            assert(schema.ns == ns && schema.lets == lets && schema.query_binding == query_binding
                && schema.default_phase == tree.attribute(n, "defaultPhase"@) ==> schema
                == SchemaView {
                ns,
                lets,
                default_phase: tree.attribute(n, "defaultPhase"@),
                phases: schema.phases,
                patterns: schema.patterns,
                diagnostics: schema.diagnostics,
                properties: schema.properties,
                query_binding,
            });
        }
    }
}

/// A document is accepted with a schema exactly where its root element
/// declares that schema: every part of the schema is what its element
/// declares, in document order, and nothing else is refused.
pub proof fn a_document_stands_for_the_schema_it_declares(tree: XmlTree, schema: SchemaView)
    ensures
        tree.schema() == Ok::<SchemaView, ParseErrorView>(schema) <==> declares_schema(
            tree,
            tree.root_element()->0,
            schema,
        ),
{
    let n = tree.root_element()->0;
    let nodes = tree.children(n);
    lemma_admits_children(tree, n, Container::Schema);
    parsing_laws::lemma_unique_ids(tree, tree.descendants(n), Set::empty());
    lemma_prefixes(tree, nodes, schema.ns);
    lemma_lets(tree, n, schema.lets);
    lemma_body(tree, n, schema.ns, schema.lets, schema.query_binding, schema);
    parsing_laws::lemma_first_misplaced(tree, n, 0);
    if let Ok(ns) = tree.collect(nodes, "ns"@, tree.ns_reader()) {
        if let Ok(lets) = tree.lets_of(n) {
            if let Ok(binding) = tree.query_binding_of(n) {
                lemma_body(tree, n, ns, lets, binding, schema);
            }
        }
    }
}

/// The checks of a rule, own and inherited, asserts and reports alike, have
/// the tests that their elements declare, with the parameters substituted.
pub proof fn checks_have_the_tests_they_declare(
    tree: XmlTree,
    nodes: Seq<int>,
    rules: Seq<(Seq<char>, int)>,
    params: Seq<(Seq<char>, Seq<char>)>,
    visiting: Seq<Seq<char>>,
    known: Set<Seq<char>>,
)
    ensures
        tree.rule_content(nodes, rules, params, visiting, known) matches Ok(content) ==> {
            let elements = checks_among(tree, contributors(tree, nodes, rules, visiting)->0);
            &&& contributors(tree, nodes, rules, visiting) is Some
            &&& content.checks.len() == elements.len()
            &&& forall|i: int|
                0 <= i < content.checks.len() ==> has_test_of(
                    tree,
                    elements[i],
                    params,
                    #[trigger] content.checks[i],
                )
        },
{
    if let Ok(content) = tree.rule_content(nodes, rules, params, visiting, known) {
        lemma_content(tree, nodes, rules, params, visiting, known, content);
        let elements = checks_among(tree, contributors(tree, nodes, rules, visiting)->0);
        let says = check_says(tree, params, known);
        assert forall|i: int| 0 <= i < content.checks.len() implies has_test_of(
            tree,
            elements[i],
            params,
            #[trigger] content.checks[i],
        ) by {
            assert(says(elements[i], content.checks[i]));
        }
    }
}

/// Every check of an accepted schema, be it an assert or a report, own or
/// inherited, is what an element declares, its test with the parameters of its
/// pattern substituted: those that the use of an abstract pattern gives, and
/// none where the pattern stands by itself.
pub proof fn every_check_is_declared_with_the_parameters_of_its_pattern(
    tree: XmlTree,
    schema: SchemaView,
    i: int,
    j: int,
    k: int,
) -> (found: (int, Seq<(Seq<char>, Seq<char>)>, int))
    requires
        tree.schema() == Ok::<SchemaView, ParseErrorView>(schema),
        0 <= i < schema.patterns.len(),
        0 <= j < schema.patterns[i].rules.len(),
        0 <= k < schema.patterns[i].rules[j].checks.len(),
    ensures
        ({
            let nodes = tree.children(tree.root_element()->0);
            let check = schema.patterns[i].rules[j].checks[k];
            let (source, params, n) = found;
            &&& draws_on(
                tree,
                parsing_laws::concrete(tree, nodes, "pattern"@)[i],
                abstract_patterns(tree, nodes),
                source,
                params,
            )
            &&& tree.has_tag(n, "assert"@) || tree.has_tag(n, "report"@)
            &&& check.kind == CheckKind::Assert <==> tree.has_tag(n, "assert"@)
            &&& has_test_of(tree, n, params, check)
            &&& has_message(tree, n, params, check.message)
        }),
{
    let root = tree.root_element()->0;
    let nodes = tree.children(root);
    let templates = abstract_patterns(tree, nodes);
    let known = identifiers_of_diagnostics(schema.diagnostics);
    let pattern = schema.patterns[i];
    let rule = pattern.rules[j];
    let check = rule.checks[k];
    a_document_stands_for_the_schema_it_declares(tree, schema);
    let p = parsing_laws::concrete(tree, nodes, "pattern"@)[i];
    let says = pattern_says(tree, templates, known);
    assert(says(p, schema.patterns[i]));
    assert(declares_pattern(tree, p, templates, known, pattern));
    let (source, params) = choose|source: int, params: Seq<(Seq<char>, Seq<char>)>| #[trigger]
        draws_on(tree, p, templates, source, params) && declares_pattern_content(
            tree,
            source,
            params,
            known,
            pattern,
        );
    let inner = tree.children(source);
    let rules = tree.named_rules(inner);
    let r = parsing_laws::concrete(tree, inner, "rule"@)[j];
    let rule_is = rule_says(tree, rules, params, known);
    assert(rule_is(r, pattern.rules[j]));
    let list = contributors(tree, tree.children(r), rules, own_identifier(tree, r))->0;
    let elements = checks_among(tree, list);
    let check_is = check_says(tree, params, known);
    assert(check_is(elements[k], rule.checks[k]));
    let n = elements[k];
    lemma_tags_differ();
    assert(declares_check(tree, n, params, known, check));
    (source, params, n)
}

/// What two outcomes make up, one after the other: the first failure, or the
/// items of both.
pub open spec fn one_after_the_other<T>(
    first: Result<Seq<T>, ParseErrorView>,
    second: Result<Seq<T>, ParseErrorView>,
) -> Result<Seq<T>, ParseErrorView> {
    match (first, second) {
        (Ok(items), Ok(more)) => Ok(items + more),
        (Ok(_), Err(error)) => Err(error),
        (Err(error), _) => Err(error),
    }
}

/// The message of a list of nodes is that of its nodes, one after the other.
pub proof fn messages_keep_document_order(
    tree: XmlTree,
    n: int,
    first: Seq<int>,
    second: Seq<int>,
    params: Seq<(Seq<char>, Seq<char>)>,
)
    ensures
        tree.message_of(n, first + second, params) == one_after_the_other(
            tree.message_of(n, first, params),
            tree.message_of(n, second, params),
        ),
    decreases first.len(),
{
    let rest = tree.message_of(n, second, params);
    if first.len() == 0 {
        assert(first + second == second);
        if let Ok(more) = rest {
            assert(Seq::<MessagePartView>::empty() + more == more);
        }
    } else {
        assert((first + second).skip(1) == first.skip(1) + second);
        messages_keep_document_order(tree, n, first.skip(1), second, params);
        if let Ok(own) = tree.message_of_child(n, first[0], params) {
            if let Ok(more) = tree.message_of(n, first.skip(1), params) {
                if let Ok(last) = rest {
                    assert(own + (more + last) == (own + more) + last);
                }
            }
        }
    }
}

/// The error for an attribute that an element lacks.
pub open spec fn lacks(
    tree: XmlTree,
    n: int,
    element: Seq<char>,
    attribute: Seq<char>,
) -> ParseErrorView {
    ParseErrorView::MissingAttribute { element, attribute, position: tree.position(n) }
}

/// What a single child of node `n` contributes to its message: a text its
/// characters, a `<value-of>` its `select` and a `<name>` its `path`, both
/// with the parameters substituted, and any other element its own message.
pub proof fn message_content_is_text_values_and_names(
    tree: XmlTree,
    n: int,
    child: int,
    params: Seq<(Seq<char>, Seq<char>)>,
)
    requires
        tree.well_formed(),
        tree.children(n).contains(child),
    ensures
        ({
            let message = tree.message_of(n, seq![child], params);
            let node = tree.nodes[child];
            if node.is_text {
                message == Ok::<Seq<MessagePartView>, ParseErrorView>(
                    if node.text is Some {
                        seq![MessagePartView::Text(node.text->0)]
                    } else {
                        seq![]
                    },
                )
            } else if tree.has_tag(child, "value-of"@) {
                match tree.attribute(child, "select"@) {
                    Some(select) => message == Ok::<Seq<MessagePartView>, ParseErrorView>(
                        seq![MessagePartView::ValueOf(grammar::substituted(select, params))],
                    ),
                    None => message == Err::<Seq<MessagePartView>, ParseErrorView>(
                        lacks(tree, child, "value-of"@, "select"@),
                    ),
                }
            } else if tree.has_tag(child, "name"@) {
                message == Ok::<Seq<MessagePartView>, ParseErrorView>(
                    seq![
                        MessagePartView::Name(
                            match tree.attribute(child, "path"@) {
                                Some(path) => Some(grammar::substituted(path, params)),
                                None => None,
                            },
                        ),
                    ],
                )
            } else if node.is_element {
                message == tree.message_of(child, tree.children(child), params)
            } else {
                message == Ok::<Seq<MessagePartView>, ParseErrorView>(seq![])
            }
        }),
{
    let one = seq![child];
    let none: Seq<MessagePartView> = seq![];
    children_are_the_nodes_with_that_parent(tree, n);
    assert(tree.nodes[child].parent is Some);
    assert(n < child < tree.nodes.len());
    assert(one[0] == child && one.skip(1).len() == 0);
    assert(tree.message_of(n, one.skip(1), params) == Ok::<Seq<MessagePartView>, ParseErrorView>(
        none,
    ));
    if let Ok(own) = tree.message_of_child(n, child, params) {
        assert(own + none == own);
    }
}

/// The text of a list of nodes is that of its nodes, one after the other.
pub proof fn texts_keep_document_order(tree: XmlTree, n: int, first: Seq<int>, second: Seq<int>)
    ensures
        tree.text_of(n, first + second) == tree.text_of(n, first) + tree.text_of(n, second),
    decreases first.len(),
{
    if first.len() == 0 {
        assert(first + second == second);
        assert(Seq::<char>::empty() + tree.text_of(n, second) == tree.text_of(n, second));
    } else {
        assert((first + second).skip(1) == first.skip(1) + second);
        texts_keep_document_order(tree, n, first.skip(1), second);
        let own = tree.text_of_child(n, first[0]);
        assert(own + (tree.text_of(n, first.skip(1)) + tree.text_of(n, second)) == (own
            + tree.text_of(n, first.skip(1))) + tree.text_of(n, second));
    }
}

/// The text of a single child: its characters, or the text of all its
/// children, at any depth.
pub proof fn the_text_of_an_element_is_that_of_its_children(tree: XmlTree, n: int, child: int)
    requires
        tree.well_formed(),
        tree.children(n).contains(child),
    ensures
        tree.text_of(n, seq![child]) == (if tree.nodes[child].is_text {
            match tree.nodes[child].text {
                Some(characters) => characters,
                None => seq![],
            }
        } else if tree.nodes[child].is_element {
            tree.text_of(child, tree.children(child))
        } else {
            seq![]
        }),
{
    let one = seq![child];
    children_are_the_nodes_with_that_parent(tree, n);
    assert(tree.nodes[child].parent is Some);
    assert(n < child < tree.nodes.len());
    assert(one[0] == child && one.skip(1).len() == 0);
    assert(tree.text_of(n, one.skip(1)) == Seq::<char>::empty());
    assert(tree.text_of_child(n, child) + Seq::<char>::empty() == tree.text_of_child(n, child));
}

/// What each element that has required attributes is refused for: the first
/// of them that it lacks, with its own name and at its own position.
pub proof fn missing_attributes_are_named(tree: XmlTree, n: int)
    ensures
        tree.attribute(n, "prefix"@) is None ==> tree.ns_of(n) == Err::<
            NamespaceBindingView,
            ParseErrorView,
        >(lacks(tree, n, "ns"@, "prefix"@)),
        tree.attribute(n, "prefix"@) is Some && tree.attribute(n, "uri"@) is None ==> tree.ns_of(n)
            == Err::<NamespaceBindingView, ParseErrorView>(lacks(tree, n, "ns"@, "uri"@)),
        tree.attribute(n, "name"@) is None ==> tree.param_of(n) == Err::<
            (Seq<char>, Seq<char>),
            ParseErrorView,
        >(lacks(tree, n, "param"@, "name"@)),
        tree.attribute(n, "name"@) is Some && tree.attribute(n, "value"@) is None
            ==> tree.param_of(n) == Err::<(Seq<char>, Seq<char>), ParseErrorView>(
            lacks(tree, n, "param"@, "value"@),
        ),
        tree.attribute(n, "name"@) is None ==> tree.let_of(n) == Err::<
            LetBindingView,
            ParseErrorView,
        >(lacks(tree, n, "let"@, "name"@)),
        tree.attribute(n, "name"@) is Some && tree.attribute(n, "value"@) is None
            && !has_element_child(tree, n) ==> tree.let_of(n) == Err::<
            LetBindingView,
            ParseErrorView,
        >(lacks(tree, n, "let"@, "value"@)),
        tree.attribute(n, "id"@) is None ==> tree.diagnostic_of(n) == Err::<
            DiagnosticView,
            ParseErrorView,
        >(lacks(tree, n, "diagnostic"@, "id"@)),
        tree.attribute(n, "id"@) is None ==> tree.property_of(n) == Err::<
            PropertyView,
            ParseErrorView,
        >(lacks(tree, n, "property"@, "id"@)),
        tree.attribute(n, "href"@) is None ==> tree.inclusion_of(n) == Err::<
            crate::inclusion::InclusionView,
            ParseErrorView,
        >(lacks(tree, n, "include"@, "href"@)),
{
    lemma_element_child(tree, n);
}

/// A diagnostic or a property with an identifier is refused for its message.
pub proof fn diagnostics_and_properties_fail_with_their_messages(
    tree: XmlTree,
    n: int,
    error: ParseErrorView,
)
    requires
        tree.attribute(n, "id"@) is Some,
        tree.message_of(n, tree.children(n), seq![]) == Err::<
            Seq<MessagePartView>,
            ParseErrorView,
        >(error),
    ensures
        tree.diagnostic_of(n) == Err::<DiagnosticView, ParseErrorView>(error),
        tree.property_of(n) == Err::<PropertyView, ParseErrorView>(error),
{
}

/// An `<active>` is refused where it names no pattern, or one that is not
/// among `known`.
pub proof fn unknown_active_patterns_are_refused(tree: XmlTree, n: int, known: Set<Seq<char>>)
    ensures
        match tree.attribute(n, "pattern"@) {
            None => tree.active_of(n, known) == Err::<Seq<char>, ParseErrorView>(
                lacks(tree, n, "active"@, "pattern"@),
            ),
            Some(pattern) => !known.contains(pattern) ==> tree.active_of(n, known) == Err::<
                Seq<char>,
                ParseErrorView,
            >(ParseErrorView::UnknownActivePattern { pattern, position: tree.position(n) }),
        },
{
}

/// The first child that a container does not admit is refused, by its name and
/// at its position.
pub proof fn the_first_unadmitted_child_is_refused(
    tree: XmlTree,
    n: int,
    container: Container,
    i: int,
)
    requires
        0 <= i < tree.children(n).len(),
        tree.is_schematron(tree.children(n)[i]),
        !container.spec_admits(tree.nodes[tree.children(n)[i]].name),
        forall|j: int|
            0 <= j < i && tree.is_schematron(#[trigger] tree.children(n)[j])
                ==> container.spec_admits(tree.nodes[tree.children(n)[j]].name),
    ensures
        tree.known_children(n, container) == Err::<(), ParseErrorView>(
            ParseErrorView::UnexpectedElement {
                element: tree.nodes[tree.children(n)[i]].name,
                position: tree.position(tree.children(n)[i]),
            },
        ),
{
    lemma_first_unadmitted(tree, tree.children(n), container, i);
}

proof fn lemma_first_unadmitted(tree: XmlTree, nodes: Seq<int>, container: Container, i: int)
    requires
        0 <= i < nodes.len(),
        tree.is_schematron(nodes[i]),
        !container.spec_admits(tree.nodes[nodes[i]].name),
        forall|j: int|
            0 <= j < i && tree.is_schematron(#[trigger] nodes[j]) ==> container.spec_admits(
                tree.nodes[nodes[j]].name,
            ),
    ensures
        tree.first_unexpected(nodes, container) == Some(nodes[i]),
    decreases i,
{
    if i > 0 {
        let rest = nodes.skip(1);
        assert(rest[i - 1] == nodes[i]);
        assert(tree.is_schematron(nodes[0]) ==> container.spec_admits(tree.nodes[nodes[0]].name));
        assert forall|j: int|
            0 <= j < i - 1 && tree.is_schematron(#[trigger] rest[j]) implies container.spec_admits(
            tree.nodes[rest[j]].name,
        ) by {
            assert(rest[j] == nodes[j + 1]);
        }
        lemma_first_unadmitted(tree, rest, container, i - 1);
    }
}

/// The first diagnostic that a check refers to and that is not among `known`
/// is refused, at the check's position.
pub proof fn the_first_unknown_diagnostic_is_refused(
    tree: XmlTree,
    n: int,
    known: Set<Seq<char>>,
    i: int,
)
    requires
        0 <= i < listed_diagnostics(tree, n).len(),
        !known.contains(listed_diagnostics(tree, n)[i]),
        forall|j: int| 0 <= j < i ==> known.contains(#[trigger] listed_diagnostics(tree, n)[j]),
    ensures
        tree.references_of(n, known) == Err::<Seq<Seq<char>>, ParseErrorView>(
            ParseErrorView::UnknownDiagnosticReference {
                id: listed_diagnostics(tree, n)[i],
                position: tree.position(n),
            },
        ),
{
    lemma_first_outside(listed_diagnostics(tree, n), known, i);
}

proof fn lemma_first_outside(ids: Seq<Seq<char>>, known: Set<Seq<char>>, i: int)
    requires
        0 <= i < ids.len(),
        !known.contains(ids[i]),
        forall|j: int| 0 <= j < i ==> known.contains(#[trigger] ids[j]),
    ensures
        grammar::first_outside(ids, known) == Some(ids[i]),
    decreases i,
{
    if i > 0 {
        let rest = ids.skip(1);
        assert(rest[i - 1] == ids[i]);
        assert(known.contains(ids[0]));
        assert forall|j: int| 0 <= j < i - 1 implies known.contains(#[trigger] rest[j]) by {
            assert(rest[j] == ids[j + 1]);
        }
        lemma_first_outside(rest, known, i - 1);
    }
}

/// A check is refused for the first reason among its test, its message and
/// its references.
pub proof fn a_check_is_refused_for_its_first_reason(
    tree: XmlTree,
    n: int,
    kind: CheckKind,
    params: Seq<(Seq<char>, Seq<char>)>,
    known: Set<Seq<char>>,
    error: ParseErrorView,
)
    ensures
        tree.check_of(kind, n, params, known) == Err::<CheckView, ParseErrorView>(error) <==> {
            let message = tree.message_of(n, tree.children(n), params);
            if tree.attribute(n, "test"@) is None {
                error == lacks(
                    tree,
                    n,
                    if kind == CheckKind::Assert {
                        "assert"@
                    } else {
                        "report"@
                    },
                    "test"@,
                )
            } else {
                ||| message == Err::<Seq<MessagePartView>, ParseErrorView>(error)
                ||| message is Ok && tree.references_of(n, known) == Err::<
                    Seq<Seq<char>>,
                    ParseErrorView,
                >(error)
            }
        },
{
}

/// What a single child of a rule is refused for: a check and a binding for
/// their own reasons, and an `<extends>` where it names no rule, an unknown one
/// or one that leads back, or for what that rule is refused for.
pub proof fn a_child_of_a_rule_is_refused_for_its_own_reason(
    tree: XmlTree,
    child: int,
    rules: Seq<(Seq<char>, int)>,
    params: Seq<(Seq<char>, Seq<char>)>,
    visiting: Seq<Seq<char>>,
    known: Set<Seq<char>>,
    error: ParseErrorView,
)
    ensures
        tree.rule_content(seq![child], rules, params, visiting, known) == Err::<
            RuleContent,
            ParseErrorView,
        >(error) <==> {
            ||| tree.has_tag(child, "assert"@) && tree.check_of(
                CheckKind::Assert,
                child,
                params,
                known,
            ) == Err::<CheckView, ParseErrorView>(error)
            ||| tree.has_tag(child, "report"@) && tree.check_of(
                CheckKind::Report,
                child,
                params,
                known,
            ) == Err::<CheckView, ParseErrorView>(error)
            ||| tree.has_tag(child, "let"@) && tree.let_of(child) == Err::<
                LetBindingView,
                ParseErrorView,
            >(error)
            ||| tree.has_tag(child, "extends"@) && (match tree.attribute(child, "rule"@) {
                None => error == lacks(tree, child, "extends"@, "rule"@),
                Some(id) => match grammar::entry_named(rules, id) {
                    None => error == ParseErrorView::UnknownRuleReference {
                        rule: id,
                        position: tree.position(child),
                    },
                    Some(target) => if visiting.contains(id) {
                        error == ParseErrorView::CyclicRuleExtends {
                            rule: id,
                            position: tree.position(child),
                        }
                    } else {
                        tree.rule_content(
                            tree.children(target),
                            rules,
                            params,
                            visiting.push(id),
                            known,
                        ) == Err::<RuleContent, ParseErrorView>(error)
                    },
                },
            })
        },
{
    lemma_tags_differ();
    let one = seq![child];
    assert(one[0] == child && one.skip(1).len() == 0);
    assert(tree.rule_content(one.skip(1), rules, params, visiting, known) is Ok);
    let own = tree.rule_content_of_child(child, rules, params, visiting, known);
    assert(tree.rule_content(one, rules, params, visiting, known) == Err::<
        RuleContent,
        ParseErrorView,
    >(error) <==> own == Err::<RuleContent, ParseErrorView>(error));
}

/// A rule is refused for the first reason among its children's names, its
/// context and its content.
pub proof fn a_rule_is_refused_for_its_first_reason(
    tree: XmlTree,
    n: int,
    rules: Seq<(Seq<char>, int)>,
    params: Seq<(Seq<char>, Seq<char>)>,
    known: Set<Seq<char>>,
    error: ParseErrorView,
)
    ensures
        tree.rule_of(n, rules, params, known) == Err::<RuleView, ParseErrorView>(error) <==> {
            let names = tree.known_children(n, Container::Rule);
            ||| names == Err::<(), ParseErrorView>(error)
            ||| names is Ok && if tree.attribute(n, "context"@) is None {
                error == lacks(tree, n, "rule"@, "context"@)
            } else {
                tree.rule_content(
                    tree.children(n),
                    rules,
                    params,
                    own_identifier(tree, n),
                    known,
                ) == Err::<RuleContent, ParseErrorView>(error)
            }
        },
{
}

/// Concrete rules, and likewise concrete patterns, are read in order: two
/// lists give what the first gives and then what the second gives.
pub proof fn rules_and_patterns_are_read_in_order(
    tree: XmlTree,
    first: Seq<int>,
    second: Seq<int>,
    rules: Seq<(Seq<char>, int)>,
    params: Seq<(Seq<char>, Seq<char>)>,
    templates: Seq<(Seq<char>, int)>,
    known: Set<Seq<char>>,
)
    ensures
        tree.rules_of(first + second, rules, params, known) == one_after_the_other(
            tree.rules_of(first, rules, params, known),
            tree.rules_of(second, rules, params, known),
        ),
        tree.patterns_of(first + second, templates, known) == one_after_the_other(
            tree.patterns_of(first, templates, known),
            tree.patterns_of(second, templates, known),
        ),
        tree.templates_of(first + second) == one_after_the_other(
            tree.templates_of(first),
            tree.templates_of(second),
        ),
    decreases first.len(),
{
    if first.len() == 0 {
        assert(first + second == second);
        if let Ok(more) = tree.rules_of(second, rules, params, known) {
            assert(Seq::<RuleView>::empty() + more == more);
        }
        if let Ok(more) = tree.patterns_of(second, templates, known) {
            assert(Seq::<PatternView>::empty() + more == more);
        }
        if let Ok(more) = tree.templates_of(second) {
            assert(Seq::<(Seq<char>, int)>::empty() + more == more);
        }
    } else {
        let rest = first.skip(1);
        assert((first + second).skip(1) == rest + second);
        rules_and_patterns_are_read_in_order(
            tree,
            rest,
            second,
            rules,
            params,
            templates,
            known,
        );
        if let Ok(more) = tree.rules_of(rest, rules, params, known) {
            if let Ok(last) = tree.rules_of(second, rules, params, known) {
                if let Ok(own) = tree.rule_of(first[0], rules, params, known) {
                    assert(seq![own] + (more + last) == (seq![own] + more) + last);
                }
            }
        }
        if let Ok(more) = tree.patterns_of(rest, templates, known) {
            if let Ok(last) = tree.patterns_of(second, templates, known) {
                if let Ok(own) = tree.pattern_at(first[0], templates, known) {
                    assert(seq![own] + (more + last) == (seq![own] + more) + last);
                }
            }
        }
        if let Ok(more) = tree.templates_of(rest) {
            if let Ok(last) = tree.templates_of(second) {
                if let Ok(own) = tree.required(first[0], "pattern"@, "id"@) {
                    let entry = (own, first[0]);
                    assert(seq![entry] + (more + last) == (seq![entry] + more) + last);
                }
            }
        }
    }
}

/// What a single element gives among the rules and patterns: a concrete one
/// itself or its error, an abstract one nothing but for the templates.
pub proof fn single_rules_and_patterns_give_themselves(
    tree: XmlTree,
    n: int,
    rules: Seq<(Seq<char>, int)>,
    params: Seq<(Seq<char>, Seq<char>)>,
    templates: Seq<(Seq<char>, int)>,
    known: Set<Seq<char>>,
    error: ParseErrorView,
)
    ensures
        tree.rules_of(seq![n], rules, params, known) == Err::<Seq<RuleView>, ParseErrorView>(error)
            <==> tree.has_tag(n, "rule"@) && tree.attribute(n, "abstract"@) != Some("true"@)
            && tree.rule_of(n, rules, params, known) == Err::<RuleView, ParseErrorView>(error),
        tree.patterns_of(seq![n], templates, known) == Err::<Seq<PatternView>, ParseErrorView>(
            error,
        ) <==> tree.has_tag(n, "pattern"@) && tree.attribute(n, "abstract"@) != Some("true"@)
            && tree.pattern_at(n, templates, known) == Err::<PatternView, ParseErrorView>(error),
        tree.templates_of(seq![n]) == Err::<Seq<(Seq<char>, int)>, ParseErrorView>(error)
            <==> tree.has_tag(n, "pattern"@) && tree.attribute(n, "abstract"@) == Some("true"@)
            && tree.attribute(n, "id"@) is None && error == lacks(tree, n, "pattern"@, "id"@),
{
    let one = seq![n];
    assert(one[0] == n && one.skip(1).len() == 0);
    assert(tree.rules_of(one.skip(1), rules, params, known) is Ok);
    assert(tree.patterns_of(one.skip(1), templates, known) is Ok);
    assert(tree.templates_of(one.skip(1)) is Ok);
}

/// A pattern is refused for the first reason among its children's names, its
/// bindings and its rules.
pub proof fn a_pattern_is_refused_for_its_first_reason(
    tree: XmlTree,
    n: int,
    id: Option<Seq<char>>,
    params: Seq<(Seq<char>, Seq<char>)>,
    known: Set<Seq<char>>,
    error: ParseErrorView,
)
    ensures
        tree.pattern_of(n, id, params, known) == Err::<PatternView, ParseErrorView>(error) <==> {
            let nodes = tree.children(n);
            let names = tree.known_children(n, Container::Pattern);
            let lets = tree.lets_of(n);
            let rules = tree.rules_of(nodes, tree.named_rules(nodes), params, known);
            ||| names == Err::<(), ParseErrorView>(error)
            ||| names is Ok && lets == Err::<Seq<LetBindingView>, ParseErrorView>(error)
            ||| names is Ok && lets is Ok && rules == Err::<Seq<RuleView>, ParseErrorView>(error)
        },
{
}

/// The use of an abstract pattern is refused for the first reason among its
/// children's names, the pattern it names, its parameters, and what that
/// pattern is refused for; any other concrete pattern is refused as it stands.
pub proof fn the_use_of_a_pattern_is_refused_for_its_first_reason(
    tree: XmlTree,
    n: int,
    templates: Seq<(Seq<char>, int)>,
    known: Set<Seq<char>>,
    error: ParseErrorView,
)
    ensures
        tree.pattern_at(n, templates, known) == Err::<PatternView, ParseErrorView>(error) <==> {
            let id = tree.attribute(n, "id"@);
            let names = tree.known_children(n, Container::PatternUse);
            let params = tree.collect(tree.children(n), "param"@, tree.param_reader());
            match tree.attribute(n, "is-a"@) {
                None => tree.pattern_of(n, id, seq![], known) == Err::<
                    PatternView,
                    ParseErrorView,
                >(error),
                Some(name) => {
                    ||| names == Err::<(), ParseErrorView>(error)
                    ||| names is Ok && (match grammar::entry_named(templates, name) {
                        None => error == ParseErrorView::UnknownAbstractPattern {
                            pattern: name,
                            position: tree.position(n),
                        },
                        Some(source) => {
                            ||| params == Err::<Seq<(Seq<char>, Seq<char>)>, ParseErrorView>(
                                error,
                            )
                            ||| params is Ok && tree.pattern_of(source, id, params->Ok_0, known)
                                == Err::<PatternView, ParseErrorView>(error)
                        },
                    })
                },
            }
        },
{
}

/// A phase is refused for the first reason among its children's names, its
/// identifier, its bindings and the patterns it activates.
pub proof fn a_phase_is_refused_for_its_first_reason(
    tree: XmlTree,
    n: int,
    known: Set<Seq<char>>,
    error: ParseErrorView,
)
    ensures
        tree.phase_of(n, known) == Err::<PhaseView, ParseErrorView>(error) <==> {
            let names = tree.known_children(n, Container::Phase);
            let lets = tree.lets_of(n);
            let active = tree.collect(tree.children(n), "active"@, tree.active_reader(known));
            ||| names == Err::<(), ParseErrorView>(error)
            ||| names is Ok && if tree.attribute(n, "id"@) is None {
                error == lacks(tree, n, "phase"@, "id"@)
            } else {
                ||| lets == Err::<Seq<LetBindingView>, ParseErrorView>(error)
                ||| lets is Ok && active == Err::<Seq<Seq<char>>, ParseErrorView>(error)
            }
        },
{
}

/// The header of a schema is refused for the first reason among its
/// children's names, its identifiers, its prefixes, its bindings and its query
/// binding.
pub proof fn a_header_is_refused_for_its_first_reason(
    tree: XmlTree,
    error: ParseErrorView,
)
    requires
        tree.has_tag(tree.root_element()->0, "schema"@),
    ensures
        ({
            let n = tree.root_element()->0;
            let names = tree.known_children(n, Container::Schema);
            let ids = tree.unique_ids(tree.descendants(n), Set::empty());
            let ns = tree.collect(tree.children(n), "ns"@, tree.ns_reader());
            let lets = tree.lets_of(n);
            let binding = tree.attribute(n, "queryBinding"@);
            {
                ||| names == Err::<(), ParseErrorView>(error)
                ||| names is Ok && ids == Err::<(), ParseErrorView>(error)
                ||| names is Ok && ids is Ok && ns == Err::<
                    Seq<NamespaceBindingView>,
                    ParseErrorView,
                >(error)
                ||| names is Ok && ids is Ok && ns is Ok && lets == Err::<
                    Seq<LetBindingView>,
                    ParseErrorView,
                >(error)
                ||| names is Ok && ids is Ok && ns is Ok && lets is Ok && !declares_binding(
                    tree,
                    n,
                    binding,
                ) && error == ParseErrorView::UnsupportedQueryBinding {
                    binding: binding->0,
                    position: tree.position(n),
                }
            }
        }) ==> tree.schema() == Err::<SchemaView, ParseErrorView>(error),
{
}

/// A schema whose header passes is refused for the first reason among its
/// diagnostics, its properties, its abstract patterns, its concrete ones, that
/// it has none, its phases, and an element in the wrong place.
pub proof fn a_body_is_refused_for_its_first_reason(tree: XmlTree, error: ParseErrorView)
    requires
        tree.has_tag(tree.root_element()->0, "schema"@),
        tree.known_children(tree.root_element()->0, Container::Schema) is Ok,
        tree.unique_ids(tree.descendants(tree.root_element()->0), Set::empty()) is Ok,
        tree.collect(tree.children(tree.root_element()->0), "ns"@, tree.ns_reader()) is Ok,
        tree.lets_of(tree.root_element()->0) is Ok,
        declares_binding(
            tree,
            tree.root_element()->0,
            tree.attribute(tree.root_element()->0, "queryBinding"@),
        ),
    ensures
        tree.schema() == Err::<SchemaView, ParseErrorView>(error) <==> {
            let n = tree.root_element()->0;
            let nodes = tree.children(n);
            let diagnostics = tree.diagnostics_of(nodes);
            let properties = tree.properties_of(nodes);
            let templates = tree.templates_of(nodes);
            let known = identifiers_of_diagnostics(diagnostics->Ok_0);
            let patterns = tree.patterns_of(nodes, templates->Ok_0, known);
            let active = identifiers_of_patterns(patterns->Ok_0);
            let phases = tree.collect(nodes, "phase"@, tree.phase_reader(active));
            ||| diagnostics == Err::<Seq<DiagnosticView>, ParseErrorView>(error)
            ||| diagnostics is Ok && {
                ||| properties == Err::<Seq<PropertyView>, ParseErrorView>(error)
                ||| properties is Ok && {
                    ||| templates == Err::<Seq<(Seq<char>, int)>, ParseErrorView>(error)
                    ||| templates is Ok && {
                        ||| patterns == Err::<Seq<PatternView>, ParseErrorView>(error)
                        ||| patterns is Ok && if patterns->Ok_0.len() == 0 {
                            error == ParseErrorView::NoPatterns
                        } else {
                            ||| phases == Err::<Seq<PhaseView>, ParseErrorView>(error)
                            ||| phases is Ok && tree.placed(n) == Err::<(), ParseErrorView>(error)
                        }
                    }
                }
            }
        },
{
    let nodes = tree.children(tree.root_element()->0);
    if let Ok(diagnostics) = tree.diagnostics_of(nodes) {
        lemma_diagnostic_identifiers(diagnostics);
        if let Ok(templates) = tree.templates_of(nodes) {
            let known = identifiers_of_diagnostics(diagnostics);
            if let Ok(patterns) = tree.patterns_of(nodes, templates, known) {
                lemma_pattern_identifiers(patterns);
            }
        }
    }
}

/// A list of diagnostics or of properties is refused for the first reason
/// among its children's names and its items.
pub proof fn a_list_is_refused_for_its_first_reason(
    tree: XmlTree,
    nodes: Seq<int>,
    error: ParseErrorView,
)
    ensures
        tree.diagnostics_of(nodes) == Err::<Seq<DiagnosticView>, ParseErrorView>(error) <==> {
            let lists = tagged(tree, nodes, "diagnostics"@);
            let names = tree.known_children(lists[0], Container::Diagnostics);
            lists.len() > 0 && {
                ||| names == Err::<(), ParseErrorView>(error)
                ||| names is Ok && tree.collect(
                    tree.children(lists[0]),
                    "diagnostic"@,
                    tree.diagnostic_reader(),
                ) == Err::<Seq<DiagnosticView>, ParseErrorView>(error)
            }
        },
        tree.properties_of(nodes) == Err::<Seq<PropertyView>, ParseErrorView>(error) <==> {
            let lists = tagged(tree, nodes, "properties"@);
            let names = tree.known_children(lists[0], Container::Properties);
            lists.len() > 0 && {
                ||| names == Err::<(), ParseErrorView>(error)
                ||| names is Ok && tree.collect(
                    tree.children(lists[0]),
                    "property"@,
                    tree.property_reader(),
                ) == Err::<Seq<PropertyView>, ParseErrorView>(error)
            }
        },
{
    lemma_first_tagged(tree, nodes, "diagnostics"@);
    lemma_first_tagged(tree, nodes, "properties"@);
}

/// The Schematron elements that may stand in each container.
pub open spec fn content_model(container: Container) -> Set<Seq<char>> {
    match container {
        Container::Schema => set![
            "title"@, "p"@, "ns"@, "let"@, "phase"@, "pattern"@, "diagnostics"@, "properties"@,
        ],
        Container::Properties => set!["property"@],
        Container::Diagnostics => set!["diagnostic"@],
        Container::Pattern => set!["title"@, "p"@, "let"@, "rule"@],
        Container::PatternUse => set!["p"@, "param"@],
        Container::Rule => set!["p"@, "let"@, "assert"@, "report"@, "extends"@],
        Container::Phase => set!["title"@, "p"@, "let"@, "active"@],
        Container::Message => set!["value-of"@, "name"@, "emph"@, "dir"@, "span"@],
        Container::Remark => set!["emph"@, "dir"@, "span"@],
        Container::Empty => set![],
    }
}

/// A container admits the elements of its content model and no others.
pub proof fn containers_admit_their_content_model(container: Container, name: Seq<char>)
    ensures
        container.spec_admits(name) <==> content_model(container).contains(name),
{
}

/// The elements whose identifiers are unique in a schema.
pub open spec fn identified() -> Set<Seq<char>> {
    set![
        "pattern"@, "rule"@, "assert"@, "report"@, "phase"@, "diagnostic"@, "property"@,
    ]
}

/// A node has an identity exactly where it is one of these Schematron elements
/// with an `id` attribute, which is then its identity.
pub proof fn identities_are_those_of_declarations(tree: XmlTree, n: int, id: Seq<char>)
    ensures
        tree.identity(n) == Some(id) <==> tree.is_schematron(n) && identified().contains(
            tree.nodes[n].name,
        ) && tree.attribute(n, "id"@) == Some(id),
{
}

/// Whether the element `n`, as a child of an `outer` container, is an `inner`
/// one.
pub open spec fn nests(tree: XmlTree, n: int, outer: Container, inner: Container) -> bool {
    match inner {
        Container::Schema => false,
        Container::Properties => outer is Schema && tree.has_tag(n, "properties"@),
        Container::Diagnostics => outer is Schema && tree.has_tag(n, "diagnostics"@),
        Container::Pattern => outer is Schema && tree.has_tag(n, "pattern"@) && (tree.attribute(
            n,
            "abstract"@,
        ) == Some("true"@) || tree.attribute(n, "is-a"@) is None),
        Container::PatternUse => outer is Schema && tree.has_tag(n, "pattern"@) && tree.attribute(
            n,
            "abstract"@,
        ) != Some("true"@) && tree.attribute(n, "is-a"@) is Some,
        Container::Rule => outer is Pattern && tree.has_tag(n, "rule"@),
        Container::Phase => outer is Schema && tree.has_tag(n, "phase"@),
        Container::Message => {
            ||| outer is Properties && tree.has_tag(n, "property"@)
            ||| outer is Diagnostics && tree.has_tag(n, "diagnostic"@)
            ||| outer is Rule && (tree.has_tag(n, "assert"@) || tree.has_tag(n, "report"@))
            ||| outer is Message && tree.nodes[n].is_element && !tree.has_tag(n, "value-of"@)
                && !tree.has_tag(n, "name"@)
        },
        Container::Remark => outer is Phase && tree.has_tag(n, "active"@),
        Container::Empty => {
            ||| outer is Schema && tree.has_tag(n, "ns"@)
            ||| outer is PatternUse && tree.has_tag(n, "param"@)
            ||| outer is Rule && tree.has_tag(n, "extends"@)
        },
    }
}

/// Containers nest as their elements do: below the root element, a node is a
/// container exactly where its parent is one in which it nests.
pub proof fn containers_nest(tree: XmlTree, root: int, n: int, inner: Container)
    requires
        tree.well_formed(),
        0 <= n < tree.nodes.len(),
    ensures
        n == root ==> tree.container_of(root, n) == Some(Container::Schema),
        n != root ==> (tree.container_of(root, n) == Some(inner) <==> tree.nodes[n].parent is Some
            && tree.container_of(root, tree.nodes[n].parent->0 as int) is Some && nests(
            tree,
            n,
            tree.container_of(root, tree.nodes[n].parent->0 as int)->0,
            inner,
        )),
        tree.is_misplaced(root, n) <==> n != root && tree.is_schematron(n)
            && tree.nodes[n].parent is Some && tree.container_of(
            root,
            tree.nodes[n].parent->0 as int,
        ) is Some && !content_model(
            tree.container_of(root, tree.nodes[n].parent->0 as int)->0,
        ).contains(tree.nodes[n].name),
{
    reveal_strlit("pattern");
    reveal_strlit("phase");
    reveal_strlit("diagnostics");
    reveal_strlit("properties");
    reveal_strlit("ns");
    assert("pattern"@.len() == 7 && "phase"@.len() == 5 && "diagnostics"@.len() == 11
        && "properties"@.len() == 10 && "ns"@.len() == 2);
    lemma_tags_differ();
    if n != root {
        let parent = tree.nodes[n].parent;
        if parent is Some {
            assert(0 <= parent->0 < n);
            assert(tree.container_around(root, n) == tree.container_of(root, parent->0 as int));
            if let Some(outer) = tree.container_of(root, parent->0 as int) {
                assert(tree.container_of(root, n) == tree.container_in(n, outer));
                containers_admit_their_content_model(outer, tree.nodes[n].name);
            }
        } else {
            assert(tree.container_around(root, n) is None);
        }
    }
}

/// The nodes within a node are itself and those whose parent is within it.
pub proof fn what_is_within_a_node(tree: XmlTree, n: int, m: int)
    requires
        tree.well_formed(),
        0 <= m < tree.nodes.len(),
    ensures
        tree.is_within(n, n),
        m != n ==> (tree.is_within(n, m) <==> tree.nodes[m].parent is Some && tree.is_within(
            n,
            tree.nodes[m].parent->0 as int,
        )),
{
    if tree.nodes[m].parent is Some {
        assert(tree.nodes[m].parent->0 < m);
    }
}

proof fn lemma_descendants_ascend(tree: XmlTree, n: int, k: int)
    requires
        0 <= k <= tree.nodes.len(),
    ensures
        forall|i: int, j: int|
            0 <= i < j < tree.descendants_before(n, k).len() ==> tree.descendants_before(n, k)[i]
                < tree.descendants_before(n, k)[j],
    decreases k,
{
    if k > 0 {
        lemma_descendants_ascend(tree, n, k - 1);
        xml::lemma_descendants(tree, n, k - 1);
        let before = tree.descendants_before(n, k - 1);
        let list = tree.descendants_before(n, k);
        assert forall|i: int, j: int| 0 <= i < j < list.len() implies list[i] < list[j] by {
            assert(list[i] == before[i]);
            if j < before.len() {
                assert(list[j] == before[j]);
            }
        }
    }
}

/// The descendants of a node are exactly the nodes within it, in document
/// order.
pub proof fn descendants_are_the_nodes_within(tree: XmlTree, n: int)
    ensures
        forall|m: int| #[trigger]
            tree.descendants(n).contains(m) <==> 0 <= m < tree.nodes.len() && tree.is_within(n, m),
        forall|i: int, j: int|
            0 <= i < j < tree.descendants(n).len() ==> tree.descendants(n)[i]
                < tree.descendants(n)[j],
{
    let k = tree.nodes.len() as int;
    assert forall|m: int| #[trigger] tree.descendants(n).contains(m) <==> 0 <= m
        < tree.nodes.len() && tree.is_within(n, m) by {
        xml::lemma_descendants_within(tree, n, k, m);
    }
    lemma_descendants_ascend(tree, n, k);
}

proof fn lemma_first_of(tree: XmlTree, nodes: Seq<int>, i: int)
    requires
        0 <= i < nodes.len(),
        tree.nodes[nodes[i]].is_element,
        forall|j: int| 0 <= j < i ==> !tree.nodes[#[trigger] nodes[j]].is_element,
    ensures
        tree.first_element(nodes) == Some(nodes[i]),
    decreases i,
{
    if i > 0 {
        let rest = nodes.skip(1);
        assert(rest[i - 1] == nodes[i]);
        assert(!tree.nodes[nodes[0]].is_element);
        assert forall|j: int| 0 <= j < i - 1 implies !tree.nodes[#[trigger] rest[j]].is_element by {
            assert(rest[j] == nodes[j + 1]);
        }
        lemma_first_of(tree, rest, i - 1);
    }
}

/// The root element is the first element below the document node.
pub proof fn the_root_element_is_the_first_at_the_top(tree: XmlTree, n: int)
    requires
        0 <= n < tree.nodes.len(),
        tree.nodes[n].is_element,
        tree.nodes[n].parent == Some(0usize),
        forall|m: int|
            0 <= m < n && (#[trigger] tree.nodes[m]).is_element ==> tree.nodes[m].parent != Some(
                0usize,
            ),
    ensures
        tree.root_element() == Some(n),
{
    let nodes = tree.children(0);
    children_are_the_nodes_with_that_parent(tree, 0);
    assert(nodes.contains(n));
    let i = choose|i: int| 0 <= i < nodes.len() && nodes[i] == n;
    assert forall|j: int| 0 <= j < i implies !tree.nodes[#[trigger] nodes[j]].is_element by {
        assert(nodes[j] < nodes[i]);
        assert(nodes.contains(nodes[j]));
    }
    lemma_first_of(tree, nodes, i);
}

/// A node is reported at the position behind the text before it.
pub proof fn a_node_is_at_its_start(tree: XmlTree, n: int)
    ensures
        tree.position(n) == xml::position_after(
            xml::slice(tree.text, 0, tree.nodes[n].start as int),
        ),
{
}

/// Parsing a text is reading the tree that it stands for as a schema.
pub proof fn a_text_is_parsed_as_its_tree(characters: Seq<char>)
    requires
        xml::xml_nodes(characters) is Ok,
    ensures
        crate::parser::parsed(characters) == (XmlTree {
            text: characters,
            nodes: xml::xml_nodes(characters)->Ok_0,
        }).schema(),
{
}

/// What makes a text and a list of nodes an XML document: there is a root
/// element, every parent comes before its children, and every element begins
/// and ends between two characters of the text, in this order.
pub proof fn a_document_fits_its_text(tree: XmlTree)
    ensures
        tree.well_formed() <==> {
            &&& has_element_child(tree, 0)
            &&& forall|n: int|
                0 <= n < tree.nodes.len() && (#[trigger] tree.nodes[n]).parent is Some
                    ==> tree.nodes[n].parent->0 < n
            &&& forall|n: int|
                0 <= n < tree.nodes.len() && (#[trigger] tree.nodes[n]).is_element
                    ==> tree.nodes[n].start <= tree.nodes[n].end && xml::is_boundary(
                    tree.text,
                    tree.nodes[n].start as int,
                ) && xml::is_boundary(tree.text, tree.nodes[n].end as int)
        },
{
    lemma_element_child(tree, 0);
    if tree.well_formed() {
        assert forall|n: int| 0 <= n < tree.nodes.len() && (#[trigger] tree.nodes[n]).is_element
            implies tree.nodes[n].start <= tree.nodes[n].end && xml::is_boundary(
            tree.text,
            tree.nodes[n].start as int,
        ) && xml::is_boundary(tree.text, tree.nodes[n].end as int) by {
            assert(tree.extent_in_text(n));
        }
        assert forall|n: int|
            0 <= n < tree.nodes.len() && (#[trigger] tree.nodes[n]).parent is Some implies
            tree.nodes[n].parent->0 < n by {
            assert(tree.nodes[n].parent is Some);
        }
    }
}

} // verus!
