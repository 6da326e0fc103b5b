//! The parser from Schematron XML to the [`crate::schema`] model.

use vstd::hash_set::StringHashSet;
use vstd::prelude::*;

use crate::error::{ParseError, ParseErrorView};
use crate::grammar::{Container, RuleContent};
use crate::schema::{
    Check, CheckKind, Diagnostic, LetBinding, LetValue, MessagePart, NamespaceBinding, Pattern,
    Phase, Property, Rule, Schema,
};
use crate::text::{equals_ignoring_case, replace, split_words};
use crate::xml::XmlDocument;

verus! {

/// The namespace of Schematron elements.
fn namespace() -> (result: &'static str)
    ensures
        result@ == crate::grammar::schematron_namespace(),
{
    "http://purl.oclc.org/dsdl/schematron"
}

impl Container {
    /// Whether a Schematron element named `name` may be a direct child.
    fn admits(self, name: &str) -> (result: bool)
        ensures
            result == self.spec_admits(name@),
    {
        match self {
            Container::Schema => {
                name.eq("title") || name.eq("p") || name.eq("ns") || name.eq("let") || name.eq(
                    "phase",
                ) || name.eq("pattern") || name.eq("diagnostics") || name.eq("properties")
            },
            Container::Properties => name.eq("property"),
            Container::Diagnostics => name.eq("diagnostic"),
            Container::Pattern => {
                name.eq("title") || name.eq("p") || name.eq("let") || name.eq("rule")
            },
            Container::PatternUse => name.eq("p") || name.eq("param"),
            Container::Rule => {
                name.eq("let") || name.eq("assert") || name.eq("report") || name.eq("extends")
                    || name.eq("p")
            },
            Container::Phase => {
                name.eq("title") || name.eq("p") || name.eq("let") || name.eq("active")
            },
            Container::Message => {
                name.eq("value-of") || name.eq("name") || name.eq("emph") || name.eq("dir")
                    || name.eq("span")
            },
            Container::Remark => name.eq("emph") || name.eq("dir") || name.eq("span"),
            Container::Empty => false,
        }
    }
}

/// The name of an element whose `id` is an identifier of the schema.
fn identity_element(name: &str) -> (result: Option<&'static str>)
    ensures
        match result {
            Some(element) => element@ == name@ && crate::grammar::has_identity(name@),
            None => !crate::grammar::has_identity(name@),
        },
{
    if name.eq("pattern") {
        Some("pattern")
    } else if name.eq("rule") {
        Some("rule")
    } else if name.eq("assert") {
        Some("assert")
    } else if name.eq("report") {
        Some("report")
    } else if name.eq("phase") {
        Some("phase")
    } else if name.eq("diagnostic") {
        Some("diagnostic")
    } else if name.eq("property") {
        Some("property")
    } else {
        None
    }
}

/// Whether node `n` is a Schematron element.
pub(crate) fn is_schematron_element(document: &XmlDocument, n: usize) -> (result: bool)
    requires
        n < document@.nodes.len(),
    ensures
        result == document@.is_schematron(n as int),
{
    let node = document.node(n);
    node.is_element && (match &node.namespace {
        Some(found) => found.as_str().eq(namespace()),
        None => false,
    })
}

/// Whether node `n` is a Schematron element named `tag`.
pub(crate) fn has_tag(document: &XmlDocument, n: usize, tag: &str) -> (result: bool)
    requires
        n < document@.nodes.len(),
    ensures
        result == document@.has_tag(n as int, tag@),
{
    document.has_name(n, namespace(), tag)
}

/// Reads a required attribute of element `n`.
pub(crate) fn required_attribute(
    document: &XmlDocument,
    n: usize,
    element: &'static str,
    attribute: &'static str,
) -> (result: Result<String, ParseError>)
    requires
        n < document@.nodes.len(),
        document@.nodes[n as int].is_element,
    ensures
        crate::error::outcome(result) == document@.required(n as int, element@, attribute@),
{
    match document.attribute(n, attribute) {
        Some(value) => Ok(value.to_owned()),
        None => Err(
            ParseError::MissingAttribute { element, attribute, position: document.position(n) },
        ),
    }
}

/// Reads an optional attribute of node `n`.
fn optional_attribute(document: &XmlDocument, n: usize, name: &str) -> (result: Option<String>)
    requires
        n < document@.nodes.len(),
    ensures
        result.deep_view() == document@.attribute(n as int, name@),
{
    match document.attribute(n, name) {
        Some(value) => Some(value.to_owned()),
        None => None,
    }
}

/// Parses every one of the nodes `list` that is a Schematron element named
/// `tag` by `read`, whose outcome is `meaning`.
pub(crate) fn collect_tagged<T: DeepView, F: Fn(usize) -> Result<T, ParseError>>(
    document: &XmlDocument,
    list: &Vec<usize>,
    Ghost(nodes): Ghost<Seq<int>>,
    tag: &str,
    read: F,
    Ghost(meaning): Ghost<spec_fn(int) -> Result<T::V, ParseErrorView>>,
) -> (result: Result<Vec<T>, ParseError>)
    requires
        crate::xml::lists(list@, nodes),
        forall|i: int| 0 <= i < list@.len() ==> #[trigger] list@[i] < document@.nodes.len(),
        forall|c: usize|
            c < document@.nodes.len() && document@.nodes[c as int].is_element
                ==> #[trigger] call_requires(read, (c,)),
        forall|c: usize, r: Result<T, ParseError>| #[trigger]
            call_ensures(read, (c,), r) ==> crate::error::outcome(r) == meaning(c as int),
    ensures
        crate::error::outcome(result) == document@.collect(nodes, tag@, meaning),
{
    let mut items: Vec<T> = Vec::new();
    let mut i: usize = 0;
    assert(nodes.skip(0) == nodes);
    assert(items.deep_view() == Seq::<T::V>::empty());
    while i < list.len()
        invariant
            i <= list@.len(),
            crate::xml::lists(list@, nodes),
            forall|i: int| 0 <= i < list@.len() ==> #[trigger] list@[i] < document@.nodes.len(),
            forall|c: usize|
                c < document@.nodes.len() && document@.nodes[c as int].is_element
                    ==> #[trigger] call_requires(read, (c,)),
            forall|c: usize, r: Result<T, ParseError>| #[trigger]
                call_ensures(read, (c,), r) ==> crate::error::outcome(r) == meaning(c as int),
            crate::grammar::prepend(
                items.deep_view(),
                document@.collect(nodes.skip(i as int), tag@, meaning),
            ) == document@.collect(nodes, tag@, meaning),
        decreases list@.len() - i,
    {
        let c: usize = list[i];
        let ghost rest = nodes.skip(i as int);
        assert(rest[0] == c);
        assert(rest.skip(1) == nodes.skip(i + 1));
        if has_tag(document, c, tag) {
            match read(c) {
                Ok(item) => {
                    let ghost before = items.deep_view();
                    items.push(item);
                    assert(items.deep_view() == before.push(item.deep_view()));
                    proof {
                        if let Ok(more) = document@.collect(rest.skip(1), tag@, meaning) {
                            assert(before + (seq![item.deep_view()] + more)
                                == items.deep_view() + more);
                        }
                    }
                },
                Err(error) => {
                    return Err(error);
                },
            }
        }
        i += 1;
    }
    assert(items.deep_view() + Seq::<T::V>::empty() == items.deep_view());
    Ok(items)
}

/// Parses every direct child of node `n` that is a Schematron element named
/// `tag` by `read`, whose outcome is `meaning`.
fn collect_children<T: DeepView, F: Fn(usize) -> Result<T, ParseError>>(
    document: &XmlDocument,
    n: usize,
    tag: &str,
    read: F,
    Ghost(meaning): Ghost<spec_fn(int) -> Result<T::V, ParseErrorView>>,
) -> (result: Result<Vec<T>, ParseError>)
    requires
        n < document@.nodes.len(),
        forall|c: usize|
            c < document@.nodes.len() && document@.nodes[c as int].is_element
                ==> #[trigger] call_requires(read, (c,)),
        forall|c: usize, r: Result<T, ParseError>| #[trigger]
            call_ensures(read, (c,), r) ==> crate::error::outcome(r) == meaning(c as int),
    ensures
        crate::error::outcome(result) == document@.collect(
            document@.children(n as int),
            tag@,
            meaning,
        ),
{
    let list = document.children(n);
    collect_tagged(document, list, Ghost(document@.children(n as int)), tag, read, Ghost(meaning))
}

/// Refuses node `n` where it has a Schematron child that `container` does not
/// admit. Elements of other namespaces are not looked at.
fn validate_known_children(document: &XmlDocument, n: usize, container: Container) -> (result:
    Result<(), ParseError>)
    requires
        n < document@.nodes.len(),
    ensures
        crate::error::outcome(result) == document@.known_children(n as int, container),
{
    let list = document.children(n);
    let ghost nodes = document@.children(n as int);
    let mut i: usize = 0;
    assert(nodes.skip(0) == nodes);
    while i < list.len()
        invariant
            i <= list@.len(),
            nodes == document@.children(n as int),
            crate::xml::lists(list@, nodes),
            forall|i: int| 0 <= i < list@.len() ==> #[trigger] list@[i] < document@.nodes.len(),
            document@.first_unexpected(nodes.skip(i as int), container)
                == document@.first_unexpected(nodes, container),
        decreases list@.len() - i,
    {
        let c: usize = list[i];
        assert(nodes.skip(i as int)[0] == c);
        assert(nodes.skip(i as int).skip(1) == nodes.skip(i + 1));
        let node = document.node(c);
        if is_schematron_element(document, c) && !container.admits(node.name.as_str()) {
            return Err(
                ParseError::UnexpectedElement {
                    element: node.name.clone(),
                    position: document.position(c),
                },
            );
        }
        i += 1;
    }
    Ok(())
}

/// The container that node `n` is as a child of a `container`.
fn container_in(document: &XmlDocument, n: usize, container: Container) -> (result: Option<
    Container,
>)
    requires
        n < document@.nodes.len(),
    ensures
        result == document@.container_in(n as int, container),
{
    match container {
        Container::Schema => {
            if has_tag(document, n, "pattern") {
                if !is_abstract(document, n) && document.attribute(n, "is-a").is_some() {
                    Some(Container::PatternUse)
                } else {
                    Some(Container::Pattern)
                }
            } else if has_tag(document, n, "phase") {
                Some(Container::Phase)
            } else if has_tag(document, n, "diagnostics") {
                Some(Container::Diagnostics)
            } else if has_tag(document, n, "properties") {
                Some(Container::Properties)
            } else if has_tag(document, n, "ns") {
                Some(Container::Empty)
            } else {
                None
            }
        },
        Container::Properties => {
            if has_tag(document, n, "property") {
                Some(Container::Message)
            } else {
                None
            }
        },
        Container::Diagnostics => {
            if has_tag(document, n, "diagnostic") {
                Some(Container::Message)
            } else {
                None
            }
        },
        Container::Pattern => {
            if has_tag(document, n, "rule") {
                Some(Container::Rule)
            } else {
                None
            }
        },
        Container::PatternUse => {
            if has_tag(document, n, "param") {
                Some(Container::Empty)
            } else {
                None
            }
        },
        Container::Rule => {
            if has_tag(document, n, "assert") || has_tag(document, n, "report") {
                Some(Container::Message)
            } else if has_tag(document, n, "extends") {
                Some(Container::Empty)
            } else {
                None
            }
        },
        Container::Phase => {
            if has_tag(document, n, "active") {
                Some(Container::Remark)
            } else {
                None
            }
        },
        Container::Message => {
            if document.node(n).is_element && !has_tag(document, n, "value-of") && !has_tag(
                document,
                n,
                "name",
            ) {
                Some(Container::Message)
            } else {
                None
            }
        },
        Container::Remark => None,
        Container::Empty => None,
    }
}

/// Refuses a Schematron element anywhere below the root element `root` that
/// the container around it does not admit. A part of the schema that nothing
/// refers to is held to this too.
fn validate_placement(document: &XmlDocument, root: usize) -> (result: Result<(), ParseError>)
    requires
        root < document@.nodes.len(),
        document@.well_formed(),
    ensures
        crate::error::outcome(result) == document@.placed(root as int),
{
    let count: usize = document.len();
    let mut containers: Vec<Option<Container>> = Vec::new();
    let mut n: usize = 0;
    while n < count
        invariant
            n <= count,
            count == document@.nodes.len(),
            root < count,
            document@.well_formed(),
            containers@.len() == n,
            forall|k: int|
                0 <= k < n ==> #[trigger] containers@[k] == document@.container_of(root as int, k),
            document@.first_misplaced(root as int, n as int) == document@.first_misplaced(
                root as int,
                0,
            ),
        decreases count - n,
    {
        let node = document.node(n);
        let around = match node.parent {
            Some(parent) => containers[parent],
            None => None,
        };
        assert(around == document@.container_around(root as int, n as int));
        if n == root {
            containers.push(Some(Container::Schema));
        } else {
            match around {
                Some(container) => {
                    if is_schematron_element(document, n) && !container.admits(
                        node.name.as_str(),
                    ) {
                        return Err(
                            ParseError::UnexpectedElement {
                                element: node.name.clone(),
                                position: document.position(n),
                            },
                        );
                    }
                    containers.push(container_in(document, n, container));
                },
                None => {
                    containers.push(None);
                },
            }
        }
        n += 1;
    }
    Ok(())
}

/// Refuses the document where two elements at or below node `root` declare
/// the same identifier.
fn check_document_wide_id_uniqueness(document: &XmlDocument, root: usize) -> (result: Result<
    (),
    ParseError,
>)
    requires
        root < document@.nodes.len(),
    ensures
        crate::error::outcome(result) == document@.unique_ids(
            document@.descendants(root as int),
            Set::empty(),
        ),
{
    let list = document.descendants(root);
    let ghost nodes = document@.descendants(root as int);
    let mut seen = StringHashSet::new();
    let mut i: usize = 0;
    assert(nodes.skip(0) == nodes);
    while i < list.len()
        invariant
            i <= list@.len(),
            nodes == document@.descendants(root as int),
            crate::xml::lists(list@, nodes),
            forall|i: int| 0 <= i < list@.len() ==> #[trigger] list@[i] < document@.nodes.len(),
            document@.unique_ids(nodes.skip(i as int), seen@) == document@.unique_ids(
                nodes,
                Set::empty(),
            ),
        decreases list@.len() - i,
    {
        let n: usize = list[i];
        assert(nodes.skip(i as int)[0] == n);
        assert(nodes.skip(i as int).skip(1) == nodes.skip(i + 1));
        if is_schematron_element(document, n) {
            if let Some(element) = identity_element(document.node(n).name.as_str()) {
                if let Some(id) = document.attribute(n, "id") {
                    if seen.contains(id) {
                        return Err(
                            ParseError::DuplicateId {
                                element,
                                id: id.to_owned(),
                                position: document.position(n),
                            },
                        );
                    }
                    seen.insert(id.to_owned());
                }
            }
        }
        i += 1;
    }
    Ok(())
}

/// `text` with each parameter's references replaced by its value.
pub fn substitute(text: &str, params: &Vec<(String, String)>) -> (result: String)
    ensures
        result@ == crate::grammar::substituted(text@, params.deep_view()),
{
    let ghost pairs = params.deep_view();
    let mut result = text.to_owned();
    let mut i: usize = 0;
    while i < params.len()
        invariant
            i <= params@.len(),
            pairs == params.deep_view(),
            result@ == crate::grammar::substituted(text@, pairs.take(i as int)),
        decreases params@.len() - i,
    {
        let mut reference = "$".to_owned();
        reference.push_str(params[i].0.as_str());
        result = replace(result.as_str(), reference.as_str(), params[i].1.as_str());
        i += 1;
        assert(pairs.take(i as int).drop_last() == pairs.take(i - 1));
        assert(pairs.take(i as int).last() == (params@[i - 1].0@, params@[i - 1].1@));
    }
    assert(pairs.take(i as int) == pairs);
    result
}

/// Parses an `<ns prefix="..." uri="...">` binding.
fn parse_ns(document: &XmlDocument, n: usize) -> (result: Result<NamespaceBinding, ParseError>)
    requires
        n < document@.nodes.len(),
        document@.nodes[n as int].is_element,
    ensures
        crate::error::outcome(result) == document@.ns_of(n as int),
{
    match required_attribute(document, n, "ns", "prefix") {
        Err(error) => Err(error),
        Ok(prefix) => match required_attribute(document, n, "ns", "uri") {
            Err(error) => Err(error),
            Ok(uri) => Ok(NamespaceBinding { prefix, uri }),
        },
    }
}

/// Appends the text below node `n` to `text`, in document order.
fn collect_literal_text(document: &XmlDocument, n: usize, text: &mut String)
    requires
        n < document@.nodes.len(),
    ensures
        final(text)@ == old(text)@ + document@.text_of(n as int, document@.children(n as int)),
    decreases document@.nodes.len() - n,
{
    let list = document.children(n);
    let ghost nodes = document@.children(n as int);
    let ghost whole = text@ + document@.text_of(n as int, nodes);
    let mut i: usize = 0;
    assert(nodes.skip(0) == nodes);
    while i < list.len()
        invariant
            i <= list@.len(),
            n < document@.nodes.len(),
            crate::xml::lists(list@, nodes),
            forall|i: int|
                0 <= i < list@.len() ==> n < #[trigger] list@[i] < document@.nodes.len(),
            text@ + document@.text_of(n as int, nodes.skip(i as int)) == whole,
        decreases list@.len() - i,
    {
        let c: usize = list[i];
        let ghost before = text@;
        let ghost rest = nodes.skip(i as int);
        assert(rest[0] == c);
        assert(rest.skip(1) == nodes.skip(i + 1));
        let node = document.node(c);
        if node.is_text {
            if let Some(own) = &node.text {
                text.push_str(own.as_str());
            }
        } else if node.is_element {
            collect_literal_text(document, c, text);
        }
        assert(text@ == before + document@.text_of_child(n as int, c as int));
        assert(before + (document@.text_of_child(n as int, c as int) + document@.text_of(
            n as int,
            rest.skip(1),
        )) == text@ + document@.text_of(n as int, rest.skip(1)));
        i += 1;
    }
    assert(nodes.skip(i as int).len() == 0);
    assert(text@ == whole);
}

/// Whether node `n` has an element among its children.
fn has_element_child(document: &XmlDocument, n: usize) -> (result: bool)
    requires
        n < document@.nodes.len(),
    ensures
        result == (document@.first_element(document@.children(n as int)) is Some),
{
    let list = document.children(n);
    let ghost nodes = document@.children(n as int);
    let mut i: usize = 0;
    assert(nodes.skip(0) == nodes);
    while i < list.len()
        invariant
            i <= list@.len(),
            nodes == document@.children(n as int),
            crate::xml::lists(list@, nodes),
            forall|i: int| 0 <= i < list@.len() ==> #[trigger] list@[i] < document@.nodes.len(),
            document@.first_element(nodes.skip(i as int)) == document@.first_element(nodes),
        decreases list@.len() - i,
    {
        let c: usize = list[i];
        assert(nodes.skip(i as int)[0] == c);
        assert(nodes.skip(i as int).skip(1) == nodes.skip(i + 1));
        if document.node(c).is_element {
            return true;
        }
        i += 1;
    }
    false
}

/// Parses a `<let name="..." value="...">` binding, or one with literal XML
/// content in place of a value. Without a value there must be an element in
/// the content: whitespace alone is no content.
fn parse_let(document: &XmlDocument, n: usize) -> (result: Result<LetBinding, ParseError>)
    requires
        n < document@.nodes.len(),
        document@.nodes[n as int].is_element,
    ensures
        crate::error::outcome(result) == document@.let_of(n as int),
{
    let name = match required_attribute(document, n, "let", "name") {
        Ok(name) => name,
        Err(error) => {
            return Err(error);
        },
    };
    if let Some(value) = document.attribute(n, "value") {
        Ok(LetBinding { name, value: LetValue::Expr(value.to_owned()) })
    } else if has_element_child(document, n) {
        let mut text = String::new();
        collect_literal_text(document, n, &mut text);
        Ok(LetBinding { name, value: LetValue::Literal(text) })
    } else {
        Err(
            ParseError::MissingAttribute {
                element: "let",
                attribute: "value",
                position: document.position(n),
            },
        )
    }
}

/// Parses the `<let>` children of node `n`.
fn collect_lets(document: &XmlDocument, n: usize) -> (result: Result<Vec<LetBinding>, ParseError>)
    requires
        n < document@.nodes.len(),
    ensures
        crate::error::outcome(result) == document@.lets_of(n as int),
{
    let read = |c: usize| -> (r: Result<LetBinding, ParseError>)
        requires
            c < document@.nodes.len(),
            document@.nodes[c as int].is_element,
        ensures
            crate::error::outcome(r) == document@.let_of(c as int),
        { parse_let(document, c) };
    collect_children(document, n, "let", read, Ghost(document@.let_reader()))
}

/// Appends the message content below node `n` to `parts`, in document order:
/// text, `<value-of>` and `<name>` at any depth. Other elements only
/// contribute what is inside them.
fn collect_message_parts(
    document: &XmlDocument,
    n: usize,
    parts: &mut Vec<MessagePart>,
    params: &Vec<(String, String)>,
) -> (result: Result<(), ParseError>)
    requires
        n < document@.nodes.len(),
    ensures
        match (
            result,
            document@.message_of(n as int, document@.children(n as int), params.deep_view()),
        ) {
            (Ok(_), Ok(more)) => final(parts).deep_view() == old(parts).deep_view() + more,
            (Err(error), Err(view)) => error.deep_view() == view,
            _ => false,
        },
    decreases document@.nodes.len() - n,
{
    let list = document.children(n);
    let ghost nodes = document@.children(n as int);
    let ghost pairs = params.deep_view();
    let ghost whole = crate::grammar::prepend(
        parts.deep_view(),
        document@.message_of(n as int, nodes, pairs),
    );
    let mut i: usize = 0;
    assert(nodes.skip(0) == nodes);
    while i < list.len()
        invariant
            i <= list@.len(),
            n < document@.nodes.len(),
            pairs == params.deep_view(),
            crate::xml::lists(list@, nodes),
            forall|i: int|
                0 <= i < list@.len() ==> n < #[trigger] list@[i] < document@.nodes.len(),
            crate::grammar::prepend(
                parts.deep_view(),
                document@.message_of(n as int, nodes.skip(i as int), pairs),
            ) == whole,
            whole == crate::grammar::prepend(
                old(parts).deep_view(),
                document@.message_of(n as int, document@.children(n as int), pairs),
            ),
        decreases list@.len() - i,
    {
        let c: usize = list[i];
        let ghost before = parts.deep_view();
        let ghost rest = nodes.skip(i as int);
        assert(rest[0] == c);
        assert(rest.skip(1) == nodes.skip(i + 1));
        let node = document.node(c);
        if node.is_text {
            if let Some(text) = &node.text {
                parts.push(MessagePart::Text(text.clone()));
            }
        } else if has_tag(document, c, "value-of") {
            match required_attribute(document, c, "value-of", "select") {
                Ok(select) => {
                    parts.push(MessagePart::ValueOf(substitute(select.as_str(), params)));
                },
                Err(error) => {
                    return Err(error);
                },
            }
        } else if has_tag(document, c, "name") {
            let path = match document.attribute(c, "path") {
                Some(path) => Some(substitute(path, params)),
                None => None,
            };
            parts.push(MessagePart::Name(path));
        } else if node.is_element {
            if let Err(error) = collect_message_parts(document, c, parts, params) {
                return Err(error);
            }
        }
        proof {
            let own = document@.message_of_child(n as int, c as int, pairs);
            assert(own is Ok);
            assert(parts.deep_view() == before + own->Ok_0);
            if let Ok(more) = document@.message_of(n as int, rest.skip(1), pairs) {
                assert(before + (own->Ok_0 + more) == parts.deep_view() + more);
            }
        }
        i += 1;
    }
    assert(nodes.skip(i as int).len() == 0);
    assert(parts.deep_view() + Seq::<crate::schema::MessagePartView>::empty()
        == parts.deep_view());
    Ok(())
}

/// Reads the message content of node `n`.
fn parse_message(document: &XmlDocument, n: usize, params: &Vec<(String, String)>) -> (result:
    Result<Vec<MessagePart>, ParseError>)
    requires
        n < document@.nodes.len(),
    ensures
        crate::error::outcome(result) == document@.message_of(
            n as int,
            document@.children(n as int),
            params.deep_view(),
        ),
{
    let mut message: Vec<MessagePart> = Vec::new();
    assert(message.deep_view() == Seq::<crate::schema::MessagePartView>::empty());
    match collect_message_parts(document, n, &mut message, params) {
        Ok(_) => Ok(message),
        Err(error) => Err(error),
    }
}

/// Parses a `<diagnostic id="..." role="...">`.
fn parse_diagnostic(document: &XmlDocument, n: usize) -> (result: Result<Diagnostic, ParseError>)
    requires
        n < document@.nodes.len(),
        document@.nodes[n as int].is_element,
    ensures
        crate::error::outcome(result) == document@.diagnostic_of(n as int),
{
    let id = match required_attribute(document, n, "diagnostic", "id") {
        Ok(id) => id,
        Err(error) => {
            return Err(error);
        },
    };
    let params: Vec<(String, String)> = Vec::new();
    assert(params.deep_view() == Seq::<(Seq<char>, Seq<char>)>::empty());
    let role = optional_attribute(document, n, "role");
    match parse_message(document, n, &params) {
        Ok(message) => Ok(Diagnostic { id, role, message }),
        Err(error) => Err(error),
    }
}

/// The first child of node `n` that is a Schematron element named `tag`.
fn find_child(document: &XmlDocument, n: usize, tag: &str) -> (result: Option<usize>)
    requires
        n < document@.nodes.len(),
    ensures
        match result {
            Some(c) => c < document@.nodes.len() && document@.first_tagged(
                document@.children(n as int),
                tag@,
            ) == Some(c as int),
            None => document@.first_tagged(document@.children(n as int), tag@) is None,
        },
{
    let list = document.children(n);
    let ghost nodes = document@.children(n as int);
    let mut i: usize = 0;
    assert(nodes.skip(0) == nodes);
    while i < list.len()
        invariant
            i <= list@.len(),
            nodes == document@.children(n as int),
            crate::xml::lists(list@, nodes),
            forall|i: int| 0 <= i < list@.len() ==> #[trigger] list@[i] < document@.nodes.len(),
            document@.first_tagged(nodes.skip(i as int), tag@) == document@.first_tagged(
                nodes,
                tag@,
            ),
        decreases list@.len() - i,
    {
        let c: usize = list[i];
        assert(nodes.skip(i as int)[0] == c);
        assert(nodes.skip(i as int).skip(1) == nodes.skip(i + 1));
        if has_tag(document, c, tag) {
            return Some(c);
        }
        i += 1;
    }
    None
}

/// Parses the diagnostics of the schema element `root`.
fn parse_diagnostics(document: &XmlDocument, root: usize) -> (result: Result<
    Vec<Diagnostic>,
    ParseError,
>)
    requires
        root < document@.nodes.len(),
    ensures
        crate::error::outcome(result) == document@.diagnostics_of(document@.children(root as int)),
{
    let list = match find_child(document, root, "diagnostics") {
        Some(list) => list,
        None => {
            let none: Vec<Diagnostic> = Vec::new();
            assert(none.deep_view() == Seq::<crate::schema::DiagnosticView>::empty());
            return Ok(none);
        },
    };
    if let Err(error) = validate_known_children(document, list, Container::Diagnostics) {
        return Err(error);
    }
    let read = |c: usize| -> (r: Result<Diagnostic, ParseError>)
        requires
            c < document@.nodes.len(),
            document@.nodes[c as int].is_element,
        ensures
            crate::error::outcome(r) == document@.diagnostic_of(c as int),
        { parse_diagnostic(document, c) };
    collect_children(document, list, "diagnostic", read, Ghost(document@.diagnostic_reader()))
}

/// Parses a `<property id="..." role="..." scheme="...">`.
fn parse_property(document: &XmlDocument, n: usize) -> (result: Result<Property, ParseError>)
    requires
        n < document@.nodes.len(),
        document@.nodes[n as int].is_element,
    ensures
        crate::error::outcome(result) == document@.property_of(n as int),
{
    let id = match required_attribute(document, n, "property", "id") {
        Ok(id) => id,
        Err(error) => {
            return Err(error);
        },
    };
    let scheme = optional_attribute(document, n, "scheme");
    let role = optional_attribute(document, n, "role");
    let params: Vec<(String, String)> = Vec::new();
    assert(params.deep_view() == Seq::<(Seq<char>, Seq<char>)>::empty());
    match parse_message(document, n, &params) {
        Ok(message) => Ok(Property { id, role, scheme, message }),
        Err(error) => Err(error),
    }
}

/// Parses the properties of the schema element `root`.
fn parse_properties(document: &XmlDocument, root: usize) -> (result: Result<
    Vec<Property>,
    ParseError,
>)
    requires
        root < document@.nodes.len(),
    ensures
        crate::error::outcome(result) == document@.properties_of(document@.children(root as int)),
{
    let list = match find_child(document, root, "properties") {
        Some(list) => list,
        None => {
            let none: Vec<Property> = Vec::new();
            assert(none.deep_view() == Seq::<crate::schema::PropertyView>::empty());
            return Ok(none);
        },
    };
    if let Err(error) = validate_known_children(document, list, Container::Properties) {
        return Err(error);
    }
    let read = |c: usize| -> (r: Result<Property, ParseError>)
        requires
            c < document@.nodes.len(),
            document@.nodes[c as int].is_element,
        ensures
            crate::error::outcome(r) == document@.property_of(c as int),
        { parse_property(document, c) };
    collect_children(document, list, "property", read, Ghost(document@.property_reader()))
}

/// Parses a `<param name="..." value="...">` of an abstract pattern's use.
fn parse_param(document: &XmlDocument, n: usize) -> (result: Result<(String, String), ParseError>)
    requires
        n < document@.nodes.len(),
        document@.nodes[n as int].is_element,
    ensures
        crate::error::outcome(result) == document@.param_of(n as int),
{
    match required_attribute(document, n, "param", "name") {
        Err(error) => Err(error),
        Ok(name) => match required_attribute(document, n, "param", "value") {
            Err(error) => Err(error),
            Ok(value) => Ok((name, value)),
        },
    }
}

/// The kind of check that node `n` is, if it is one.
fn check_kind(document: &XmlDocument, n: usize) -> (result: Option<CheckKind>)
    requires
        n < document@.nodes.len(),
    ensures
        result == document@.check_kind(n as int),
{
    if has_tag(document, n, "assert") {
        Some(CheckKind::Assert)
    } else if has_tag(document, n, "report") {
        Some(CheckKind::Report)
    } else {
        None
    }
}

/// Reads the diagnostics that check `n` refers to, each of which must be
/// among `known`.
fn parse_references(document: &XmlDocument, n: usize, known: &StringHashSet) -> (result: Result<
    Vec<String>,
    ParseError,
>)
    requires
        n < document@.nodes.len(),
        document@.nodes[n as int].is_element,
    ensures
        crate::error::outcome(result) == document@.references_of(n as int, known@),
{
    let ids: Vec<String> = match document.attribute(n, "diagnostics") {
        Some(list) => split_words(list),
        None => Vec::new(),
    };
    let ghost views = ids.deep_view();
    assert(views == (match document@.attribute(n as int, "diagnostics"@) {
        Some(list) => crate::text::words(list),
        None => seq![],
    }));
    let mut i: usize = 0;
    assert(views.skip(0) == views);
    while i < ids.len()
        invariant
            i <= ids@.len(),
            n < document@.nodes.len(),
            document@.nodes[n as int].is_element,
            views == ids.deep_view(),
            views == (match document@.attribute(n as int, "diagnostics"@) {
                Some(list) => crate::text::words(list),
                None => seq![],
            }),
            crate::grammar::first_outside(views.skip(i as int), known@)
                == crate::grammar::first_outside(views, known@),
        decreases ids@.len() - i,
    {
        assert(views.skip(i as int)[0] == ids@[i as int]@);
        assert(views.skip(i as int).skip(1) == views.skip(i + 1));
        if !known.contains(ids[i].as_str()) {
            return Err(
                ParseError::UnknownDiagnosticReference {
                    id: ids[i].clone(),
                    position: document.position(n),
                },
            );
        }
        i += 1;
    }
    Ok(ids)
}

/// Parses an `<assert>` or `<report>`.
fn parse_check(
    kind: CheckKind,
    document: &XmlDocument,
    n: usize,
    params: &Vec<(String, String)>,
    known: &StringHashSet,
) -> (result: Result<Check, ParseError>)
    requires
        n < document@.nodes.len(),
        document@.nodes[n as int].is_element,
    ensures
        crate::error::outcome(result) == document@.check_of(
            kind,
            n as int,
            params.deep_view(),
            known@,
        ),
{
    let element = match kind {
        CheckKind::Assert => "assert",
        CheckKind::Report => "report",
    };
    let test = match required_attribute(document, n, element, "test") {
        Ok(test) => substitute(test.as_str(), params),
        Err(error) => {
            return Err(error);
        },
    };
    let id = optional_attribute(document, n, "id");
    let role = optional_attribute(document, n, "role");
    let message = match parse_message(document, n, params) {
        Ok(message) => message,
        Err(error) => {
            return Err(error);
        },
    };
    match parse_references(document, n, known) {
        Ok(diagnostics) => Ok(Check { kind, test, id, role, message, diagnostics }),
        Err(error) => Err(error),
    }
}

/// The view of a list of nodes by identifier.
pub open spec fn entries_view(entries: Seq<(String, usize)>) -> Seq<(Seq<char>, int)> {
    Seq::new(entries.len(), |i: int| (entries[i].0@, entries[i].1 as int))
}

/// Whether every entry is an element of `document`.
pub open spec fn entries_in(entries: Seq<(String, usize)>, document: XmlDocument) -> bool {
    forall|i: int|
        0 <= i < entries.len() ==> (#[trigger] entries[i]).1 < document@.nodes.len()
            && document@.nodes[entries[i].1 as int].is_element
}

/// The node of the last of `entries` with the identifier `id`.
fn find_entry(entries: &Vec<(String, usize)>, id: &str, document: &XmlDocument) -> (result: Option<
    usize,
>)
    requires
        entries_in(entries@, *document),
    ensures
        match result {
            Some(n) => {
                &&& crate::grammar::entry_named(entries_view(entries@), id@) == Some(n as int)
                &&& n < document@.nodes.len()
                &&& document@.nodes[n as int].is_element
            },
            None => crate::grammar::entry_named(entries_view(entries@), id@) is None,
        },
{
    let ghost all = entries_view(entries@);
    let mut i: usize = entries.len();
    assert(all.take(i as int) == all);
    while i > 0
        invariant
            i <= entries@.len(),
            all == entries_view(entries@),
            entries_in(entries@, *document),
            crate::grammar::entry_named(all.take(i as int), id@) == crate::grammar::entry_named(
                all,
                id@,
            ),
        decreases i,
    {
        i -= 1;
        assert(all.take(i + 1).last() == all[i as int]);
        assert(all.take(i + 1).drop_last() == all.take(i as int));
        if entries[i].0.as_str().eq(id) {
            return Some(entries[i].1);
        }
    }
    None
}

/// Whether `id` is among `ids`.
pub(crate) fn contains_text(ids: &Vec<String>, id: &str) -> (result: bool)
    ensures
        result == ids.deep_view().contains(id@),
{
    let mut i: usize = 0;
    while i < ids.len()
        invariant
            i <= ids@.len(),
            forall|k: int| 0 <= k < i ==> (#[trigger] ids.deep_view()[k]) != id@,
        decreases ids@.len() - i,
    {
        if ids[i].as_str().eq(id) {
            assert(ids.deep_view()[i as int] == id@);
            return true;
        }
        i += 1;
    }
    false
}

/// Walks the children of the rule element `n`, appending its checks to
/// `checks` and its bindings to `lets`. An `<extends rule="...">` is replaced,
/// where it stands, by the content of the rule it names in the same pattern;
/// `visiting` are the rules being extended, which guards against cycles.
fn collect_checks(
    document: &XmlDocument,
    n: usize,
    rules: &Vec<(String, usize)>,
    params: &Vec<(String, String)>,
    visiting: &mut Vec<String>,
    checks: &mut Vec<Check>,
    lets: &mut Vec<LetBinding>,
    known: &StringHashSet,
) -> (result: Result<(), ParseError>)
    requires
        n < document@.nodes.len(),
        entries_in(rules@, *document),
    ensures
        match (
            result,
            document@.rule_content(
                document@.children(n as int),
                entries_view(rules@),
                params.deep_view(),
                old(visiting).deep_view(),
                known@,
            ),
        ) {
            (Ok(_), Ok(content)) => {
                &&& final(visiting).deep_view() == old(visiting).deep_view()
                &&& final(checks).deep_view() == old(checks).deep_view() + content.checks
                &&& final(lets).deep_view() == old(lets).deep_view() + content.lets
            },
            (Err(error), Err(view)) => error.deep_view() == view,
            _ => false,
        },
    decreases crate::grammar::unvisited(entries_view(rules@), old(visiting).deep_view()),
{
    let list = document.children(n);
    let ghost nodes = document@.children(n as int);
    let ghost entries = entries_view(rules@);
    let ghost pairs = params.deep_view();
    let ghost path = visiting.deep_view();
    let ghost start = RuleContent { checks: checks.deep_view(), lets: lets.deep_view() };
    let ghost whole = start.followed_by(
        document@.rule_content(nodes, entries, pairs, path, known@),
    );
    let mut i: usize = 0;
    assert(nodes.skip(0) == nodes);
    while i < list.len()
        invariant
            i <= list@.len(),
            crate::xml::lists(list@, nodes),
            forall|i: int| 0 <= i < list@.len() ==> #[trigger] list@[i] < document@.nodes.len(),
            entries_in(rules@, *document),
            nodes == document@.children(n as int),
            entries == entries_view(rules@),
            pairs == params.deep_view(),
            path == old(visiting).deep_view(),
            visiting.deep_view() == path,
            start == (RuleContent {
                checks: old(checks).deep_view(),
                lets: old(lets).deep_view(),
            }),
            whole == start.followed_by(
                document@.rule_content(nodes, entries, pairs, path, known@),
            ),
            (RuleContent { checks: checks.deep_view(), lets: lets.deep_view() }).followed_by(
                document@.rule_content(nodes.skip(i as int), entries, pairs, path, known@),
            ) == whole,
        decreases list@.len() - i,
    {
        let c: usize = list[i];
        let ghost before = RuleContent { checks: checks.deep_view(), lets: lets.deep_view() };
        let ghost rest = nodes.skip(i as int);
        assert(rest[0] == c);
        assert(rest.skip(1) == nodes.skip(i + 1));
        let ghost own = document@.rule_content_of_child(c as int, entries, pairs, path, known@);
        if let Some(kind) = check_kind(document, c) {
            match parse_check(kind, document, c, params, known) {
                Ok(check) => {
                    checks.push(check);
                },
                Err(error) => {
                    return Err(error);
                },
            }
        } else if has_tag(document, c, "let") {
            match parse_let(document, c) {
                Ok(binding) => {
                    lets.push(binding);
                },
                Err(error) => {
                    return Err(error);
                },
            }
        } else if has_tag(document, c, "extends") {
            let id = match required_attribute(document, c, "extends", "rule") {
                Ok(id) => id,
                Err(error) => {
                    return Err(error);
                },
            };
            let target = match find_entry(rules, id.as_str(), document) {
                Some(target) => target,
                None => {
                    return Err(
                        ParseError::UnknownRuleReference {
                            rule: id,
                            position: document.position(c),
                        },
                    );
                },
            };
            if contains_text(visiting, id.as_str()) {
                return Err(
                    ParseError::CyclicRuleExtends { rule: id, position: document.position(c) },
                );
            }
            proof {
                crate::grammar::lemma_unvisited_decreases(entries, path, id@);
            }
            let ghost extended = path.push(id@);
            visiting.push(id);
            assert(visiting.deep_view() == extended);
            if let Err(error) = collect_checks(
                document,
                target,
                rules,
                params,
                visiting,
                checks,
                lets,
                known,
            ) {
                return Err(error);
            }
            assert(visiting.deep_view() == extended);
            visiting.pop();
            assert(visiting.deep_view() == extended.drop_last());
            assert(extended.drop_last() == path);
        }
        proof {
            assert(own is Ok);
            let content = own->Ok_0;
            assert(checks.deep_view() == before.checks + content.checks);
            assert(lets.deep_view() == before.lets + content.lets);
            if let Ok(more) = document@.rule_content(rest.skip(1), entries, pairs, path, known@) {
                assert(before.checks + (content.checks + more.checks) == checks.deep_view()
                    + more.checks);
                assert(before.lets + (content.lets + more.lets) == lets.deep_view() + more.lets);
            }
        }
        i += 1;
    }
    proof {
        assert(nodes.skip(i as int).len() == 0);
        assert(checks.deep_view() + Seq::<crate::schema::CheckView>::empty()
            == checks.deep_view());
        assert(lets.deep_view() + Seq::<crate::schema::LetBindingView>::empty()
            == lets.deep_view());
    }
    Ok(())
}

/// Parses the concrete rule element `n`. `rules` are the rules of the same
/// pattern that have an identifier.
fn parse_rule(
    document: &XmlDocument,
    n: usize,
    rules: &Vec<(String, usize)>,
    params: &Vec<(String, String)>,
    known: &StringHashSet,
) -> (result: Result<Rule, ParseError>)
    requires
        n < document@.nodes.len(),
        document@.nodes[n as int].is_element,
        entries_in(rules@, *document),
    ensures
        crate::error::outcome(result) == document@.rule_of(
            n as int,
            entries_view(rules@),
            params.deep_view(),
            known@,
        ),
{
    if let Err(error) = validate_known_children(document, n, Container::Rule) {
        return Err(error);
    }
    let context = match required_attribute(document, n, "rule", "context") {
        Ok(context) => substitute(context.as_str(), params),
        Err(error) => {
            return Err(error);
        },
    };
    let mut visiting: Vec<String> = Vec::new();
    if let Some(id) = document.attribute(n, "id") {
        visiting.push(id.to_owned());
    }
    assert(visiting.deep_view() == (match document@.attribute(n as int, "id"@) {
        Some(id) => seq![id],
        None => seq![],
    }));
    let mut checks: Vec<Check> = Vec::new();
    let mut lets: Vec<LetBinding> = Vec::new();
    assert(checks.deep_view() == Seq::<crate::schema::CheckView>::empty());
    assert(lets.deep_view() == Seq::<crate::schema::LetBindingView>::empty());
    match collect_checks(
        document,
        n,
        rules,
        params,
        &mut visiting,
        &mut checks,
        &mut lets,
        known,
    ) {
        Ok(_) => Ok(Rule { context, lets, checks }),
        Err(error) => Err(error),
    }
}

/// Whether node `n` is declared `abstract="true"`.
fn is_abstract(document: &XmlDocument, n: usize) -> (result: bool)
    requires
        n < document@.nodes.len(),
    ensures
        result == document@.is_abstract(n as int),
{
    match document.attribute(n, "abstract") {
        Some(value) => value.eq("true"),
        None => false,
    }
}

/// The rule children of node `n` that have an identifier.
fn index_rules(document: &XmlDocument, n: usize) -> (result: Vec<(String, usize)>)
    requires
        n < document@.nodes.len(),
    ensures
        entries_view(result@) == document@.named_rules(document@.children(n as int)),
        entries_in(result@, *document),
{
    let list = document.children(n);
    let ghost nodes = document@.children(n as int);
    let mut rules: Vec<(String, usize)> = Vec::new();
    let mut i: usize = 0;
    assert(entries_view(rules@) == document@.named_rules(nodes.take(0)));
    while i < list.len()
        invariant
            i <= list@.len(),
            crate::xml::lists(list@, nodes),
            forall|i: int| 0 <= i < list@.len() ==> #[trigger] list@[i] < document@.nodes.len(),
            entries_view(rules@) == document@.named_rules(nodes.take(i as int)),
            entries_in(rules@, *document),
        decreases list@.len() - i,
    {
        let c: usize = list[i];
        let ghost before = entries_view(rules@);
        assert(nodes.take(i + 1).last() == c);
        assert(nodes.take(i + 1).drop_last() == nodes.take(i as int));
        if has_tag(document, c, "rule") {
            if let Some(id) = document.attribute(c, "id") {
                rules.push((id.to_owned(), c));
                assert(entries_view(rules@) == before.push((id@, c as int)));
            }
        }
        i += 1;
    }
    assert(nodes.take(i as int) == nodes);
    rules
}

/// Parses the pattern with the content of node `n` and the identifier `id`.
/// For the use of an abstract pattern, `n` is the abstract pattern, `id` is
/// that of its use, and `params` are the parameters given there.
fn parse_pattern(
    document: &XmlDocument,
    n: usize,
    id: Option<String>,
    params: &Vec<(String, String)>,
    known: &StringHashSet,
) -> (result: Result<Pattern, ParseError>)
    requires
        n < document@.nodes.len(),
    ensures
        crate::error::outcome(result) == document@.pattern_of(
            n as int,
            id.deep_view(),
            params.deep_view(),
            known@,
        ),
{
    if let Err(error) = validate_known_children(document, n, Container::Pattern) {
        return Err(error);
    }
    let lets = match collect_lets(document, n) {
        Ok(lets) => lets,
        Err(error) => {
            return Err(error);
        },
    };
    let named = index_rules(document, n);
    let list = document.children(n);
    let ghost nodes = document@.children(n as int);
    let ghost entries = entries_view(named@);
    let ghost pairs = params.deep_view();
    let mut rules: Vec<Rule> = Vec::new();
    let mut i: usize = 0;
    assert(nodes.skip(0) == nodes);
    assert(rules.deep_view() == Seq::<crate::schema::RuleView>::empty());
    while i < list.len()
        invariant
            i <= list@.len(),
            crate::xml::lists(list@, nodes),
            forall|i: int| 0 <= i < list@.len() ==> #[trigger] list@[i] < document@.nodes.len(),
            entries_in(named@, *document),
            nodes == document@.children(n as int),
            entries == entries_view(named@),
            entries == document@.named_rules(nodes),
            pairs == params.deep_view(),
            document@.known_children(n as int, Container::Pattern) is Ok,
            document@.lets_of(n as int) == Ok::<
                Seq<crate::schema::LetBindingView>,
                ParseErrorView,
            >(lets.deep_view()),
            crate::grammar::prepend(
                rules.deep_view(),
                document@.rules_of(nodes.skip(i as int), entries, pairs, known@),
            ) == document@.rules_of(nodes, entries, pairs, known@),
        decreases list@.len() - i,
    {
        let c: usize = list[i];
        let ghost rest = nodes.skip(i as int);
        assert(rest[0] == c);
        assert(rest.skip(1) == nodes.skip(i + 1));
        if has_tag(document, c, "rule") && !is_abstract(document, c) {
            match parse_rule(document, c, &named, params, known) {
                Ok(rule) => {
                    let ghost before = rules.deep_view();
                    rules.push(rule);
                    assert(rules.deep_view() == before.push(rule.deep_view()));
                    proof {
                        if let Ok(more) = document@.rules_of(rest.skip(1), entries, pairs, known@) {
                            assert(before + (seq![rule.deep_view()] + more) == rules.deep_view()
                                + more);
                        }
                    }
                },
                Err(error) => {
                    return Err(error);
                },
            }
        }
        i += 1;
    }
    assert(rules.deep_view() + Seq::<crate::schema::RuleView>::empty() == rules.deep_view());
    Ok(Pattern { id, lets, rules })
}

/// The abstract patterns among the children of the schema element `root`.
fn index_templates(document: &XmlDocument, root: usize) -> (result: Result<
    Vec<(String, usize)>,
    ParseError,
>)
    requires
        root < document@.nodes.len(),
    ensures
        match (result, document@.templates_of(document@.children(root as int))) {
            (Ok(templates), Ok(entries)) => entries_view(templates@) == entries && entries_in(
                templates@,
                *document,
            ),
            (Err(error), Err(view)) => error.deep_view() == view,
            _ => false,
        },
{
    let list = document.children(root);
    let ghost nodes = document@.children(root as int);
    let mut templates: Vec<(String, usize)> = Vec::new();
    let mut i: usize = 0;
    assert(nodes.skip(0) == nodes);
    assert(entries_view(templates@) == Seq::<(Seq<char>, int)>::empty());
    while i < list.len()
        invariant
            i <= list@.len(),
            nodes == document@.children(root as int),
            crate::xml::lists(list@, nodes),
            forall|i: int| 0 <= i < list@.len() ==> #[trigger] list@[i] < document@.nodes.len(),
            entries_in(templates@, *document),
            crate::grammar::prepend(
                entries_view(templates@),
                document@.templates_of(nodes.skip(i as int)),
            ) == document@.templates_of(nodes),
        decreases list@.len() - i,
    {
        let c: usize = list[i];
        let ghost rest = nodes.skip(i as int);
        assert(rest[0] == c);
        assert(rest.skip(1) == nodes.skip(i + 1));
        if has_tag(document, c, "pattern") && is_abstract(document, c) {
            match required_attribute(document, c, "pattern", "id") {
                Ok(id) => {
                    let ghost before = entries_view(templates@);
                    let ghost entry = (id@, c as int);
                    templates.push((id, c));
                    assert(entries_view(templates@) == before.push(entry));
                    proof {
                        if let Ok(more) = document@.templates_of(rest.skip(1)) {
                            assert(before + (seq![entry] + more) == entries_view(templates@)
                                + more);
                        }
                    }
                },
                Err(error) => {
                    return Err(error);
                },
            }
        }
        i += 1;
    }
    assert(entries_view(templates@) + Seq::<(Seq<char>, int)>::empty() == entries_view(templates@));
    Ok(templates)
}

/// Parses the concrete pattern element `n`, which may be the use of one of
/// the abstract patterns `templates`.
fn parse_pattern_at(
    document: &XmlDocument,
    n: usize,
    templates: &Vec<(String, usize)>,
    known: &StringHashSet,
) -> (result: Result<Pattern, ParseError>)
    requires
        n < document@.nodes.len(),
        document@.nodes[n as int].is_element,
        entries_in(templates@, *document),
    ensures
        crate::error::outcome(result) == document@.pattern_at(
            n as int,
            entries_view(templates@),
            known@,
        ),
{
    let id = optional_attribute(document, n, "id");
    let template = match document.attribute(n, "is-a") {
        Some(template) => template,
        None => {
            let params: Vec<(String, String)> = Vec::new();
            assert(params.deep_view() == Seq::<(Seq<char>, Seq<char>)>::empty());
            return parse_pattern(document, n, id, &params, known);
        },
    };
    if let Err(error) = validate_known_children(document, n, Container::PatternUse) {
        return Err(error);
    }
    let source = match find_entry(templates, template, document) {
        Some(source) => source,
        None => {
            return Err(
                ParseError::UnknownAbstractPattern {
                    pattern: template.to_owned(),
                    position: document.position(n),
                },
            );
        },
    };
    let read = |c: usize| -> (r: Result<(String, String), ParseError>)
        requires
            c < document@.nodes.len(),
            document@.nodes[c as int].is_element,
        ensures
            crate::error::outcome(r) == document@.param_of(c as int),
        { parse_param(document, c) };
    match collect_children(document, n, "param", read, Ghost(document@.param_reader())) {
        Ok(params) => parse_pattern(document, source, id, &params, known),
        Err(error) => Err(error),
    }
}

/// Parses the concrete patterns among the children of the schema element
/// `root`.
fn parse_patterns(
    document: &XmlDocument,
    root: usize,
    templates: &Vec<(String, usize)>,
    known: &StringHashSet,
) -> (result: Result<Vec<Pattern>, ParseError>)
    requires
        root < document@.nodes.len(),
        entries_in(templates@, *document),
    ensures
        crate::error::outcome(result) == document@.patterns_of(
            document@.children(root as int),
            entries_view(templates@),
            known@,
        ),
{
    let list = document.children(root);
    let ghost nodes = document@.children(root as int);
    let ghost entries = entries_view(templates@);
    let mut patterns: Vec<Pattern> = Vec::new();
    let mut i: usize = 0;
    assert(nodes.skip(0) == nodes);
    assert(patterns.deep_view() == Seq::<crate::schema::PatternView>::empty());
    while i < list.len()
        invariant
            i <= list@.len(),
            nodes == document@.children(root as int),
            crate::xml::lists(list@, nodes),
            forall|i: int| 0 <= i < list@.len() ==> #[trigger] list@[i] < document@.nodes.len(),
            entries_in(templates@, *document),
            entries == entries_view(templates@),
            crate::grammar::prepend(
                patterns.deep_view(),
                document@.patterns_of(nodes.skip(i as int), entries, known@),
            ) == document@.patterns_of(nodes, entries, known@),
        decreases list@.len() - i,
    {
        let c: usize = list[i];
        let ghost rest = nodes.skip(i as int);
        assert(rest[0] == c);
        assert(rest.skip(1) == nodes.skip(i + 1));
        if has_tag(document, c, "pattern") && !is_abstract(document, c) {
            match parse_pattern_at(document, c, templates, known) {
                Ok(pattern) => {
                    let ghost before = patterns.deep_view();
                    patterns.push(pattern);
                    assert(patterns.deep_view() == before.push(pattern.deep_view()));
                    proof {
                        if let Ok(more) = document@.patterns_of(rest.skip(1), entries, known@) {
                            assert(before + (seq![pattern.deep_view()] + more)
                                == patterns.deep_view() + more);
                        }
                    }
                },
                Err(error) => {
                    return Err(error);
                },
            }
        }
        i += 1;
    }
    assert(patterns.deep_view() + Seq::<crate::schema::PatternView>::empty()
        == patterns.deep_view());
    Ok(patterns)
}

/// Parses an `<active pattern="...">`, which must name one of the patterns
/// `known`.
fn parse_active(document: &XmlDocument, n: usize, known: &StringHashSet) -> (result: Result<
    String,
    ParseError,
>)
    requires
        n < document@.nodes.len(),
        document@.nodes[n as int].is_element,
    ensures
        crate::error::outcome(result) == document@.active_of(n as int, known@),
{
    match required_attribute(document, n, "active", "pattern") {
        Err(error) => Err(error),
        Ok(pattern) => {
            if known.contains(pattern.as_str()) {
                Ok(pattern)
            } else {
                Err(
                    ParseError::UnknownActivePattern { pattern, position: document.position(n) },
                )
            }
        },
    }
}

/// Parses a `<phase id="...">`, which activates patterns among `known`.
fn parse_phase(document: &XmlDocument, n: usize, known: &StringHashSet) -> (result: Result<
    Phase,
    ParseError,
>)
    requires
        n < document@.nodes.len(),
        document@.nodes[n as int].is_element,
    ensures
        crate::error::outcome(result) == document@.phase_of(n as int, known@),
{
    if let Err(error) = validate_known_children(document, n, Container::Phase) {
        return Err(error);
    }
    let id = match required_attribute(document, n, "phase", "id") {
        Ok(id) => id,
        Err(error) => {
            return Err(error);
        },
    };
    let lets = match collect_lets(document, n) {
        Ok(lets) => lets,
        Err(error) => {
            return Err(error);
        },
    };
    let read = |c: usize| -> (r: Result<String, ParseError>)
        requires
            c < document@.nodes.len(),
            document@.nodes[c as int].is_element,
        ensures
            crate::error::outcome(r) == document@.active_of(c as int, known@),
        { parse_active(document, c, known) };
    match collect_children(document, n, "active", read, Ghost(document@.active_reader(known@))) {
        Ok(active) => Ok(Phase { id, lets, active }),
        Err(error) => Err(error),
    }
}

/// Reads the query binding of the schema element `n`, which must stand for
/// XPath 1.0.
fn parse_query_binding(document: &XmlDocument, n: usize) -> (result: Result<
    Option<String>,
    ParseError,
>)
    requires
        n < document@.nodes.len(),
        document@.nodes[n as int].is_element,
    ensures
        crate::error::outcome(result) == document@.query_binding_of(n as int),
{
    match optional_attribute(document, n, "queryBinding") {
        None => Ok(None),
        Some(binding) => {
            if equals_ignoring_case("xslt", binding.as_str()) || equals_ignoring_case(
                "xpath",
                binding.as_str(),
            ) {
                Ok(Some(binding))
            } else {
                Err(
                    ParseError::UnsupportedQueryBinding { binding, position: document.position(n) },
                )
            }
        },
    }
}

/// The identifiers of `diagnostics`.
fn diagnostic_id_set(diagnostics: &Vec<Diagnostic>) -> (result: StringHashSet)
    ensures
        result@ == crate::grammar::diagnostic_ids(diagnostics.deep_view()),
{
    let ghost views = diagnostics.deep_view();
    let mut ids = StringHashSet::new();
    let mut i: usize = 0;
    while i < diagnostics.len()
        invariant
            i <= diagnostics@.len(),
            views == diagnostics.deep_view(),
            ids@ == crate::grammar::diagnostic_ids(views.take(i as int)),
        decreases diagnostics@.len() - i,
    {
        assert(views.take(i + 1).drop_last() == views.take(i as int));
        assert(views.take(i + 1).last() == diagnostics@[i as int].deep_view());
        ids.insert(diagnostics[i].id.clone());
        i += 1;
    }
    assert(views.take(i as int) == views);
    ids
}

/// The identifiers of `patterns`.
fn pattern_id_set(patterns: &Vec<Pattern>) -> (result: StringHashSet)
    ensures
        result@ == crate::grammar::pattern_ids(patterns.deep_view()),
{
    let ghost views = patterns.deep_view();
    let mut ids = StringHashSet::new();
    let mut i: usize = 0;
    while i < patterns.len()
        invariant
            i <= patterns@.len(),
            views == patterns.deep_view(),
            ids@ == crate::grammar::pattern_ids(views.take(i as int)),
        decreases patterns@.len() - i,
    {
        assert(views.take(i + 1).drop_last() == views.take(i as int));
        assert(views.take(i + 1).last() == patterns@[i as int].deep_view());
        if let Some(id) = &patterns[i].id {
            ids.insert(id.clone());
        }
        i += 1;
    }
    assert(views.take(i as int) == views);
    ids
}

/// Parses an XML document into the [`Schema`] that it stands for.
pub fn parse_document(document: &XmlDocument) -> (result: Result<Schema, ParseError>)
    ensures
        crate::error::outcome(result) == document@.schema(),
{
    let root = document.root_element();
    proof {
        crate::xml::lemma_root_element(document@);
    }
    if !has_tag(document, root, "schema") {
        let found = match &document.node(root).namespace {
            Some(found) => Some(found.clone()),
            None => None,
        };
        return Err(
            ParseError::WrongRootNamespace { found, position: document.position(root) },
        );
    }
    let schema = match parse_content(document, root) {
        Ok(schema) => schema,
        Err(error) => {
            return Err(error);
        },
    };
    match validate_placement(document, root) {
        Ok(_) => Ok(schema),
        Err(error) => Err(error),
    }
}

/// Parses the content of the schema element `root`.
fn parse_content(document: &XmlDocument, root: usize) -> (result: Result<Schema, ParseError>)
    requires
        root < document@.nodes.len(),
        document@.nodes[root as int].is_element,
    ensures
        crate::error::outcome(result) == document@.content_of(root as int),
{
    if let Err(error) = validate_known_children(document, root, Container::Schema) {
        return Err(error);
    }
    if let Err(error) = check_document_wide_id_uniqueness(document, root) {
        return Err(error);
    }
    let read = |c: usize| -> (r: Result<NamespaceBinding, ParseError>)
        requires
            c < document@.nodes.len(),
            document@.nodes[c as int].is_element,
        ensures
            crate::error::outcome(r) == document@.ns_of(c as int),
        { parse_ns(document, c) };
    let ns = match collect_children(document, root, "ns", read, Ghost(document@.ns_reader())) {
        Ok(ns) => ns,
        Err(error) => {
            return Err(error);
        },
    };
    let lets = match collect_lets(document, root) {
        Ok(lets) => lets,
        Err(error) => {
            return Err(error);
        },
    };
    let query_binding = match parse_query_binding(document, root) {
        Ok(query_binding) => query_binding,
        Err(error) => {
            return Err(error);
        },
    };
    parse_body(document, root, ns, lets, query_binding)
}

/// Parses what follows the header of the schema element `root`: diagnostics,
/// properties, patterns and phases. Diagnostics come before patterns, so that
/// checks can be held to them, and patterns before phases.
fn parse_body(
    document: &XmlDocument,
    root: usize,
    ns: Vec<NamespaceBinding>,
    lets: Vec<LetBinding>,
    query_binding: Option<String>,
) -> (result: Result<Schema, ParseError>)
    requires
        root < document@.nodes.len(),
        document@.nodes[root as int].is_element,
    ensures
        crate::error::outcome(result) == document@.body_of(
            root as int,
            ns.deep_view(),
            lets.deep_view(),
            query_binding.deep_view(),
        ),
{
    let diagnostics = match parse_diagnostics(document, root) {
        Ok(diagnostics) => diagnostics,
        Err(error) => {
            return Err(error);
        },
    };
    let known_diagnostics = diagnostic_id_set(&diagnostics);
    let properties = match parse_properties(document, root) {
        Ok(properties) => properties,
        Err(error) => {
            return Err(error);
        },
    };
    let templates = match index_templates(document, root) {
        Ok(templates) => templates,
        Err(error) => {
            return Err(error);
        },
    };
    let patterns = match parse_patterns(document, root, &templates, &known_diagnostics) {
        Ok(patterns) => patterns,
        Err(error) => {
            return Err(error);
        },
    };
    if patterns.len() == 0 {
        return Err(ParseError::NoPatterns);
    }
    let known_patterns = pattern_id_set(&patterns);
    let default_phase = optional_attribute(document, root, "defaultPhase");
    let read = |c: usize| -> (r: Result<Phase, ParseError>)
        requires
            c < document@.nodes.len(),
            document@.nodes[c as int].is_element,
        ensures
            crate::error::outcome(r) == document@.phase_of(c as int, known_patterns@),
        { parse_phase(document, c, &known_patterns) };
    match collect_children(
        document,
        root,
        "phase",
        read,
        Ghost(document@.phase_reader(known_patterns@)),
    ) {
        Ok(phases) => Ok(
            Schema {
                ns,
                lets,
                default_phase,
                phases,
                patterns,
                diagnostics,
                properties,
                query_binding,
            },
        ),
        Err(error) => Err(error),
    }
}

/// What parsing `xml` as a schema gives.
pub open spec fn parsed(xml: Seq<char>) -> Result<crate::schema::SchemaView, ParseErrorView> {
    match crate::xml::xml_nodes(xml) {
        Err(message) => Err(ParseErrorView::InvalidXml(message)),
        Ok(nodes) => (crate::xml::XmlTree { text: xml, nodes }).schema(),
    }
}

/// Parses a Schematron `.sch` XML document into a [`Schema`].
pub fn parse(xml: &str) -> (result: Result<Schema, ParseError>)
    ensures
        crate::error::outcome(result) == parsed(xml@),
{
    match XmlDocument::read(xml) {
        Ok(document) => parse_document(&document),
        Err(error) => Err(error),
    }
}

} // verus!
