//! Expansion of `<include href="...">` references before parsing.
//!
//! Every `<include>` is replaced, in the text, by the source of the root
//! element that its `href` resolves to, recursively; the result is then
//! parsed like any other schema.

use vstd::prelude::*;

use crate::error::{ParseError, ParseErrorView, Position};
use crate::parser::{
    collect_tagged, contains_text, has_tag, is_schematron_element, parse, required_attribute,
};
use crate::resolver::{ResolveError, SchemaResolver, SchemaSource};
use crate::schema::Schema;
use crate::xml;
use crate::xml::{slice_of, Replacement, XmlDocument, XmlTree};

verus! {

/// An `<include href="...">` in a text: its extent, reference and position.
pub struct Inclusion {
    pub start: usize,
    pub end: usize,
    pub href: String,
    pub position: Position,
}

/// The view of [`Inclusion`].
#[verifier::ext_equal]
pub struct InclusionView {
    pub start: usize,
    pub end: usize,
    pub href: Seq<char>,
    pub position: Position,
}

impl DeepView for Inclusion {
    type V = InclusionView;

    open spec fn deep_view(&self) -> InclusionView {
        InclusionView {
            start: self.start,
            end: self.end,
            href: self.href@,
            position: self.position,
        }
    }
}

/// What a resolver answered to one reference: a failure, or a text with its
/// base URI, together with the answers to the references in that text.
pub enum Answer {
    Failed(Seq<char>),
    Found { text: Seq<char>, base_uri: Seq<char>, nested: Seq<Answer> },
}

impl XmlTree {
    /// The inclusion that element `n` stands for.
    pub open spec fn inclusion_of(self, n: int) -> Result<InclusionView, ParseErrorView> {
        match self.required(n, "include"@, "href"@) {
            Err(error) => Err(error),
            Ok(href) => Ok(
                InclusionView {
                    start: self.nodes[n].start,
                    end: self.nodes[n].end,
                    href,
                    position: self.position(n),
                },
            ),
        }
    }

    pub open spec fn inclusion_reader(self) -> spec_fn(int) -> Result<
        InclusionView,
        ParseErrorView,
    > {
        |n: int| self.inclusion_of(n)
    }

    /// The inclusions of the document, in document order.
    pub open spec fn inclusions(self) -> Result<Seq<InclusionView>, ParseErrorView> {
        self.collect(
            self.descendants(self.root_element()->0),
            "include"@,
            self.inclusion_reader(),
        )
    }
}

/// The inclusions of `text`, in document order.
pub open spec fn inclusions_in(text: Seq<char>) -> Result<Seq<InclusionView>, ParseErrorView> {
    match crate::xml::xml_nodes(text) {
        Err(message) => Err(ParseErrorView::InvalidXml(message)),
        Ok(nodes) => (XmlTree { text, nodes }).inclusions(),
    }
}

/// What identifies a reference in a chain of inclusions.
pub open spec fn reference_key(base_uri: Seq<char>, href: Seq<char>) -> Seq<char> {
    base_uri + "::"@ + href
}

/// What replaces an inclusion whose reference leads to the text `resolved`.
pub open spec fn fragment(
    resolved: Seq<char>,
    href: Seq<char>,
    position: Position,
) -> Result<Seq<char>, ParseErrorView> {
    match crate::xml::xml_nodes(resolved) {
        Err(message) => Err(ParseErrorView::InvalidXml(message)),
        Ok(nodes) => {
            let tree = XmlTree { text: resolved, nodes };
            let root = tree.root_element()->0;
            if !tree.is_schematron(root) {
                Err(
                    ParseErrorView::InvalidInclude {
                        href,
                        reason: "included root element is not in the Schematron namespace"@,
                        position,
                    },
                )
            } else if tree.has_tag(root, "schema"@) {
                Err(
                    ParseErrorView::InvalidInclude {
                        href,
                        reason: "included content must be a fragment, not a whole <schema> (ISO reference: \"use include to include fragments, not a whole schema\")"@,
                        position,
                    },
                )
            } else {
                Ok(tree.source(root))
            }
        },
    }
}

/// `result`, where exactly `count` answers were asked for.
pub open spec fn after<T>(count: nat, answers: Seq<Answer>, result: T) -> Option<T> {
    if answers.len() == count {
        Some(result)
    } else {
        None
    }
}

/// `text` with its inclusions expanded, given the resolver's `answers` to its
/// references in order; `loading` are the references on the way to it. `None`
/// where these are not the answers that are asked for: too few, or more than
/// up to the first error.
pub open spec fn expanded(
    text: Seq<char>,
    base_uri: Seq<char>,
    loading: Seq<Seq<char>>,
    answers: Seq<Answer>,
) -> Option<Result<Seq<char>, ParseErrorView>>
    decreases answers, 1nat, 0nat,
{
    match inclusions_in(text) {
        Err(error) => after(0, answers, Err(error)),
        Ok(list) => spliced(text, base_uri, loading, list, 0, answers),
    }
}

/// The rest of `text` behind byte offset `cursor`, with the inclusions `list`
/// in it expanded.
pub open spec fn spliced(
    text: Seq<char>,
    base_uri: Seq<char>,
    loading: Seq<Seq<char>>,
    list: Seq<InclusionView>,
    cursor: int,
    answers: Seq<Answer>,
) -> Option<Result<Seq<char>, ParseErrorView>>
    decreases answers, 0nat, list.len(),
{
    if list.len() == 0 {
        after(
            0,
            answers,
            Ok(crate::xml::slice(text, cursor, vstd::utf8::encode_utf8(text).len() as int)),
        )
    } else {
        let next = list[0];
        let key = reference_key(base_uri, next.href);
        if next.start < cursor {
            after(
                0,
                answers,
                Err(
                    ParseErrorView::UnexpectedElement {
                        element: "include"@,
                        position: next.position,
                    },
                ),
            )
        } else if loading.contains(key) {
            after(
                0,
                answers,
                Err(ParseErrorView::CyclicInclude { href: next.href, position: next.position }),
            )
        } else if answers.len() == 0 {
            None
        } else {
            match answers[0] {
                Answer::Failed(message) => after(
                    1,
                    answers,
                    Err(
                        ParseErrorView::UnresolvableInclude {
                            href: next.href,
                            message,
                            position: next.position,
                        },
                    ),
                ),
                Answer::Found { text: found, base_uri: found_base, nested } => {
                    match expanded(found, found_base, loading.push(key), nested) {
                        None => None,
                        Some(Err(error)) => after(1, answers, Err(error)),
                        Some(Ok(resolved)) => match fragment(resolved, next.href, next.position) {
                            Err(error) => after(1, answers, Err(error)),
                            Ok(source) => with_prefix(
                                crate::xml::slice(text, cursor, next.start as int) + source,
                                spliced(
                                    text,
                                    base_uri,
                                    loading,
                                    list.skip(1),
                                    next.end as int,
                                    answers.skip(1),
                                ),
                            ),
                        },
                    }
                },
            }
        }
    }
}

/// A text put before the text of `rest`.
pub open spec fn with_prefix(
    prefix: Seq<char>,
    rest: Option<Result<Seq<char>, ParseErrorView>>,
) -> Option<Result<Seq<char>, ParseErrorView>> {
    match rest {
        Some(Ok(text)) => Some(Ok(prefix + text)),
        other => other,
    }
}

/// Whether `resolver` can answer `result` to the reference `href` from
/// `base_uri`.
pub open spec fn can_resolve<R: SchemaResolver>(
    resolver: R,
    href: Seq<char>,
    base_uri: Seq<char>,
    result: Result<SchemaSource, ResolveError>,
) -> bool {
    exists|h: &str, b: &str|
        h@ == href && b@ == base_uri && #[trigger] call_ensures(
            R::resolve,
            (&resolver, h, b),
            result,
        )
}

/// Whether `answers` are answers of `resolver` to the references in `text`,
/// in order.
pub open spec fn answers_to<R: SchemaResolver>(
    resolver: R,
    text: Seq<char>,
    base_uri: Seq<char>,
    answers: Seq<Answer>,
) -> bool
    decreases answers,
{
    match inclusions_in(text) {
        Err(_) => answers.len() == 0,
        Ok(list) => {
            &&& answers.len() <= list.len()
            &&& forall|i: int|
                0 <= i < answers.len() ==> is_answer(
                    resolver,
                    list[i].href,
                    base_uri,
                    #[trigger] answers[i],
                )
        },
    }
}

/// Whether `answer` is an answer of `resolver` to one reference, together
/// with its answers to the references in what it found.
pub open spec fn is_answer<R: SchemaResolver>(
    resolver: R,
    href: Seq<char>,
    base_uri: Seq<char>,
    answer: Answer,
) -> bool
    decreases answer,
{
    match answer {
        Answer::Failed(message) => exists|error: ResolveError|
            error.spec_message() == message && #[trigger] can_resolve(
                resolver,
                href,
                base_uri,
                Err(error),
            ),
        Answer::Found { text, base_uri: found_base, nested } => {
            &&& exists|source: SchemaSource|
                source.spec_text() == text && source.spec_base_uri() == found_base
                    && #[trigger] can_resolve(resolver, href, base_uri, Ok(source))
            &&& answers_to(resolver, text, found_base, nested)
        },
    }
}

/// Whether every text that was found, at any depth, has all its elements in a
/// namespace, as it has where its root element declares a default namespace.
pub open spec fn found_with_namespaces(answers: Seq<Answer>) -> bool
    decreases answers,
{
    forall|i: int| 0 <= i < answers.len() ==> has_namespaces(#[trigger] answers[i])
}

/// The same of one answer.
pub open spec fn has_namespaces(answer: Answer) -> bool
    decreases answer,
{
    match answer {
        Answer::Failed(_) => true,
        Answer::Found { text, base_uri: _, nested } => {
            &&& xml::xml_nodes(text) is Ok ==> xml::tree_of(text).has_namespaces()
            &&& found_with_namespaces(nested)
        },
    }
}

/// Whether a well-formed text holds no `<include>`.
pub open spec fn holds_no_inclusion(text: Seq<char>) -> bool {
    &&& xml::xml_nodes(text) is Ok
    &&& forall|n: int| #[trigger]
        xml::tree_of(text).is_document_element(n) ==> !xml::tree_of(text).has_tag(n, "include"@)
}

/// Whether `parts` replace every `<include>` of `outer`, by texts without
/// one.
pub open spec fn replaces_inclusions(outer: Seq<char>, parts: Seq<Replacement>) -> bool {
    &&& xml::can_join(outer, parts)
    &&& forall|i: int| 0 <= i < parts.len() ==> holds_no_inclusion((#[trigger] parts[i]).text)
    &&& forall|n: int| #[trigger]
        xml::tree_of(outer).is_document_element(n) && xml::tree_of(outer).has_tag(n, "include"@)
            ==> exists|i: int|
            0 <= i < parts.len() && (#[trigger] parts[i]).covers(xml::tree_of(outer), n)
}

/// Whether `text` is the text `outer` with every `<include>` replaced by an
/// element that holds none and has its own namespaces.
pub open spec fn is_expansion(text: Seq<char>, outer: Seq<char>) -> bool {
    exists|parts: Seq<Replacement>|
        text == #[trigger] xml::joined(outer, 0, parts) && replaces_inclusions(outer, parts)
}

/// An expanded text holds no inclusion, and its elements are in a namespace
/// where those of the text that was expanded are.
pub proof fn an_expansion_holds_no_inclusion(text: Seq<char>, outer: Seq<char>)
    requires
        xml::reads_joined(text, xml::xml_nodes(text)),
        is_expansion(text, outer),
    ensures
        match xml::xml_nodes(text) {
            Ok(_) => {
                &&& holds_no_inclusion(text)
                &&& inclusions_in(text) == Ok::<Seq<InclusionView>, ParseErrorView>(seq![])
                &&& xml::tree_of(outer).has_namespaces() ==> xml::tree_of(text).has_namespaces()
            },
            Err(message) => xml::is_over_limit(message),
        },
{
    let parts = choose|parts: Seq<Replacement>|
        text == #[trigger] xml::joined(outer, 0, parts) && replaces_inclusions(outer, parts);
    if let Ok(nodes) = xml::xml_nodes(text) {
        let tree = xml::tree_of(text);
        assert forall|n: int| #[trigger] tree.is_document_element(n) implies !tree.has_tag(
            n,
            "include"@,
        ) by {
            assert(xml::comes_from(nodes[n], outer, parts));
        }
        if xml::tree_of(outer).has_namespaces() {
            assert forall|n: int|
                0 <= n < tree.nodes.len() && tree.nodes[n].is_element implies (
            #[trigger] tree.nodes[n]).namespace is Some by {
                assert(xml::comes_from(nodes[n], outer, parts));
                if exists|m: int| #[trigger]
                    xml::tree_of(outer).is_document_element(m) && xml::tree_of(
                        outer,
                    ).nodes[m].same_name(nodes[n]) {
                    let m = choose|m: int| #[trigger]
                        xml::tree_of(outer).is_document_element(m) && xml::tree_of(
                            outer,
                        ).nodes[m].same_name(nodes[n]);
                    assert(xml::tree_of(outer).nodes[m].namespace is Some);
                } else {
                    let (i, m) = choose|i: int, m: int|
                        0 <= i < parts.len() && (#[trigger] xml::tree_of(
                            parts[i].text,
                        ).is_document_element(m)) && xml::tree_of(parts[i].text).nodes[m].same_name(
                            nodes[n],
                        );
                    assert(parts[i].replaces_element(outer));
                    assert(xml::tree_of(parts[i].text).nodes[m].namespace is Some);
                }
            }
        }
        let list = tree.descendants(tree.root_element()->0);
        assert forall|i: int| 0 <= i < list.len() implies !tree.has_tag(
            #[trigger] list[i],
            "include"@,
        ) by {
            xml::lemma_descendants_within(
                tree,
                tree.root_element()->0,
                tree.nodes.len() as int,
                list[i],
            );
            assert(list.contains(list[i]));
            if tree.nodes[list[i]].is_element {
                assert(tree.is_document_element(list[i]));
            }
        }
        lemma_collect_none(tree, list);
    }
}

/// Nothing is collected where there is no inclusion.
proof fn lemma_collect_none(tree: XmlTree, nodes: Seq<int>)
    requires
        forall|i: int| 0 <= i < nodes.len() ==> !tree.has_tag(#[trigger] nodes[i], "include"@),
    ensures
        tree.collect(nodes, "include"@, tree.inclusion_reader()) == Ok::<
            Seq<InclusionView>,
            ParseErrorView,
        >(seq![]),
    decreases nodes.len(),
{
    if nodes.len() > 0 {
        assert forall|i: int| 0 <= i < nodes.skip(1).len() implies !tree.has_tag(
            #[trigger] nodes.skip(1)[i],
            "include"@,
        ) by {
            assert(nodes.skip(1)[i] == nodes[i + 1]);
        }
        assert(!tree.has_tag(nodes[0], "include"@));
        lemma_collect_none(tree, nodes.skip(1));
    }
}

/// Whether `inclusion` has the extent of an element.
spec fn is_element_of(tree: XmlTree, inclusion: InclusionView) -> bool {
    exists|n: int| #[trigger]
        tree.is_document_element(n) && tree.nodes[n].start == inclusion.start
            && tree.nodes[n].end == inclusion.end
}

/// Whether one of `list` has the extent of node `n`.
spec fn is_listed(tree: XmlTree, n: int, list: Seq<InclusionView>) -> bool {
    exists|i: int|
        0 <= i < list.len() && (#[trigger] list[i]).start == tree.nodes[n].start && list[i].end
            == tree.nodes[n].end
}

/// Every `<include>` is collected.
proof fn lemma_collect_all(tree: XmlTree, nodes: Seq<int>, n: int)
    requires
        nodes.contains(n),
        tree.has_tag(n, "include"@),
    ensures
        tree.collect(nodes, "include"@, tree.inclusion_reader()) matches Ok(list) ==> is_listed(
            tree,
            n,
            list,
        ),
    decreases nodes.len(),
{
    let rest = nodes.skip(1);
    let read = tree.inclusion_reader();
    if let Ok(list) = tree.collect(nodes, "include"@, read) {
        if nodes[0] == n {
            assert(read(n) == Ok::<InclusionView, ParseErrorView>(list[0]));
            assert(tree.inclusion_of(n) == Ok::<InclusionView, ParseErrorView>(list[0]));
        } else {
            let j = choose|j: int| 0 <= j < nodes.len() && nodes[j] == n;
            assert(rest[j - 1] == n);
            lemma_collect_all(tree, rest, n);
            let more = tree.collect(rest, "include"@, read)->Ok_0;
            let i = choose|i: int|
                0 <= i < more.len() && (#[trigger] more[i]).start == tree.nodes[n].start
                    && more[i].end == tree.nodes[n].end;
            if tree.has_tag(nodes[0], "include"@) {
                assert(list[i + 1] == more[i]);
            } else {
                assert(list[i] == more[i]);
            }
        }
    }
}

/// The inclusions of a document are its `<include>` elements.
proof fn lemma_inclusions_are_elements(tree: XmlTree)
    ensures
        tree.inclusions() matches Ok(list) ==> {
            &&& forall|i: int| 0 <= i < list.len() ==> is_element_of(tree, #[trigger] list[i])
            &&& forall|n: int|
                (#[trigger] tree.is_document_element(n)) && tree.has_tag(n, "include"@)
                    ==> is_listed(tree, n, list)
        },
{
    let root = tree.root_element()->0;
    let nodes = tree.descendants(root);
    let read = tree.inclusion_reader();
    crate::grammar::lemma_collect(tree, nodes, "include"@, read);
    if let Ok(list) = tree.inclusions() {
        assert forall|i: int| 0 <= i < list.len() implies is_element_of(tree, #[trigger] list[i]) by {
            assert(crate::grammar::collected_from(tree, nodes, "include"@, read, list[i]));
            let n = choose|n: int| #[trigger]
                nodes.contains(n) && tree.has_tag(n, "include"@) && read(n) == Ok::<
                    InclusionView,
                    ParseErrorView,
                >(list[i]);
            xml::lemma_descendants_within(tree, root, tree.nodes.len() as int, n);
            assert(tree.inclusion_of(n) == Ok::<InclusionView, ParseErrorView>(list[i]));
            assert(tree.is_document_element(n));
        }
        assert forall|n: int|
            (#[trigger] tree.is_document_element(n)) && tree.has_tag(
                n,
                "include"@,
            ) implies is_listed(tree, n, list) by {
            xml::lemma_descendants_within(tree, root, tree.nodes.len() as int, n);
            lemma_collect_all(tree, nodes, n);
        }
    }
}

/// Reads the inclusion that element `n` stands for.
fn parse_inclusion(document: &XmlDocument, n: usize) -> (result: Result<Inclusion, ParseError>)
    requires
        n < document@.nodes.len(),
        document@.nodes[n as int].is_element,
    ensures
        crate::error::outcome(result) == document@.inclusion_of(n as int),
{
    match required_attribute(document, n, "include", "href") {
        Err(error) => Err(error),
        Ok(href) => {
            let (start, end) = document.extent(n);
            Ok(Inclusion { start, end, href, position: document.position(n) })
        },
    }
}

/// Whether an inclusion's extent lies in `text`.
pub open spec fn fits(text: Seq<char>, inclusion: InclusionView) -> bool {
    &&& inclusion.start <= inclusion.end
    &&& crate::xml::is_boundary(text, inclusion.start as int)
    &&& crate::xml::is_boundary(text, inclusion.end as int)
}

/// The inclusions of a document lie in its text.
proof fn lemma_inclusions_fit(tree: XmlTree)
    requires
        tree.well_formed(),
    ensures
        tree.inclusions() matches Ok(list) ==> forall|i: int|
            0 <= i < list.len() ==> fits(tree.text, #[trigger] list[i]),
{
    let nodes = tree.descendants(tree.root_element()->0);
    let read = tree.inclusion_reader();
    crate::grammar::lemma_collect(tree, nodes, "include"@, read);
    crate::xml::lemma_descendants(tree, tree.root_element()->0, tree.nodes.len() as int);
    if let Ok(list) = tree.inclusions() {
        assert forall|i: int| 0 <= i < list.len() implies fits(tree.text, #[trigger] list[i]) by {
            assert(crate::grammar::collected_from(tree, nodes, "include"@, read, list[i]));
            let n = choose|n: int| #[trigger]
                nodes.contains(n) && tree.has_tag(n, "include"@) && read(n) == Ok::<
                    InclusionView,
                    ParseErrorView,
                >(list[i]);
            let j = choose|j: int| 0 <= j < nodes.len() && nodes[j] == n;
            assert(0 <= nodes[j] < tree.nodes.len());
            assert(tree.extent_in_text(n));
        }
    }
}

/// Finds the inclusions of a document, in document order.
fn find_inclusions(document: &XmlDocument) -> (result: Result<Vec<Inclusion>, ParseError>)
    ensures
        crate::error::outcome(result) == document@.inclusions(),
        result matches Ok(list) ==> forall|i: int|
            0 <= i < list@.len() ==> fits(document@.text, (#[trigger] list@[i]).deep_view()),
{
    let root = document.root_element();
    let list = document.descendants(root);
    let read = |c: usize| -> (r: Result<Inclusion, ParseError>)
        requires
            c < document@.nodes.len(),
            document@.nodes[c as int].is_element,
        ensures
            crate::error::outcome(r) == document@.inclusion_of(c as int),
        { parse_inclusion(document, c) };
    let result = collect_tagged(
        document,
        &list,
        Ghost(document@.descendants(root as int)),
        "include",
        read,
        Ghost(document@.inclusion_reader()),
    );
    proof {
        lemma_inclusions_fit(document@);
        if let Ok(found) = &result {
            assert forall|i: int| 0 <= i < found@.len() implies fits(
                document@.text,
                (#[trigger] found@[i]).deep_view(),
            ) by {
                assert(found.deep_view()[i] == found@[i].deep_view());
            }
        }
    }
    result
}

/// What replaces an inclusion whose reference leads to the text `resolved`:
/// the source of its root element, which must be a Schematron element other
/// than `<schema>`.
pub fn included_fragment(resolved: &str, href: &str, position: Position) -> (result: Result<
    String,
    ParseError,
>)
    ensures
        crate::error::outcome(result) == fragment(resolved@, href@, position),
        xml::reads_joined(resolved@, xml::xml_nodes(resolved@)),
{
    let document = match XmlDocument::read(resolved) {
        Ok(document) => document,
        Err(error) => {
            return Err(error);
        },
    };
    let root = document.root_element();
    proof {
        crate::xml::lemma_root_element(document@);
    }
    if !is_schematron_element(&document, root) {
        return Err(
            ParseError::InvalidInclude {
                href: href.to_owned(),
                reason: "included root element is not in the Schematron namespace",
                position,
            },
        );
    }
    if has_tag(&document, root, "schema") {
        return Err(
            ParseError::InvalidInclude {
                href: href.to_owned(),
                reason: "included content must be a fragment, not a whole <schema> (ISO reference: \"use include to include fragments, not a whole schema\")",
                position,
            },
        );
    }
    Ok(document.source(root))
}

/// What identifies a reference in a chain of inclusions.
fn key_of(base_uri: &str, href: &str) -> (result: String)
    ensures
        result@ == reference_key(base_uri@, href@),
{
    let mut key = base_uri.to_owned();
    key.push_str("::");
    key.push_str(href);
    key
}

/// Expands the inclusions in `xml`, and in what they lead to. `loading` are
/// the references on the way to `xml`, which guards against cycles. The
/// second part of the result are the resolver's answers; it is not asked for
/// more than these.
///
/// Where every text that was found has its elements in namespaces of its own,
/// the expanded text holds no inclusion: expanding it again gives the same
/// text, and no resolver is asked. A text with an element in no namespace may
/// get one there from the default namespace around it.
pub fn resolve_includes<R: SchemaResolver>(
    xml: &str,
    base_uri: &str,
    resolver: &R,
    loading: &mut Vec<String>,
) -> (result: (Result<String, ParseError>, Ghost<Seq<Answer>>))
    ensures
        answers_to(*resolver, xml@, base_uri@, result.1@),
        expanded(xml@, base_uri@, old(loading).deep_view(), result.1@) == Some(
            crate::error::outcome(result.0),
        ),
        final(loading).deep_view() == old(loading).deep_view(),
        found_with_namespaces(result.1@) ==> (result.0 matches Ok(text) ==> is_expansion(
            text@,
            xml@,
        )),
        forall|outer: Seq<char>| #[trigger]
            is_expansion(xml@, outer) ==> result.1@.len() == 0 && (match result.0 {
                Ok(text) => text@ == xml@,
                Err(error) => error.deep_view() matches ParseErrorView::InvalidXml(message)
                    && xml::is_over_limit(message),
            }),
    decreases usize::MAX - old(loading)@.len(),
{
    let ghost none: Seq<Answer> = seq![];
    let reading = XmlDocument::read(xml);
    proof {
        assert forall|outer: Seq<char>| #[trigger] is_expansion(xml@, outer) implies match xml::xml_nodes(
            xml@,
        ) {
            Ok(_) => inclusions_in(xml@) == Ok::<Seq<InclusionView>, ParseErrorView>(seq![]),
            Err(message) => xml::is_over_limit(message),
        } by {
            an_expansion_holds_no_inclusion(xml@, outer);
        }
    }
    let document = match reading {
        Ok(document) => document,
        Err(error) => {
            return (Err(error), Ghost(none));
        },
    };
    let list = match find_inclusions(&document) {
        Ok(list) => list,
        Err(error) => {
            return (Err(error), Ghost(none));
        },
    };
    let ghost views = list.deep_view();
    let ghost path = loading.deep_view();
    let ghost mut answers: Seq<Answer> = seq![];
    let ghost mut parts: Seq<Replacement> = seq![];
    let mut result = String::new();
    let mut cursor: usize = 0;
    let mut i: usize = 0;
    proof {
        broadcast use vstd::utf8::encode_utf8_valid_utf8;

        assert(crate::xml::is_boundary(xml@, 0));
        assert forall|more: Seq<Answer>| #[trigger]
            spliced(xml@, base_uri@, path, views, 0, answers + more) == with_prefix(
                result@,
                spliced(xml@, base_uri@, path, views.skip(i as int), cursor as int, more),
            ) by {
            assert(answers + more == more);
            assert(views.skip(0) == views);
            let rest = spliced(xml@, base_uri@, path, views, 0, more);
            if let Some(Ok(text)) = rest {
                assert(result@ + text == text);
            }
        }
        assert forall|more: Seq<Replacement>| #[trigger]
            xml::joined(xml@, 0, parts + more) == result@ + xml::joined(
                xml@,
                cursor as int,
                more,
            ) by {
            assert(parts + more == more);
            assert(result@ + xml::joined(xml@, 0, more) == xml::joined(xml@, 0, more));
        }
        lemma_inclusions_are_elements(document@);
        assert(document@ == xml::tree_of(xml@));
    }
    while i < list.len()
        invariant
            i <= list@.len(),
            views == list.deep_view(),
            inclusions_in(xml@) == Ok::<Seq<InclusionView>, ParseErrorView>(views),
            forall|k: int|
                0 <= k < list@.len() ==> fits(xml@, (#[trigger] list@[k]).deep_view()),
            crate::xml::is_boundary(xml@, cursor as int),
            path == old(loading).deep_view(),
            loading.deep_view() == path,
            answers.len() == i,
            forall|k: int|
                0 <= k < answers.len() ==> is_answer(
                    *resolver,
                    views[k].href,
                    base_uri@,
                    #[trigger] answers[k],
                ),
            forall|more: Seq<Answer>| #[trigger]
                spliced(xml@, base_uri@, path, views, 0, answers + more) == with_prefix(
                    result@,
                    spliced(xml@, base_uri@, path, views.skip(i as int), cursor as int, more),
                ),
            xml::xml_nodes(xml@) is Ok,
            forall|k: int|
                0 <= k < views.len() ==> is_element_of(xml::tree_of(xml@), #[trigger] views[k]),
            parts.len() == i,
            forall|k: int|
                0 <= k < parts.len() ==> (#[trigger] parts[k]).start == views[k].start
                    && parts[k].end == views[k].end && (k > 0 ==> parts[k - 1].end
                    <= parts[k].start),
            i == 0 ==> cursor == 0,
            i > 0 ==> cursor == views[i - 1].end,
            found_with_namespaces(answers) ==> forall|k: int|
                0 <= k < parts.len() ==> (#[trigger] parts[k]).replaces_element(xml@)
                    && holds_no_inclusion(parts[k].text),
            forall|more: Seq<Replacement>| #[trigger]
                xml::joined(xml@, 0, parts + more) == result@ + xml::joined(
                    xml@,
                    cursor as int,
                    more,
                ),
            forall|outer: Seq<char>| #[trigger] is_expansion(xml@, outer) ==> views.len() == 0,
        decreases list@.len() - i,
    {
        let next = &list[i];
        let ghost rest = views.skip(i as int);
        assert(rest[0] == next.deep_view());
        assert(fits(xml@, next.deep_view()));
        assert(rest.skip(1) == views.skip(i + 1));
        assert(answers + Seq::<Answer>::empty() == answers);
        if next.start < cursor {
            assert(spliced(xml@, base_uri@, path, views, 0, answers + Seq::<Answer>::empty())
                is Some);
            return (
                Err(
                    ParseError::UnexpectedElement {
                        element: "include".to_owned(),
                        position: next.position,
                    },
                ),
                Ghost(answers),
            );
        }
        let before = slice_of(xml, cursor, next.start);
        let key = key_of(base_uri, next.href.as_str());
        if contains_text(loading, key.as_str()) {
            assert(spliced(xml@, base_uri@, path, views, 0, answers + Seq::<Answer>::empty())
                is Some);
            return (
                Err(
                    ParseError::CyclicInclude {
                        href: next.href.clone(),
                        position: next.position,
                    },
                ),
                Ghost(answers),
            );
        }
        let ghost longer = path.push(key@);
        loading.push(key);
        let depth: usize = loading.len();
        assert(loading.deep_view() == longer);
        assert(depth == longer.len() && old(loading)@.len() == path.len());
        let answer = resolver.resolve(next.href.as_str(), base_uri);
        proof {
            assert(can_resolve(*resolver, next.href@, base_uri@, answer));
        }
        let source = match answer {
            Ok(source) => source,
            Err(error) => {
                loading.pop();
                assert(loading.deep_view() == longer.drop_last());
                assert(longer.drop_last() == path);
                let message = error.to_string();
                proof {
                    let last = Answer::Failed(message@);
                    assert(is_answer(*resolver, views[i as int].href, base_uri@, last));
                    assert(spliced(xml@, base_uri@, path, views, 0, answers + seq![last])
                        is Some);
                    assert(answers + seq![last] == answers.push(last));
                    answers = answers.push(last);
                }
                return (
                    Err(
                        ParseError::UnresolvableInclude {
                            href: next.href.clone(),
                            message,
                            position: next.position,
                        },
                    ),
                    Ghost(answers),
                );
            },
        };
        let (expansion, Ghost(nested)) = resolve_includes(
            source.text(),
            source.base_uri(),
            resolver,
            loading,
        );
        let ghost last = Answer::Found {
            text: source.spec_text(),
            base_uri: source.spec_base_uri(),
            nested,
        };
        proof {
            assert(is_answer(*resolver, views[i as int].href, base_uri@, last));
            assert(answers + seq![last] == answers.push(last));
            assert(spliced(xml@, base_uri@, path, views, 0, answers + seq![last]) == with_prefix(
                result@,
                spliced(xml@, base_uri@, path, rest, cursor as int, seq![last]),
            ));
        }
        assert(loading.deep_view() == longer);
        loading.pop();
        assert(loading.deep_view() == longer.drop_last());
        assert(longer.drop_last() == path);
        let resolved = match expansion {
            Ok(resolved) => resolved,
            Err(error) => {
                return (Err(error), Ghost(answers.push(last)));
            },
        };
        let source_text = match included_fragment(
            resolved.as_str(),
            next.href.as_str(),
            next.position,
        ) {
            Ok(source_text) => source_text,
            Err(error) => {
                return (Err(error), Ghost(answers.push(last)));
            },
        };
        let ghost done = result@;
        let ghost piece = before@ + source_text@;
        result.push_str(before.as_str());
        result.push_str(source_text.as_str());
        proof {
            assert(result@ == done + piece);
            let old_answers = answers;
            let old_cursor = cursor;
            let part = Replacement {
                start: next.start as int,
                end: next.end as int,
                text: resolved@,
            };
            let old_parts = parts;
            parts = parts.push(part);
            assert(views[i as int] == next.deep_view());
            assert forall|more: Seq<Replacement>| #[trigger]
                xml::joined(xml@, 0, parts + more) == result@ + xml::joined(
                    xml@,
                    next.end as int,
                    more,
                ) by {
                let longer_parts = seq![part] + more;
                assert(old_parts + longer_parts == parts + more);
                assert(longer_parts[0] == part);
                assert(longer_parts.skip(1) == more);
                assert(part.source() == source_text@);
                assert(xml::joined(xml@, old_cursor as int, longer_parts) == piece + xml::joined(
                    xml@,
                    next.end as int,
                    more,
                ));
                assert(done + (piece + xml::joined(xml@, next.end as int, more)) == result@
                    + xml::joined(xml@, next.end as int, more));
            }
            if found_with_namespaces(answers.push(last)) {
                assert(answers.push(last)[answers.len() as int] == last);
                assert(has_namespaces(last));
                assert forall|k: int| 0 <= k < answers.len() implies has_namespaces(
                    #[trigger] answers[k],
                ) by {
                    assert(answers.push(last)[k] == answers[k]);
                }
                assert(is_expansion(resolved@, source.spec_text()));
                an_expansion_holds_no_inclusion(resolved@, source.spec_text());
                assert(is_element_of(xml::tree_of(xml@), views[i as int]));
                assert(part.replaces_element(xml@));
                assert forall|k: int| 0 <= k < parts.len() implies (
                #[trigger] parts[k]).replaces_element(xml@) && holds_no_inclusion(
                    parts[k].text,
                ) by {
                    if k < old_parts.len() {
                        assert(parts[k] == old_parts[k]);
                    }
                }
            }
            assert forall|k: int| 0 <= k < parts.len() implies (#[trigger] parts[k]).start
                == views[k].start && parts[k].end == views[k].end && (k > 0 ==> parts[k - 1].end
                <= parts[k].start) by {
                if k < old_parts.len() {
                    assert(parts[k] == old_parts[k]);
                }
                if k > 0 {
                    assert(parts[k - 1] == old_parts[k - 1]);
                }
            }
            answers = answers.push(last);
            assert forall|more: Seq<Answer>| #[trigger]
                spliced(xml@, base_uri@, path, views, 0, answers + more) == with_prefix(
                    result@,
                    spliced(xml@, base_uri@, path, rest.skip(1), next.end as int, more),
                ) by {
                let longer_answers = seq![last] + more;
                assert(old_answers + longer_answers == answers + more);
                assert(longer_answers.skip(1) == more);
                assert(longer_answers[0] == last);
                let tail = spliced(xml@, base_uri@, path, rest.skip(1), next.end as int, more);
                assert(spliced(xml@, base_uri@, path, rest, old_cursor as int, longer_answers)
                    == with_prefix(piece, tail));
                if let Some(Ok(text)) = tail {
                    assert(done + (piece + text) == result@ + text);
                }
            }
        }
        cursor = next.end;
        i += 1;
    }
    proof {
        broadcast use vstd::utf8::encode_utf8_valid_utf8;

        vstd::utf8::is_char_boundary_start_end_of_seq(vstd::utf8::encode_utf8(xml@));
        assert(answers + Seq::<Answer>::empty() == answers);
        assert(views.skip(i as int).len() == 0);
        assert(spliced(xml@, base_uri@, path, views, 0, answers + Seq::<Answer>::empty())
            is Some);
    }
    let (_, tail) = xml.split_at(cursor);
    assert(tail@ == crate::xml::slice(
        xml@,
        cursor as int,
        vstd::utf8::encode_utf8(xml@).len() as int,
    )) by {
        vstd::utf8::encode_utf8_decode_utf8(tail@);
    }
    let ghost done = result@;
    result.push_str(tail);
    proof {
        assert(parts + Seq::<Replacement>::empty() == parts);
        assert(xml::joined(xml@, 0, parts + Seq::<Replacement>::empty()) == done + tail@);
        if found_with_namespaces(answers) {
            let tree = xml::tree_of(xml@);
            assert forall|n: int| #[trigger]
                tree.is_document_element(n) && tree.has_tag(n, "include"@) implies exists|k: int|
                0 <= k < parts.len() && (#[trigger] parts[k]).covers(tree, n) by {
                assert(is_listed(tree, n, views));
                let k = choose|k: int|
                    0 <= k < views.len() && (#[trigger] views[k]).start == tree.nodes[n].start
                        && views[k].end == tree.nodes[n].end;
                assert(parts[k].covers(tree, n));
            }
            assert(replaces_inclusions(xml@, parts));
            assert(is_expansion(result@, xml@));
        }
        if views.len() == 0 {
            xml::lemma_whole_slice(xml@);
        }
    }
    (Ok(result), Ghost(answers))
}

/// What parsing `xml` gives once its inclusions are expanded with `answers`.
pub open spec fn parsed_with(
    xml: Seq<char>,
    base_uri: Seq<char>,
    answers: Seq<Answer>,
) -> Option<Result<crate::schema::SchemaView, ParseErrorView>> {
    match expanded(xml, base_uri, seq![], answers) {
        None => None,
        Some(Err(error)) => Some(Err(error)),
        Some(Ok(text)) => Some(crate::parser::parsed(text)),
    }
}

/// Parses a Schematron `.sch` XML document into a [`Schema`], after replacing
/// every `<include href="...">` in it by what `resolver` finds for it.
///
/// `base_uri` is what `xml`'s own references resolve against; those in an
/// included text resolve against that text's base URI. Only a reference that
/// leads to a single Schematron element other than `<schema>` can be
/// included. The expanded text is then parsed as by [`crate::parse`], so an
/// included element must be one that its place admits.
pub fn parse_with_resolver<R: SchemaResolver>(xml: &str, base_uri: &str, resolver: &R) -> (result:
    Result<Schema, ParseError>)
    ensures
        exists|answers: Seq<Answer>| #[trigger]
            answers_to(*resolver, xml@, base_uri@, answers) && parsed_with(
                xml@,
                base_uri@,
                answers,
            ) == Some(crate::error::outcome(result)),
{
    let mut loading: Vec<String> = Vec::new();
    assert(loading.deep_view() == Seq::<Seq<char>>::empty());
    let (expansion, Ghost(answers)) = resolve_includes(xml, base_uri, resolver, &mut loading);
    let result = match expansion {
        Ok(text) => parse(text.as_str()),
        Err(error) => Err(error),
    };
    assert(answers_to(*resolver, xml@, base_uri@, answers));
    result
}

} // verus!
