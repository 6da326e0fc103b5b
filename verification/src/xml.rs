//! XML documents as flat, ordered lists of nodes.
//!
//! A document's nodes stand in document order, each with the index of its
//! parent; node 0 is the document node. The XML itself is read by
//! `roxmltree`, whose result is held here as plain values.

use vstd::prelude::*;
use vstd::utf8::*;

use crate::error::{ParseError, ParseErrorView, Position};

verus! {

/// One node of an XML document.
#[derive(Clone, Debug, PartialEq, Eq)]
pub struct XmlNode {
    /// The index of the parent node; `None` for the document node.
    pub parent: Option<usize>,
    pub is_element: bool,
    pub is_text: bool,
    /// The namespace of an element's name.
    pub namespace: Option<String>,
    /// The local part of an element's name.
    pub name: String,
    /// The local name and the value of each attribute, in document order.
    pub attributes: Vec<(String, String)>,
    /// The characters of a text node.
    pub text: Option<String>,
    /// Where the node begins in the document's text, as a byte offset.
    pub start: usize,
    /// Where the node ends in the document's text, as a byte offset.
    pub end: usize,
}

/// The view of [`XmlNode`].
#[verifier::ext_equal]
pub struct XmlNodeView {
    pub parent: Option<usize>,
    pub is_element: bool,
    pub is_text: bool,
    pub namespace: Option<Seq<char>>,
    pub name: Seq<char>,
    pub attributes: Seq<(Seq<char>, Seq<char>)>,
    pub text: Option<Seq<char>>,
    pub start: usize,
    pub end: usize,
}

impl DeepView for XmlNode {
    type V = XmlNodeView;

    open spec fn deep_view(&self) -> XmlNodeView {
        XmlNodeView {
            parent: self.parent,
            is_element: self.is_element,
            is_text: self.is_text,
            namespace: self.namespace.deep_view(),
            name: self.name@,
            attributes: self.attributes.deep_view(),
            text: self.text.deep_view(),
            start: self.start,
            end: self.end,
        }
    }
}

impl XmlNodeView {
    /// Whether two elements have the same namespace and local name.
    pub open spec fn same_name(self, other: XmlNodeView) -> bool {
        self.namespace == other.namespace && self.name == other.name
    }
}

/// The mathematical model of an XML document: its text and its nodes.
#[verifier::ext_equal]
pub struct XmlTree {
    pub text: Seq<char>,
    pub nodes: Seq<XmlNodeView>,
}

/// The part of `text` between two byte offsets.
pub open spec fn slice(text: Seq<char>, from: int, to: int) -> Seq<char> {
    decode_utf8(encode_utf8(text).subrange(from, to))
}

/// Whether `offset` is a byte offset between two characters of `text`, or at
/// either end of it.
pub open spec fn is_boundary(text: Seq<char>, offset: int) -> bool {
    0 <= offset <= encode_utf8(text).len() && is_char_boundary(encode_utf8(text), offset)
}

/// How many line breaks `text` holds.
pub open spec fn line_breaks(text: Seq<char>) -> nat
    decreases text.len(),
{
    if text.len() == 0 {
        0
    } else {
        line_breaks(text.drop_last()) + (if text.last() == '\n' {
            1nat
        } else {
            0
        })
    }
}

/// How many characters of `text` come after its last line break.
pub open spec fn last_line_len(text: Seq<char>) -> nat
    decreases text.len(),
{
    if text.len() == 0 || text.last() == '\n' {
        0
    } else {
        1 + last_line_len(text.drop_last())
    }
}

/// The position just behind the text `before`. Rows and columns are counted
/// from one, in `u32` arithmetic.
pub open spec fn position_after(before: Seq<char>) -> Position {
    Position {
        row: ((1 + line_breaks(before)) % 0x1_0000_0000) as u32,
        col: ((1 + last_line_len(before)) % 0x1_0000_0000) as u32,
    }
}

impl XmlTree {
    /// Whether node `m` is a child of node `n`.
    pub open spec fn is_child(self, n: int, m: int) -> bool {
        match self.nodes[m].parent {
            Some(parent) => parent == n,
            None => false,
        }
    }

    /// The children of node `n` among the first `k` nodes, in document order.
    pub open spec fn children_before(self, n: int, k: int) -> Seq<int>
        decreases k,
    {
        if k <= 0 {
            seq![]
        } else if self.is_child(n, k - 1) {
            self.children_before(n, k - 1).push(k - 1)
        } else {
            self.children_before(n, k - 1)
        }
    }

    /// The children of node `n`, in document order.
    pub open spec fn children(self, n: int) -> Seq<int> {
        self.children_before(n, self.nodes.len() as int)
    }

    /// The first element among `nodes`.
    pub open spec fn first_element(self, nodes: Seq<int>) -> Option<int>
        decreases nodes.len(),
    {
        if nodes.len() == 0 {
            None
        } else if self.nodes[nodes[0]].is_element {
            Some(nodes[0])
        } else {
            self.first_element(nodes.skip(1))
        }
    }

    /// The root element: the first element among the document node's
    /// children.
    pub open spec fn root_element(self) -> Option<int> {
        self.first_element(self.children(0))
    }

    /// Whether node `m` is node `n` or lies below it.
    pub open spec fn is_within(self, n: int, m: int) -> bool
        decreases m,
    {
        m == n || (match self.nodes[m].parent {
            Some(parent) => parent < m && self.is_within(n, parent as int),
            None => false,
        })
    }

    /// Node `n` and the nodes below it, among the first `k`, in document
    /// order.
    pub open spec fn descendants_before(self, n: int, k: int) -> Seq<int>
        decreases k,
    {
        if k <= 0 {
            seq![]
        } else if self.is_within(n, k - 1) {
            self.descendants_before(n, k - 1).push(k - 1)
        } else {
            self.descendants_before(n, k - 1)
        }
    }

    /// Node `n` and all nodes below it, in document order.
    pub open spec fn descendants(self, n: int) -> Seq<int> {
        self.descendants_before(n, self.nodes.len() as int)
    }

    /// Whether node `n` is the root element or an element below it.
    pub open spec fn is_document_element(self, n: int) -> bool {
        &&& 0 <= n < self.nodes.len()
        &&& self.nodes[n].is_element
        &&& self.is_within(self.root_element()->0, n)
    }

    /// Whether every element is in a namespace.
    pub open spec fn has_namespaces(self) -> bool {
        forall|n: int|
            0 <= n < self.nodes.len() && self.nodes[n].is_element
                ==> (#[trigger] self.nodes[n]).namespace is Some
    }

    /// The value of the first attribute of node `n` with the local name
    /// `name`.
    pub open spec fn attribute(self, n: int, name: Seq<char>) -> Option<Seq<char>> {
        first_value(self.nodes[n].attributes, name)
    }

    /// Whether node `n` is an element with this namespace and local name.
    pub open spec fn has_name(self, n: int, namespace: Seq<char>, name: Seq<char>) -> bool {
        &&& self.nodes[n].is_element
        &&& self.nodes[n].namespace == Some(namespace)
        &&& self.nodes[n].name == name
    }

    /// The position at which node `n` begins.
    pub open spec fn position(self, n: int) -> Position {
        position_after(slice(self.text, 0, self.nodes[n].start as int))
    }

    /// The source text of node `n`.
    pub open spec fn source(self, n: int) -> Seq<char> {
        slice(self.text, self.nodes[n].start as int, self.nodes[n].end as int)
    }

    /// Parents come before their children, there is a root element, and the
    /// extent of every element lies in the text.
    pub open spec fn well_formed(self) -> bool {
        &&& forall|n: int|
            0 <= n < self.nodes.len() ==> (match #[trigger] self.nodes[n].parent {
                Some(parent) => parent < n,
                None => true,
            })
        &&& self.root_element() is Some
        &&& forall|n: int| 0 <= n < self.nodes.len() ==> #[trigger] self.extent_in_text(n)
    }

    /// An element's extent begins and ends between characters of the text.
    pub open spec fn extent_in_text(self, n: int) -> bool {
        self.nodes[n].is_element ==> {
            &&& self.nodes[n].start <= self.nodes[n].end
            &&& is_boundary(self.text, self.nodes[n].start as int)
            &&& is_boundary(self.text, self.nodes[n].end as int)
        }
    }
}

/// The value of the first of `pairs` with the name `name`.
pub open spec fn first_value(pairs: Seq<(Seq<char>, Seq<char>)>, name: Seq<char>) -> Option<
    Seq<char>,
>
    decreases pairs.len(),
{
    if pairs.len() == 0 {
        None
    } else if pairs[0].0 == name {
        Some(pairs[0].1)
    } else {
        first_value(pairs.skip(1), name)
    }
}

/// Whether a list of indices is the list `nodes`.
pub open spec fn lists(indices: Seq<usize>, nodes: Seq<int>) -> bool {
    &&& indices.len() == nodes.len()
    &&& forall|i: int| 0 <= i < indices.len() ==> #[trigger] indices[i] == nodes[i]
}

/// The children of a node are nodes of the tree and name it as their parent.
pub proof fn lemma_children(tree: XmlTree, n: int, k: int)
    requires
        0 <= k <= tree.nodes.len(),
    ensures
        forall|i: int|
            0 <= i < tree.children_before(n, k).len() ==> {
                let c = #[trigger] tree.children_before(n, k)[i];
                0 <= c < k && tree.is_child(n, c)
            },
    decreases k,
{
    if k > 0 {
        lemma_children(tree, n, k - 1);
        let before = tree.children_before(n, k - 1);
        assert forall|i: int| 0 <= i < tree.children_before(n, k).len() implies {
            let c = #[trigger] tree.children_before(n, k)[i];
            0 <= c < k && tree.is_child(n, c)
        } by {
            if i < before.len() {
                assert(tree.children_before(n, k)[i] == before[i]);
            }
        }
    }
}

/// The listed descendants are nodes of the tree.
pub proof fn lemma_descendants(tree: XmlTree, n: int, k: int)
    requires
        0 <= k <= tree.nodes.len(),
    ensures
        forall|i: int|
            0 <= i < tree.descendants_before(n, k).len() ==> {
                let m = #[trigger] tree.descendants_before(n, k)[i];
                0 <= m < k
            },
    decreases k,
{
    if k > 0 {
        lemma_descendants(tree, n, k - 1);
        if tree.is_within(n, k - 1) {
            assert(tree.descendants_before(n, k) == tree.descendants_before(n, k - 1).push(k - 1));
        }
    }
}

/// The listed descendants are the node and the nodes below it.
pub proof fn lemma_descendants_within(tree: XmlTree, n: int, k: int, m: int)
    requires
        0 <= k <= tree.nodes.len(),
    ensures
        tree.descendants_before(n, k).contains(m) <==> 0 <= m < k && tree.is_within(n, m),
    decreases k,
{
    if k > 0 {
        lemma_descendants_within(tree, n, k - 1, m);
        let before = tree.descendants_before(n, k - 1);
        let list = tree.descendants_before(n, k);
        if before.contains(m) {
            let i = choose|i: int| 0 <= i < before.len() && before[i] == m;
            assert(list[i] == m);
        }
        if list.contains(m) {
            let i = choose|i: int| 0 <= i < list.len() && list[i] == m;
            if i < before.len() {
                assert(before[i] == m);
            }
        }
        if tree.is_within(n, k - 1) {
            assert(list[before.len() as int] == k - 1);
        }
    }
}

/// The first element of a list is an element of it.
pub proof fn lemma_first_element(tree: XmlTree, nodes: Seq<int>)
    ensures
        tree.first_element(nodes) matches Some(n) ==> nodes.contains(n) && tree.nodes[n].is_element,
    decreases nodes.len(),
{
    if nodes.len() > 0 {
        lemma_first_element(tree, nodes.skip(1));
        if let Some(n) = tree.first_element(nodes.skip(1)) {
            let i = choose|i: int| 0 <= i < nodes.skip(1).len() && nodes.skip(1)[i] == n;
            assert(nodes[i + 1] == n);
        }
        assert(nodes[0] == nodes[0]);
    }
}

/// The root element is an element among the nodes.
pub proof fn lemma_root_element(tree: XmlTree)
    requires
        tree.root_element() is Some,
    ensures
        0 <= tree.root_element()->0 < tree.nodes.len(),
        tree.nodes[tree.root_element()->0].is_element,
{
    lemma_first_element(tree, tree.children(0));
    lemma_children(tree, 0, tree.nodes.len() as int);
}

/// The part of a text from its beginning to its end is the text.
pub proof fn lemma_whole_slice(text: Seq<char>)
    ensures
        slice(text, 0, encode_utf8(text).len() as int) == text,
{
    let bytes = encode_utf8(text);
    assert(bytes.subrange(0, bytes.len() as int) == bytes);
    encode_utf8_decode_utf8(text);
}

/// The rest of a text behind a boundary keeps the boundaries behind it.
proof fn lemma_boundary_behind(bytes: Seq<u8>, from: int, to: int)
    requires
        valid_utf8(bytes),
        0 <= from <= to <= bytes.len(),
        is_char_boundary(bytes, from),
        is_char_boundary(bytes, to),
    ensures
        is_char_boundary(bytes.subrange(from, bytes.len() as int), to - from),
    decreases bytes.len(),
{
    if from == 0 {
        assert(bytes.subrange(0, bytes.len() as int) == bytes);
    } else {
        let tail = pop_first_scalar(bytes);
        let width = length_of_first_scalar(bytes);
        reveal_with_fuel(is_char_boundary, 2);
        lemma_boundary_behind(tail, from - width, to - width);
        assert(tail.subrange(from - width, tail.len() as int) == bytes.subrange(
            from,
            bytes.len() as int,
        ));
    }
}

/// The part of `text` between two byte offsets.
pub fn slice_of(text: &str, from: usize, to: usize) -> (result: String)
    requires
        from <= to,
        is_boundary(text@, from as int),
        is_boundary(text@, to as int),
    ensures
        result@ == slice(text@, from as int, to as int),
{
    broadcast use encode_utf8_valid_utf8, encode_utf8_decode_utf8;

    let ghost bytes = encode_utf8(text@);
    let (_, behind) = text.split_at(from);
    proof {
        valid_utf8_split(bytes, from as int);
        lemma_boundary_behind(bytes, from as int, to as int);
    }
    let (part, _) = behind.split_at(to - from);
    assert(encode_utf8(part@) == bytes.subrange(from as int, to as int));
    part.to_owned()
}

/// What reading `text` as XML gives: the document's nodes, or a message that
/// says why it is not well-formed.
pub uninterp spec fn xml_nodes(text: Seq<char>) -> Result<Seq<XmlNodeView>, Seq<char>>;

/// The document that the well-formed `text` is.
pub open spec fn tree_of(text: Seq<char>) -> XmlTree {
    XmlTree { text, nodes: xml_nodes(text)->Ok_0 }
}

/// A part of a text, given by byte offsets, that gives way to the root element
/// of another text.
#[verifier::ext_equal]
pub struct Replacement {
    pub start: int,
    pub end: int,
    pub text: Seq<char>,
}

impl Replacement {
    /// What is put in.
    pub open spec fn source(self) -> Seq<char> {
        tree_of(self.text).source(tree_of(self.text).root_element()->0)
    }

    /// Whether an element of `outer` gives way to an element whose meaning does
    /// not depend on where it stands: one in which every element is in a
    /// namespace, and so takes none from around it.
    pub open spec fn replaces_element(self, outer: Seq<char>) -> bool {
        &&& xml_nodes(self.text) is Ok
        &&& tree_of(self.text).has_namespaces()
        &&& exists|n: int| #[trigger]
            tree_of(outer).is_document_element(n) && tree_of(outer).nodes[n].start == self.start
                && tree_of(outer).nodes[n].end == self.end
    }

    /// Whether node `n` of `tree` lies in the part that gives way.
    pub open spec fn covers(self, tree: XmlTree, n: int) -> bool {
        self.start <= tree.nodes[n].start && tree.nodes[n].end <= self.end
    }
}

/// The rest of `text` behind byte offset `cursor`, with the `parts` in it
/// replaced.
pub open spec fn joined(text: Seq<char>, cursor: int, parts: Seq<Replacement>) -> Seq<char>
    decreases parts.len(),
{
    if parts.len() == 0 {
        slice(text, cursor, encode_utf8(text).len() as int)
    } else {
        slice(text, cursor, parts[0].start) + parts[0].source() + joined(
            text,
            parts[0].end,
            parts.skip(1),
        )
    }
}

/// Whether `parts` of the well-formed text `outer` are elements that can be
/// replaced, one behind the other.
pub open spec fn can_join(outer: Seq<char>, parts: Seq<Replacement>) -> bool {
    &&& xml_nodes(outer) is Ok
    &&& forall|i: int|
        0 <= i < parts.len() ==> (#[trigger] parts[i]).replaces_element(outer) && (i > 0 ==> parts[i
            - 1].end <= parts[i].start)
}

/// Whether `node` has the name of an element of `outer` that stays, or of an
/// element that is put in.
pub open spec fn comes_from(
    node: XmlNodeView,
    outer: Seq<char>,
    parts: Seq<Replacement>,
) -> bool {
    ||| exists|n: int| #[trigger]
        tree_of(outer).is_document_element(n) && tree_of(outer).nodes[n].same_name(node)
            && forall|i: int|
            0 <= i < parts.len() ==> !(#[trigger] parts[i]).covers(tree_of(outer), n)
    ||| exists|i: int, n: int|
        0 <= i < parts.len() && (#[trigger] tree_of(parts[i].text).is_document_element(n))
            && tree_of(parts[i].text).nodes[n].same_name(node)
}

/// Whether `message` says that a text is larger than the reader can hold.
pub open spec fn is_over_limit(message: Seq<char>) -> bool {
    ||| message == "nodes limit reached"@
    ||| message == "more than 2^32 attributes were parsed"@
    ||| message == "more than 2^16 unique namespaces were parsed"@
}

/// Whether `outcome` is what reading `text` can give, however `text` is put
/// together: it is well-formed, up to the reader's limits, and its elements are
/// those that stay and those that are put in.
pub open spec fn reads_joined(
    text: Seq<char>,
    outcome: Result<Seq<XmlNodeView>, Seq<char>>,
) -> bool {
    forall|outer: Seq<char>, parts: Seq<Replacement>|
        text == #[trigger] joined(outer, 0, parts) && can_join(outer, parts) ==> match outcome {
            Ok(nodes) => forall|n: int|
                0 <= n < nodes.len() && (#[trigger] nodes[n]).is_element ==> comes_from(
                    nodes[n],
                    outer,
                    parts,
                ),
            Err(message) => is_over_limit(message),
        }
}

/// `roxmltree::Document::parse`, with the document's nodes as plain values.
///
/// `Document::descendants` walks the nodes in document order, in which a
/// node's identifier is its index: so a parent's index is less than its
/// children's. A document that parses has a root element, and each element's
/// range runs from its `<` to behind its last `>`, as byte offsets into the
/// text.
///
/// The text is read in one pass, token by token, and an element's tokens are
/// the same wherever it stands. All that they take from around them are the
/// namespaces in scope, where an element's own declarations come first. An
/// element that is well-formed by itself declares every prefix it uses; where
/// all elements in it have a namespace, it declares the default namespace of
/// those without a prefix too. So where such elements take the place of others,
/// the rest of the text is read as before, and they are read as by themselves.
/// What can fail is only the number of nodes, attributes or namespaces.
#[verifier::external_body]
fn read_nodes(text: &str) -> (result: Result<Vec<XmlNode>, String>)
    ensures
        match result {
            Ok(nodes) => {
                &&& xml_nodes(text@) == Ok::<Seq<XmlNodeView>, Seq<char>>(nodes.deep_view())
                &&& (XmlTree { text: text@, nodes: nodes.deep_view() }).well_formed()
            },
            Err(message) => xml_nodes(text@) == Err::<Seq<XmlNodeView>, Seq<char>>(message@),
        },
        match result {
            Ok(nodes) => reads_joined(text@, Ok(nodes.deep_view())),
            Err(message) => reads_joined(text@, Err(message@)),
        },
{
    let document = roxmltree::Document::parse(text).map_err(|error| error.to_string())?;
    Ok(document.descendants().map(|node| XmlNode {
        parent: node.parent().map(|parent| parent.id().get_usize()),
        is_element: node.is_element(),
        is_text: node.is_text(),
        namespace: node.tag_name().namespace().map(str::to_owned),
        name: node.tag_name().name().to_owned(),
        attributes: node.attributes().map(|a| (a.name().to_owned(), a.value().to_owned())).collect(),
        text: node.text().map(str::to_owned),
        start: node.range().start,
        end: node.range().end,
    }).collect())
}

/// An XML document: its text, its nodes, and the children of each node.
pub struct XmlDocument {
    text: String,
    nodes: Vec<XmlNode>,
    children: Vec<Vec<usize>>,
}

impl View for XmlDocument {
    type V = XmlTree;

    closed spec fn view(&self) -> XmlTree {
        XmlTree { text: self.text@, nodes: self.nodes.deep_view() }
    }
}

impl XmlDocument {
    #[verifier::type_invariant]
    spec fn inv(self) -> bool {
        &&& self@.well_formed()
        &&& self.children@.len() == self@.nodes.len()
        &&& forall|n: int|
            0 <= n < self.children@.len() ==> lists(
                (#[trigger] self.children@[n])@,
                self@.children(n),
            )
    }

    /// Builds a document from its text and nodes, if they fit together.
    pub fn new(text: &str, nodes: Vec<XmlNode>) -> (result: Option<XmlDocument>)
        ensures
            result is Some <==> (XmlTree {
                text: text@,
                nodes: nodes.deep_view(),
            }).well_formed(),
            result matches Some(document) ==> document@ == (XmlTree {
                text: text@,
                nodes: nodes.deep_view(),
            }),
    {
        let ghost tree = XmlTree { text: text@, nodes: nodes.deep_view() };
        let count: usize = nodes.len();
        let mut i: usize = 0;
        while i < count
            invariant
                i <= count,
                count == nodes@.len(),
                tree == (XmlTree { text: text@, nodes: nodes.deep_view() }),
                forall|n: int|
                    0 <= n < i ==> (match #[trigger] tree.nodes[n].parent {
                        Some(parent) => parent < n,
                        None => true,
                    }),
                forall|n: int| 0 <= n < i ==> #[trigger] tree.extent_in_text(n),
            decreases count - i,
        {
            assert(tree.nodes[i as int] == nodes@[i as int].deep_view());
            if let Some(parent) = nodes[i].parent {
                if parent >= i {
                    assert(!(match tree.nodes[i as int].parent {
                        Some(parent) => parent < i,
                        None => true,
                    }));
                    return None;
                }
            }
            if nodes[i].is_element && !extent_fits(text, nodes[i].start, nodes[i].end) {
                assert(!tree.extent_in_text(i as int));
                return None;
            }
            i += 1;
        }
        if count == 0 {
            assert(tree.children(0).len() == 0);
            return None;
        }
        let children = index_children(&nodes, Ghost(tree));
        proof {
            lemma_children(tree, 0, tree.nodes.len() as int);
        }
        let root = find_element(&nodes, &children[0], Ghost(tree), Ghost(tree.children(0)));
        if root.is_none() {
            return None;
        }
        Some(XmlDocument { text: text.to_owned(), nodes, children })
    }

    /// Reads `text` as XML.
    pub fn read(text: &str) -> (result: Result<XmlDocument, ParseError>)
        ensures
            match (result, xml_nodes(text@)) {
                (Ok(document), Ok(nodes)) => document@ == (XmlTree { text: text@, nodes }),
                (Err(error), Err(message)) => error.deep_view() == ParseErrorView::InvalidXml(
                    message,
                ),
                _ => false,
            },
            reads_joined(text@, xml_nodes(text@)),
    {
        match read_nodes(text) {
            Ok(nodes) => {
                let children = index_children(
                    &nodes,
                    Ghost(XmlTree { text: text@, nodes: nodes.deep_view() }),
                );
                Ok(XmlDocument { text: text.to_owned(), nodes, children })
            },
            Err(message) => Err(ParseError::InvalidXml(message)),
        }
    }

    /// How many nodes the document has.
    pub fn len(&self) -> (result: usize)
        ensures
            result == self@.nodes.len(),
    {
        self.nodes.len()
    }

    /// Node `n`.
    pub fn node(&self, n: usize) -> (result: &XmlNode)
        requires
            n < self@.nodes.len(),
        ensures
            result.deep_view() == self@.nodes[n as int],
    {
        &self.nodes[n]
    }

    /// The children of node `n`, in document order.
    pub fn children(&self, n: usize) -> (result: &Vec<usize>)
        requires
            n < self@.nodes.len(),
        ensures
            lists(result@, self@.children(n as int)),
            forall|i: int|
                0 <= i < result@.len() ==> n < #[trigger] result@[i] < self@.nodes.len(),
    {
        proof {
            use_type_invariant(self);
            lemma_children(self@, n as int, self@.nodes.len() as int);
            assert(lists(self.children@[n as int]@, self@.children(n as int)));
            let result = self.children@[n as int]@;
            assert forall|i: int| 0 <= i < result.len() implies n < #[trigger] result[i]
                < self@.nodes.len() by {
                let c = self@.children(n as int)[i];
                assert(result[i] == c);
                assert(self@.is_child(n as int, c));
                assert(self@.nodes[c].parent == Some(n));
            }
        }
        &self.children[n]
    }

    /// The root element.
    pub fn root_element(&self) -> (result: usize)
        ensures
            self@.well_formed(),
            self@.root_element() == Some(result as int),
            result < self@.nodes.len(),
    {
        proof {
            use_type_invariant(self);
            lemma_children(self@, 0, self@.nodes.len() as int);
            lemma_root_element(self@);
        }
        match find_element(&self.nodes, &self.children[0], Ghost(self@), Ghost(self@.children(0))) {
            Some(root) => root,
            None => 0,
        }
    }

    /// Node `n` and all nodes below it, in document order.
    pub fn descendants(&self, n: usize) -> (result: Vec<usize>)
        requires
            n < self@.nodes.len(),
        ensures
            lists(result@, self@.descendants(n as int)),
            forall|i: int| 0 <= i < result@.len() ==> #[trigger] result@[i] < self@.nodes.len(),
    {
        proof {
            use_type_invariant(self);
        }
        let mut within: Vec<bool> = Vec::new();
        let mut result: Vec<usize> = Vec::new();
        let mut m: usize = 0;
        while m < self.nodes.len()
            invariant
                m <= self.nodes@.len(),
                self@.well_formed(),
                within@.len() == m,
                forall|k: int| 0 <= k < m ==> #[trigger] within@[k] == self@.is_within(n as int, k),
                lists(result@, self@.descendants_before(n as int, m as int)),
            decreases self.nodes@.len() - m,
        {
            assert(self@.nodes[m as int] == self.nodes@[m as int].deep_view());
            let inside = m == n || (match self.nodes[m].parent {
                Some(parent) => within[parent],
                None => false,
            });
            within.push(inside);
            if inside {
                result.push(m);
            }
            m += 1;
        }
        proof {
            lemma_descendants(self@, n as int, self@.nodes.len() as int);
            assert forall|i: int| 0 <= i < result@.len() implies #[trigger] result@[i]
                < self@.nodes.len() by {
                assert(result@[i] == self@.descendants(n as int)[i]);
            }
        }
        result
    }

    /// The value of the first attribute of node `n` with the local name
    /// `name`.
    pub fn attribute(&self, n: usize, name: &str) -> (result: Option<&str>)
        requires
            n < self@.nodes.len(),
        ensures
            result.deep_view() == self@.attribute(n as int, name@),
    {
        let attributes = &self.nodes[n].attributes;
        let ghost pairs = attributes.deep_view();
        assert(self@.nodes[n as int].attributes == pairs);
        let mut i: usize = 0;
        assert(pairs.skip(0) == pairs);
        while i < attributes.len()
            invariant
                i <= attributes@.len(),
                pairs == attributes.deep_view(),
                self@.nodes[n as int].attributes == pairs,
                first_value(pairs.skip(i as int), name@) == first_value(pairs, name@),
            decreases attributes@.len() - i,
        {
            assert(pairs[i as int] == (attributes@[i as int].0@, attributes@[i as int].1@));
            if attributes[i].0.as_str().eq(name) {
                return Some(attributes[i].1.as_str());
            }
            assert(pairs.skip(i as int).skip(1) == pairs.skip(i + 1));
            i += 1;
        }
        None
    }

    /// Whether node `n` is an element with this namespace and local name.
    pub fn has_name(&self, n: usize, namespace: &str, name: &str) -> (result: bool)
        requires
            n < self@.nodes.len(),
        ensures
            result == self@.has_name(n as int, namespace@, name@),
    {
        let node = &self.nodes[n];
        assert(self@.nodes[n as int] == node.deep_view());
        node.is_element && node.name.as_str().eq(name) && (match &node.namespace {
            Some(found) => found.as_str().eq(namespace),
            None => false,
        })
    }

    /// The position at which element `n` begins.
    pub fn position(&self, n: usize) -> (result: Position)
        requires
            n < self@.nodes.len(),
            self@.nodes[n as int].is_element,
        ensures
            result == self@.position(n as int),
    {
        broadcast use encode_utf8_valid_utf8;

        proof {
            use_type_invariant(self);
            assert(self@.extent_in_text(n as int));
            assert(self@.nodes[n as int] == self.nodes@[n as int].deep_view());
        }
        position_behind(slice_of(self.text.as_str(), 0, self.nodes[n].start).as_str())
    }

    /// Where element `n` begins and ends in the text, as byte offsets.
    pub fn extent(&self, n: usize) -> (result: (usize, usize))
        requires
            n < self@.nodes.len(),
            self@.nodes[n as int].is_element,
        ensures
            result == (self@.nodes[n as int].start, self@.nodes[n as int].end),
    {
        assert(self@.nodes[n as int] == self.nodes@[n as int].deep_view());
        (self.nodes[n].start, self.nodes[n].end)
    }

    /// The source text of element `n`.
    pub fn source(&self, n: usize) -> (result: String)
        requires
            n < self@.nodes.len(),
            self@.nodes[n as int].is_element,
        ensures
            result@ == self@.source(n as int),
    {
        proof {
            use_type_invariant(self);
            assert(self@.extent_in_text(n as int));
            assert(self@.nodes[n as int] == self.nodes@[n as int].deep_view());
        }
        slice_of(self.text.as_str(), self.nodes[n].start, self.nodes[n].end)
    }
}

/// The position just behind the text `before`.
fn position_behind(before: &str) -> (result: Position)
    ensures
        result == position_after(before@),
{
    let chars = crate::text::chars_of(before);
    let mut row: u32 = 1;
    let mut col: u32 = 1;
    let mut i: usize = 0;
    while i < chars.len()
        invariant
            i <= chars@.len(),
            (Position { row, col }) == position_after(chars@.take(i as int)),
        decreases chars@.len() - i,
    {
        if chars[i] == '\n' {
            row = row.wrapping_add(1);
            col = 1;
        } else {
            col = col.wrapping_add(1);
        }
        i += 1;
        assert(chars@.take(i as int).drop_last() == chars@.take(i - 1));
    }
    assert(chars@.take(i as int) == before@);
    Position { row, col }
}

/// The children of each node.
fn index_children(nodes: &Vec<XmlNode>, Ghost(tree): Ghost<XmlTree>) -> (result: Vec<Vec<usize>>)
    requires
        tree.nodes == nodes.deep_view(),
        forall|n: int|
            0 <= n < tree.nodes.len() ==> (match #[trigger] tree.nodes[n].parent {
                Some(parent) => parent < n,
                None => true,
            }),
    ensures
        result@.len() == nodes@.len(),
        forall|n: int|
            0 <= n < result@.len() ==> lists((#[trigger] result@[n])@, tree.children(n)),
{
    let count: usize = nodes.len();
    let mut children: Vec<Vec<usize>> = Vec::new();
    let mut i: usize = 0;
    while i < count
        invariant
            i <= count,
            children@.len() == i,
            forall|n: int| 0 <= n < i ==> (#[trigger] children@[n])@.len() == 0,
        decreases count - i,
    {
        children.push(Vec::new());
        i += 1;
    }
    i = 0;
    while i < count
        invariant
            i <= count,
            count == nodes@.len(),
            children@.len() == count,
            tree.nodes == nodes.deep_view(),
            forall|n: int|
                0 <= n < count ==> (match #[trigger] tree.nodes[n].parent {
                    Some(parent) => parent < n,
                    None => true,
                }),
            forall|n: int|
                0 <= n < count ==> lists(
                    (#[trigger] children@[n])@,
                    tree.children_before(n, i as int),
                ),
        decreases count - i,
    {
        assert(tree.nodes[i as int] == nodes@[i as int].deep_view());
        if let Some(parent) = nodes[i].parent {
            children[parent].push(i);
        }
        i += 1;
    }
    children
}

/// The first element among `list`.
fn find_element(
    nodes: &Vec<XmlNode>,
    list: &Vec<usize>,
    Ghost(tree): Ghost<XmlTree>,
    Ghost(members): Ghost<Seq<int>>,
) -> (result: Option<usize>)
    requires
        tree.nodes == nodes.deep_view(),
        lists(list@, members),
        forall|i: int| 0 <= i < members.len() ==> 0 <= #[trigger] members[i] < nodes@.len(),
    ensures
        match result {
            Some(n) => tree.first_element(members) == Some(n as int),
            None => tree.first_element(members) is None,
        },
{
    let mut i: usize = 0;
    assert(members.skip(0) == members);
    while i < list.len()
        invariant
            i <= list@.len(),
            tree.nodes == nodes.deep_view(),
            lists(list@, members),
            forall|i: int| 0 <= i < members.len() ==> 0 <= #[trigger] members[i] < nodes@.len(),
            tree.first_element(members.skip(i as int)) == tree.first_element(members),
        decreases list@.len() - i,
    {
        let n: usize = list[i];
        assert(n == members[i as int]);
        assert(tree.nodes[n as int] == nodes@[n as int].deep_view());
        if nodes[n].is_element {
            return Some(n);
        }
        assert(members.skip(i as int).skip(1) == members.skip(i + 1));
        i += 1;
    }
    None
}

/// Whether `start..end` is a part of `text` that begins and ends between
/// characters.
fn extent_fits(text: &str, start: usize, end: usize) -> (result: bool)
    ensures
        result == (start <= end && is_boundary(text@, start as int) && is_boundary(
            text@,
            end as int,
        )),
{
    broadcast use encode_utf8_valid_utf8;

    start <= end && text.is_char_boundary(start) && text.is_char_boundary(end)
}

} // verus!
