//! The documents that schemas are evaluated against: trees of nodes in the
//! XPath 1.0 data model, listed in document order.

use vstd::prelude::*;

verus! {

/// The kind of a node in the XPath 1.0 data model.
#[derive(Clone, Copy, Debug, PartialEq, Eq)]
pub enum DocumentNodeKind {
    Root,
    Element,
    Attribute,
    Namespace,
    ProcessingInstruction,
    Comment,
    Text,
}

/// How a node belongs to its parent.
#[derive(Clone, Copy, Debug, PartialEq, Eq, Structural)]
pub enum Place {
    Child,
    Attribute,
    Namespace,
}

impl DocumentNodeKind {
    /// How a node of this kind belongs to its parent.
    pub open spec fn spec_place(self) -> Place {
        match self {
            DocumentNodeKind::Attribute => Place::Attribute,
            DocumentNodeKind::Namespace => Place::Namespace,
            _ => Place::Child,
        }
    }

    fn place(self) -> (result: Place)
        ensures
            result == self.spec_place(),
    {
        match self {
            DocumentNodeKind::Attribute => Place::Attribute,
            DocumentNodeKind::Namespace => Place::Namespace,
            _ => Place::Child,
        }
    }
}

/// A name with its namespace.
#[derive(Clone, Debug, PartialEq, Eq)]
pub struct NodeName {
    pub namespace_uri: Option<String>,
    pub local_name: String,
}

/// The view of [`NodeName`].
#[verifier::ext_equal]
pub struct NodeNameView {
    pub namespace_uri: Option<Seq<char>>,
    pub local_name: Seq<char>,
}

impl DeepView for NodeName {
    type V = NodeNameView;

    open spec fn deep_view(&self) -> NodeNameView {
        NodeNameView {
            namespace_uri: self.namespace_uri.deep_view(),
            local_name: self.local_name@,
        }
    }
}

/// One node of a document.
#[derive(Clone, Debug, PartialEq, Eq)]
pub struct DocumentNode {
    pub kind: DocumentNodeKind,
    /// The index of the parent; `None` for the root only. Attributes and
    /// namespace nodes have their element as parent.
    pub parent: Option<usize>,
    /// The expanded name, for the kinds of node that have one.
    pub name: Option<NodeName>,
    /// The string-value.
    pub string_value: String,
    /// Whether this is an attribute of type ID.
    pub is_id: bool,
}

/// The view of [`DocumentNode`].
#[verifier::ext_equal]
pub struct DocumentNodeView {
    pub kind: DocumentNodeKind,
    pub parent: Option<usize>,
    pub name: Option<NodeNameView>,
    pub string_value: Seq<char>,
    pub is_id: bool,
}

impl DeepView for DocumentNode {
    type V = DocumentNodeView;

    open spec fn deep_view(&self) -> DocumentNodeView {
        DocumentNodeView {
            kind: self.kind,
            parent: self.parent,
            name: self.name.deep_view(),
            string_value: self.string_value@,
            is_id: self.is_id,
        }
    }
}

/// The mathematical model of a document: its nodes in document order.
#[verifier::ext_equal]
pub struct DocumentView {
    pub nodes: Seq<DocumentNodeView>,
}

impl DocumentView {
    /// Node 0 is the top, which is no attribute or namespace node, and the only
    /// node without a parent; and parents come before their children.
    pub open spec fn well_formed(self) -> bool {
        &&& self.nodes.len() > 0
        &&& self.nodes[0].kind.spec_place() == Place::Child
        &&& self.nodes[0].parent is None
        &&& forall|n: int|
            0 < n < self.nodes.len() ==> (match #[trigger] self.nodes[n].parent {
                Some(parent) => parent < n,
                None => false,
            })
    }

    /// The nodes among the first `k` that belong to node `n` as `place` says,
    /// in document order.
    pub open spec fn belonging_before(self, n: int, place: Place, k: int) -> Seq<int>
        decreases k,
    {
        if k <= 0 {
            seq![]
        } else if self.nodes[k - 1].parent == Some(n as usize) && self.nodes[k
            - 1].kind.spec_place() == place {
            self.belonging_before(n, place, k - 1).push(k - 1)
        } else {
            self.belonging_before(n, place, k - 1)
        }
    }

    /// The nodes that belong to node `n` as `place` says, in document order.
    pub open spec fn belonging(self, n: int, place: Place) -> Seq<int> {
        self.belonging_before(n, place, self.nodes.len() as int)
    }
}

/// A document: its nodes, and the children, attributes and namespace nodes
/// of each.
#[derive(Debug)]
pub struct Document {
    nodes: Vec<DocumentNode>,
    children: Vec<Vec<usize>>,
    attributes: Vec<Vec<usize>>,
    namespaces: Vec<Vec<usize>>,
}

impl View for Document {
    type V = DocumentView;

    closed spec fn view(&self) -> DocumentView {
        DocumentView { nodes: self.nodes.deep_view() }
    }
}

/// Whether `index` lists, for each node, the nodes that belong to it.
spec fn indexes(index: Seq<Vec<usize>>, document: DocumentView, place: Place) -> bool {
    &&& index.len() == document.nodes.len()
    &&& forall|n: int|
        0 <= n < index.len() ==> crate::xml::lists(
            (#[trigger] index[n])@,
            document.belonging(n, place),
        )
}

impl Document {
    #[verifier::type_invariant]
    spec fn inv(self) -> bool {
        &&& self@.well_formed()
        &&& indexes(self.children@, self@, Place::Child)
        &&& indexes(self.attributes@, self@, Place::Attribute)
        &&& indexes(self.namespaces@, self@, Place::Namespace)
    }

    /// Builds a document from its nodes in document order, if node 0 has no
    /// parent and is no attribute or namespace node, and every other node has
    /// a parent that comes before it.
    pub fn new(nodes: Vec<DocumentNode>) -> (result: Option<Document>)
        ensures
            result is Some <==> (DocumentView { nodes: nodes.deep_view() }).well_formed(),
            result matches Some(document) ==> document@ == (DocumentView {
                nodes: nodes.deep_view(),
            }),
    {
        let ghost view = DocumentView { nodes: nodes.deep_view() };
        let count: usize = nodes.len();
        if count == 0 {
            return None;
        }
        assert(view.nodes[0] == nodes@[0].deep_view());
        if nodes[0].kind.place() != Place::Child || nodes[0].parent.is_some() {
            return None;
        }
        let mut i: usize = 1;
        while i < count
            invariant
                1 <= i <= count,
                count == nodes@.len(),
                view == (DocumentView { nodes: nodes.deep_view() }),
                forall|n: int|
                    0 < n < i ==> (match #[trigger] view.nodes[n].parent {
                        Some(parent) => parent < n,
                        None => false,
                    }),
            decreases count - i,
        {
            assert(view.nodes[i as int] == nodes@[i as int].deep_view());
            let before = match nodes[i].parent {
                Some(parent) => parent < i,
                None => false,
            };
            if !before {
                assert(!(match view.nodes[i as int].parent {
                    Some(parent) => parent < i,
                    None => false,
                }));
                return None;
            }
            i += 1;
        }
        let children = index_nodes(&nodes, Place::Child);
        let attributes = index_nodes(&nodes, Place::Attribute);
        let namespaces = index_nodes(&nodes, Place::Namespace);
        Some(Document { nodes, children, attributes, namespaces })
    }

    /// How many nodes the document has.
    pub fn len(&self) -> (result: usize)
        ensures
            result == self@.nodes.len(),
            self@.well_formed(),
    {
        proof {
            use_type_invariant(self);
        }
        self.nodes.len()
    }

    /// Node `n`.
    pub fn node(&self, n: usize) -> (result: &DocumentNode)
        requires
            n < self@.nodes.len(),
        ensures
            result.deep_view() == self@.nodes[n as int],
    {
        &self.nodes[n]
    }

    /// The nodes that belong to node `n` as `place` says, in document order.
    pub fn belonging(&self, n: usize, place: Place) -> (result: &Vec<usize>)
        requires
            n < self@.nodes.len(),
        ensures
            crate::xml::lists(result@, self@.belonging(n as int, place)),
    {
        proof {
            use_type_invariant(self);
        }
        match place {
            Place::Child => &self.children[n],
            Place::Attribute => &self.attributes[n],
            Place::Namespace => &self.namespaces[n],
        }
    }
}

/// For each node, the nodes that belong to it as `place` says.
fn index_nodes(nodes: &Vec<DocumentNode>, place: Place) -> (result: Vec<Vec<usize>>)
    requires
        (DocumentView { nodes: nodes.deep_view() }).well_formed(),
    ensures
        indexes(result@, DocumentView { nodes: nodes.deep_view() }, place),
{
    let ghost view = DocumentView { nodes: nodes.deep_view() };
    let count: usize = nodes.len();
    let mut index: Vec<Vec<usize>> = Vec::new();
    let mut i: usize = 0;
    while i < count
        invariant
            i <= count,
            index@.len() == i,
            forall|n: int| 0 <= n < i ==> (#[trigger] index@[n])@.len() == 0,
        decreases count - i,
    {
        index.push(Vec::new());
        i += 1;
    }
    i = 0;
    while i < count
        invariant
            i <= count,
            count == nodes@.len(),
            index@.len() == count,
            view == (DocumentView { nodes: nodes.deep_view() }),
            view.well_formed(),
            forall|n: int|
                0 <= n < count ==> crate::xml::lists(
                    (#[trigger] index@[n])@,
                    view.belonging_before(n, place, i as int),
                ),
        decreases count - i,
    {
        assert(view.nodes[i as int] == nodes@[i as int].deep_view());
        if let Some(parent) = nodes[i].parent {
            if nodes[i].kind.place() == place {
                index[parent].push(i);
            }
        }
        i += 1;
    }
    index
}

/// A node of a document, as XPath evaluation sees it. Two handles are equal
/// when they have the same index: handles of different documents are not
/// meant to meet.
#[derive(Clone, Copy)]
pub struct Handle<'a> {
    pub document: &'a Document,
    pub index: usize,
}

/// The view of [`Handle`].
#[verifier::ext_equal]
pub struct NodeRef {
    pub document: DocumentView,
    pub index: int,
}

impl<'a> DeepView for Handle<'a> {
    type V = NodeRef;

    open spec fn deep_view(&self) -> NodeRef {
        NodeRef { document: self.document@, index: self.index as int }
    }
}

impl NodeRef {
    /// Whether this is a node of `document`.
    pub open spec fn is_in(self, document: DocumentView) -> bool {
        self.document == document && 0 <= self.index < document.nodes.len()
    }
}

impl<'a> PartialEq for Handle<'a> {
    fn eq(&self, other: &Self) -> (result: bool) {
        self.index == other.index
    }
}

impl<'a> vstd::std_specs::cmp::PartialEqSpecImpl for Handle<'a> {
    open spec fn obeys_eq_spec() -> bool {
        true
    }

    open spec fn eq_spec(&self, other: &Self) -> bool {
        self.index == other.index
    }
}

impl<'a> Eq for Handle<'a> {

}

} // verus!
