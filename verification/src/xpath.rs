//! XPath 1.0 evaluation over [`crate::document`] trees, by `xpath_eval`.

use vstd::prelude::*;
use vstd::std_specs::vec::*;

use crate::document::{
    DocumentNodeKind, DocumentView, Handle, NodeName, NodeNameView, NodeRef, Place,
};
use crate::schema::{NamespaceBinding, NamespaceBindingView};

verus! {

/// `xpath_eval::NodeKind`.
#[verifier::external_type_specification]
#[verifier::external_body]
pub struct ExNodeKind(xpath_eval::NodeKind);

/// `xpath_eval::ExpandedName`.
#[verifier::external_type_specification]
#[verifier::external_body]
pub struct ExExpandedName(xpath_eval::ExpandedName);

/// `xpath_eval::Expr`.
#[verifier::external_type_specification]
#[verifier::external_body]
pub struct ExExpr(xpath_eval::Expr);

/// `xpath_eval::Value`.
#[verifier::external_type_specification]
#[verifier::external_body]
#[verifier::reject_recursive_types(N)]
pub struct ExValue<N>(xpath_eval::Value<N>);

/// `xpath_eval::EvalError`.
#[verifier::external_type_specification]
#[verifier::external_body]
pub struct ExEvalError(xpath_eval::EvalError);

/// The kind of node that an `xpath_eval::NodeKind` names.
pub uninterp spec fn kind_view(kind: xpath_eval::NodeKind) -> DocumentNodeKind;

/// The `xpath_eval::NodeKind` of the same name.
#[verifier::external_body]
fn outside_kind(kind: DocumentNodeKind) -> (result: xpath_eval::NodeKind)
    ensures
        kind_view(result) == kind,
{
    match kind {
        DocumentNodeKind::Root => xpath_eval::NodeKind::Root,
        DocumentNodeKind::Element => xpath_eval::NodeKind::Element,
        DocumentNodeKind::Attribute => xpath_eval::NodeKind::Attribute,
        DocumentNodeKind::Namespace => xpath_eval::NodeKind::Namespace,
        DocumentNodeKind::ProcessingInstruction => xpath_eval::NodeKind::ProcessingInstruction,
        DocumentNodeKind::Comment => xpath_eval::NodeKind::Comment,
        DocumentNodeKind::Text => xpath_eval::NodeKind::Text,
    }
}

/// The name that an `xpath_eval::ExpandedName` holds.
pub uninterp spec fn name_view(name: xpath_eval::ExpandedName) -> NodeNameView;

/// The `xpath_eval::ExpandedName` with the same parts.
#[verifier::external_body]
fn outside_name(name: &NodeName) -> (result: xpath_eval::ExpandedName)
    ensures
        name_view(result) == name.deep_view(),
{
    xpath_eval::ExpandedName {
        namespace_uri: name.namespace_uri.clone(),
        local_name: name.local_name.clone(),
    }
}

/// Whether `handles` are the nodes `nodes` of `document`, in order.
pub open spec fn are_nodes(
    handles: Seq<Handle<'_>>,
    document: DocumentView,
    nodes: Seq<int>,
) -> bool {
    &&& handles.len() == nodes.len()
    &&& forall|i: int|
        0 <= i < handles.len() ==> (#[trigger] handles[i]).deep_view() == (NodeRef {
            document,
            index: nodes[i],
        })
}

impl<'a> Handle<'a> {
    /// The nodes that belong to this one as `place` says, in document order;
    /// none for a handle outside its document.
    fn belonging(self, place: Place) -> (result: Vec<Handle<'a>>)
        ensures
            self.index < self.document@.nodes.len() ==> are_nodes(
                result@,
                self.document@,
                self.document@.belonging(self.index as int, place),
            ),
    {
        let mut result: Vec<Handle<'a>> = Vec::new();
        if self.index < self.document.len() {
            let list = self.document.belonging(self.index, place);
            let ghost nodes = self.document@.belonging(self.index as int, place);
            let mut i: usize = 0;
            while i < list.len()
                invariant
                    i <= list@.len(),
                    crate::xml::lists(list@, nodes),
                    are_nodes(result@, self.document@, nodes.take(i as int)),
                decreases list@.len() - i,
            {
                result.push(Handle { document: self.document, index: list[i] });
                i += 1;
            }
            assert(nodes.take(i as int) == nodes);
        }
        result
    }
}

#[allow(refining_impl_trait)]
impl<'a> xpath_eval::Node<'a> for Handle<'a> {
    fn kind(self) -> (result: xpath_eval::NodeKind)
        ensures
            self.index < self.document@.nodes.len() ==> kind_view(result)
                == self.document@.nodes[self.index as int].kind,
    {
        if self.index < self.document.len() {
            outside_kind(self.document.node(self.index).kind)
        } else {
            outside_kind(DocumentNodeKind::Root)
        }
    }

    fn parent(self) -> (result: Option<Self>)
        ensures
            self.index < self.document@.nodes.len() ==> (match result {
                Some(parent) => parent.document == self.document
                    && self.document@.nodes[self.index as int].parent == Some(parent.index),
                None => self.document@.nodes[self.index as int].parent is None,
            }),
    {
        if self.index < self.document.len() {
            match self.document.node(self.index).parent {
                Some(parent) => Some(Handle { document: self.document, index: parent }),
                None => None,
            }
        } else {
            None
        }
    }

    fn children(self) -> (result: std::vec::IntoIter<Handle<'a>>)
        ensures
            self.index < self.document@.nodes.len() ==> are_nodes(
                into_iter_elts(result),
                self.document@,
                self.document@.belonging(self.index as int, Place::Child),
            ),
    {
        broadcast use axiom_spec_into_iter;

        self.belonging(Place::Child).into_iter()
    }

    fn attributes(self) -> (result: std::vec::IntoIter<Handle<'a>>)
        ensures
            self.index < self.document@.nodes.len() ==> are_nodes(
                into_iter_elts(result),
                self.document@,
                self.document@.belonging(self.index as int, Place::Attribute),
            ),
    {
        broadcast use axiom_spec_into_iter;

        self.belonging(Place::Attribute).into_iter()
    }

    fn namespaces(self) -> (result: std::vec::IntoIter<Handle<'a>>)
        ensures
            self.index < self.document@.nodes.len() ==> are_nodes(
                into_iter_elts(result),
                self.document@,
                self.document@.belonging(self.index as int, Place::Namespace),
            ),
    {
        broadcast use axiom_spec_into_iter;

        self.belonging(Place::Namespace).into_iter()
    }

    fn expanded_name(self) -> (result: Option<xpath_eval::ExpandedName>)
        ensures
            self.index < self.document@.nodes.len() ==> (match result {
                Some(name) => self.document@.nodes[self.index as int].name == Some(
                    name_view(name),
                ),
                None => self.document@.nodes[self.index as int].name is None,
            }),
    {
        if self.index < self.document.len() {
            match &self.document.node(self.index).name {
                Some(name) => Some(outside_name(name)),
                None => None,
            }
        } else {
            None
        }
    }

    fn string_value(self) -> (result: String)
        ensures
            self.index < self.document@.nodes.len() ==> result@
                == self.document@.nodes[self.index as int].string_value,
    {
        if self.index < self.document.len() {
            self.document.node(self.index).string_value.clone()
        } else {
            String::new()
        }
    }

    fn document_order(self, other: Self) -> (result: std::cmp::Ordering)
        ensures
            match result {
                std::cmp::Ordering::Less => self.index < other.index,
                std::cmp::Ordering::Equal => self.index == other.index,
                std::cmp::Ordering::Greater => self.index > other.index,
            },
    {
        if self.index < other.index {
            std::cmp::Ordering::Less
        } else if self.index == other.index {
            std::cmp::Ordering::Equal
        } else {
            std::cmp::Ordering::Greater
        }
    }

    fn is_id_attribute(self) -> (result: bool)
        ensures
            self.index < self.document@.nodes.len() ==> result
                == self.document@.nodes[self.index as int].is_id,
    {
        self.index < self.document.len() && self.document.node(self.index).is_id
    }
}

/// What an XPath expression evaluates to. A number is given by the decimal
/// text that `Display` writes for it, which reads back as the same number.
#[verifier::ext_equal]
pub enum XPathValueView {
    NodeSet(Seq<NodeRef>),
    Boolean(bool),
    Number(Seq<char>),
    Text(Seq<char>),
}

/// The first of `nodes` in document order.
pub open spec fn first_node(nodes: Seq<NodeRef>) -> NodeRef
    decreases nodes.len(),
{
    if nodes.len() <= 1 {
        nodes[0]
    } else {
        let first = first_node(nodes.drop_last());
        if nodes.last().index < first.index {
            nodes.last()
        } else {
            first
        }
    }
}

impl XPathValueView {
    /// Whether the value holds nodes of `document` only.
    pub open spec fn is_in(self, document: DocumentView) -> bool {
        match self {
            XPathValueView::NodeSet(nodes) => forall|i: int|
                0 <= i < nodes.len() ==> (#[trigger] nodes[i]).is_in(document),
            _ => true,
        }
    }

    /// The value as a boolean: a node-set or a text is true unless it is
    /// empty, a number unless it is zero or not a number.
    pub open spec fn truth(self) -> bool {
        match self {
            XPathValueView::NodeSet(nodes) => nodes.len() > 0,
            XPathValueView::Boolean(truth) => truth,
            XPathValueView::Number(text) => text != "0"@ && text != "-0"@ && text != "NaN"@,
            XPathValueView::Text(text) => text.len() > 0,
        }
    }

    /// The value as a text: that of a node-set is the string-value of its
    /// first node, or empty without one.
    pub open spec fn text(self) -> Seq<char> {
        match self {
            XPathValueView::NodeSet(nodes) => if nodes.len() == 0 {
                seq![]
            } else {
                let first = first_node(nodes);
                first.document.nodes[first.index].string_value
            },
            XPathValueView::Boolean(truth) => if truth {
                "true"@
            } else {
                "false"@
            },
            XPathValueView::Number(text) => if text == "inf"@ {
                "Infinity"@
            } else if text == "-inf"@ {
                "-Infinity"@
            } else if text == "-0"@ {
                "0"@
            } else {
                text
            },
            XPathValueView::Text(text) => text,
        }
    }
}

/// The value that an `xpath_eval::Value` holds.
pub uninterp spec fn value_view(value: xpath_eval::Value<Handle<'_>>) -> XPathValueView;

/// The nodes of an `xpath_eval::Value::NodeSet`; `None` for a value of
/// another kind.
#[verifier::external_body]
pub(crate) fn node_set(value: xpath_eval::Value<Handle<'_>>) -> (result: Option<Vec<Handle<'_>>>)
    ensures
        match result {
            Some(nodes) => value_view(value) == XPathValueView::NodeSet(nodes.deep_view()),
            None => !(value_view(value) is NodeSet),
        },
{
    match value {
        xpath_eval::Value::NodeSet(nodes) => Some(nodes),
        _ => None,
    }
}

/// `xpath_eval::Value::String`, a value that holds a text.
#[verifier::external_body]
pub(crate) fn text_value<'a>(text: String) -> (result: xpath_eval::Value<Handle<'a>>)
    ensures
        value_view(result) == XPathValueView::Text(text@),
{
    xpath_eval::Value::String(text)
}

/// `xpath_eval::Value::to_boolean`: the value as a boolean.
#[verifier::external_body]
pub(crate) fn boolean_of(value: &xpath_eval::Value<Handle<'_>>) -> (result: bool)
    ensures
        result == value_view(*value).truth(),
{
    value.to_boolean()
}

/// `xpath_eval::Value::to_xpath_string`: the value as a text.
#[verifier::external_body]
pub(crate) fn string_of(value: &xpath_eval::Value<Handle<'_>>) -> (result: String)
    requires
        exists|document: DocumentView| value_view(*value).is_in(document),
    ensures
        result@ == value_view(*value).text(),
{
    value.to_xpath_string()
}

/// A text that is not an XPath expression: where it goes wrong, as a byte
/// offset, and how.
#[derive(Clone, Debug, PartialEq, Eq)]
pub struct XPathParseError {
    pub position: usize,
    pub message: String,
}

/// The view of [`XPathParseError`].
#[verifier::ext_equal]
pub struct XPathParseErrorView {
    pub position: usize,
    pub message: Seq<char>,
}

impl DeepView for XPathParseError {
    type V = XPathParseErrorView;

    open spec fn deep_view(&self) -> XPathParseErrorView {
        XPathParseErrorView { position: self.position, message: self.message@ }
    }
}

/// The expression that a text is, or why it is none.
pub uninterp spec fn xpath_expression(text: Seq<char>) -> Result<
    xpath_eval::Expr,
    XPathParseErrorView,
>;

/// `xpath_eval::parse`: the result depends on the text alone.
#[verifier::external_body]
pub(crate) fn parse_expression(text: &str) -> (result: Result<xpath_eval::Expr, XPathParseError>)
    ensures
        match result {
            Ok(expression) => xpath_expression(text@) == Ok::<
                xpath_eval::Expr,
                XPathParseErrorView,
            >(expression),
            Err(error) => xpath_expression(text@) == Err::<xpath_eval::Expr, XPathParseErrorView>(
                error.deep_view(),
            ),
        },
{
    xpath_eval::parse(text).map_err(
        |error| XPathParseError { position: error.position, message: error.message },
    )
}

/// A name with an optional prefix.
#[derive(Clone, Debug, PartialEq, Eq)]
pub struct QualifiedName {
    pub prefix: Option<String>,
    pub local: String,
}

/// The view of [`QualifiedName`].
#[verifier::ext_equal]
pub struct QualifiedNameView {
    pub prefix: Option<Seq<char>>,
    pub local: Seq<char>,
}

impl DeepView for QualifiedName {
    type V = QualifiedNameView;

    open spec fn deep_view(&self) -> QualifiedNameView {
        QualifiedNameView { prefix: self.prefix.deep_view(), local: self.local@ }
    }
}

/// The failure of a well-formed expression when it is evaluated.
#[derive(Clone, Debug, PartialEq, Eq)]
pub enum XPathEvalError {
    /// A call of a function that does not exist.
    UnknownFunction(QualifiedName),
    /// A reference to a variable that is not bound.
    UnboundVariable(QualifiedName),
    /// A call with the wrong number of arguments.
    ArgumentCount { function: &'static str, expected: usize, got: usize },
    /// A value that is not a node-set where there must be one.
    ExpectedNodeSet { context: &'static str },
}

/// The view of [`XPathEvalError`].
#[verifier::ext_equal]
pub enum XPathEvalErrorView {
    UnknownFunction(QualifiedNameView),
    UnboundVariable(QualifiedNameView),
    ArgumentCount { function: Seq<char>, expected: usize, got: usize },
    ExpectedNodeSet { context: Seq<char> },
}

impl DeepView for XPathEvalError {
    type V = XPathEvalErrorView;

    open spec fn deep_view(&self) -> XPathEvalErrorView {
        match *self {
            XPathEvalError::UnknownFunction(name) => XPathEvalErrorView::UnknownFunction(
                name.deep_view(),
            ),
            XPathEvalError::UnboundVariable(name) => XPathEvalErrorView::UnboundVariable(
                name.deep_view(),
            ),
            XPathEvalError::ArgumentCount { function, expected, got } => (
            XPathEvalErrorView::ArgumentCount { function: function@, expected, got }),
            XPathEvalError::ExpectedNodeSet { context } => (XPathEvalErrorView::ExpectedNodeSet {
                context: context@,
            }),
        }
    }
}

/// The failure that an `xpath_eval::EvalError` stands for.
pub uninterp spec fn error_view(error: xpath_eval::EvalError) -> XPathEvalErrorView;

/// An `xpath_eval::EvalError` as plain values.
#[verifier::external_body]
pub(crate) fn plain_error(error: xpath_eval::EvalError) -> (result: XPathEvalError)
    ensures
        result.deep_view() == error_view(error),
{
    match error {
        xpath_eval::EvalError::UnknownFunction(name) => XPathEvalError::UnknownFunction(
            QualifiedName { prefix: name.prefix, local: name.local },
        ),
        xpath_eval::EvalError::UnboundVariable(name) => XPathEvalError::UnboundVariable(
            QualifiedName { prefix: name.prefix, local: name.local },
        ),
        xpath_eval::EvalError::ArgumentCount { function, expected, got } => {
            XPathEvalError::ArgumentCount { function, expected, got }
        },
        xpath_eval::EvalError::ExpectedNodeSet { context } => XPathEvalError::ExpectedNodeSet { context },
    }
}

/// The namespace of each prefix; the first binding of a prefix holds.
pub open spec fn prefixes(namespaces: Seq<NamespaceBindingView>) -> Map<Seq<char>, Seq<char>>
    decreases namespaces.len(),
{
    if namespaces.len() == 0 {
        Map::empty()
    } else {
        prefixes(namespaces.skip(1)).insert(namespaces[0].prefix, namespaces[0].uri)
    }
}

/// The namespace of `prefix`.
pub fn namespace_uri(namespaces: &Vec<NamespaceBinding>, prefix: &str) -> (result: Option<String>)
    ensures
        match result {
            Some(uri) => prefixes(namespaces.deep_view()).dom().contains(prefix@) && prefixes(
                namespaces.deep_view(),
            )[prefix@] == uri@,
            None => !prefixes(namespaces.deep_view()).dom().contains(prefix@),
        },
{
    let ghost views = namespaces.deep_view();
    let mut i: usize = 0;
    assert(views.skip(0) == views);
    while i < namespaces.len()
        invariant
            i <= namespaces@.len(),
            views == namespaces.deep_view(),
            prefixes(views.skip(i as int)).dom().contains(prefix@) == prefixes(
                views,
            ).dom().contains(prefix@),
            prefixes(views).dom().contains(prefix@) ==> prefixes(views.skip(i as int))[prefix@]
                == prefixes(views)[prefix@],
        decreases namespaces@.len() - i,
    {
        assert(views.skip(i as int)[0] == namespaces@[i as int].deep_view());
        assert(views.skip(i as int).skip(1) == views.skip(i + 1));
        if namespaces[i].prefix.as_str().eq(prefix) {
            return Some(namespaces[i].uri.clone());
        }
        i += 1;
    }
    None
}

/// The value of each variable; the last binding of a name holds.
pub open spec fn scope(variables: Seq<(String, xpath_eval::Value<Handle<'_>>)>) -> Map<
    Seq<char>,
    XPathValueView,
>
    decreases variables.len(),
{
    if variables.len() == 0 {
        Map::empty()
    } else {
        scope(variables.drop_last()).insert(variables.last().0@, value_view(variables.last().1))
    }
}

/// Whether the variables hold nodes of `document` only.
pub open spec fn scope_is_in(
    variables: Seq<(String, xpath_eval::Value<Handle<'_>>)>,
    document: DocumentView,
) -> bool {
    forall|i: int|
        0 <= i < variables.len() ==> value_view((#[trigger] variables[i]).1).is_in(document)
}

/// The value of the variable with this prefix and local name. No variable
/// has a prefix.
pub fn bound_value<'v, 'a>(
    variables: &'v Vec<(String, xpath_eval::Value<Handle<'a>>)>,
    prefix: Option<&str>,
    local: &str,
) -> (result: Option<&'v xpath_eval::Value<Handle<'a>>>)
    ensures
        match result {
            Some(value) => prefix is None && scope(variables@).dom().contains(local@) && scope(
                variables@,
            )[local@] == value_view(*value),
            None => prefix is Some || !scope(variables@).dom().contains(local@),
        },
{
    if prefix.is_some() {
        return None;
    }
    let mut i: usize = variables.len();
    assert(variables@.take(i as int) == variables@);
    while i > 0
        invariant
            i <= variables@.len(),
            prefix is None,
            scope(variables@.take(i as int)).dom().contains(local@) == scope(
                variables@,
            ).dom().contains(local@),
            scope(variables@).dom().contains(local@) ==> scope(variables@.take(i as int))[local@]
                == scope(variables@)[local@],
        decreases i,
    {
        i -= 1;
        assert(variables@.take(i + 1).drop_last() == variables@.take(i as int));
        assert(variables@.take(i + 1).last() == variables@[i as int]);
        if variables[i].0.as_str().eq(local) {
            return Some(&variables[i].1);
        }
    }
    None
}

/// What an expression evaluates to at a node, with these variables and these
/// namespaces of prefixes.
pub uninterp spec fn xpath_value(
    expression: xpath_eval::Expr,
    node: NodeRef,
    variables: Map<Seq<char>, XPathValueView>,
    namespaces: Map<Seq<char>, Seq<char>>,
) -> Result<XPathValueView, XPathEvalErrorView>;

/// `xpath_eval::evaluate`, with `node` as the context node at position 1 of
/// 1, with [`bound_value`] as its variables and [`namespace_uri`] as its
/// namespaces. The result depends on the expression and these alone.
/// Evaluation reaches nodes only from the context node, over the tree, and
/// from variables, so the result holds nodes of the same document.
#[verifier::external_body]
pub(crate) fn evaluate_expression<'a>(
    expression: &xpath_eval::Expr,
    node: Handle<'a>,
    variables: &Vec<(String, xpath_eval::Value<Handle<'a>>)>,
    namespaces: &Vec<NamespaceBinding>,
) -> (result: Result<xpath_eval::Value<Handle<'a>>, xpath_eval::EvalError>)
    requires
        node.index < node.document@.nodes.len(),
        scope_is_in(variables@, node.document@),
    ensures
        match result {
            Ok(value) => {
                &&& xpath_value(
                    *expression,
                    node.deep_view(),
                    scope(variables@),
                    prefixes(namespaces.deep_view()),
                ) == Ok::<XPathValueView, XPathEvalErrorView>(value_view(value))
                &&& value_view(value).is_in(node.document@)
            },
            Err(error) => xpath_value(
                *expression,
                node.deep_view(),
                scope(variables@),
                prefixes(namespaces.deep_view()),
            ) == Err::<XPathValueView, XPathEvalErrorView>(error_view(error)),
        },
{
    let variable = |name: &xpath_eval::QName| {
        bound_value(variables, name.prefix.as_deref(), &name.local).cloned()
    };
    let namespace = |prefix: &str| namespace_uri(namespaces, prefix);
    let mut context = xpath_eval::EvaluationContext::new(node);
    context.variables = Some(&variable);
    context.namespaces = Some(&namespace);
    xpath_eval::evaluate(expression, &context)
}

} // verus!
