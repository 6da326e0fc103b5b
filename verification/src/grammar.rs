//! What a Schematron schema document means: the schema that each XML tree
//! stands for, or the error with which it is refused.
//!
//! Everything here is a mathematical definition; [`crate::parse`] computes
//! it.

use vstd::prelude::*;

use crate::error::ParseErrorView;
use crate::schema::{
    CheckKind, CheckView, DiagnosticView, LetBindingView, LetValueView, MessagePartView,
    NamespaceBindingView, PatternView, PhaseView, PropertyView, RuleView, SchemaView,
};
use crate::xml::XmlTree;

verus! {

/// The namespace of Schematron elements.
pub open spec fn schematron_namespace() -> Seq<char> {
    "http://purl.oclc.org/dsdl/schematron"@
}

/// The elements that admit only certain Schematron children. The content of
/// every other element is free: prose (`<title>`, `<p>`), literal values
/// (`<let>`), `<value-of>`, `<name>` and elements of other namespaces.
#[derive(Clone, Copy)]
pub enum Container {
    Schema,
    Properties,
    Diagnostics,
    Pattern,
    /// A `<pattern is-a="...">`, which instantiates an abstract pattern.
    PatternUse,
    Rule,
    Phase,
    /// An `<assert>`, `<report>`, `<diagnostic>` or `<property>`, whose content
    /// is a message, or an element that wraps a part of a message.
    Message,
    /// An `<active>`, which may hold a remark.
    Remark,
    /// An `<ns>`, `<param>` or `<extends>`, which has attributes only.
    Empty,
}

impl Container {
    /// Whether a Schematron element named `name` may be a direct child.
    pub open spec fn spec_admits(self, name: Seq<char>) -> bool {
        match self {
            Container::Schema => {
                ||| name == "title"@
                ||| name == "p"@
                ||| name == "ns"@
                ||| name == "let"@
                ||| name == "phase"@
                ||| name == "pattern"@
                ||| name == "diagnostics"@
                ||| name == "properties"@
            },
            Container::Properties => name == "property"@,
            Container::Diagnostics => name == "diagnostic"@,
            Container::Pattern => {
                name == "title"@ || name == "p"@ || name == "let"@ || name == "rule"@
            },
            Container::PatternUse => name == "p"@ || name == "param"@,
            Container::Rule => {
                ||| name == "let"@
                ||| name == "assert"@
                ||| name == "report"@
                ||| name == "extends"@
                ||| name == "p"@
            },
            Container::Phase => {
                name == "title"@ || name == "p"@ || name == "let"@ || name == "active"@
            },
            Container::Message => {
                ||| name == "value-of"@
                ||| name == "name"@
                ||| name == "emph"@
                ||| name == "dir"@
                ||| name == "span"@
            },
            Container::Remark => name == "emph"@ || name == "dir"@ || name == "span"@,
            Container::Empty => false,
        }
    }
}

/// Whether the `id` attribute of a Schematron element named `name` is an
/// identifier of the schema, unique in it.
pub open spec fn has_identity(name: Seq<char>) -> bool {
    ||| name == "pattern"@
    ||| name == "rule"@
    ||| name == "assert"@
    ||| name == "report"@
    ||| name == "phase"@
    ||| name == "diagnostic"@
    ||| name == "property"@
}

/// `$` followed by `name`.
pub open spec fn parameter_reference(name: Seq<char>) -> Seq<char> {
    "$"@ + name
}

/// `text` with each parameter's references replaced by its value, one
/// parameter after the other.
pub open spec fn substituted(text: Seq<char>, params: Seq<(Seq<char>, Seq<char>)>) -> Seq<char>
    decreases params.len(),
{
    if params.len() == 0 {
        text
    } else {
        crate::text::replaced(
            substituted(text, params.drop_last()),
            parameter_reference(params.last().0),
            params.last().1,
        )
    }
}

/// The node of the last of `entries` with the identifier `id`.
pub open spec fn entry_named(entries: Seq<(Seq<char>, int)>, id: Seq<char>) -> Option<int>
    decreases entries.len(),
{
    if entries.len() == 0 {
        None
    } else if entries.last().0 == id {
        Some(entries.last().1)
    } else {
        entry_named(entries.drop_last(), id)
    }
}

/// How many of `entries` have an identifier that is not among `visiting`.
pub open spec fn unvisited(entries: Seq<(Seq<char>, int)>, visiting: Seq<Seq<char>>) -> nat
    decreases entries.len(),
{
    if entries.len() == 0 {
        0
    } else {
        unvisited(entries.drop_last(), visiting) + (if visiting.contains(entries.last().0) {
            0nat
        } else {
            1
        })
    }
}

/// Visiting more identifiers leaves no more of them unvisited.
proof fn lemma_unvisited_monotonic(
    entries: Seq<(Seq<char>, int)>,
    visiting: Seq<Seq<char>>,
    id: Seq<char>,
)
    ensures
        unvisited(entries, visiting.push(id)) <= unvisited(entries, visiting),
    decreases entries.len(),
{
    if entries.len() > 0 {
        lemma_unvisited_monotonic(entries.drop_last(), visiting, id);
        if visiting.contains(entries.last().0) {
            let i = choose|i: int| 0 <= i < visiting.len() && visiting[i] == entries.last().0;
            assert(visiting.push(id)[i] == entries.last().0);
        }
    }
}

/// Visiting the identifier of an entry leaves fewer of them unvisited.
pub proof fn lemma_unvisited_decreases(
    entries: Seq<(Seq<char>, int)>,
    visiting: Seq<Seq<char>>,
    id: Seq<char>,
)
    requires
        entry_named(entries, id) is Some,
        !visiting.contains(id),
    ensures
        unvisited(entries, visiting.push(id)) < unvisited(entries, visiting),
    decreases entries.len(),
{
    if entries.last().0 == id {
        lemma_unvisited_monotonic(entries.drop_last(), visiting, id);
        assert(visiting.push(id)[visiting.len() as int] == id);
    } else {
        lemma_unvisited_decreases(entries.drop_last(), visiting, id);
        if visiting.contains(entries.last().0) {
            let i = choose|i: int| 0 <= i < visiting.len() && visiting[i] == entries.last().0;
            assert(visiting.push(id)[i] == entries.last().0);
        }
    }
}

/// `done` followed by the items of `rest`, unless that is an error.
pub open spec fn prepend<T>(done: Seq<T>, rest: Result<Seq<T>, ParseErrorView>) -> Result<
    Seq<T>,
    ParseErrorView,
> {
    match rest {
        Ok(items) => Ok(done + items),
        Err(error) => Err(error),
    }
}

/// What a walk over a rule's children yields: checks and bindings.
#[verifier::ext_equal]
pub struct RuleContent {
    pub checks: Seq<CheckView>,
    pub lets: Seq<LetBindingView>,
}

impl RuleContent {
    /// This content followed by that of `rest`, unless that is an error.
    pub open spec fn followed_by(self, rest: Result<RuleContent, ParseErrorView>) -> Result<
        RuleContent,
        ParseErrorView,
    > {
        match rest {
            Ok(content) => Ok(
                RuleContent {
                    checks: self.checks + content.checks,
                    lets: self.lets + content.lets,
                },
            ),
            Err(error) => Err(error),
        }
    }
}

impl XmlTree {
    /// Whether node `n` is a Schematron element.
    pub open spec fn is_schematron(self, n: int) -> bool {
        self.nodes[n].is_element && self.nodes[n].namespace == Some(schematron_namespace())
    }

    /// Whether node `n` is a Schematron element named `tag`.
    pub open spec fn has_tag(self, n: int, tag: Seq<char>) -> bool {
        self.has_name(n, schematron_namespace(), tag)
    }

    /// The value of an attribute that element `n` must have.
    pub open spec fn required(self, n: int, element: Seq<char>, attribute: Seq<char>) -> Result<
        Seq<char>,
        ParseErrorView,
    > {
        match self.attribute(n, attribute) {
            Some(value) => Ok(value),
            None => Err(
                ParseErrorView::MissingAttribute { element, attribute, position: self.position(n) },
            ),
        }
    }

    /// What `read` makes of each of `nodes` that is a Schematron element
    /// named `tag`, up to the first error.
    pub open spec fn collect<T>(
        self,
        nodes: Seq<int>,
        tag: Seq<char>,
        read: spec_fn(int) -> Result<T, ParseErrorView>,
    ) -> Result<Seq<T>, ParseErrorView>
        decreases nodes.len(),
    {
        if nodes.len() == 0 {
            Ok(seq![])
        } else if !self.has_tag(nodes[0], tag) {
            self.collect(nodes.skip(1), tag, read)
        } else {
            match read(nodes[0]) {
                Ok(value) => prepend(seq![value], self.collect(nodes.skip(1), tag, read)),
                Err(error) => Err(error),
            }
        }
    }

    /// The first of `nodes` that is a Schematron element named `tag`.
    pub open spec fn first_tagged(self, nodes: Seq<int>, tag: Seq<char>) -> Option<int>
        decreases nodes.len(),
    {
        if nodes.len() == 0 {
            None
        } else if self.has_tag(nodes[0], tag) {
            Some(nodes[0])
        } else {
            self.first_tagged(nodes.skip(1), tag)
        }
    }

    /// The first of `nodes` that is a Schematron element which `container`
    /// does not admit.
    pub open spec fn first_unexpected(self, nodes: Seq<int>, container: Container) -> Option<int>
        decreases nodes.len(),
    {
        if nodes.len() == 0 {
            None
        } else if self.is_schematron(nodes[0]) && !container.spec_admits(
            self.nodes[nodes[0]].name,
        ) {
            Some(nodes[0])
        } else {
            self.first_unexpected(nodes.skip(1), container)
        }
    }

    /// Refuses node `n` where it has a Schematron child that `container` does
    /// not admit.
    pub open spec fn known_children(self, n: int, container: Container) -> Result<
        (),
        ParseErrorView,
    > {
        match self.first_unexpected(self.children(n), container) {
            Some(child) => Err(
                ParseErrorView::UnexpectedElement {
                    element: self.nodes[child].name,
                    position: self.position(child),
                },
            ),
            None => Ok(()),
        }
    }

    /// The identifier of node `n`, where it is an element that has one.
    pub open spec fn identity(self, n: int) -> Option<Seq<char>> {
        if self.is_schematron(n) && has_identity(self.nodes[n].name) {
            self.attribute(n, "id"@)
        } else {
            None
        }
    }

    /// Refuses the first of `nodes` whose identifier is among `seen` or
    /// belongs to an earlier one.
    pub open spec fn unique_ids(self, nodes: Seq<int>, seen: Set<Seq<char>>) -> Result<
        (),
        ParseErrorView,
    >
        decreases nodes.len(),
    {
        if nodes.len() == 0 {
            Ok(())
        } else {
            match self.identity(nodes[0]) {
                None => self.unique_ids(nodes.skip(1), seen),
                Some(id) => if seen.contains(id) {
                    Err(
                        ParseErrorView::DuplicateId {
                            element: self.nodes[nodes[0]].name,
                            id,
                            position: self.position(nodes[0]),
                        },
                    )
                } else {
                    self.unique_ids(nodes.skip(1), seen.insert(id))
                },
            }
        }
    }

    /// An `<ns prefix="..." uri="...">` binding.
    pub open spec fn ns_of(self, n: int) -> Result<NamespaceBindingView, ParseErrorView> {
        match self.required(n, "ns"@, "prefix"@) {
            Err(error) => Err(error),
            Ok(prefix) => match self.required(n, "ns"@, "uri"@) {
                Err(error) => Err(error),
                Ok(uri) => Ok(NamespaceBindingView { prefix, uri }),
            },
        }
    }

    /// The text below `nodes`, which are children of node `n`, in document
    /// order.
    pub open spec fn text_of(self, n: int, nodes: Seq<int>) -> Seq<char>
        decreases self.nodes.len() - n, nodes.len(),
    {
        if nodes.len() == 0 {
            seq![]
        } else {
            self.text_of_child(n, nodes[0]) + self.text_of(n, nodes.skip(1))
        }
    }

    /// The text of node `child`, a child of node `n`.
    pub open spec fn text_of_child(self, n: int, child: int) -> Seq<char>
        decreases self.nodes.len() - n, 0nat,
    {
        if self.nodes[child].is_text {
            match self.nodes[child].text {
                Some(text) => text,
                None => seq![],
            }
        } else if self.nodes[child].is_element && n < child < self.nodes.len() {
            self.text_of(child, self.children(child))
        } else {
            seq![]
        }
    }

    /// A `<let name="..." value="...">` binding, or one with literal XML
    /// content in place of a value.
    pub open spec fn let_of(self, n: int) -> Result<LetBindingView, ParseErrorView> {
        match self.required(n, "let"@, "name"@) {
            Err(error) => Err(error),
            Ok(name) => match self.attribute(n, "value"@) {
                Some(value) => Ok(LetBindingView { name, value: LetValueView::Expr(value) }),
                None => if self.first_element(self.children(n)) is Some {
                    Ok(
                        LetBindingView {
                            name,
                            value: LetValueView::Literal(self.text_of(n, self.children(n))),
                        },
                    )
                } else {
                    Err(
                        ParseErrorView::MissingAttribute {
                            element: "let"@,
                            attribute: "value"@,
                            position: self.position(n),
                        },
                    )
                },
            },
        }
    }

    /// The bindings of the `<let>` children of node `n`.
    pub open spec fn lets_of(self, n: int) -> Result<Seq<LetBindingView>, ParseErrorView> {
        self.collect(self.children(n), "let"@, self.let_reader())
    }

    pub open spec fn let_reader(self) -> spec_fn(int) -> Result<LetBindingView, ParseErrorView> {
        |n: int| self.let_of(n)
    }

    /// The message content of `nodes`, which are children of node `n`: text,
    /// `<value-of>` and `<name>` at any depth, in document order.
    pub open spec fn message_of(
        self,
        n: int,
        nodes: Seq<int>,
        params: Seq<(Seq<char>, Seq<char>)>,
    ) -> Result<Seq<MessagePartView>, ParseErrorView>
        decreases self.nodes.len() - n, nodes.len(),
    {
        if nodes.len() == 0 {
            Ok(seq![])
        } else {
            match self.message_of_child(n, nodes[0], params) {
                Ok(parts) => prepend(parts, self.message_of(n, nodes.skip(1), params)),
                Err(error) => Err(error),
            }
        }
    }

    /// The message content of node `child`, a child of node `n`.
    pub open spec fn message_of_child(
        self,
        n: int,
        child: int,
        params: Seq<(Seq<char>, Seq<char>)>,
    ) -> Result<Seq<MessagePartView>, ParseErrorView>
        decreases self.nodes.len() - n, 0nat,
    {
        if self.nodes[child].is_text {
            match self.nodes[child].text {
                Some(text) => Ok(seq![MessagePartView::Text(text)]),
                None => Ok(seq![]),
            }
        } else if self.has_tag(child, "value-of"@) {
            match self.required(child, "value-of"@, "select"@) {
                Ok(select) => Ok(seq![MessagePartView::ValueOf(substituted(select, params))]),
                Err(error) => Err(error),
            }
        } else if self.has_tag(child, "name"@) {
            match self.attribute(child, "path"@) {
                Some(path) => Ok(seq![MessagePartView::Name(Some(substituted(path, params)))]),
                None => Ok(seq![MessagePartView::Name(None)]),
            }
        } else if self.nodes[child].is_element && n < child < self.nodes.len() {
            self.message_of(child, self.children(child), params)
        } else {
            Ok(seq![])
        }
    }

    /// A `<diagnostic id="..." role="...">`.
    pub open spec fn diagnostic_of(self, n: int) -> Result<DiagnosticView, ParseErrorView> {
        match self.required(n, "diagnostic"@, "id"@) {
            Err(error) => Err(error),
            Ok(id) => match self.message_of(n, self.children(n), seq![]) {
                Err(error) => Err(error),
                Ok(message) => Ok(
                    DiagnosticView { id, role: self.attribute(n, "role"@), message },
                ),
            },
        }
    }

    pub open spec fn diagnostic_reader(self) -> spec_fn(int) -> Result<
        DiagnosticView,
        ParseErrorView,
    > {
        |n: int| self.diagnostic_of(n)
    }

    /// The diagnostics of the first `<diagnostics>` among `nodes`, if there
    /// is one.
    pub open spec fn diagnostics_of(self, nodes: Seq<int>) -> Result<
        Seq<DiagnosticView>,
        ParseErrorView,
    > {
        match self.first_tagged(nodes, "diagnostics"@) {
            None => Ok(seq![]),
            Some(list) => match self.known_children(list, Container::Diagnostics) {
                Err(error) => Err(error),
                Ok(_) => self.collect(
                    self.children(list),
                    "diagnostic"@,
                    self.diagnostic_reader(),
                ),
            },
        }
    }

    /// A `<property id="..." role="..." scheme="...">`.
    pub open spec fn property_of(self, n: int) -> Result<PropertyView, ParseErrorView> {
        match self.required(n, "property"@, "id"@) {
            Err(error) => Err(error),
            Ok(id) => match self.message_of(n, self.children(n), seq![]) {
                Err(error) => Err(error),
                Ok(message) => Ok(
                    PropertyView {
                        id,
                        role: self.attribute(n, "role"@),
                        scheme: self.attribute(n, "scheme"@),
                        message,
                    },
                ),
            },
        }
    }

    pub open spec fn property_reader(self) -> spec_fn(int) -> Result<PropertyView, ParseErrorView> {
        |n: int| self.property_of(n)
    }

    /// The properties of the first `<properties>` among `nodes`, if there is
    /// one.
    pub open spec fn properties_of(self, nodes: Seq<int>) -> Result<
        Seq<PropertyView>,
        ParseErrorView,
    > {
        match self.first_tagged(nodes, "properties"@) {
            None => Ok(seq![]),
            Some(list) => match self.known_children(list, Container::Properties) {
                Err(error) => Err(error),
                Ok(_) => self.collect(self.children(list), "property"@, self.property_reader()),
            },
        }
    }

    /// A `<param name="..." value="...">` of an abstract pattern's use.
    pub open spec fn param_of(self, n: int) -> Result<(Seq<char>, Seq<char>), ParseErrorView> {
        match self.required(n, "param"@, "name"@) {
            Err(error) => Err(error),
            Ok(name) => match self.required(n, "param"@, "value"@) {
                Err(error) => Err(error),
                Ok(value) => Ok((name, value)),
            },
        }
    }

    pub open spec fn param_reader(self) -> spec_fn(int) -> Result<
        (Seq<char>, Seq<char>),
        ParseErrorView,
    > {
        |n: int| self.param_of(n)
    }

    /// The kind of check that node `n` is, if it is one.
    pub open spec fn check_kind(self, n: int) -> Option<CheckKind> {
        if self.has_tag(n, "assert"@) {
            Some(CheckKind::Assert)
        } else if self.has_tag(n, "report"@) {
            Some(CheckKind::Report)
        } else {
            None
        }
    }

    /// The diagnostics that check `n` refers to, which must be among
    /// `known`.
    pub open spec fn references_of(self, n: int, known: Set<Seq<char>>) -> Result<
        Seq<Seq<char>>,
        ParseErrorView,
    > {
        let ids = match self.attribute(n, "diagnostics"@) {
            Some(list) => crate::text::words(list),
            None => seq![],
        };
        match first_outside(ids, known) {
            Some(id) => Err(
                ParseErrorView::UnknownDiagnosticReference { id, position: self.position(n) },
            ),
            None => Ok(ids),
        }
    }

    /// An `<assert>` or `<report>`.
    pub open spec fn check_of(
        self,
        kind: CheckKind,
        n: int,
        params: Seq<(Seq<char>, Seq<char>)>,
        known: Set<Seq<char>>,
    ) -> Result<CheckView, ParseErrorView> {
        let element = match kind {
            CheckKind::Assert => "assert"@,
            CheckKind::Report => "report"@,
        };
        match self.required(n, element, "test"@) {
            Err(error) => Err(error),
            Ok(test) => match self.message_of(n, self.children(n), params) {
                Err(error) => Err(error),
                Ok(message) => match self.references_of(n, known) {
                    Err(error) => Err(error),
                    Ok(diagnostics) => Ok(
                        CheckView {
                            kind,
                            test: substituted(test, params),
                            id: self.attribute(n, "id"@),
                            role: self.attribute(n, "role"@),
                            message,
                            diagnostics,
                        },
                    ),
                },
            },
        }
    }

    /// The checks and bindings of a rule with the children `nodes`, in
    /// document order, where an `<extends rule="...">` stands for the content
    /// of the rule it names. `rules` are the rules of the pattern that have an
    /// identifier, and `visiting` are those being extended.
    pub open spec fn rule_content(
        self,
        nodes: Seq<int>,
        rules: Seq<(Seq<char>, int)>,
        params: Seq<(Seq<char>, Seq<char>)>,
        visiting: Seq<Seq<char>>,
        known: Set<Seq<char>>,
    ) -> Result<RuleContent, ParseErrorView>
        decreases unvisited(rules, visiting), nodes.len(),
    {
        if nodes.len() == 0 {
            Ok(RuleContent { checks: seq![], lets: seq![] })
        } else {
            match self.rule_content_of_child(nodes[0], rules, params, visiting, known) {
                Err(error) => Err(error),
                Ok(content) => content.followed_by(
                    self.rule_content(nodes.skip(1), rules, params, visiting, known),
                ),
            }
        }
    }

    /// What one child of a rule contributes to the rule's content.
    pub open spec fn rule_content_of_child(
        self,
        child: int,
        rules: Seq<(Seq<char>, int)>,
        params: Seq<(Seq<char>, Seq<char>)>,
        visiting: Seq<Seq<char>>,
        known: Set<Seq<char>>,
    ) -> Result<RuleContent, ParseErrorView>
        decreases unvisited(rules, visiting), 0nat,
    {
        if let Some(kind) = self.check_kind(child) {
            match self.check_of(kind, child, params, known) {
                Err(error) => Err(error),
                Ok(check) => Ok(RuleContent { checks: seq![check], lets: seq![] }),
            }
        } else if self.has_tag(child, "let"@) {
            match self.let_of(child) {
                Err(error) => Err(error),
                Ok(binding) => Ok(RuleContent { checks: seq![], lets: seq![binding] }),
            }
        } else if self.has_tag(child, "extends"@) {
            match self.required(child, "extends"@, "rule"@) {
                Err(error) => Err(error),
                Ok(id) => match entry_named(rules, id) {
                    None => Err(
                        ParseErrorView::UnknownRuleReference {
                            rule: id,
                            position: self.position(child),
                        },
                    ),
                    Some(target) => if visiting.contains(id) {
                        Err(
                            ParseErrorView::CyclicRuleExtends {
                                rule: id,
                                position: self.position(child),
                            },
                        )
                    } else {
                        proof {
                            lemma_unvisited_decreases(rules, visiting, id);
                        }
                        self.rule_content(
                            self.children(target),
                            rules,
                            params,
                            visiting.push(id),
                            known,
                        )
                    },
                },
            }
        } else {
            Ok(RuleContent { checks: seq![], lets: seq![] })
        }
    }

    /// Whether node `n` is declared `abstract="true"`.
    pub open spec fn is_abstract(self, n: int) -> bool {
        self.attribute(n, "abstract"@) == Some("true"@)
    }

    /// A concrete `<rule context="...">`.
    pub open spec fn rule_of(
        self,
        n: int,
        rules: Seq<(Seq<char>, int)>,
        params: Seq<(Seq<char>, Seq<char>)>,
        known: Set<Seq<char>>,
    ) -> Result<RuleView, ParseErrorView> {
        let visiting = match self.attribute(n, "id"@) {
            Some(id) => seq![id],
            None => seq![],
        };
        match self.known_children(n, Container::Rule) {
            Err(error) => Err(error),
            Ok(_) => match self.required(n, "rule"@, "context"@) {
                Err(error) => Err(error),
                Ok(context) => match self.rule_content(
                    self.children(n),
                    rules,
                    params,
                    visiting,
                    known,
                ) {
                    Err(error) => Err(error),
                    Ok(content) => Ok(
                        RuleView {
                            context: substituted(context, params),
                            lets: content.lets,
                            checks: content.checks,
                        },
                    ),
                },
            },
        }
    }

    /// The concrete rules among `nodes`.
    pub open spec fn rules_of(
        self,
        nodes: Seq<int>,
        rules: Seq<(Seq<char>, int)>,
        params: Seq<(Seq<char>, Seq<char>)>,
        known: Set<Seq<char>>,
    ) -> Result<Seq<RuleView>, ParseErrorView>
        decreases nodes.len(),
    {
        if nodes.len() == 0 {
            Ok(seq![])
        } else if !self.has_tag(nodes[0], "rule"@) || self.is_abstract(nodes[0]) {
            self.rules_of(nodes.skip(1), rules, params, known)
        } else {
            match self.rule_of(nodes[0], rules, params, known) {
                Err(error) => Err(error),
                Ok(rule) => prepend(
                    seq![rule],
                    self.rules_of(nodes.skip(1), rules, params, known),
                ),
            }
        }
    }

    /// The rules among `nodes` that have an identifier.
    pub open spec fn named_rules(self, nodes: Seq<int>) -> Seq<(Seq<char>, int)>
        decreases nodes.len(),
    {
        if nodes.len() == 0 {
            seq![]
        } else {
            let before = self.named_rules(nodes.drop_last());
            match self.attribute(nodes.last(), "id"@) {
                Some(id) => if self.has_tag(nodes.last(), "rule"@) {
                    before.push((id, nodes.last()))
                } else {
                    before
                },
                None => before,
            }
        }
    }

    /// The pattern with the content of node `n` and the identifier `id`.
    pub open spec fn pattern_of(
        self,
        n: int,
        id: Option<Seq<char>>,
        params: Seq<(Seq<char>, Seq<char>)>,
        known: Set<Seq<char>>,
    ) -> Result<PatternView, ParseErrorView> {
        match self.known_children(n, Container::Pattern) {
            Err(error) => Err(error),
            Ok(_) => match self.lets_of(n) {
                Err(error) => Err(error),
                Ok(lets) => match self.rules_of(
                    self.children(n),
                    self.named_rules(self.children(n)),
                    params,
                    known,
                ) {
                    Err(error) => Err(error),
                    Ok(rules) => Ok(PatternView { id, lets, rules }),
                },
            },
        }
    }

    /// The concrete pattern that node `n` declares, by its own content or as
    /// the use of one of the abstract patterns `templates`.
    pub open spec fn pattern_at(
        self,
        n: int,
        templates: Seq<(Seq<char>, int)>,
        known: Set<Seq<char>>,
    ) -> Result<PatternView, ParseErrorView> {
        let id = self.attribute(n, "id"@);
        match self.attribute(n, "is-a"@) {
            None => self.pattern_of(n, id, seq![], known),
            Some(template) => match self.known_children(n, Container::PatternUse) {
                Err(error) => Err(error),
                Ok(_) => match entry_named(templates, template) {
                    None => Err(
                        ParseErrorView::UnknownAbstractPattern {
                            pattern: template,
                            position: self.position(n),
                        },
                    ),
                    Some(source) => match self.collect(
                        self.children(n),
                        "param"@,
                        self.param_reader(),
                    ) {
                        Err(error) => Err(error),
                        Ok(params) => self.pattern_of(source, id, params, known),
                    },
                },
            },
        }
    }

    /// The abstract patterns among `nodes`, by identifier.
    pub open spec fn templates_of(self, nodes: Seq<int>) -> Result<
        Seq<(Seq<char>, int)>,
        ParseErrorView,
    >
        decreases nodes.len(),
    {
        if nodes.len() == 0 {
            Ok(seq![])
        } else if !self.has_tag(nodes[0], "pattern"@) || !self.is_abstract(nodes[0]) {
            self.templates_of(nodes.skip(1))
        } else {
            match self.required(nodes[0], "pattern"@, "id"@) {
                Err(error) => Err(error),
                Ok(id) => prepend(seq![(id, nodes[0])], self.templates_of(nodes.skip(1))),
            }
        }
    }

    /// The concrete patterns among `nodes`.
    pub open spec fn patterns_of(
        self,
        nodes: Seq<int>,
        templates: Seq<(Seq<char>, int)>,
        known: Set<Seq<char>>,
    ) -> Result<Seq<PatternView>, ParseErrorView>
        decreases nodes.len(),
    {
        if nodes.len() == 0 {
            Ok(seq![])
        } else if !self.has_tag(nodes[0], "pattern"@) || self.is_abstract(nodes[0]) {
            self.patterns_of(nodes.skip(1), templates, known)
        } else {
            match self.pattern_at(nodes[0], templates, known) {
                Err(error) => Err(error),
                Ok(pattern) => prepend(
                    seq![pattern],
                    self.patterns_of(nodes.skip(1), templates, known),
                ),
            }
        }
    }

    /// The pattern that an `<active pattern="...">` names, which must be
    /// among `known`.
    pub open spec fn active_of(self, n: int, known: Set<Seq<char>>) -> Result<
        Seq<char>,
        ParseErrorView,
    > {
        match self.required(n, "active"@, "pattern"@) {
            Err(error) => Err(error),
            Ok(pattern) => if known.contains(pattern) {
                Ok(pattern)
            } else {
                Err(ParseErrorView::UnknownActivePattern { pattern, position: self.position(n) })
            },
        }
    }

    pub open spec fn active_reader(self, known: Set<Seq<char>>) -> spec_fn(int) -> Result<
        Seq<char>,
        ParseErrorView,
    > {
        |n: int| self.active_of(n, known)
    }

    /// A `<phase id="...">`, which activates patterns among `known`.
    pub open spec fn phase_of(self, n: int, known: Set<Seq<char>>) -> Result<
        PhaseView,
        ParseErrorView,
    > {
        match self.known_children(n, Container::Phase) {
            Err(error) => Err(error),
            Ok(_) => match self.required(n, "phase"@, "id"@) {
                Err(error) => Err(error),
                Ok(id) => match self.lets_of(n) {
                    Err(error) => Err(error),
                    Ok(lets) => match self.collect(
                        self.children(n),
                        "active"@,
                        self.active_reader(known),
                    ) {
                        Err(error) => Err(error),
                        Ok(active) => Ok(PhaseView { id, lets, active }),
                    },
                },
            },
        }
    }

    pub open spec fn phase_reader(self, known: Set<Seq<char>>) -> spec_fn(int) -> Result<
        PhaseView,
        ParseErrorView,
    > {
        |n: int| self.phase_of(n, known)
    }

    pub open spec fn ns_reader(self) -> spec_fn(int) -> Result<
        NamespaceBindingView,
        ParseErrorView,
    > {
        |n: int| self.ns_of(n)
    }

    /// The query binding that the schema element `n` declares, which must
    /// stand for XPath 1.0.
    pub open spec fn query_binding_of(self, n: int) -> Result<Option<Seq<char>>, ParseErrorView> {
        match self.attribute(n, "queryBinding"@) {
            None => Ok(None),
            Some(binding) => if crate::text::same_ignoring_case("xslt"@, binding)
                || crate::text::same_ignoring_case("xpath"@, binding) {
                Ok(Some(binding))
            } else {
                Err(
                    ParseErrorView::UnsupportedQueryBinding { binding, position: self.position(n) },
                )
            },
        }
    }

    /// The schema that element `n` stands for, once its header has been read:
    /// diagnostics, properties, patterns and phases.
    pub open spec fn body_of(
        self,
        n: int,
        ns: Seq<NamespaceBindingView>,
        lets: Seq<LetBindingView>,
        query_binding: Option<Seq<char>>,
    ) -> Result<SchemaView, ParseErrorView> {
        let nodes = self.children(n);
        match self.diagnostics_of(nodes) {
            Err(error) => Err(error),
            Ok(diagnostics) => match self.properties_of(nodes) {
                Err(error) => Err(error),
                Ok(properties) => match self.templates_of(nodes) {
                    Err(error) => Err(error),
                    Ok(templates) => match self.patterns_of(
                        nodes,
                        templates,
                        diagnostic_ids(diagnostics),
                    ) {
                        Err(error) => Err(error),
                        Ok(patterns) => if patterns.len() == 0 {
                            Err(ParseErrorView::NoPatterns)
                        } else {
                            match self.collect(
                                nodes,
                                "phase"@,
                                self.phase_reader(pattern_ids(patterns)),
                            ) {
                                Err(error) => Err(error),
                                Ok(phases) => Ok(
                                    SchemaView {
                                        ns,
                                        lets,
                                        default_phase: self.attribute(n, "defaultPhase"@),
                                        phases,
                                        patterns,
                                        diagnostics,
                                        properties,
                                        query_binding,
                                    },
                                ),
                            }
                        },
                    },
                },
            },
        }
    }

    /// The container that node `n` is as a child of a `container`.
    pub open spec fn container_in(self, n: int, container: Container) -> Option<Container> {
        match container {
            Container::Schema => if self.has_tag(n, "pattern"@) {
                if !self.is_abstract(n) && self.attribute(n, "is-a"@) is Some {
                    Some(Container::PatternUse)
                } else {
                    Some(Container::Pattern)
                }
            } else if self.has_tag(n, "phase"@) {
                Some(Container::Phase)
            } else if self.has_tag(n, "diagnostics"@) {
                Some(Container::Diagnostics)
            } else if self.has_tag(n, "properties"@) {
                Some(Container::Properties)
            } else if self.has_tag(n, "ns"@) {
                Some(Container::Empty)
            } else {
                None
            },
            Container::Properties => if self.has_tag(n, "property"@) {
                Some(Container::Message)
            } else {
                None
            },
            Container::Diagnostics => if self.has_tag(n, "diagnostic"@) {
                Some(Container::Message)
            } else {
                None
            },
            Container::Pattern => if self.has_tag(n, "rule"@) {
                Some(Container::Rule)
            } else {
                None
            },
            Container::PatternUse => if self.has_tag(n, "param"@) {
                Some(Container::Empty)
            } else {
                None
            },
            Container::Rule => if self.has_tag(n, "assert"@) || self.has_tag(n, "report"@) {
                Some(Container::Message)
            } else if self.has_tag(n, "extends"@) {
                Some(Container::Empty)
            } else {
                None
            },
            Container::Phase => if self.has_tag(n, "active"@) {
                Some(Container::Remark)
            } else {
                None
            },
            Container::Message => if self.nodes[n].is_element && !self.has_tag(n, "value-of"@)
                && !self.has_tag(n, "name"@) {
                Some(Container::Message)
            } else {
                None
            },
            Container::Remark => None,
            Container::Empty => None,
        }
    }

    /// The container that node `n` is in a schema with the root element
    /// `root`.
    pub open spec fn container_of(self, root: int, n: int) -> Option<Container>
        decreases n, 1nat,
    {
        if n == root {
            Some(Container::Schema)
        } else {
            match self.container_around(root, n) {
                Some(container) => self.container_in(n, container),
                None => None,
            }
        }
    }

    /// The container that the parent of node `n` is.
    pub open spec fn container_around(self, root: int, n: int) -> Option<Container>
        decreases n, 0nat,
    {
        match self.nodes[n].parent {
            Some(parent) => if 0 <= parent < n {
                self.container_of(root, parent as int)
            } else {
                None
            },
            None => None,
        }
    }

    /// Whether node `n`, below the root element `root`, is a Schematron
    /// element that the container around it does not admit.
    pub open spec fn is_misplaced(self, root: int, n: int) -> bool {
        n != root && self.is_schematron(n) && (match self.container_around(root, n) {
            Some(container) => !container.spec_admits(self.nodes[n].name),
            None => false,
        })
    }

    /// The first misplaced element from node `n` on.
    pub open spec fn first_misplaced(self, root: int, n: int) -> Option<int>
        decreases self.nodes.len() - n,
    {
        if n >= self.nodes.len() {
            None
        } else if self.is_misplaced(root, n) {
            Some(n)
        } else {
            self.first_misplaced(root, n + 1)
        }
    }

    /// Refuses a misplaced element anywhere below the root element `root`,
    /// whether or not anything refers to what it stands in.
    pub open spec fn placed(self, root: int) -> Result<(), ParseErrorView> {
        match self.first_misplaced(root, 0) {
            Some(n) => Err(
                ParseErrorView::UnexpectedElement {
                    element: self.nodes[n].name,
                    position: self.position(n),
                },
            ),
            None => Ok(()),
        }
    }

    /// The schema with the content of element `n`.
    pub open spec fn content_of(self, n: int) -> Result<SchemaView, ParseErrorView> {
        match self.known_children(n, Container::Schema) {
            Err(error) => Err(error),
            Ok(_) => match self.unique_ids(self.descendants(n), Set::empty()) {
                Err(error) => Err(error),
                Ok(_) => match self.collect(self.children(n), "ns"@, self.ns_reader()) {
                    Err(error) => Err(error),
                    Ok(ns) => match self.lets_of(n) {
                        Err(error) => Err(error),
                        Ok(lets) => match self.query_binding_of(n) {
                            Err(error) => Err(error),
                            Ok(query_binding) => self.body_of(n, ns, lets, query_binding),
                        },
                    },
                },
            },
        }
    }

    /// The schema that element `n` stands for.
    pub open spec fn schema_at(self, n: int) -> Result<SchemaView, ParseErrorView> {
        if !self.has_tag(n, "schema"@) {
            Err(
                ParseErrorView::WrongRootNamespace {
                    found: self.nodes[n].namespace,
                    position: self.position(n),
                },
            )
        } else {
            match self.content_of(n) {
                Err(error) => Err(error),
                Ok(schema) => match self.placed(n) {
                    Err(error) => Err(error),
                    Ok(_) => Ok(schema),
                },
            }
        }
    }

    /// The schema that the document stands for.
    pub open spec fn schema(self) -> Result<SchemaView, ParseErrorView> {
        self.schema_at(self.root_element()->0)
    }
}

/// What is collected from a list of nodes is what some of them mean.
pub proof fn lemma_collect<T>(
    tree: XmlTree,
    nodes: Seq<int>,
    tag: Seq<char>,
    read: spec_fn(int) -> Result<T, ParseErrorView>,
)
    ensures
        tree.collect(nodes, tag, read) matches Ok(items) ==> forall|i: int|
            0 <= i < items.len() ==> collected_from(tree, nodes, tag, read, #[trigger] items[i]),
    decreases nodes.len(),
{
    if nodes.len() > 0 {
        lemma_collect(tree, nodes.skip(1), tag, read);
        if let Ok(items) = tree.collect(nodes, tag, read) {
            assert forall|i: int| 0 <= i < items.len() implies collected_from(
                tree,
                nodes,
                tag,
                read,
                #[trigger] items[i],
            ) by {
                if tree.has_tag(nodes[0], tag) && i == 0 {
                    assert(read(nodes[0]) == Ok::<T, ParseErrorView>(items[0]));
                    assert(nodes.contains(nodes[0]));
                } else {
                    let rest = tree.collect(nodes.skip(1), tag, read)->Ok_0;
                    let k = if tree.has_tag(nodes[0], tag) {
                        i - 1
                    } else {
                        i
                    };
                    assert(rest[k] == items[i]);
                    assert(collected_from(tree, nodes.skip(1), tag, read, rest[k]));
                    let n = choose|n: int| #[trigger]
                        nodes.skip(1).contains(n) && tree.has_tag(n, tag) && read(n) == Ok::<
                            T,
                            ParseErrorView,
                        >(rest[k]);
                    let j = choose|j: int| 0 <= j < nodes.skip(1).len() && nodes.skip(1)[j] == n;
                    assert(nodes[j + 1] == n);
                    assert(nodes.contains(n));
                }
            }
        }
    }
}

/// Whether `item` is what one of `nodes`, a Schematron element named `tag`,
/// means.
pub open spec fn collected_from<T>(
    tree: XmlTree,
    nodes: Seq<int>,
    tag: Seq<char>,
    read: spec_fn(int) -> Result<T, ParseErrorView>,
    item: T,
) -> bool {
    exists|n: int| #[trigger]
        nodes.contains(n) && tree.has_tag(n, tag) && read(n) == Ok::<T, ParseErrorView>(item)
}

/// The first of `ids` that is not among `known`.
pub open spec fn first_outside(ids: Seq<Seq<char>>, known: Set<Seq<char>>) -> Option<Seq<char>>
    decreases ids.len(),
{
    if ids.len() == 0 {
        None
    } else if !known.contains(ids[0]) {
        Some(ids[0])
    } else {
        first_outside(ids.skip(1), known)
    }
}

/// The identifiers of `diagnostics`.
pub open spec fn diagnostic_ids(diagnostics: Seq<DiagnosticView>) -> Set<Seq<char>>
    decreases diagnostics.len(),
{
    if diagnostics.len() == 0 {
        Set::empty()
    } else {
        diagnostic_ids(diagnostics.drop_last()).insert(diagnostics.last().id)
    }
}

/// The identifiers of `patterns`.
pub open spec fn pattern_ids(patterns: Seq<PatternView>) -> Set<Seq<char>>
    decreases patterns.len(),
{
    if patterns.len() == 0 {
        Set::empty()
    } else {
        match patterns.last().id {
            Some(id) => pattern_ids(patterns.drop_last()).insert(id),
            None => pattern_ids(patterns.drop_last()),
        }
    }
}

} // verus!
