//! Prose and elements of other namespaces in a schema: putting them in changes
//! nothing.

use vstd::prelude::*;

use crate::error::ParseErrorView;
use crate::grammar;
use crate::grammar::{Container, RuleContent};
use crate::parsing_laws;
use crate::xml;
use crate::xml::XmlTree;

verus! {

/// Two documents of which the second has `count` nodes more than the first,
/// from index `at` on: children of node `parent`, and what is below these.
pub struct Insertion {
    pub before: XmlTree,
    pub after: XmlTree,
    pub parent: int,
    pub at: int,
    pub count: int,
}

impl Insertion {
    /// Whether node `n` of the second document is not in the first.
    pub open spec fn is_new(self, n: int) -> bool {
        self.at <= n < self.at + self.count
    }

    /// The index that node `n` of the second document has in the first.
    pub open spec fn old_index(self, n: int) -> int {
        if n < self.at {
            n
        } else {
            n - self.count
        }
    }

    /// Whether node `n` of the second document is the same as in the first. The
    /// characters between the children of `parent` may be others.
    pub open spec fn keeps(self, n: int) -> bool {
        let old_node = self.before.nodes[self.old_index(n)];
        let node = self.after.nodes[n];
        &&& node.is_element == old_node.is_element
        &&& node.is_text == old_node.is_text
        &&& node.namespace == old_node.namespace
        &&& node.name == old_node.name
        &&& node.attributes == old_node.attributes
        &&& node.text == old_node.text || self.before.is_child(self.parent, self.old_index(n))
        &&& match (node.parent, old_node.parent) {
            (Some(parent), Some(old_parent)) => !self.is_new(parent as int) && self.old_index(
                parent as int,
            ) == old_parent,
            (None, None) => true,
            _ => false,
        }
    }

    /// Whether the new node `n` is a `<title>` or `<p>` that `container` admits,
    /// an element of another namespace, or no element; or is below such a node
    /// and no Schematron element.
    pub open spec fn adds(self, n: int, container: Container) -> bool {
        match self.after.nodes[n].parent {
            Some(parent) => if parent == self.parent {
                self.after.is_schematron(n) ==> (self.after.nodes[n].name == "title"@
                    || self.after.nodes[n].name == "p"@) && container.spec_admits(
                    self.after.nodes[n].name,
                )
            } else {
                self.at <= parent < n && !self.after.is_schematron(n)
            },
            None => false,
        }
    }

    /// The root element of both documents.
    pub open spec fn root(self) -> int {
        self.before.root_element()->0
    }

    /// Whether what is new is prose or foreign content of a container that is
    /// no message.
    pub open spec fn is_inert(self) -> bool {
        &&& self.before.well_formed()
        &&& self.after.well_formed()
        &&& self.count >= 0
        &&& 0 <= self.parent < self.at <= self.before.nodes.len()
        &&& self.after.nodes.len() == self.before.nodes.len() + self.count
        &&& forall|n: int|
            0 <= n < self.after.nodes.len() && !self.is_new(n) ==> #[trigger] self.keeps(n)
        &&& match self.before.container_of(self.root(), self.parent) {
            Some(container) => {
                &&& !(container is Message)
                &&& forall|n: int| self.is_new(n) ==> #[trigger] self.adds(n, container)
            },
            None => false,
        }
    }

    /// The container that the new nodes are put into.
    spec fn container(self) -> Container {
        self.before.container_of(self.root(), self.parent)->0
    }

    /// Those of `nodes` that are not new, by their indices in the first
    /// document.
    spec fn kept(self, nodes: Seq<int>) -> Seq<int>
        decreases nodes.len(),
    {
        if nodes.len() == 0 {
            seq![]
        } else if self.is_new(nodes.last()) {
            self.kept(nodes.drop_last())
        } else {
            self.kept(nodes.drop_last()).push(self.old_index(nodes.last()))
        }
    }

    /// How many of the first `k` nodes are not new.
    spec fn kept_before(self, k: int) -> int {
        if k <= self.at {
            k
        } else if k <= self.at + self.count {
            self.at
        } else {
            k - self.count
        }
    }

    /// Whether node `n` of the second document is not new.
    spec fn is_old(self, n: int) -> bool {
        0 <= n < self.after.nodes.len() && !self.is_new(n)
    }

    /// Whether every node of a list is an old one or a new child of `parent`.
    spec fn is_list(self, nodes: Seq<int>) -> bool {
        forall|i: int|
            0 <= i < nodes.len() ==> {
                &&& 0 <= #[trigger] nodes[i] < self.after.nodes.len()
                &&& self.is_new(nodes[i]) ==> self.after.is_child(self.parent, nodes[i])
            }
    }

    /// Whether every node of a list is a child of the old node `n`.
    spec fn are_children(self, nodes: Seq<int>, n: int) -> bool {
        forall|i: int|
            0 <= i < nodes.len() ==> 0 <= n < #[trigger] nodes[i] < self.after.nodes.len()
                && self.after.is_child(n, nodes[i])
    }

    /// Whether the old node `n` is no container, or a message.
    spec fn is_free(self, n: int) -> bool {
        match self.before.container_of(self.root(), self.old_index(n)) {
            Some(container) => container is Message,
            None => true,
        }
    }

    /// Whether two lists of identified nodes are the same list.
    spec fn same_entries(
        self,
        entries: Seq<(Seq<char>, int)>,
        old_entries: Seq<(Seq<char>, int)>,
    ) -> bool {
        &&& entries.len() == old_entries.len()
        &&& forall|i: int|
            0 <= i < entries.len() ==> {
                &&& (#[trigger] entries[i]).0 == old_entries[i].0
                &&& self.is_old(entries[i].1)
                &&& self.old_index(entries[i].1) == old_entries[i].1
            }
    }
}

/// Whether a success in the first document is the same in the second.
spec fn stays<T>(old_result: Result<T, ParseErrorView>, result: Result<T, ParseErrorView>) -> bool {
    old_result is Ok ==> result == old_result
}

/// The names that tell elements apart.
proof fn lemma_names()
    ensures
        forall|name: Seq<char>|
            #![trigger grammar::has_identity(name)]
            name == "title"@ || name == "p"@ ==> !grammar::has_identity(name),
        "ns"@ != "title"@ && "ns"@ != "p"@,
        "let"@ != "title"@ && "let"@ != "p"@,
        "phase"@ != "title"@ && "phase"@ != "p"@,
        "pattern"@ != "title"@ && "pattern"@ != "p"@,
        "diagnostics"@ != "title"@ && "diagnostics"@ != "p"@,
        "properties"@ != "title"@ && "properties"@ != "p"@,
        "property"@ != "title"@ && "property"@ != "p"@,
        "diagnostic"@ != "title"@ && "diagnostic"@ != "p"@,
        "rule"@ != "title"@ && "rule"@ != "p"@,
        "param"@ != "title"@ && "param"@ != "p"@,
        "assert"@ != "title"@ && "assert"@ != "p"@,
        "report"@ != "title"@ && "report"@ != "p"@,
        "extends"@ != "title"@ && "extends"@ != "p"@,
        "active"@ != "title"@ && "active"@ != "p"@,
        "phase"@ != "pattern"@,
        "diagnostics"@ != "pattern"@ && "diagnostics"@ != "phase"@,
        "properties"@ != "pattern"@ && "properties"@ != "phase"@ && "properties"@
            != "diagnostics"@,
{
    reveal_strlit("title");
    reveal_strlit("p");
    reveal_strlit("ns");
    reveal_strlit("let");
    reveal_strlit("phase");
    reveal_strlit("pattern");
    reveal_strlit("diagnostics");
    reveal_strlit("properties");
    reveal_strlit("property");
    reveal_strlit("diagnostic");
    reveal_strlit("rule");
    reveal_strlit("param");
    reveal_strlit("assert");
    reveal_strlit("report");
    reveal_strlit("extends");
    reveal_strlit("active");
    assert("title"@.len() == 5 && "p"@.len() == 1 && "ns"@.len() == 2 && "let"@.len() == 3);
    assert("phase"@.len() == 5 && "pattern"@.len() == 7 && "diagnostics"@.len() == 11);
    assert("properties"@.len() == 10 && "property"@.len() == 8 && "diagnostic"@.len() == 10);
    assert("rule"@.len() == 4 && "param"@.len() == 5 && "assert"@.len() == 6);
    assert("report"@.len() == 6 && "extends"@.len() == 7 && "active"@.len() == 6);
    assert("title"@[0] == 't' && "phase"@[0] == 'p' && "param"@[0] == 'p');
}

/// An element with one of these names is a message or no container, whatever
/// it stands in.
proof fn lemma_free_names(tree: XmlTree, n: int, container: Container)
    requires
        tree.has_tag(n, "let"@) || tree.has_tag(n, "assert"@) || tree.has_tag(n, "report"@)
            || tree.has_tag(n, "diagnostic"@) || tree.has_tag(n, "property"@),
    ensures
        tree.container_in(n, container) matches Some(inner) ==> inner is Message,
{
    reveal_strlit("ns");
    reveal_strlit("let");
    reveal_strlit("phase");
    reveal_strlit("pattern");
    reveal_strlit("diagnostics");
    reveal_strlit("properties");
    reveal_strlit("property");
    reveal_strlit("diagnostic");
    reveal_strlit("rule");
    reveal_strlit("param");
    reveal_strlit("assert");
    reveal_strlit("report");
    reveal_strlit("extends");
    reveal_strlit("active");
    assert("ns"@.len() == 2 && "let"@.len() == 3);
    assert("phase"@.len() == 5 && "pattern"@.len() == 7 && "diagnostics"@.len() == 11);
    assert("properties"@.len() == 10 && "property"@.len() == 8 && "diagnostic"@.len() == 10);
    assert("rule"@.len() == 4 && "param"@.len() == 5 && "assert"@.len() == 6);
    assert("report"@.len() == 6 && "extends"@.len() == 7 && "active"@.len() == 6);
    assert("properties"@[0] == 'p' && "diagnostic"@[0] == 'd');
    assert("assert"@[1] == 's' && "active"@[1] == 'c' && "report"@[0] == 'r' && "active"@[0]
        == 'a');
}

/// An old node is the same in both documents.
proof fn lemma_old_node(change: Insertion, n: int)
    requires
        change.is_inert(),
        change.is_old(n),
    ensures
        change.keeps(n),
        0 <= change.old_index(n) < change.before.nodes.len(),
        change.after.is_schematron(n) == change.before.is_schematron(change.old_index(n)),
        forall|tag: Seq<char>| #[trigger]
            change.after.has_tag(n, tag) == change.before.has_tag(change.old_index(n), tag),
        forall|name: Seq<char>| #[trigger]
            change.after.attribute(n, name) == change.before.attribute(change.old_index(n), name),
        change.after.is_abstract(n) == change.before.is_abstract(change.old_index(n)),
        change.after.identity(n) == change.before.identity(change.old_index(n)),
{
    assert(change.keeps(n));
}

/// A new child of `parent` has none of the names that are read.
proof fn lemma_new_child(change: Insertion, n: int)
    requires
        change.is_inert(),
        change.is_new(n),
        change.after.is_child(change.parent, n),
    ensures
        forall|tag: Seq<char>|
            tag != "title"@ && tag != "p"@ ==> !(#[trigger] change.after.has_tag(n, tag)),
        change.after.is_schematron(n) ==> change.container().spec_admits(
            change.after.nodes[n].name,
        ),
{
    assert(change.adds(n, change.container()));
}

proof fn lemma_kept_front(change: Insertion, nodes: Seq<int>)
    requires
        nodes.len() > 0,
    ensures
        change.kept(nodes) == (if change.is_new(nodes[0]) {
            change.kept(nodes.skip(1))
        } else {
            seq![change.old_index(nodes[0])] + change.kept(nodes.skip(1))
        }),
    decreases nodes.len(),
{
    let rest = nodes.skip(1);
    if nodes.len() == 1 {
        assert(nodes.drop_last().len() == 0);
        assert(change.kept(nodes.drop_last()) == Seq::<int>::empty());
        assert(change.kept(rest) == Seq::<int>::empty());
    } else {
        lemma_kept_front(change, nodes.drop_last());
        assert(nodes.drop_last().skip(1) == rest.drop_last());
        assert(rest.last() == nodes.last());
        assert(nodes.drop_last()[0] == nodes[0]);
    }
}

proof fn lemma_children_before(change: Insertion, n: int, k: int)
    requires
        change.is_inert(),
        change.is_old(n),
        0 <= k <= change.after.nodes.len(),
    ensures
        change.kept(change.after.children_before(n, k)) == change.before.children_before(
            change.old_index(n),
            change.kept_before(k),
        ),
    decreases k,
{
    if k > 0 {
        lemma_children_before(change, n, k - 1);
        let list = change.after.children_before(n, k - 1);
        assert(list.push(k - 1).drop_last() == list);
        if !change.is_new(k - 1) {
            assert(change.keeps(k - 1));
            assert(change.kept_before(k) == change.kept_before(k - 1) + 1);
            assert(change.old_index(k - 1) == change.kept_before(k - 1));
            assert(change.after.is_child(n, k - 1) == change.before.is_child(
                change.old_index(n),
                change.old_index(k - 1),
            ));
        }
    }
}

/// The children of an old node are its old ones, with new ones only below
/// `parent`.
proof fn lemma_children(change: Insertion, n: int)
    requires
        change.is_inert(),
        change.is_old(n),
    ensures
        change.kept(change.after.children(n)) == change.before.children(change.old_index(n)),
        change.is_list(change.after.children(n)),
        change.are_children(change.after.children(n), n),
{
    let list = change.after.children(n);
    lemma_children_before(change, n, change.after.nodes.len() as int);
    xml::lemma_children(change.after, n, change.after.nodes.len() as int);
    assert forall|i: int| 0 <= i < list.len() implies {
        &&& 0 <= n < #[trigger] list[i] < change.after.nodes.len()
        &&& change.after.is_child(n, list[i])
        &&& change.is_new(list[i]) ==> change.after.is_child(change.parent, list[i])
    } by {
        let c = list[i];
        assert(0 <= c < change.after.nodes.len() && change.after.is_child(n, c));
        assert(change.after.nodes[c].parent is Some);
        if change.is_new(c) {
            assert(change.adds(c, change.container()));
        }
    }
}

proof fn lemma_root(change: Insertion)
    requires
        change.is_inert(),
    ensures
        change.after.root_element() == Some(change.root()),
        change.is_old(change.root()),
        0 < change.root() < change.at,
        change.old_index(change.root()) == change.root(),
{
    xml::lemma_root_element(change.before);
    xml::lemma_first_element(change.before, change.before.children(0));
    xml::lemma_children(change.before, 0, change.before.nodes.len() as int);
    let root = change.root();
    let old_list = change.before.children(0);
    let i = choose|i: int| 0 <= i < old_list.len() && old_list[i] == root;
    assert(change.before.is_child(0, old_list[i]));
    assert(change.before.nodes[root].parent is Some);
    assert(root > 0);
    if change.parent < root {
        parsing_laws::lemma_containers_below(change.before, root, change.parent);
    }
    assert(0 != change.parent);
    lemma_children(change, 0);
    lemma_first_element(change, change.after.children(0), 0);
}

proof fn lemma_first_element(change: Insertion, nodes: Seq<int>, n: int)
    requires
        change.is_inert(),
        change.is_old(n),
        n != change.parent,
        change.are_children(nodes, n),
    ensures
        match change.after.first_element(nodes) {
            Some(c) => change.is_old(c) && change.before.first_element(change.kept(nodes)) == Some(
                change.old_index(c),
            ),
            None => change.before.first_element(change.kept(nodes)) is None,
        },
    decreases nodes.len(),
{
    if nodes.len() > 0 {
        lemma_kept_front(change, nodes);
        lemma_child_is_old(change, n, nodes[0]);
        let rest = nodes.skip(1);
        assert forall|i: int| 0 <= i < rest.len() implies 0 <= n < #[trigger] rest[i]
            < change.after.nodes.len() && change.after.is_child(n, rest[i]) by {
            assert(rest[i] == nodes[i + 1]);
        }
        lemma_first_element(change, rest, n);
        lemma_old_node(change, nodes[0]);
        let old_nodes = change.kept(nodes);
        assert(old_nodes[0] == change.old_index(nodes[0]));
        assert(old_nodes.skip(1) == change.kept(rest));
    }
}

/// The children of an old node other than `parent` are old.
proof fn lemma_child_is_old(change: Insertion, n: int, child: int)
    requires
        change.is_inert(),
        change.is_old(n),
        n != change.parent,
        0 <= child < change.after.nodes.len(),
        change.after.is_child(n, child),
    ensures
        change.is_old(child),
        change.before.is_child(change.old_index(n), change.old_index(child)),
{
    if change.is_new(child) {
        assert(change.adds(child, change.container()));
    } else {
        assert(change.keeps(child));
    }
}

/// Old nodes are the same containers.
proof fn lemma_containers(change: Insertion, n: int)
    requires
        change.is_inert(),
        change.is_old(n),
    ensures
        change.after.container_of(change.root(), n) == change.before.container_of(
            change.root(),
            change.old_index(n),
        ),
        change.after.container_around(change.root(), n) == change.before.container_around(
            change.root(),
            change.old_index(n),
        ),
    decreases n,
{
    lemma_root(change);
    lemma_old_node(change, n);
    assert(n == change.root() <==> change.old_index(n) == change.root());
    if let Some(parent) = change.after.nodes[n].parent {
        assert(parent < n);
        assert(change.is_old(parent as int));
        lemma_containers(change, parent as int);
        assert(change.before.nodes[change.old_index(n)].parent is Some);
    }
    if let Some(container) = change.after.container_around(change.root(), n) {
        assert(change.after.container_in(n, container) == change.before.container_in(
            change.old_index(n),
            container,
        ));
    }
}

/// What is new is not misplaced.
proof fn lemma_placed(change: Insertion)
    requires
        change.is_inert(),
        change.before.placed(change.root()) is Ok,
    ensures
        change.after.placed(change.root()) is Ok,
{
    let root = change.root();
    parsing_laws::lemma_first_misplaced(change.before, root, 0);
    parsing_laws::lemma_first_misplaced(change.after, root, 0);
    if let Some(n) = change.after.first_misplaced(root, 0) {
        if change.is_new(n) {
            assert(change.adds(n, change.container()));
            let parent = change.after.nodes[n].parent->0;
            if parent == change.parent {
                assert(change.is_old(change.parent));
                lemma_containers(change, change.parent);
                assert(change.after.container_around(root, n) == Some(change.container()));
            }
        } else {
            lemma_containers(change, n);
            lemma_old_node(change, n);
            lemma_root(change);
            assert(change.before.is_misplaced(root, change.old_index(n)));
        }
    }
}

proof fn lemma_within(change: Insertion, n: int)
    requires
        change.is_inert(),
        change.is_old(n),
    ensures
        change.after.is_within(change.root(), n) == change.before.is_within(
            change.root(),
            change.old_index(n),
        ),
    decreases n,
{
    lemma_root(change);
    lemma_old_node(change, n);
    if let Some(parent) = change.after.nodes[n].parent {
        assert(parent < n);
        lemma_within(change, parent as int);
        assert(change.before.nodes[change.old_index(n)].parent is Some);
    }
}

proof fn lemma_descendants(change: Insertion, k: int)
    requires
        change.is_inert(),
        0 <= k <= change.after.nodes.len(),
    ensures
        change.kept(change.after.descendants_before(change.root(), k))
            == change.before.descendants_before(change.root(), change.kept_before(k)),
    decreases k,
{
    if k > 0 {
        lemma_descendants(change, k - 1);
        let list = change.after.descendants_before(change.root(), k - 1);
        assert(list.push(k - 1).drop_last() == list);
        if !change.is_new(k - 1) {
            lemma_within(change, k - 1);
            assert(change.kept_before(k) == change.kept_before(k - 1) + 1);
            assert(change.old_index(k - 1) == change.kept_before(k - 1));
        }
    }
}

proof fn lemma_unique_ids(change: Insertion, nodes: Seq<int>, seen: Set<Seq<char>>)
    requires
        change.is_inert(),
        forall|i: int| 0 <= i < nodes.len() ==> 0 <= #[trigger] nodes[i] < change.after.nodes.len(),
    ensures
        stays(
            change.before.unique_ids(change.kept(nodes), seen),
            change.after.unique_ids(nodes, seen),
        ),
    decreases nodes.len(),
{
    if nodes.len() > 0 {
        let n = nodes[0];
        let rest = nodes.skip(1);
        lemma_kept_front(change, nodes);
        assert forall|i: int| 0 <= i < rest.len() implies 0 <= #[trigger] rest[i]
            < change.after.nodes.len() by {
            assert(rest[i] == nodes[i + 1]);
        }
        if change.is_new(n) {
            lemma_names();
            assert(change.adds(n, change.container()));
            assert(change.after.identity(n) is None);
            lemma_unique_ids(change, rest, seen);
        } else {
            lemma_old_node(change, n);
            let old_nodes = change.kept(nodes);
            assert(old_nodes[0] == change.old_index(n));
            assert(old_nodes.skip(1) == change.kept(rest));
            match change.after.identity(n) {
                None => {
                    lemma_unique_ids(change, rest, seen);
                },
                Some(id) => {
                    lemma_unique_ids(change, rest, seen.insert(id));
                },
            }
        }
    }
}

/// What is below a message or below no container is a message or no
/// container.
proof fn lemma_free_child(change: Insertion, n: int, child: int)
    requires
        change.is_inert(),
        change.is_old(n),
        change.is_free(n),
        0 < n < child < change.after.nodes.len(),
        change.after.is_child(n, child),
    ensures
        n != change.parent,
        change.is_old(child),
        change.is_free(child),
        change.before.is_child(change.old_index(n), change.old_index(child)),
        change.after.nodes[child].text == change.before.nodes[change.old_index(child)].text,
        child != change.root(),
{
    lemma_root(change);
    assert(change.old_index(change.parent) == change.parent);
    assert(n != change.parent);
    lemma_child_is_old(change, n, child);
    lemma_old_node(change, child);
    let old_child = change.old_index(child);
    assert(change.before.container_around(change.root(), old_child) == change.before.container_of(
        change.root(),
        change.old_index(n),
    ));
    if old_child == change.root() {
        xml::lemma_first_element(change.before, change.before.children(0));
        xml::lemma_children(change.before, 0, change.before.nodes.len() as int);
        let old_list = change.before.children(0);
        let i = choose|i: int| 0 <= i < old_list.len() && old_list[i] == old_child;
        assert(change.before.is_child(0, old_list[i]));
        assert(n == 0);
        assert(false);
    }
    if change.before.is_child(change.parent, old_child) {
        assert(change.old_index(n) == change.parent);
        assert(false);
    }
}


proof fn lemma_text(change: Insertion, n: int, nodes: Seq<int>)
    requires
        change.is_inert(),
        change.is_old(n),
        change.is_free(n),
        0 < n,
        change.are_children(nodes, n),
    ensures
        change.after.text_of(n, nodes) == change.before.text_of(
            change.old_index(n),
            change.kept(nodes),
        ),
    decreases change.after.nodes.len() - n, nodes.len(),
{
    if nodes.len() > 0 {
        let child = nodes[0];
        let rest = nodes.skip(1);
        lemma_kept_front(change, nodes);
        lemma_free_child(change, n, child);
        lemma_old_node(change, child);
        assert forall|i: int| 0 <= i < rest.len() implies 0 <= n < #[trigger] rest[i]
            < change.after.nodes.len() && change.after.is_child(n, rest[i]) by {
            assert(rest[i] == nodes[i + 1]);
        }
        lemma_text(change, n, rest);
        lemma_children(change, child);
        lemma_text(change, child, change.after.children(child));
        let old_nodes = change.kept(nodes);
        assert(old_nodes[0] == change.old_index(child));
        assert(old_nodes.skip(1) == change.kept(rest));
        assert(change.after.text_of_child(n, child) == change.before.text_of_child(
            change.old_index(n),
            change.old_index(child),
        ));
    }
}

proof fn lemma_message(
    change: Insertion,
    n: int,
    nodes: Seq<int>,
    params: Seq<(Seq<char>, Seq<char>)>,
)
    requires
        change.is_inert(),
        change.is_old(n),
        change.is_free(n),
        0 < n,
        change.are_children(nodes, n),
    ensures
        stays(
            change.before.message_of(change.old_index(n), change.kept(nodes), params),
            change.after.message_of(n, nodes, params),
        ),
    decreases change.after.nodes.len() - n, nodes.len(),
{
    if nodes.len() > 0 {
        let child = nodes[0];
        let rest = nodes.skip(1);
        lemma_kept_front(change, nodes);
        lemma_free_child(change, n, child);
        lemma_old_node(change, child);
        assert forall|i: int| 0 <= i < rest.len() implies 0 <= n < #[trigger] rest[i]
            < change.after.nodes.len() && change.after.is_child(n, rest[i]) by {
            assert(rest[i] == nodes[i + 1]);
        }
        lemma_message(change, n, rest, params);
        lemma_children(change, child);
        lemma_message(change, child, change.after.children(child), params);
        let old_nodes = change.kept(nodes);
        assert(old_nodes[0] == change.old_index(child));
        assert(old_nodes.skip(1) == change.kept(rest));
        assert(stays(
            change.before.message_of_child(
                change.old_index(n),
                change.old_index(child),
                params,
            ),
            change.after.message_of_child(n, child, params),
        ));
    }
}

/// An element with one of these names is free.
proof fn lemma_free_element(change: Insertion, n: int)
    requires
        change.is_inert(),
        change.is_old(n),
        change.after.has_tag(n, "let"@) || change.after.has_tag(n, "assert"@)
            || change.after.has_tag(n, "report"@) || change.after.has_tag(n, "diagnostic"@)
            || change.after.has_tag(n, "property"@),
        n != change.root(),
    ensures
        change.is_free(n),
{
    lemma_old_node(change, n);
    lemma_root(change);
    let old_n = change.old_index(n);
    if let Some(container) = change.before.container_around(change.root(), old_n) {
        lemma_free_names(change.before, old_n, container);
    }
}

proof fn lemma_let(change: Insertion, n: int)
    requires
        change.is_inert(),
        change.is_old(n),
        change.root() < n,
        change.after.has_tag(n, "let"@),
    ensures
        stays(change.before.let_of(change.old_index(n)), change.after.let_of(n)),
{
    lemma_old_node(change, n);
    lemma_root(change);
    lemma_free_element(change, n);
    lemma_children(change, n);
    assert(change.old_index(change.parent) == change.parent);
    assert(n != change.parent);
    lemma_text(change, n, change.after.children(n));
    lemma_first_element(change, change.after.children(n), n);
}

/// What is collected from old nodes stays.
proof fn lemma_collect<T>(
    change: Insertion,
    nodes: Seq<int>,
    tag: Seq<char>,
    old_read: spec_fn(int) -> Result<T, ParseErrorView>,
    read: spec_fn(int) -> Result<T, ParseErrorView>,
)
    requires
        change.is_inert(),
        change.is_list(nodes),
        tag != "title"@ && tag != "p"@,
        forall|i: int|
            0 <= i < nodes.len() && change.is_old(nodes[i]) && change.after.has_tag(nodes[i], tag)
                ==> stays(old_read(change.old_index(nodes[i])), read(#[trigger] nodes[i])),
    ensures
        stays(
            change.before.collect(change.kept(nodes), tag, old_read),
            change.after.collect(nodes, tag, read),
        ),
    decreases nodes.len(),
{
    if nodes.len() > 0 {
        let rest = nodes.skip(1);
        lemma_kept_front(change, nodes);
        assert forall|i: int|
            0 <= i < rest.len() && change.is_old(rest[i]) && change.after.has_tag(
                rest[i],
                tag,
            ) implies stays(old_read(change.old_index(rest[i])), read(#[trigger] rest[i])) by {
            assert(rest[i] == nodes[i + 1]);
        }
        lemma_list_rest(change, nodes);
        lemma_collect(change, rest, tag, old_read, read);
        if change.is_new(nodes[0]) {
            lemma_new_child(change, nodes[0]);
        } else {
            lemma_old_node(change, nodes[0]);
            let old_nodes = change.kept(nodes);
            assert(old_nodes[0] == change.old_index(nodes[0]));
            assert(old_nodes.skip(1) == change.kept(rest));
        }
    }
}

proof fn lemma_list_rest(change: Insertion, nodes: Seq<int>)
    requires
        change.is_list(nodes),
        nodes.len() > 0,
    ensures
        change.is_list(nodes.skip(1)),
        0 <= nodes[0] < change.after.nodes.len(),
        change.is_new(nodes[0]) ==> change.after.is_child(change.parent, nodes[0]),
{
    let rest = nodes.skip(1);
    assert forall|i: int| 0 <= i < rest.len() implies {
        &&& 0 <= #[trigger] rest[i] < change.after.nodes.len()
        &&& change.is_new(rest[i]) ==> change.after.is_child(change.parent, rest[i])
    } by {
        assert(rest[i] == nodes[i + 1]);
    }
    assert(0 <= nodes[0]);
}

proof fn lemma_first_tagged(change: Insertion, nodes: Seq<int>, tag: Seq<char>)
    requires
        change.is_inert(),
        change.is_list(nodes),
        tag != "title"@ && tag != "p"@,
    ensures
        match change.after.first_tagged(nodes, tag) {
            Some(n) => {
                &&& change.is_old(n)
                &&& nodes.contains(n)
                &&& change.after.has_tag(n, tag)
                &&& change.before.first_tagged(change.kept(nodes), tag) == Some(
                    change.old_index(n),
                )
            },
            None => change.before.first_tagged(change.kept(nodes), tag) is None,
        },
    decreases nodes.len(),
{
    if nodes.len() > 0 {
        let rest = nodes.skip(1);
        lemma_kept_front(change, nodes);
        lemma_list_rest(change, nodes);
        lemma_first_tagged(change, rest, tag);
        if change.is_new(nodes[0]) {
            lemma_new_child(change, nodes[0]);
        } else {
            lemma_old_node(change, nodes[0]);
            let old_nodes = change.kept(nodes);
            assert(old_nodes[0] == change.old_index(nodes[0]));
            assert(old_nodes.skip(1) == change.kept(rest));
        }
        if let Some(n) = change.after.first_tagged(rest, tag) {
            let i = choose|i: int| 0 <= i < rest.len() && rest[i] == n;
            assert(nodes[i + 1] == n);
        }
        assert(nodes.contains(nodes[0]));
    }
}

proof fn lemma_unexpected(change: Insertion, nodes: Seq<int>, n: int, container: Container)
    requires
        change.is_inert(),
        change.is_list(nodes),
        change.are_children(nodes, n),
        n == change.parent ==> container == change.container(),
    ensures
        change.before.first_unexpected(change.kept(nodes), container) is None
            ==> change.after.first_unexpected(nodes, container) is None,
    decreases nodes.len(),
{
    if nodes.len() > 0 {
        let rest = nodes.skip(1);
        lemma_kept_front(change, nodes);
        lemma_list_rest(change, nodes);
        assert forall|i: int| 0 <= i < rest.len() implies 0 <= n < #[trigger] rest[i]
            < change.after.nodes.len() && change.after.is_child(n, rest[i]) by {
            assert(rest[i] == nodes[i + 1]);
        }
        lemma_unexpected(change, rest, n, container);
        if change.is_new(nodes[0]) {
            lemma_new_child(change, nodes[0]);
            assert(change.after.is_child(n, nodes[0]));
        } else {
            lemma_old_node(change, nodes[0]);
            let old_nodes = change.kept(nodes);
            assert(old_nodes[0] == change.old_index(nodes[0]));
            assert(old_nodes.skip(1) == change.kept(rest));
        }
    }
}

proof fn lemma_known_children(change: Insertion, n: int, container: Container)
    requires
        change.is_inert(),
        change.is_old(n),
        change.before.container_of(change.root(), change.old_index(n)) == Some(container),
    ensures
        stays(
            change.before.known_children(change.old_index(n), container),
            change.after.known_children(n, container),
        ),
{
    lemma_children(change, n);
    assert(change.old_index(change.parent) == change.parent);
    lemma_unexpected(change, change.after.children(n), n, container);
}

/// The old children of a container are what the container makes of them.
proof fn lemma_container_child(change: Insertion, n: int, child: int, container: Container)
    requires
        change.is_inert(),
        change.is_old(n),
        change.root() <= n < child,
        change.is_old(child),
        change.after.is_child(n, child),
        change.before.container_of(change.root(), change.old_index(n)) == Some(container),
    ensures
        change.before.container_of(change.root(), change.old_index(child))
            == change.before.container_in(change.old_index(child), container),
{
    lemma_root(change);
    lemma_old_node(change, child);
    let old_child = change.old_index(child);
    assert(change.before.nodes[old_child].parent is Some);
    assert(change.before.container_around(change.root(), old_child) == Some(container));
}

proof fn lemma_lets(change: Insertion, n: int)
    requires
        change.is_inert(),
        change.is_old(n),
        change.root() <= n,
    ensures
        stays(change.before.lets_of(change.old_index(n)), change.after.lets_of(n)),
{
    lemma_names();
    lemma_children(change, n);
    let nodes = change.after.children(n);
    let old_read = change.before.let_reader();
    let read = change.after.let_reader();
    assert forall|i: int|
        0 <= i < nodes.len() && change.is_old(nodes[i]) && change.after.has_tag(
            nodes[i],
            "let"@,
        ) implies stays(old_read(change.old_index(nodes[i])), read(#[trigger] nodes[i])) by {
        lemma_let(change, nodes[i]);
    }
    lemma_collect(change, nodes, "let"@, old_read, read);
}

proof fn lemma_namespaces(change: Insertion, n: int)
    requires
        change.is_inert(),
        change.is_old(n),
    ensures
        stays(
            change.before.collect(
                change.before.children(change.old_index(n)),
                "ns"@,
                change.before.ns_reader(),
            ),
            change.after.collect(change.after.children(n), "ns"@, change.after.ns_reader()),
        ),
{
    lemma_names();
    lemma_children(change, n);
    let nodes = change.after.children(n);
    let old_read = change.before.ns_reader();
    let read = change.after.ns_reader();
    assert forall|i: int|
        0 <= i < nodes.len() && change.is_old(nodes[i]) && change.after.has_tag(
            nodes[i],
            "ns"@,
        ) implies stays(old_read(change.old_index(nodes[i])), read(#[trigger] nodes[i])) by {
        lemma_old_node(change, nodes[i]);
    }
    lemma_collect(change, nodes, "ns"@, old_read, read);
}

proof fn lemma_params(change: Insertion, n: int)
    requires
        change.is_inert(),
        change.is_old(n),
    ensures
        stays(
            change.before.collect(
                change.before.children(change.old_index(n)),
                "param"@,
                change.before.param_reader(),
            ),
            change.after.collect(change.after.children(n), "param"@, change.after.param_reader()),
        ),
{
    lemma_names();
    lemma_children(change, n);
    let nodes = change.after.children(n);
    let old_read = change.before.param_reader();
    let read = change.after.param_reader();
    assert forall|i: int|
        0 <= i < nodes.len() && change.is_old(nodes[i]) && change.after.has_tag(
            nodes[i],
            "param"@,
        ) implies stays(old_read(change.old_index(nodes[i])), read(#[trigger] nodes[i])) by {
        lemma_old_node(change, nodes[i]);
    }
    lemma_collect(change, nodes, "param"@, old_read, read);
}

proof fn lemma_diagnostics(change: Insertion)
    requires
        change.is_inert(),
    ensures
        stays(
            change.before.diagnostics_of(change.before.children(change.root())),
            change.after.diagnostics_of(change.after.children(change.root())),
        ),
{
    let root = change.root();
    lemma_root(change);
    lemma_names();
    lemma_children(change, root);
    let top = change.after.children(root);
    lemma_first_tagged(change, top, "diagnostics"@);
    if let Some(n) = change.after.first_tagged(top, "diagnostics"@) {
        let k = choose|k: int| 0 <= k < top.len() && top[k] == n;
        assert(root < top[k] && change.after.is_child(root, top[k]));
        lemma_old_node(change, n);
        lemma_container_child(change, root, n, Container::Schema);
        lemma_known_children(change, n, Container::Diagnostics);
        lemma_children(change, n);
        let nodes = change.after.children(n);
        let old_read = change.before.diagnostic_reader();
        let read = change.after.diagnostic_reader();
        assert forall|i: int|
            0 <= i < nodes.len() && change.is_old(nodes[i]) && change.after.has_tag(
                nodes[i],
                "diagnostic"@,
            ) implies stays(old_read(change.old_index(nodes[i])), read(#[trigger] nodes[i])) by {
            let c = nodes[i];
            lemma_old_node(change, c);
            lemma_free_element(change, c);
            lemma_children(change, c);
            lemma_message(change, c, change.after.children(c), seq![]);
        }
        lemma_collect(change, nodes, "diagnostic"@, old_read, read);
    }
}

proof fn lemma_properties(change: Insertion)
    requires
        change.is_inert(),
    ensures
        stays(
            change.before.properties_of(change.before.children(change.root())),
            change.after.properties_of(change.after.children(change.root())),
        ),
{
    let root = change.root();
    lemma_root(change);
    lemma_names();
    lemma_children(change, root);
    let top = change.after.children(root);
    lemma_first_tagged(change, top, "properties"@);
    if let Some(n) = change.after.first_tagged(top, "properties"@) {
        let k = choose|k: int| 0 <= k < top.len() && top[k] == n;
        assert(root < top[k] && change.after.is_child(root, top[k]));
        lemma_old_node(change, n);
        lemma_container_child(change, root, n, Container::Schema);
        lemma_known_children(change, n, Container::Properties);
        lemma_children(change, n);
        let nodes = change.after.children(n);
        let old_read = change.before.property_reader();
        let read = change.after.property_reader();
        assert forall|i: int|
            0 <= i < nodes.len() && change.is_old(nodes[i]) && change.after.has_tag(
                nodes[i],
                "property"@,
            ) implies stays(old_read(change.old_index(nodes[i])), read(#[trigger] nodes[i])) by {
            let c = nodes[i];
            lemma_old_node(change, c);
            lemma_free_element(change, c);
            lemma_children(change, c);
            lemma_message(change, c, change.after.children(c), seq![]);
        }
        lemma_collect(change, nodes, "property"@, old_read, read);
    }
}

proof fn lemma_phases(change: Insertion, known: Set<Seq<char>>)
    requires
        change.is_inert(),
    ensures
        stays(
            change.before.collect(
                change.before.children(change.root()),
                "phase"@,
                change.before.phase_reader(known),
            ),
            change.after.collect(
                change.after.children(change.root()),
                "phase"@,
                change.after.phase_reader(known),
            ),
        ),
{
    let root = change.root();
    lemma_root(change);
    lemma_names();
    lemma_children(change, root);
    let top = change.after.children(root);
    let old_read = change.before.phase_reader(known);
    let read = change.after.phase_reader(known);
    assert forall|i: int|
        0 <= i < top.len() && change.is_old(top[i]) && change.after.has_tag(
            top[i],
            "phase"@,
        ) implies stays(old_read(change.old_index(top[i])), read(#[trigger] top[i])) by {
        let n = top[i];
        assert(root < n && change.after.is_child(root, n));
        lemma_old_node(change, n);
        lemma_container_child(change, root, n, Container::Schema);
        lemma_known_children(change, n, Container::Phase);
        lemma_lets(change, n);
        lemma_children(change, n);
        let nodes = change.after.children(n);
        let old_active = change.before.active_reader(known);
        let active = change.after.active_reader(known);
        assert forall|k: int|
            0 <= k < nodes.len() && change.is_old(nodes[k]) && change.after.has_tag(
                nodes[k],
                "active"@,
            ) implies stays(
            old_active(change.old_index(nodes[k])),
            active(#[trigger] nodes[k]),
        ) by {
            lemma_old_node(change, nodes[k]);
        }
        lemma_collect(change, nodes, "active"@, old_active, active);
    }
    lemma_collect(change, top, "phase"@, old_read, read);
}


proof fn lemma_entry(
    change: Insertion,
    entries: Seq<(Seq<char>, int)>,
    old_entries: Seq<(Seq<char>, int)>,
    id: Seq<char>,
)
    requires
        change.same_entries(entries, old_entries),
    ensures
        match grammar::entry_named(entries, id) {
            Some(n) => {
                &&& change.is_old(n)
                &&& grammar::entry_named(old_entries, id) == Some(change.old_index(n))
                &&& exists|i: int| 0 <= i < entries.len() && (#[trigger] entries[i]).1 == n
            },
            None => grammar::entry_named(old_entries, id) is None,
        },
    decreases entries.len(),
{
    if entries.len() > 0 {
        let front = entries.drop_last();
        let old_front = old_entries.drop_last();
        assert forall|i: int| 0 <= i < front.len() implies {
            &&& (#[trigger] front[i]).0 == old_front[i].0
            &&& change.is_old(front[i].1)
            &&& change.old_index(front[i].1) == old_front[i].1
        } by {
            assert(front[i] == entries[i]);
        }
        lemma_entry(change, front, old_front, id);
        assert(entries[entries.len() - 1] == entries.last());
        if let Some(n) = grammar::entry_named(front, id) {
            let i = choose|i: int| 0 <= i < front.len() && (#[trigger] front[i]).1 == n;
            assert(entries[i].1 == n);
        }
    }
}

proof fn lemma_named_rules(change: Insertion, nodes: Seq<int>)
    requires
        change.is_inert(),
        change.is_list(nodes),
    ensures
        change.same_entries(
            change.after.named_rules(nodes),
            change.before.named_rules(change.kept(nodes)),
        ),
    decreases nodes.len(),
{
    if nodes.len() > 0 {
        lemma_names();
        let front = nodes.drop_last();
        let n = nodes.last();
        assert(n == nodes[nodes.len() - 1]);
        assert forall|i: int| 0 <= i < front.len() implies {
            &&& 0 <= #[trigger] front[i] < change.after.nodes.len()
            &&& change.is_new(front[i]) ==> change.after.is_child(change.parent, front[i])
        } by {
            assert(front[i] == nodes[i]);
        }
        lemma_named_rules(change, front);
        if change.is_new(n) {
            lemma_new_child(change, n);
        } else {
            lemma_old_node(change, n);
            let old_nodes = change.kept(nodes);
            assert(old_nodes.drop_last() == change.kept(front));
            assert(old_nodes.last() == change.old_index(n));
        }
    }
}

proof fn lemma_rule_content(
    change: Insertion,
    nodes: Seq<int>,
    rules: Seq<(Seq<char>, int)>,
    old_rules: Seq<(Seq<char>, int)>,
    params: Seq<(Seq<char>, Seq<char>)>,
    visiting: Seq<Seq<char>>,
    known: Set<Seq<char>>,
)
    requires
        change.is_inert(),
        change.is_list(nodes),
        forall|i: int| 0 <= i < nodes.len() ==> change.root() < #[trigger] nodes[i],
        change.same_entries(rules, old_rules),
        forall|i: int| 0 <= i < rules.len() ==> change.root() < (#[trigger] rules[i]).1,
    ensures
        stays(
            change.before.rule_content(change.kept(nodes), old_rules, params, visiting, known),
            change.after.rule_content(nodes, rules, params, visiting, known),
        ),
    decreases grammar::unvisited(rules, visiting), nodes.len(),
{
    if nodes.len() > 0 {
        let n = nodes[0];
        let rest = nodes.skip(1);
        lemma_names();
        lemma_kept_front(change, nodes);
        lemma_list_rest(change, nodes);
        assert forall|i: int| 0 <= i < rest.len() implies change.root() < #[trigger] rest[i] by {
            assert(rest[i] == nodes[i + 1]);
        }
        lemma_rule_content(change, rest, rules, old_rules, params, visiting, known);
        if change.is_new(n) {
            lemma_new_child(change, n);
            let none = RuleContent { checks: seq![], lets: seq![] };
            assert(change.after.rule_content_of_child(n, rules, params, visiting, known) == Ok::<
                RuleContent,
                ParseErrorView,
            >(none));
            if let Ok(content) = change.after.rule_content(rest, rules, params, visiting, known) {
                assert(none.checks + content.checks == content.checks);
                assert(none.lets + content.lets == content.lets);
            }
        } else {
            lemma_old_node(change, n);
            let old_nodes = change.kept(nodes);
            assert(old_nodes[0] == change.old_index(n));
            assert(old_nodes.skip(1) == change.kept(rest));
            lemma_rule_child(change, n, rules, old_rules, params, visiting, known);
        }
    }
}

proof fn lemma_rule_child(
    change: Insertion,
    n: int,
    rules: Seq<(Seq<char>, int)>,
    old_rules: Seq<(Seq<char>, int)>,
    params: Seq<(Seq<char>, Seq<char>)>,
    visiting: Seq<Seq<char>>,
    known: Set<Seq<char>>,
)
    requires
        change.is_inert(),
        change.is_old(n),
        change.root() < n,
        change.same_entries(rules, old_rules),
        forall|i: int| 0 <= i < rules.len() ==> change.root() < (#[trigger] rules[i]).1,
    ensures
        stays(
            change.before.rule_content_of_child(
                change.old_index(n),
                old_rules,
                params,
                visiting,
                known,
            ),
            change.after.rule_content_of_child(n, rules, params, visiting, known),
        ),
    decreases grammar::unvisited(rules, visiting), 0nat,
{
    lemma_old_node(change, n);
    lemma_root(change);
    if change.after.check_kind(n) is Some {
        lemma_free_element(change, n);
        lemma_children(change, n);
        lemma_message(change, n, change.after.children(n), params);
    } else if change.after.has_tag(n, "let"@) {
        lemma_let(change, n);
    } else if change.after.has_tag(n, "extends"@) {
        if let Some(id) = change.after.attribute(n, "rule"@) {
            lemma_entry(change, rules, old_rules, id);
            if let Some(target) = grammar::entry_named(rules, id) {
                if !visiting.contains(id) {
                    grammar::lemma_unvisited_decreases(rules, visiting, id);
                    lemma_children(change, target);
                    let kids = change.after.children(target);
                    let k = choose|k: int| 0 <= k < rules.len() && (#[trigger] rules[k]).1
                        == target;
                    assert(change.root() < rules[k].1);
                    assert forall|i: int| 0 <= i < kids.len() implies change.root()
                        < #[trigger] kids[i] by {
                        assert(target < kids[i]);
                    }
                    lemma_rule_content(
                        change,
                        kids,
                        rules,
                        old_rules,
                        params,
                        visiting.push(id),
                        known,
                    );
                }
            }
        }
    }
}

proof fn lemma_rule(
    change: Insertion,
    n: int,
    rules: Seq<(Seq<char>, int)>,
    old_rules: Seq<(Seq<char>, int)>,
    params: Seq<(Seq<char>, Seq<char>)>,
    known: Set<Seq<char>>,
)
    requires
        change.is_inert(),
        change.is_old(n),
        change.root() < n,
        change.before.container_of(change.root(), change.old_index(n)) == Some(Container::Rule),
        change.same_entries(rules, old_rules),
        forall|i: int| 0 <= i < rules.len() ==> change.root() < (#[trigger] rules[i]).1,
    ensures
        stays(
            change.before.rule_of(change.old_index(n), old_rules, params, known),
            change.after.rule_of(n, rules, params, known),
        ),
{
    lemma_old_node(change, n);
    lemma_known_children(change, n, Container::Rule);
    lemma_children(change, n);
    let kids = change.after.children(n);
    let visiting = match change.after.attribute(n, "id"@) {
        Some(id) => seq![id],
        None => seq![],
    };
    assert forall|i: int| 0 <= i < kids.len() implies change.root() < #[trigger] kids[i] by {
        assert(n < kids[i]);
    }
    lemma_rule_content(change, kids, rules, old_rules, params, visiting, known);
}

proof fn lemma_rules(
    change: Insertion,
    nodes: Seq<int>,
    n: int,
    rules: Seq<(Seq<char>, int)>,
    old_rules: Seq<(Seq<char>, int)>,
    params: Seq<(Seq<char>, Seq<char>)>,
    known: Set<Seq<char>>,
)
    requires
        change.is_inert(),
        change.is_old(n),
        change.root() < n,
        change.before.container_of(change.root(), change.old_index(n)) == Some(
            Container::Pattern,
        ),
        change.is_list(nodes),
        change.are_children(nodes, n),
        change.same_entries(rules, old_rules),
        forall|i: int| 0 <= i < rules.len() ==> change.root() < (#[trigger] rules[i]).1,
    ensures
        stays(
            change.before.rules_of(change.kept(nodes), old_rules, params, known),
            change.after.rules_of(nodes, rules, params, known),
        ),
    decreases nodes.len(),
{
    if nodes.len() > 0 {
        let c = nodes[0];
        let rest = nodes.skip(1);
        lemma_names();
        lemma_kept_front(change, nodes);
        lemma_list_rest(change, nodes);
        assert forall|i: int| 0 <= i < rest.len() implies 0 <= n < #[trigger] rest[i]
            < change.after.nodes.len() && change.after.is_child(n, rest[i]) by {
            assert(rest[i] == nodes[i + 1]);
        }
        lemma_rules(change, rest, n, rules, old_rules, params, known);
        if change.is_new(c) {
            lemma_new_child(change, c);
        } else {
            lemma_old_node(change, c);
            let old_nodes = change.kept(nodes);
            assert(old_nodes[0] == change.old_index(c));
            assert(old_nodes.skip(1) == change.kept(rest));
            if change.after.has_tag(c, "rule"@) {
                lemma_container_child(change, n, c, Container::Pattern);
                lemma_rule(change, c, rules, old_rules, params, known);
            }
        }
    }
}

proof fn lemma_pattern(
    change: Insertion,
    n: int,
    id: Option<Seq<char>>,
    params: Seq<(Seq<char>, Seq<char>)>,
    known: Set<Seq<char>>,
)
    requires
        change.is_inert(),
        change.is_old(n),
        change.root() < n,
        change.before.container_of(change.root(), change.old_index(n)) == Some(
            Container::Pattern,
        ),
    ensures
        stays(
            change.before.pattern_of(change.old_index(n), id, params, known),
            change.after.pattern_of(n, id, params, known),
        ),
{
    lemma_known_children(change, n, Container::Pattern);
    lemma_lets(change, n);
    lemma_children(change, n);
    let nodes = change.after.children(n);
    let old_nodes = change.before.children(change.old_index(n));
    lemma_named_rules(change, nodes);
    lemma_named_rules_below(change.after, nodes, n);
    let rules = change.after.named_rules(nodes);
    lemma_rules(change, nodes, n, rules, change.before.named_rules(old_nodes), params, known);
}

/// The named rules among the children of a node come after it.
proof fn lemma_named_rules_below(tree: XmlTree, nodes: Seq<int>, n: int)
    requires
        forall|i: int| 0 <= i < nodes.len() ==> n < #[trigger] nodes[i],
    ensures
        forall|i: int|
            0 <= i < tree.named_rules(nodes).len() ==> n < (#[trigger] tree.named_rules(nodes)[i]).1,
    decreases nodes.len(),
{
    if nodes.len() > 0 {
        let front = nodes.drop_last();
        assert forall|i: int| 0 <= i < front.len() implies n < #[trigger] front[i] by {
            assert(front[i] == nodes[i]);
        }
        lemma_named_rules_below(tree, front, n);
        assert(nodes.last() == nodes[nodes.len() - 1]);
        assert forall|i: int| 0 <= i < tree.named_rules(nodes).len() implies n < (
        #[trigger] tree.named_rules(nodes)[i]).1 by {
            if i < tree.named_rules(front).len() {
                assert(tree.named_rules(nodes)[i] == tree.named_rules(front)[i]);
            }
        }
    }
}

/// Whether the entries are patterns that are not instances, right below the
/// root.
spec fn are_templates(change: Insertion, templates: Seq<(Seq<char>, int)>) -> bool {
    forall|i: int|
        0 <= i < templates.len() ==> {
            let n = (#[trigger] templates[i]).1;
            &&& change.root() < n
            &&& change.before.container_of(change.root(), change.old_index(n)) == Some(
                Container::Pattern,
            )
        }
}

proof fn lemma_templates(change: Insertion, nodes: Seq<int>)
    requires
        change.is_inert(),
        change.is_list(nodes),
        change.are_children(nodes, change.root()),
    ensures
        change.before.templates_of(change.kept(nodes)) matches Ok(old_templates) ==> {
            &&& change.after.templates_of(nodes) matches Ok(templates)
            &&& change.same_entries(templates, old_templates)
            &&& are_templates(change, templates)
        },
    decreases nodes.len(),
{
    if nodes.len() > 0 {
        let c = nodes[0];
        let rest = nodes.skip(1);
        lemma_root(change);
        lemma_names();
        lemma_kept_front(change, nodes);
        lemma_list_rest(change, nodes);
        assert forall|i: int| 0 <= i < rest.len() implies 0 <= change.root() < #[trigger] rest[i]
            < change.after.nodes.len() && change.after.is_child(change.root(), rest[i]) by {
            assert(rest[i] == nodes[i + 1]);
        }
        lemma_templates(change, rest);
        if change.is_new(c) {
            lemma_new_child(change, c);
        } else {
            lemma_old_node(change, c);
            let old_nodes = change.kept(nodes);
            assert(old_nodes[0] == change.old_index(c));
            assert(old_nodes.skip(1) == change.kept(rest));
            lemma_container_child(change, change.root(), c, Container::Schema);
            if change.after.has_tag(c, "pattern"@) && change.after.is_abstract(c) {
                if let Ok(old_templates) = change.before.templates_of(old_nodes) {
                    let more = change.after.templates_of(rest)->Ok_0;
                    let templates = change.after.templates_of(nodes)->Ok_0;
                    let old_more = change.before.templates_of(old_nodes.skip(1))->Ok_0;
                    assert forall|i: int| 0 < i < templates.len() implies #[trigger] templates[i]
                        == more[i - 1] && old_templates[i] == old_more[i - 1] by {}
                    assert(templates[0].1 == c);
                }
            }
        }
    }
}

proof fn lemma_pattern_at(
    change: Insertion,
    n: int,
    templates: Seq<(Seq<char>, int)>,
    old_templates: Seq<(Seq<char>, int)>,
    known: Set<Seq<char>>,
)
    requires
        change.is_inert(),
        change.is_old(n),
        change.root() < n,
        change.after.is_child(change.root(), n),
        change.after.has_tag(n, "pattern"@),
        !change.after.is_abstract(n),
        change.same_entries(templates, old_templates),
        are_templates(change, templates),
    ensures
        stays(
            change.before.pattern_at(change.old_index(n), old_templates, known),
            change.after.pattern_at(n, templates, known),
        ),
{
    lemma_root(change);
    lemma_old_node(change, n);
    lemma_container_child(change, change.root(), n, Container::Schema);
    let id = change.after.attribute(n, "id"@);
    match change.after.attribute(n, "is-a"@) {
        None => {
            lemma_pattern(change, n, id, seq![], known);
        },
        Some(template) => {
            lemma_known_children(change, n, Container::PatternUse);
            lemma_entry(change, templates, old_templates, template);
            lemma_params(change, n);
            if let Some(source) = grammar::entry_named(templates, template) {
                let k = choose|k: int| 0 <= k < templates.len() && (#[trigger] templates[k]).1
                    == source;
                assert(change.root() < templates[k].1);
                if let Ok(params) = change.after.collect(
                    change.after.children(n),
                    "param"@,
                    change.after.param_reader(),
                ) {
                    lemma_pattern(change, source, id, params, known);
                }
            }
        },
    }
}

proof fn lemma_patterns(
    change: Insertion,
    nodes: Seq<int>,
    templates: Seq<(Seq<char>, int)>,
    old_templates: Seq<(Seq<char>, int)>,
    known: Set<Seq<char>>,
)
    requires
        change.is_inert(),
        change.is_list(nodes),
        change.are_children(nodes, change.root()),
        change.same_entries(templates, old_templates),
        are_templates(change, templates),
    ensures
        stays(
            change.before.patterns_of(change.kept(nodes), old_templates, known),
            change.after.patterns_of(nodes, templates, known),
        ),
    decreases nodes.len(),
{
    if nodes.len() > 0 {
        let c = nodes[0];
        let rest = nodes.skip(1);
        lemma_names();
        lemma_kept_front(change, nodes);
        lemma_list_rest(change, nodes);
        assert forall|i: int| 0 <= i < rest.len() implies 0 <= change.root() < #[trigger] rest[i]
            < change.after.nodes.len() && change.after.is_child(change.root(), rest[i]) by {
            assert(rest[i] == nodes[i + 1]);
        }
        lemma_patterns(change, rest, templates, old_templates, known);
        if change.is_new(c) {
            lemma_new_child(change, c);
        } else {
            lemma_old_node(change, c);
            let old_nodes = change.kept(nodes);
            assert(old_nodes[0] == change.old_index(c));
            assert(old_nodes.skip(1) == change.kept(rest));
            if change.after.has_tag(c, "pattern"@) && !change.after.is_abstract(c) {
                lemma_pattern_at(change, c, templates, old_templates, known);
            }
        }
    }
}

proof fn lemma_content(change: Insertion)
    requires
        change.is_inert(),
    ensures
        stays(change.before.content_of(change.root()), change.after.content_of(change.root())),
{
    let root = change.root();
    lemma_root(change);
    lemma_old_node(change, root);
    lemma_children(change, root);
    let nodes = change.after.children(root);
    let old_nodes = change.before.children(root);
    lemma_known_children(change, root, Container::Schema);
    lemma_descendants(change, change.after.nodes.len() as int);
    xml::lemma_descendants(change.after, root, change.after.nodes.len() as int);
    lemma_unique_ids(change, change.after.descendants(root), Set::empty());
    lemma_namespaces(change, root);
    lemma_lets(change, root);
    lemma_diagnostics(change);
    lemma_properties(change);
    lemma_templates(change, nodes);
    if let Ok(schema) = change.before.content_of(root) {
        let known = grammar::diagnostic_ids(schema.diagnostics);
        let templates = change.after.templates_of(nodes)->Ok_0;
        let old_templates = change.before.templates_of(old_nodes)->Ok_0;
        lemma_patterns(change, nodes, templates, old_templates, known);
        lemma_phases(change, grammar::pattern_ids(schema.patterns));
    }
}

/// Prose and elements of other namespaces change nothing: a schema that is
/// accepted is accepted as the same schema when a `<title>` or `<p>`, where it
/// is admitted, or an element of another namespace without Schematron elements
/// in it is put into a container that is no message.
pub proof fn prose_and_foreign_elements_change_nothing(change: Insertion)
    requires
        change.is_inert(),
        change.before.schema() is Ok,
    ensures
        change.after.schema() == change.before.schema(),
{
    lemma_root(change);
    lemma_old_node(change, change.root());
    lemma_content(change);
    lemma_placed(change);
}

/// The same of two texts: parsing gives the same schema.
pub proof fn texts_that_differ_in_prose_parse_alike(change: Insertion)
    requires
        change.is_inert(),
        xml::xml_nodes(change.before.text) == Ok::<Seq<xml::XmlNodeView>, Seq<char>>(
            change.before.nodes,
        ),
        xml::xml_nodes(change.after.text) == Ok::<Seq<xml::XmlNodeView>, Seq<char>>(
            change.after.nodes,
        ),
        crate::parser::parsed(change.before.text) is Ok,
    ensures
        crate::parser::parsed(change.after.text) == crate::parser::parsed(change.before.text),
{
    assert(change.before == (XmlTree { text: change.before.text, nodes: change.before.nodes }));
    prose_and_foreign_elements_change_nothing(change);
}

} // verus!
