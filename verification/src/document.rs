//! The outline tree that the rest of the library reads and rewrites.
//!
//! A [`Node`] owns its children. The node kinds that the library inspects are
//! plain data; every other kind of markdown node is carried through untouched
//! as a [`Foreign`] value.

use vstd::prelude::*;

verus! {

/// The list attributes that the markdown parser records for a list and for
/// each of its items. The library never looks inside.
#[verifier::external_type_specification]
#[verifier::external_body]
pub struct ExNodeList(comrak::nodes::NodeList);

/// A markdown node value as the parser made it. The library never looks
/// inside.
#[verifier::external_type_specification]
#[verifier::external_body]
pub struct ExNodeValue(comrak::nodes::NodeValue);

/// `Clone::clone` of comrak's `NodeValue`, which comrak derives: the copy
/// equals the value it was made from.
pub assume_specification[ <comrak::nodes::NodeValue as Clone>::clone ](
    value: &comrak::nodes::NodeValue,
) -> (copy: comrak::nodes::NodeValue)
    ensures
        copy == *value,
;

/// A markdown node of a kind that the library does not inspect.
#[derive(Debug, PartialEq)]
pub struct Foreign {
    value: comrak::nodes::NodeValue,
}

/// What a node is.
#[derive(Debug, PartialEq)]
pub enum NodeKind {
    /// The root of a document.
    Document,
    /// A heading of the given level: 1 for the document title, 2 for a
    /// section, and so on.
    Heading(u8),
    /// A list; its children are items and task items.
    List(comrak::nodes::NodeList),
    /// An ordinary list item.
    Item(comrak::nodes::NodeList),
    /// A task list item with its status marker, if it has one.
    TaskItem(Option<char>),
    /// A paragraph of inline nodes.
    Paragraph,
    /// Literal text.
    Text(String),
    /// Emphasised inline content.
    Emph,
    /// Strongly emphasised inline content.
    Strong,
    /// A line break inside a paragraph that the source wrapped.
    SoftBreak,
    /// Any other kind of node.
    Other(Foreign),
}

/// One node of the outline with everything below it.
#[derive(Debug, PartialEq)]
pub struct Node {
    pub kind: NodeKind,
    /// The column at which the node began in its source text.
    pub column: usize,
    pub children: Vec<Node>,
}

/// The mathematical value of a [`NodeKind`].
pub enum Kind {
    Document,
    Heading(u8),
    List(comrak::nodes::NodeList),
    Item(comrak::nodes::NodeList),
    TaskItem(Option<char>),
    Paragraph,
    Text(Seq<char>),
    Emph,
    Strong,
    SoftBreak,
    Other(Foreign),
}

/// The mathematical value of a [`Node`]: its kind, its column and the trees
/// of its children in document order.
pub struct Tree {
    pub kind: Kind,
    pub column: usize,
    pub children: Seq<Tree>,
}

impl View for NodeKind {
    type V = Kind;

    open spec fn view(&self) -> Kind {
        match *self {
            NodeKind::Document => Kind::Document,
            NodeKind::Heading(level) => Kind::Heading(level),
            NodeKind::List(attrs) => Kind::List(attrs),
            NodeKind::Item(attrs) => Kind::Item(attrs),
            NodeKind::TaskItem(marker) => Kind::TaskItem(marker),
            NodeKind::Paragraph => Kind::Paragraph,
            NodeKind::Text(text) => Kind::Text(text@),
            NodeKind::Emph => Kind::Emph,
            NodeKind::Strong => Kind::Strong,
            NodeKind::SoftBreak => Kind::SoftBreak,
            NodeKind::Other(foreign) => Kind::Other(foreign),
        }
    }
}

/// The tree of a node: its kind, its column and the trees of its children.
pub open spec fn tree_of(node: Node) -> Tree
    decreases node,
{
    Tree {
        kind: node.kind@,
        column: node.column,
        children: Seq::new(
            node.children@.len(),
            |i: int|
                if 0 <= i < node.children@.len() {
                    tree_of(node.children@[i])
                } else {
                    arbitrary()
                },
        ),
    }
}

impl View for Node {
    type V = Tree;

    open spec fn view(&self) -> Tree {
        tree_of(*self)
    }
}

/// The trees of a run of sibling nodes.
pub open spec fn forest(nodes: Seq<Node>) -> Seq<Tree> {
    Seq::new(nodes.len(), |i: int| nodes[i]@)
}

impl Foreign {
    /// The node value that is kept.
    pub closed spec fn held(self) -> comrak::nodes::NodeValue {
        self.value
    }

    /// Keeps a node value that the library does not inspect.
    pub(crate) fn holding(value: comrak::nodes::NodeValue) -> (kept: Foreign)
        ensures
            kept.held() == value,
    {
        Foreign { value }
    }

    /// The node value that is kept.
    pub(crate) fn value(&self) -> (value: &comrak::nodes::NodeValue)
        ensures
            *value == self.held(),
    {
        &self.value
    }

    /// A second value equal to this one.
    pub fn duplicate(&self) -> (copy: Foreign)
        ensures
            copy == *self,
    {
        Foreign { value: self.value.clone() }
    }
}

impl NodeKind {
    /// A second kind with the same value.
    pub fn duplicate(&self) -> (copy: NodeKind)
        ensures
            copy@ == self@,
    {
        match self {
            NodeKind::Document => NodeKind::Document,
            NodeKind::Heading(level) => NodeKind::Heading(*level),
            NodeKind::List(attrs) => NodeKind::List(*attrs),
            NodeKind::Item(attrs) => NodeKind::Item(*attrs),
            NodeKind::TaskItem(marker) => NodeKind::TaskItem(*marker),
            NodeKind::Paragraph => NodeKind::Paragraph,
            NodeKind::Text(text) => NodeKind::Text(text.clone()),
            NodeKind::Emph => NodeKind::Emph,
            NodeKind::Strong => NodeKind::Strong,
            NodeKind::SoftBreak => NodeKind::SoftBreak,
            NodeKind::Other(foreign) => NodeKind::Other(foreign.duplicate()),
        }
    }
}

impl Tree {
    /// A task item whose marker says that the task is completed.
    pub open spec fn is_completed_task(self) -> bool {
        self.kind == Kind::TaskItem(Some('x')) || self.kind == Kind::TaskItem(Some('X'))
    }

    /// The level of a heading, and nothing for any other node.
    pub open spec fn heading_level(self) -> Option<u8> {
        match self.kind {
            Kind::Heading(level) => Some(level),
            _ => None,
        }
    }

    /// The literal of a text node, and nothing for any other node.
    pub open spec fn literal(self) -> Option<Seq<char>> {
        match self.kind {
            Kind::Text(text) => Some(text),
            _ => None,
        }
    }
}

impl Node {
    /// A node without children.
    pub fn leaf(kind: NodeKind, column: usize) -> (node: Node)
        ensures
            node@ == (Tree { kind: kind@, column, children: Seq::empty() }),
    {
        let node = Node { kind, column, children: Vec::new() };
        assert(node@.children =~= Seq::empty());
        node
    }

    /// Whether the node is a task item marked `x` or `X`.
    pub fn is_completed_task(&self) -> (done: bool)
        ensures
            done == self@.is_completed_task(),
    {
        match self.kind {
            NodeKind::TaskItem(Some(marker)) => marker == 'x' || marker == 'X',
            _ => false,
        }
    }

    /// The level of a heading, and nothing for any other node.
    pub fn heading_level(&self) -> (level: Option<u8>)
        ensures
            level == self@.heading_level(),
    {
        match self.kind {
            NodeKind::Heading(level) => Some(level),
            _ => None,
        }
    }
}

/// A node's tree holds the trees of its children, one for one.
pub proof fn lemma_view_children(node: Node)
    ensures
        node@.children == forest(node.children@),
        node@.children.len() == node.children@.len(),
        forall|i: int| 0 <= i < node.children@.len() ==> node@.children[i] == #[trigger] node.children@[i]@,
{
    assert(node@.children.len() == node.children@.len());
    assert forall|i: int| 0 <= i < node.children@.len() implies node@.children[i] == #[trigger] node.children@[i]@ by {
        assert(node@.children[i] == node.children@[i]@);
    }
    assert(node@.children =~= forest(node.children@));
}

} // verus!
