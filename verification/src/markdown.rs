//! Markdown text to outline tree and back, through comrak.
//!
//! comrak keeps a document in an arena of linked nodes. What crosses into the
//! library is a flat list of plain records, from which the library puts its
//! own tree together; what crosses back is another flat list, from which the
//! arena is filled again.

use vstd::prelude::*;
use std::cell::RefCell;
use comrak::arena_tree::Node as ArenaNode;
use comrak::nodes::{Ast, AstNode, NodeHeading, NodeValue};
use crate::document::{forest, lemma_view_children, Foreign, Kind, Node, NodeKind, Tree};
use crate::pruner::lemma_forest_push;

verus! {

/// One node of a parsed document: what it is, the column at which it began,
/// and how many children it has.
pub struct OutlineEntry {
    pub kind: NodeKind,
    pub column: usize,
    pub children: usize,
}

/// The mathematical value of an [`OutlineEntry`].
pub struct EntryView {
    pub kind: Kind,
    pub column: usize,
    pub children: nat,
}

impl View for OutlineEntry {
    type V = EntryView;

    open spec fn view(&self) -> EntryView {
        EntryView { kind: self.kind@, column: self.column, children: self.children as nat }
    }
}

/// The values of a list of entries.
pub open spec fn outline_of(entries: Seq<OutlineEntry>) -> Seq<EntryView> {
    Seq::new(entries.len(), |i: int| entries[i]@)
}

/// The nodes of a tree in document order: the root, then everything below
/// its first child, then everything below its second child, and so on.
pub open spec fn preorder(tree: Tree) -> Seq<EntryView>
    decreases tree,
{
    seq![EntryView { kind: tree.kind, column: tree.column, children: tree.children.len() }]
        + preorder_all(tree.children)
}

/// The nodes of the trees in document order.
pub open spec fn preorder_all(trees: Seq<Tree>) -> Seq<EntryView>
    decreases trees,
{
    if trees.len() == 0 {
        Seq::empty()
    } else {
        preorder_all(trees.drop_last()) + preorder(trees.last())
    }
}

/// The document that comrak parses from `text`, with the task list
/// extension switched on or off and with or without relaxed matching of
/// task list markers.
pub uninterp spec fn parsed_markdown(text: Seq<char>, tasklist: bool, relaxed: bool) -> Tree;

impl NodeKind {
    /// The kind of a node that comrak made. The kinds that the library reads
    /// become plain data, field by field; any other value is kept whole.
    #[verifier::external_body]
    fn of(value: &comrak::nodes::NodeValue) -> NodeKind {
        match value {
            comrak::nodes::NodeValue::Document => NodeKind::Document,
            comrak::nodes::NodeValue::Heading(heading) => NodeKind::Heading(heading.level),
            comrak::nodes::NodeValue::List(attrs) => NodeKind::List(*attrs),
            comrak::nodes::NodeValue::Item(attrs) => NodeKind::Item(*attrs),
            comrak::nodes::NodeValue::TaskItem(marker) => NodeKind::TaskItem(*marker),
            comrak::nodes::NodeValue::Paragraph => NodeKind::Paragraph,
            comrak::nodes::NodeValue::Text(text) => NodeKind::Text(text.clone()),
            comrak::nodes::NodeValue::Emph => NodeKind::Emph,
            comrak::nodes::NodeValue::Strong => NodeKind::Strong,
            comrak::nodes::NodeValue::SoftBreak => NodeKind::SoftBreak,
            other => NodeKind::Other(Foreign::holding(other.clone())),
        }
    }
}

/// `comrak::parse_document` on a fresh arena, and `descendants` on the root
/// it returns: the nodes of the parsed document in document order, each with
/// its kind, the column at which it starts and the number of its children.
#[verifier::external_body]
fn parse_outline(contents: &str, tasklist: bool, relaxed: bool) -> (outline: Vec<OutlineEntry>)
    ensures
        outline_of(outline@) == preorder(parsed_markdown(contents@, tasklist, relaxed)),
{
    let arena = comrak::Arena::new();
    let mut options = comrak::Options::default();
    options.extension.tasklist = tasklist;
    options.parse.relaxed_tasklist_matching = relaxed;
    let root = comrak::parse_document(&arena, contents, &options);
    root.descendants().map(|node| OutlineEntry {
        kind: NodeKind::of(&node.data.borrow().value),
        column: node.data.borrow().sourcepos.start.column,
        children: node.children().count(),
    }).collect()
}

/// The nodes of the first `n + 1` trees are those of the first `n` and then
/// those of the tree at `n`.
pub proof fn lemma_preorder_take(trees: Seq<Tree>, n: int)
    requires
        0 <= n < trees.len(),
    ensures
        preorder_all(trees.take(n + 1)) == preorder_all(trees.take(n)) + preorder(trees[n]),
{
    assert(trees.take(n + 1).drop_last() =~= trees.take(n));
    assert(trees.take(n + 1).last() == trees[n]);
}

/// The nodes of the first `n` trees stand at the start of the nodes of all
/// of them.
pub proof fn lemma_preorder_prefix(trees: Seq<Tree>, n: int)
    requires
        0 <= n <= trees.len(),
    ensures
        preorder_all(trees.take(n)).len() <= preorder_all(trees).len(),
        preorder_all(trees).take(preorder_all(trees.take(n)).len() as int) == preorder_all(trees.take(n)),
    decreases trees.len() - n,
{
    if n == trees.len() {
        assert(trees.take(n) =~= trees);
        assert(preorder_all(trees).take(preorder_all(trees).len() as int) =~= preorder_all(trees));
    } else {
        lemma_preorder_take(trees, n);
        lemma_preorder_prefix(trees, n + 1);
        let shorter = preorder_all(trees.take(n));
        let longer = preorder_all(trees.take(n + 1));
        assert(longer.take(shorter.len() as int) =~= shorter);
        assert(preorder_all(trees).take(shorter.len() as int) =~= preorder_all(trees).take(
            longer.len() as int,
        ).take(shorter.len() as int));
    }
}

/// Puts the tree together whose nodes stand in `outline` from `start` on.
fn assemble(outline: &Vec<OutlineEntry>, start: usize, Ghost(tree): Ghost<Tree>) -> (built: (Node, usize))
    requires
        start + preorder(tree).len() <= outline.len(),
        outline_of(outline@).subrange(start as int, start + preorder(tree).len()) == preorder(tree),
    ensures
        built.0@ == tree,
        built.1 == start + preorder(tree).len(),
    decreases tree,
{
    let ghost all = outline_of(outline@);
    let ghost own = preorder(tree);
    let ghost below = preorder_all(tree.children);
    proof {
        assert(all.subrange(start as int, start + own.len())[0] == own[0]);
        assert(all[start as int] == outline@[start as int]@);
    }
    let entry = &outline[start];
    let kind = entry.kind.duplicate();
    let column = entry.column;
    let count = entry.children;
    let mut children: Vec<Node> = Vec::new();
    let mut next: usize = start + 1;
    let mut done: usize = 0;
    proof {
        assert(tree.children.take(0) =~= Seq::empty());
        assert(forest(children@) =~= tree.children.take(0));
    }
    while done < count
        invariant
            done <= count,
            count == tree.children.len(),
            all == outline_of(outline@),
            own == preorder(tree),
            below == preorder_all(tree.children),
            start + own.len() <= outline.len(),
            all.subrange(start as int, start + own.len()) == own,
            forest(children@) == tree.children.take(done as int),
            next == start + 1 + preorder_all(tree.children.take(done as int)).len(),
        decreases count - done,
    {
        let ghost child = tree.children[done as int];
        let ghost before = children@;
        proof {
            lemma_preorder_take(tree.children, done as int);
            lemma_preorder_prefix(tree.children, done + 1);
            let placed = preorder_all(tree.children.take(done as int));
            let with_child = preorder_all(tree.children.take(done + 1));
            assert(with_child.len() <= below.len());
            assert(own.len() == 1 + below.len());
            assert forall|k: int| 0 <= k < preorder(child).len() implies all.subrange(
                next as int,
                next + preorder(child).len(),
            )[k] == preorder(child)[k] by {
                assert(with_child[placed.len() + k] == preorder(child)[k]);
                assert(below.take(with_child.len() as int)[placed.len() + k] == with_child[placed.len() + k]);
                assert(own[1 + placed.len() + k] == below[placed.len() + k]);
                assert(all.subrange(start as int, start + own.len())[1 + placed.len() + k] == all[start + 1
                    + placed.len() + k]);
            }
            assert(all.subrange(next as int, next + preorder(child).len()) =~= preorder(child));
        }
        let (node, after) = assemble(outline, next, Ghost(child));
        children.push(node);
        proof {
            lemma_forest_push(before, node);
            assert(tree.children.take(done + 1) =~= tree.children.take(done as int).push(child));
        }
        next = after;
        done += 1;
    }
    let node = Node { kind, column, children };
    proof {
        lemma_view_children(node);
        assert(tree.children.take(done as int) =~= tree.children);
    }
    (node, next)
}

/// Parses markdown text into a document tree. Task list items are
/// recognised, and any single character between the brackets of an item
/// counts as its marker.
pub fn parse_todo_file(contents: &String) -> (root: Node)
    ensures
        root@ == parsed_markdown(contents@, true, true),
{
    let outline = parse_outline(contents.as_str(), true, true);
    let ghost tree = parsed_markdown(contents@, true, true);
    proof {
        assert(outline_of(outline@).subrange(0, preorder(tree).len() as int) =~= preorder(tree));
    }
    let (root, _) = assemble(&outline, 0, Ghost(tree));
    root
}

/// One node of a document that is about to be formatted: what it is, and the
/// number of its parent. The root of the document has the number 0, and the
/// entry at position `i` of a list describes the node with the number
/// `i + 1`.
pub struct Placed {
    pub parent: usize,
    pub kind: NodeKind,
}

/// The mathematical value of a [`Placed`].
pub struct PlacedView {
    pub parent: nat,
    pub kind: Kind,
}

impl View for Placed {
    type V = PlacedView;

    open spec fn view(&self) -> PlacedView {
        PlacedView { parent: self.parent as nat, kind: self.kind@ }
    }
}

/// The values of a list of placed nodes.
pub open spec fn placed_of(entries: Seq<Placed>) -> Seq<PlacedView> {
    Seq::new(entries.len(), |i: int| entries[i]@)
}

/// The tree's nodes in document order, each with the number of its parent,
/// where the tree's root has the number `index` and its parent the number
/// `parent`.
pub open spec fn place(tree: Tree, parent: nat, index: nat) -> Seq<PlacedView>
    decreases tree,
{
    seq![PlacedView { parent, kind: tree.kind }] + place_all(tree.children, index, index + 1)
}

/// The nodes of the trees in document order, each with the number of its
/// parent, where the roots hang under the node with the number `parent`
/// and the first root has the number `first`.
pub open spec fn place_all(trees: Seq<Tree>, parent: nat, first: nat) -> Seq<PlacedView>
    decreases trees,
{
    if trees.len() == 0 {
        Seq::empty()
    } else {
        let init = place_all(trees.drop_last(), parent, first);
        init + place(trees.last(), parent, first + init.len())
    }
}

/// How many nodes the tree has.
pub open spec fn size_of(tree: Tree) -> nat
    decreases tree,
{
    1 + size_all(tree.children)
}

/// How many nodes the trees have together.
pub open spec fn size_all(trees: Seq<Tree>) -> nat
    decreases trees,
{
    if trees.len() == 0 {
        0
    } else {
        size_all(trees.drop_last()) + size_of(trees.last())
    }
}

/// Whether a node of this kind is an item of a list.
pub open spec fn is_list_item(kind: Kind) -> bool {
    kind is Item || kind is TaskItem
}

/// Whether every list item below the tree's root is the child of a list.
pub open spec fn well_placed(tree: Tree) -> bool
    decreases tree,
{
    well_placed_all(tree.children, tree.kind is List)
}

/// Whether every list item among the trees, which hang under a list or
/// under something else, is the child of a list.
pub open spec fn well_placed_all(trees: Seq<Tree>, in_list: bool) -> bool
    decreases trees,
{
    if trees.len() == 0 {
        true
    } else {
        &&& well_placed_all(trees.drop_last(), in_list)
        &&& is_list_item(trees.last().kind) ==> in_list
        &&& well_placed(trees.last())
    }
}

/// The kind of the node with the given number.
pub open spec fn kind_numbered(root: Kind, placed: Seq<PlacedView>, number: nat) -> Kind {
    if number == 0 {
        root
    } else {
        placed[number - 1].kind
    }
}

/// What comrak can format without giving up: every node comes after its
/// parent, and every list item is the child of a list.
pub open spec fn can_format(root: Kind, placed: Seq<PlacedView>) -> bool {
    &&& !is_list_item(root)
    &&& forall|i: int|
        0 <= i < placed.len() ==> {
            &&& (#[trigger] placed[i]).parent <= i
            &&& is_list_item(placed[i].kind) ==> kind_numbered(root, placed, placed[i].parent) is List
        }
}

/// The CommonMark text that comrak writes for the document with a root of
/// the kind `root` and the nodes `placed` below it, with the task list
/// extension switched on or off and with or without relaxed matching of
/// task list markers.
pub uninterp spec fn formatted_markdown(
    root: Kind,
    placed: Seq<PlacedView>,
    tasklist: bool,
    relaxed: bool,
) -> Seq<char>;

impl NodeKind {
    /// The comrak node value for a kind, field by field. A heading becomes
    /// an ATX heading.
    #[verifier::external_body]
    fn to_value(&self) -> NodeValue {
        match self {
            NodeKind::Document => NodeValue::Document,
            NodeKind::Heading(level) => NodeValue::Heading(NodeHeading { level: *level, setext: false }),
            NodeKind::List(attrs) => NodeValue::List(*attrs),
            NodeKind::Item(attrs) => NodeValue::Item(*attrs),
            NodeKind::TaskItem(marker) => NodeValue::TaskItem(*marker),
            NodeKind::Paragraph => NodeValue::Paragraph,
            NodeKind::Text(text) => NodeValue::Text(text.clone()),
            NodeKind::Emph => NodeValue::Emph,
            NodeKind::Strong => NodeValue::Strong,
            NodeKind::SoftBreak => NodeValue::SoftBreak,
            NodeKind::Other(foreign) => foreign.value().clone(),
        }
    }
}

/// `comrak::format_commonmark` on a document that is first put into a fresh
/// arena, each node appended to its parent in the order of the list: the
/// CommonMark text of the document.
///
/// comrak gives up on a list item that is not the child of a list, so such
/// documents are left out. Nodes of a kind that the library does not
/// inspect come from `parse_outline` alone, which leaves every extension
/// but task lists switched off; of the kinds that the parser then makes,
/// only list items are formatted by their place.
#[verifier::external_body]
fn format_placed(root: &NodeKind, placed: &Vec<Placed>, tasklist: bool, relaxed: bool) -> (text: String)
    requires
        can_format(root@, placed_of(placed@)),
    ensures
        text@ == formatted_markdown(root@, placed_of(placed@), tasklist, relaxed),
{
    let arena = comrak::Arena::new();
    let mut options = comrak::Options::default();
    options.extension.tasklist = tasklist;
    options.parse.relaxed_tasklist_matching = relaxed;
    let fresh = |kind: &NodeKind| ArenaNode::new(RefCell::new(Ast::new(kind.to_value(), (0, 0).into())));
    let mut made: Vec<&AstNode> = vec![arena.alloc(fresh(root))];
    for entry in placed {
        let node: &AstNode = arena.alloc(fresh(&entry.kind));
        made[entry.parent].append(node);
        made.push(node);
    }
    let mut out = Vec::new();
    let _ = comrak::format_commonmark(made[0], &options, &mut out);
    String::from_utf8_lossy(&out).into_owned()
}

/// A tree is placed as one entry for each of its nodes.
pub proof fn lemma_place_size(tree: Tree, parent: nat, index: nat)
    ensures
        place(tree, parent, index).len() == size_of(tree),
    decreases tree,
{
    lemma_place_all_size(tree.children, index, index + 1);
}

/// Trees are placed as one entry for each of their nodes.
pub proof fn lemma_place_all_size(trees: Seq<Tree>, parent: nat, first: nat)
    ensures
        place_all(trees, parent, first).len() == size_all(trees),
    decreases trees,
{
    if trees.len() > 0 {
        lemma_place_all_size(trees.drop_last(), parent, first);
        lemma_place_size(trees.last(), parent, first + place_all(trees.drop_last(), parent, first).len());
    }
}

/// The first `n` trees have no more nodes than all of them.
pub proof fn lemma_size_prefix(trees: Seq<Tree>, n: int)
    requires
        0 <= n <= trees.len(),
    ensures
        size_all(trees.take(n)) <= size_all(trees),
    decreases trees.len() - n,
{
    if n == trees.len() {
        assert(trees.take(n) =~= trees);
    } else {
        assert(trees.take(n + 1).drop_last() =~= trees.take(n));
        lemma_size_prefix(trees, n + 1);
    }
}

/// Where all the trees are well placed, so is each of them.
pub proof fn lemma_well_placed_each(trees: Seq<Tree>, in_list: bool, n: int)
    requires
        0 <= n < trees.len(),
        well_placed_all(trees, in_list),
    ensures
        is_list_item(trees[n].kind) ==> in_list,
        well_placed(trees[n]),
        well_placed_all(trees.take(n), in_list),
    decreases trees.len(),
{
    if n < trees.len() - 1 {
        lemma_well_placed_each(trees.drop_last(), in_list, n);
        assert(trees.drop_last().take(n) =~= trees.take(n));
    } else {
        assert(trees.take(n) =~= trees.drop_last());
    }
}

/// One more node after nodes that comrak can format: comrak can format
/// them all, where the new node hangs under an earlier node and, if it is a
/// list item, under a list.
pub proof fn lemma_can_format_push(root: Kind, earlier: Seq<PlacedView>, entry: PlacedView)
    requires
        can_format(root, earlier),
        entry.parent <= earlier.len(),
        is_list_item(entry.kind) ==> kind_numbered(root, earlier, entry.parent) is List,
    ensures
        can_format(root, earlier.push(entry)),
        forall|number: nat| number <= earlier.len() ==> kind_numbered(root, earlier.push(entry), number)
            == kind_numbered(root, earlier, number),
        kind_numbered(root, earlier.push(entry), (earlier.len() + 1) as nat) == entry.kind,
{
    let now = earlier.push(entry);
    assert forall|k: int| 0 <= k < now.len() implies {
        &&& (#[trigger] now[k]).parent <= k
        &&& is_list_item(now[k].kind) ==> kind_numbered(root, now, now[k].parent) is List
    } by {
        if k < earlier.len() {
            assert(now[k] == earlier[k]);
            assert(kind_numbered(root, now, earlier[k].parent) == kind_numbered(root, earlier, earlier[k].parent));
        } else {
            assert(kind_numbered(root, now, entry.parent) == kind_numbered(root, earlier, entry.parent));
        }
    }
}

/// Where the tree at `n` is out of place or too large, so are the trees.
pub proof fn lemma_give_up(trees: Seq<Tree>, in_list: bool, n: int, room: int)
    requires
        0 <= n < trees.len(),
        (is_list_item(trees[n].kind) && !in_list) || !well_placed(trees[n]) || size_all(trees.take(n))
            + size_of(trees[n]) > room,
    ensures
        !(well_placed_all(trees, in_list) && size_all(trees) <= room),
{
    if well_placed_all(trees, in_list) {
        lemma_well_placed_each(trees, in_list, n);
    }
    assert(trees.take(n + 1).drop_last() =~= trees.take(n));
    assert(trees.take(n + 1).last() == trees[n]);
    lemma_size_prefix(trees, n + 1);
}

/// The placement of the first `n + 1` trees is that of the first `n` and
/// then that of the tree at `n`, whose root gets the next number.
pub proof fn lemma_place_take(trees: Seq<Tree>, parent: nat, first: nat, n: int)
    requires
        0 <= n < trees.len(),
    ensures
        place_all(trees.take(n + 1), parent, first) == place_all(trees.take(n), parent, first) + seq![
            PlacedView { parent, kind: trees[n].kind },
        ] + place_all(
            trees[n].children,
            first + size_all(trees.take(n)),
            first + size_all(trees.take(n)) + 1,
        ),
        size_all(trees.take(n + 1)) == size_all(trees.take(n)) + 1 + size_all(trees[n].children),
        well_placed_all(trees.take(n + 1), true) <==> well_placed_all(trees.take(n), true) && well_placed(
            trees[n],
        ),
        well_placed_all(trees.take(n + 1), false) <==> well_placed_all(trees.take(n), false)
            && !is_list_item(trees[n].kind) && well_placed(trees[n]),
{
    assert(trees.take(n + 1).drop_last() =~= trees.take(n));
    assert(trees.take(n + 1).last() == trees[n]);
    assert(size_of(trees[n]) == 1 + size_all(trees[n].children));
    lemma_place_all_size(trees.take(n), parent, first);
    let init = place_all(trees.take(n), parent, first);
    let index = first + init.len();
    assert(place(trees[n], parent, index) =~= seq![PlacedView { parent, kind: trees[n].kind }] + place_all(
        trees[n].children,
        index,
        index + 1,
    ));
    assert(init + place(trees[n], parent, index) =~= init + seq![PlacedView { parent, kind: trees[n].kind }]
        + place_all(trees[n].children, index, index + 1));
}

/// Appends the nodes below `nodes` to `out` in document order, each with
/// the number of its parent. Gives up on a list item that is not the child
/// of a list, and on more nodes than can be numbered.
fn place_nodes(
    nodes: &Vec<Node>,
    parent: usize,
    in_list: bool,
    out: &mut Vec<Placed>,
    Ghost(root): Ghost<Kind>,
) -> (done: bool)
    requires
        parent <= old(out).len(),
        can_format(root, placed_of(old(out)@)),
        in_list ==> kind_numbered(root, placed_of(old(out)@), parent as nat) is List,
    ensures
        done <==> well_placed_all(forest(nodes@), in_list) && old(out).len() + size_all(forest(nodes@))
            <= usize::MAX,
        done ==> placed_of(final(out)@) == placed_of(old(out)@) + place_all(
            forest(nodes@),
            parent as nat,
            (old(out).len() + 1) as nat,
        ),
        done ==> can_format(root, placed_of(final(out)@)),
    decreases nodes,
{
    let ghost trees = forest(nodes@);
    let ghost first = (old(out).len() + 1) as nat;
    let ghost room = usize::MAX - old(out).len();
    let mut i: usize = 0;
    proof {
        assert(trees.take(0) =~= Seq::empty());
        assert(placed_of(out@) =~= placed_of(old(out)@) + place_all(trees.take(0), parent as nat, first));
    }
    while i < nodes.len()
        invariant
            i <= nodes.len(),
            trees == forest(nodes@),
            first == old(out).len() + 1,
            room == usize::MAX - old(out).len(),
            parent <= old(out).len(),
            well_placed_all(trees.take(i as int), in_list),
            old(out).len() + size_all(trees.take(i as int)) == out.len(),
            placed_of(out@) == placed_of(old(out)@) + place_all(trees.take(i as int), parent as nat, first),
            can_format(root, placed_of(out@)),
            in_list ==> kind_numbered(root, placed_of(old(out)@), parent as nat) is List,
        decreases nodes.len() - i,
    {
        let node = &nodes[i];
        let ghost tree = trees[i as int];
        let ghost before = out@;
        let ghost init = place_all(trees.take(i as int), parent as nat, first);
        proof {
            lemma_view_children(*node);
            assert(tree == node@);
            lemma_place_take(trees, parent as nat, first, i as int);
        }
        let item = match node.kind {
            NodeKind::Item(_) => true,
            NodeKind::TaskItem(_) => true,
            _ => false,
        };
        if item && !in_list {
            proof {
                lemma_give_up(trees, in_list, i as int, room);
            }
            return false;
        }
        if out.len() == usize::MAX {
            proof {
                lemma_give_up(trees, in_list, i as int, room);
            }
            return false;
        }
        out.push(Placed { parent, kind: node.kind.duplicate() });
        let index = out.len();
        let is_list = match node.kind {
            NodeKind::List(_) => true,
            _ => false,
        };
        let ghost entry = PlacedView { parent: parent as nat, kind: tree.kind };
        let ghost pushed = placed_of(out@);
        proof {
            assert(pushed =~= placed_of(before).push(entry));
            assert(kind_numbered(root, placed_of(before), parent as nat) == kind_numbered(
                root,
                placed_of(old(out)@),
                parent as nat,
            ));
            lemma_can_format_push(root, placed_of(before), entry);
        }
        let below = place_nodes(&node.children, index, is_list, out, Ghost(root));
        if !below {
            proof {
                lemma_give_up(trees, in_list, i as int, room);
            }
            return false;
        }
        proof {
            lemma_place_all_size(tree.children, index as nat, (index + 1) as nat);
            assert(placed_of(out@).len() == pushed.len() + size_all(tree.children));
            assert(placed_of(out@) =~= placed_of(old(out)@) + place_all(
                trees.take(i + 1),
                parent as nat,
                first,
            ));
        }
        i += 1;
    }
    proof {
        assert(trees.take(i as int) =~= trees);
    }
    true
}

/// Whether a document can be formatted: its root is no list item, every
/// list item in it is the child of a list, and its nodes can be numbered.
pub open spec fn renderable(doc: Tree) -> bool {
    &&& !is_list_item(doc.kind)
    &&& well_placed(doc)
    &&& size_all(doc.children) <= usize::MAX
}

/// The CommonMark text of a document, with task list items written with
/// their markers.
pub open spec fn rendered(doc: Tree) -> Seq<char> {
    formatted_markdown(doc.kind, place_all(doc.children, 0, 1), true, true)
}

/// Writes a document as CommonMark text, task list items with their
/// markers. There is no text for a document that holds a list item outside
/// a list.
pub fn format_commonmark(doc: &Node) -> (text: Option<String>)
    ensures
        text is Some <==> renderable(doc@),
        text matches Some(written) ==> written@ == rendered(doc@),
{
    proof {
        lemma_view_children(*doc);
    }
    let is_list = match doc.kind {
        NodeKind::Item(_) => {
            return None;
        },
        NodeKind::TaskItem(_) => {
            return None;
        },
        NodeKind::List(_) => true,
        _ => false,
    };
    let mut placed: Vec<Placed> = Vec::new();
    assert(placed_of(placed@) =~= Seq::empty());
    if !place_nodes(&doc.children, 0, is_list, &mut placed, Ghost(doc@.kind)) {
        return None;
    }
    assert(placed_of(placed@) =~= place_all(doc@.children, 0, 1));
    Some(format_placed(&doc.kind, &placed, true, true))
}

} // verus!
