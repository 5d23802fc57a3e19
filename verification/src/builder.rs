//! Assembling the new document from a title and the extracted sections.

use vstd::prelude::*;
use vstd::string::*;
use crate::document::{forest, lemma_view_children, Kind, Node, NodeKind, Tree};
use crate::extractor::{
    body_view, carried, distinct, extracted, is_section, lemma_captured_body, lemma_one_entry_per_name,
    section_entries, section_name, Entry, SectionMap,
};
use crate::pruner::{
    any_completed, holds_completed, lemma_forest_push, lemma_pruned_forest_concat, pruned, pruned_forest,
};

verus! {

/// The tree of a heading that a document builder makes: a heading node of
/// the given level with the text as its only child.
pub open spec fn heading_tree(level: u8, text: Seq<char>) -> Tree {
    Tree {
        kind: Kind::Heading(level),
        column: 0,
        children: seq![Tree { kind: Kind::Text(text), column: 2, children: Seq::empty() }],
    }
}

/// The text of the title of the document for `date`.
pub open spec fn title_text(date: Seq<char>) -> Seq<char> {
    "Today's tasks "@ + date
}

/// The nodes that the sections contribute to the new document: for each
/// entry in its turn a level-2 heading with the entry's name, followed by
/// the entry's body where it has one.
pub open spec fn layout(entries: Seq<Entry>) -> Seq<Tree>
    decreases entries.len(),
{
    if entries.len() == 0 {
        Seq::empty()
    } else {
        let body = match entries.last().1 {
            Some(body) => body,
            None => Seq::empty(),
        };
        layout(entries.drop_last()) + seq![heading_tree(2, entries.last().0)] + body
    }
}

/// The new document: the title heading, then the sections.
pub open spec fn built(date: Seq<char>, entries: Seq<Entry>) -> Tree {
    Tree {
        kind: Kind::Document,
        column: 0,
        children: seq![heading_tree(1, title_text(date))] + layout(entries),
    }
}

/// The mathematical value of a list of names with their bodies.
pub open spec fn entries_of(pairs: Seq<(String, Option<Vec<Node>>)>) -> Seq<Entry> {
    Seq::new(pairs.len(), |i: int| (pairs[i].0@, body_view(pairs[i].1)))
}

/// `IndexMap::into_iter`, collected: the entries of the map in their order.
#[verifier::external_body]
fn into_entries(map: SectionMap) -> (pairs: Vec<(String, Option<Vec<Node>>)>)
    ensures
        entries_of(pairs@) == section_entries(map),
{
    map.into_iter().collect()
}

/// A heading of the given level whose only child is the text.
pub fn create_heading(level: u8, text: &str) -> (node: Node)
    ensures
        node@ == heading_tree(level, text@),
{
    let text_node = Node { kind: NodeKind::Text(text.to_owned()), column: 2, children: Vec::new() };
    let mut children: Vec<Node> = Vec::new();
    children.push(text_node);
    let node = Node { kind: NodeKind::Heading(level), column: 0, children };
    proof {
        lemma_view_children(text_node);
        lemma_view_children(node);
        assert(text_node@.children =~= Seq::empty());
        assert(node@.children =~= seq![text_node@]);
    }
    node
}

/// The level-1 heading that titles the document for `date`.
pub fn create_title(date: &str) -> (node: Node)
    ensures
        node@ == heading_tree(1, title_text(date@)),
{
    let mut text = String::new();
    text.append("Today's tasks ");
    text.append(date);
    assert(text@ =~= title_text(date@));
    create_heading(1, text.as_str())
}

/// Builds the new document: a title heading that carries `new_date`, then
/// for each entry of `sections`, in the map's order, a level-2 heading with
/// the section's name and after it the nodes of the body, where one was
/// captured. Nothing else goes into the document.
pub fn create_new_doc(new_date: &str, sections: SectionMap) -> (doc: Node)
    ensures
        doc@ == built(new_date@, section_entries(sections)),
{
    let pairs = into_entries(sections);
    let ghost entries = entries_of(pairs@);
    let mut children: Vec<Node> = Vec::new();
    let title = create_title(new_date);
    children.push(title);
    proof {
        assert(forest(children@) =~= seq![heading_tree(1, title_text(new_date@))] + layout(
            entries.take(0),
        ));
    }
    for pair in it: pairs
        invariant
            it.seq() == pairs@,
            entries == entries_of(pairs@),
            forest(children@) == seq![heading_tree(1, title_text(new_date@))] + layout(
                entries.take(it.index() as int),
            ),
    {
        let ghost done = it.index() as int;
        let ghost before = children@;
        let (name, body) = pair;
        let heading = create_heading(2, name.as_str());
        children.push(heading);
        proof {
            lemma_forest_push(before, heading);
            assert(entries.take(done + 1).drop_last() =~= entries.take(done));
            assert(entries.take(done + 1).last() == entries[done]);
        }
        match body {
            Some(nodes) => {
                let ghost with_heading = children@;
                let ghost moved = nodes@;
                let mut nodes = nodes;
                children.append(&mut nodes);
                proof {
                    assert(forest(children@) =~= forest(with_heading) + forest(moved));
                    assert(forest(children@) =~= seq![heading_tree(1, title_text(new_date@))] + layout(
                        entries.take(done + 1),
                    ));
                }
            },
            None => {
                proof {
                    assert(forest(children@) =~= seq![heading_tree(1, title_text(new_date@))] + layout(
                        entries.take(done + 1),
                    ));
                }
            },
        }
    }
    let doc = Node { kind: NodeKind::Document, column: 0, children };
    proof {
        lemma_view_children(doc);
        assert(entries.take(pairs@.len() as int) =~= entries);
    }
    doc
}

/// How many nodes the body of an entry has.
pub open spec fn body_size(entry: Entry) -> nat {
    match entry.1 {
        Some(body) => body.len(),
        None => 0,
    }
}

/// Where the heading of the entry `i` stands among the children of the new
/// document: after the title, the headings of the entries before it and
/// their bodies.
pub open spec fn heading_index(entries: Seq<Entry>, i: int) -> int
    decreases i,
{
    if i <= 0 {
        1
    } else {
        heading_index(entries, i - 1) + 1 + body_size(entries[i - 1])
    }
}

/// Where a heading stands does not depend on the entries after it.
pub proof fn lemma_heading_index_prefix(entries: Seq<Entry>, i: int)
    requires
        0 <= i < entries.len(),
    ensures
        heading_index(entries.drop_last(), i) == heading_index(entries, i),
    decreases i,
{
    if i > 0 {
        lemma_heading_index_prefix(entries, i - 1);
    }
}

/// The layout of the entries holds a heading and a body for each of them,
/// and nothing else.
pub proof fn lemma_layout(entries: Seq<Entry>)
    ensures
        layout(entries).len() + 1 == heading_index(entries, entries.len() as int),
        forall|i: int|
            0 <= i < entries.len() ==> {
                &&& 1 <= #[trigger] heading_index(entries, i) <= layout(entries).len()
                &&& heading_index(entries, i) + body_size(entries[i]) <= layout(entries).len()
                &&& layout(entries)[heading_index(entries, i) - 1] == heading_tree(2, entries[i].0)
            },
        forall|i: int, m: int|
            0 <= i < entries.len() && 0 <= m < body_size(entries[i]) ==> layout(entries)[heading_index(
                entries,
                i,
            ) + m] == #[trigger] body_node(entries, i, m),
        forall|i: int, j: int|
            0 <= i < j < entries.len() ==> #[trigger] heading_index(entries, i) < #[trigger] heading_index(
                entries,
                j,
            ),
        forall|k: int|
            0 <= k < layout(entries).len() ==> #[trigger] placed_by(entries, k) is Some,
    decreases entries.len(),
{
    if entries.len() > 0 {
        let init = entries.drop_last();
        let last = entries.len() - 1;
        lemma_layout(init);
        let body = match entries.last().1 {
            Some(body) => body,
            None => Seq::empty(),
        };
        let whole = layout(entries);
        assert(whole =~= layout(init) + seq![heading_tree(2, entries.last().0)] + body);
        assert forall|i: int| 0 <= i < entries.len() implies heading_index(init, i) == heading_index(
            entries,
            i,
        ) by {
            if i < last {
                lemma_heading_index_prefix(entries, i);
            } else if last > 0 {
                lemma_heading_index_prefix(entries, last - 1);
            }
        }
        assert(heading_index(entries, last) == layout(init).len() + 1) by {
            if last > 0 {
                lemma_heading_index_prefix(entries, last - 1);
                assert(init[last - 1] == entries[last - 1]);
            }
        }
        assert forall|i: int| 0 <= i < entries.len() implies {
            &&& 1 <= #[trigger] heading_index(entries, i) <= whole.len()
            &&& heading_index(entries, i) + body_size(entries[i]) <= whole.len()
            &&& whole[heading_index(entries, i) - 1] == heading_tree(2, entries[i].0)
        } by {
            if i < last {
                assert(init[i] == entries[i]);
                assert(heading_index(init, i) == heading_index(entries, i));
            }
        }
        assert forall|i: int, m: int|
            0 <= i < entries.len() && 0 <= m < body_size(entries[i]) implies whole[heading_index(entries, i)
            + m] == #[trigger] body_node(entries, i, m) by {
            if i < last {
                assert(init[i] == entries[i]);
                assert(heading_index(init, i) == heading_index(entries, i));
                assert(heading_index(init, i) + body_size(init[i]) <= layout(init).len());
                assert(layout(init)[heading_index(init, i) + m] == body_node(init, i, m));
            }
        }
        assert forall|i: int, j: int| 0 <= i < j < entries.len() implies #[trigger] heading_index(
            entries,
            i,
        ) < #[trigger] heading_index(entries, j) by {
            assert(init[i] == entries[i]);
            assert(heading_index(init, i) == heading_index(entries, i));
            if j < last {
                assert(heading_index(init, j) == heading_index(entries, j));
            }
        }
        assert forall|k: int| 0 <= k < whole.len() implies #[trigger] placed_by(entries, k) is Some by {
            if k < layout(init).len() {
                assert(placed_by(init, k) is Some);
                let i = placed_by(init, k)->0;
                assert(init[i] == entries[i]);
                assert(heading_index(init, i) == heading_index(entries, i));
                assert(places(entries, i, k));
            } else {
                assert(places(entries, last, k));
            }
        }
    }
}

/// The node at `m` of the body of the entry `i`.
pub open spec fn body_node(entries: Seq<Entry>, i: int, m: int) -> Tree {
    entries[i].1->0[m]
}

/// Whether the entry `i` accounts for the node at `k` of the layout, as its
/// heading or as a node of its body.
pub open spec fn places(entries: Seq<Entry>, i: int, k: int) -> bool {
    0 <= i < entries.len() && heading_index(entries, i) - 1 <= k < heading_index(entries, i) + body_size(
        entries[i],
    )
}

/// The entry that accounts for the node at `k` of the layout.
pub open spec fn placed_by(entries: Seq<Entry>, k: int) -> Option<int> {
    if exists|i: int| places(entries, i, k) {
        Some(choose|i: int| places(entries, i, k))
    } else {
        None
    }
}

/// The new document holds one heading for each configured name, in the
/// configured order, whatever the source held: after the title comes, for
/// each name in its turn, a level-2 heading with that name, and whatever
/// stands between the headings was carried over from the source, where it
/// opened no configured section.
pub proof fn lemma_one_heading_per_name(children: Seq<Tree>, names: Seq<Seq<char>>, date: Seq<char>)
    ensures
        ({
            let entries = extracted(children, names);
            let keys = distinct(names);
            let doc = built(date, entries);
            &&& doc.children[0] == heading_tree(1, title_text(date))
            &&& forall|i: int|
                0 <= i < keys.len() ==> 1 <= #[trigger] heading_index(entries, i) < doc.children.len()
                    && doc.children[heading_index(entries, i)] == heading_tree(2, keys[i])
            &&& forall|i: int, j: int|
                0 <= i < j < keys.len() ==> #[trigger] heading_index(entries, i) < #[trigger] heading_index(
                    entries,
                    j,
                )
            &&& forall|k: int|
                1 <= k < doc.children.len() ==> is_section_heading_at(entries, k) || carried(
                    #[trigger] doc.children[k],
                    children,
                    names,
                )
        }),
{
    let entries = extracted(children, names);
    let keys = distinct(names);
    let doc = built(date, entries);
    lemma_one_entry_per_name(children, names);
    lemma_layout(entries);
    assert forall|i: int| 0 <= i < keys.len() implies 1 <= #[trigger] heading_index(entries, i)
        < doc.children.len() && doc.children[heading_index(entries, i)] == heading_tree(2, keys[i]) by {
        assert(doc.children[heading_index(entries, i)] == layout(entries)[heading_index(entries, i) - 1]);
        assert(entries[i].0 == keys[i]);
    }
    assert forall|k: int| 1 <= k < doc.children.len() implies is_section_heading_at(entries, k) || carried(
        #[trigger] doc.children[k],
        children,
        names,
    ) by {
        assert(doc.children[k] == layout(entries)[k - 1]);
        assert(placed_by(entries, k - 1) is Some);
        let i = placed_by(entries, k - 1)->0;
        assert(places(entries, i, k - 1));
        if k != heading_index(entries, i) {
            let m = k - 1 - heading_index(entries, i);
            assert(0 <= m < body_size(entries[i]));
            assert(layout(entries)[heading_index(entries, i) + m] == body_node(entries, i, m));
            lemma_captured_body(children, names, keys[i]);
            assert(entries[i].1 == crate::extractor::captured(children, names, keys[i]));
            let body = entries[i].1->0;
            assert(carried(body[m], children, names));
        }
    }
}

/// Whether the heading of one of the entries stands at `k` among the
/// children of the new document.
pub open spec fn is_section_heading_at(entries: Seq<Entry>, k: int) -> bool {
    exists|i: int| 0 <= i < entries.len() && k == #[trigger] heading_index(entries, i)
}

/// Trees of which none is or holds a completed task item do not hold one
/// together.
pub proof fn lemma_none_completed(trees: Seq<Tree>)
    requires
        forall|k: int| 0 <= k < trees.len() ==> !holds_completed(#[trigger] trees[k]),
    ensures
        !any_completed(trees),
    decreases trees.len(),
{
    if trees.len() > 0 {
        assert forall|k: int| 0 <= k < trees.drop_last().len() implies !holds_completed(
            #[trigger] trees.drop_last()[k],
        ) by {
            assert(trees.drop_last()[k] == trees[k]);
        }
        lemma_none_completed(trees.drop_last());
        assert(!holds_completed(trees[trees.len() - 1]));
    }
}

/// No completed task item stands below any child of the new document, at
/// any depth. Where no child of the source document was itself a completed
/// task item, the new document holds none at all.
pub proof fn lemma_built_is_clean(children: Seq<Tree>, names: Seq<Seq<char>>, date: Seq<char>)
    ensures
        forall|k: int|
            0 <= k < built(date, extracted(children, names)).children.len() ==> !any_completed(
                (#[trigger] built(date, extracted(children, names)).children[k]).children,
            ),
        (forall|j: int| 0 <= j < children.len() ==> !(#[trigger] children[j]).is_completed_task())
            ==> !holds_completed(built(date, extracted(children, names))),
{
    let entries = extracted(children, names);
    let keys = distinct(names);
    let doc = built(date, entries);
    lemma_one_heading_per_name(children, names, date);
    lemma_one_entry_per_name(children, names);
    assert forall|k: int| 0 <= k < doc.children.len() implies !any_completed(
        (#[trigger] doc.children[k]).children,
    ) by {
        if k == 0 {
            lemma_heading_is_clean(1, title_text(date));
        } else if is_section_heading_at(entries, k) {
            let i = choose|i: int| 0 <= i < entries.len() && k == #[trigger] heading_index(entries, i);
            lemma_heading_is_clean(2, keys[i]);
        } else {
            assert(carried(doc.children[k], children, names));
            let j = choose|j: int|
                0 <= j < children.len() && doc.children[k] == pruned(#[trigger] children[j]) && !is_section(
                    children[j],
                    names,
                );
            crate::pruner::lemma_pruned_is_clean(children[j]);
        }
    }
    if forall|j: int| 0 <= j < children.len() ==> !(#[trigger] children[j]).is_completed_task() {
        assert forall|k: int| 0 <= k < doc.children.len() implies !holds_completed(
            #[trigger] doc.children[k],
        ) by {
            if k == 0 {
            } else if is_section_heading_at(entries, k) {
                let i = choose|i: int| 0 <= i < entries.len() && k == #[trigger] heading_index(entries, i);
                assert(doc.children[k] == heading_tree(2, keys[i]));
            } else {
                assert(carried(doc.children[k], children, names));
                let j = choose|j: int|
                    0 <= j < children.len() && doc.children[k] == pruned(#[trigger] children[j])
                        && !is_section(children[j], names);
                assert(!children[j].is_completed_task());
            }
        }
        lemma_none_completed(doc.children);
    }
}

/// A heading that the builder makes holds no completed task item.
pub proof fn lemma_heading_is_clean(level: u8, text: Seq<char>)
    ensures
        !holds_completed(heading_tree(level, text)),
{
    let heading = heading_tree(level, text);
    let only = heading.children[0];
    assert(!any_completed(Seq::<Tree>::empty()));
    assert(only.children =~= Seq::<Tree>::empty());
    assert(!holds_completed(only));
    assert(heading.children.drop_last() =~= Seq::<Tree>::empty());
    assert(heading.children.last() == only);
    assert(!any_completed(heading.children));
}

/// Whether no heading among the nodes starts with a completed task item.
pub open spec fn headings_start_plain(children: Seq<Tree>) -> bool {
    forall|j: int|
        0 <= j < children.len() && (#[trigger] children[j]).kind is Heading && children[j].children.len() > 0
            ==> !children[j].children[0].is_completed_task()
}

/// Pruning keeps the first of the trees in front, unless it is a completed
/// task item.
pub proof fn lemma_pruned_first(trees: Seq<Tree>)
    requires
        trees.len() > 0,
        !trees[0].is_completed_task(),
    ensures
        pruned_forest(trees).len() > 0,
        pruned_forest(trees)[0] == pruned(trees[0]),
{
    let first = seq![trees[0]];
    assert(first + trees.drop_first() =~= trees);
    lemma_pruned_forest_concat(first, trees.drop_first());
    assert(first.drop_last() =~= Seq::<Tree>::empty());
    assert(first.last() == trees[0]);
    assert(pruned_forest(Seq::<Tree>::empty()) =~= Seq::<Tree>::empty());
    assert(pruned_forest(first) =~= seq![pruned(trees[0])]);
}

/// The new document has exactly one heading for each configured name:
/// after the title, the children that carry a configured name are the
/// headings that the builder made, one for each name, and no others. This
/// is said of sources in which no top-level heading starts with a completed
/// task item: pruning would bring the text behind such an item to the front
/// of the heading.
pub proof fn lemma_exactly_one_heading_per_name(children: Seq<Tree>, names: Seq<Seq<char>>, date: Seq<char>)
    requires
        headings_start_plain(children),
    ensures
        forall|k: int|
            1 <= k < built(date, extracted(children, names)).children.len() ==> (is_section(
                #[trigger] built(date, extracted(children, names)).children[k],
                names,
            ) <==> is_section_heading_at(extracted(children, names), k)),
{
    let entries = extracted(children, names);
    let keys = distinct(names);
    let doc = built(date, entries);
    lemma_one_heading_per_name(children, names, date);
    lemma_one_entry_per_name(children, names);
    crate::extractor::lemma_distinct(names);
    assert forall|k: int| 1 <= k < doc.children.len() implies (is_section(#[trigger] doc.children[k], names)
        <==> is_section_heading_at(entries, k)) by {
        if is_section_heading_at(entries, k) {
            let i = choose|i: int| 0 <= i < entries.len() && k == #[trigger] heading_index(entries, i);
            assert(doc.children[k] == heading_tree(2, keys[i]));
            assert(section_name(doc.children[k]) == Some(keys[i]));
            assert(keys.contains(keys[i]));
        } else {
            assert(carried(doc.children[k], children, names));
            let j = choose|j: int|
                0 <= j < children.len() && doc.children[k] == pruned(#[trigger] children[j]) && !is_section(
                    children[j],
                    names,
                );
            let source = children[j];
            if source.kind is Heading && source.children.len() > 0 {
                lemma_pruned_first(source.children);
            }
        }
    }
}

/// Trees of which one is or holds a completed task item hold one together.
pub proof fn lemma_some_completed(trees: Seq<Tree>, k: int)
    requires
        0 <= k < trees.len(),
        holds_completed(trees[k]),
    ensures
        any_completed(trees),
    decreases trees.len(),
{
    if k < trees.len() - 1 {
        assert(trees.drop_last()[k] == trees[k]);
        lemma_some_completed(trees.drop_last(), k);
    }
}

/// Whether the node is the pruned form of a completed task item that stood
/// at the top level of the source.
pub open spec fn carried_completed(node: Tree, children: Seq<Tree>) -> bool {
    exists|j: int| 0 <= j < children.len() && (#[trigger] children[j]).is_completed_task() && node == pruned(
        children[j],
    )
}

/// Whether a child of the document is a completed task item.
pub open spec fn has_completed_child(doc: Tree) -> bool {
    exists|k: int| 0 <= k < doc.children.len() && (#[trigger] doc.children[k]).is_completed_task()
}

/// Where the new document holds a completed task item, it is a child of the
/// document that stood at the top level of the source as a completed task
/// item, under a configured heading. There is no other way for one to get
/// in: whatever the source and the names, nothing completed stands deeper
/// in the new document.
pub proof fn lemma_completed_only_from_top(children: Seq<Tree>, names: Seq<Seq<char>>, date: Seq<char>)
    ensures
        holds_completed(built(date, extracted(children, names))) <==> has_completed_child(
            built(date, extracted(children, names)),
        ),
        forall|k: int|
            0 <= k < built(date, extracted(children, names)).children.len() && (#[trigger] built(
                date,
                extracted(children, names),
            ).children[k]).is_completed_task() ==> carried_completed(
                built(date, extracted(children, names)).children[k],
                children,
            ),
{
    let entries = extracted(children, names);
    let keys = distinct(names);
    let doc = built(date, entries);
    lemma_built_is_clean(children, names, date);
    lemma_one_heading_per_name(children, names, date);
    lemma_one_entry_per_name(children, names);
    if has_completed_child(doc) {
        let k = choose|k: int| 0 <= k < doc.children.len() && (#[trigger] doc.children[k]).is_completed_task();
        lemma_some_completed(doc.children, k);
    }
    if !has_completed_child(doc) {
        assert forall|k: int| 0 <= k < doc.children.len() implies !holds_completed(
            #[trigger] doc.children[k],
        ) by {
            assert(!doc.children[k].is_completed_task());
            assert(!any_completed(doc.children[k].children));
        }
        lemma_none_completed(doc.children);
    }
    assert forall|k: int|
        0 <= k < doc.children.len() && (#[trigger] doc.children[k]).is_completed_task() implies carried_completed(
        doc.children[k],
        children,
    ) by {
        if k == 0 {
        } else if is_section_heading_at(entries, k) {
            let i = choose|i: int| 0 <= i < entries.len() && k == #[trigger] heading_index(entries, i);
            assert(doc.children[k] == heading_tree(2, keys[i]));
        } else {
            assert(carried(doc.children[k], children, names));
            let j = choose|j: int|
                0 <= j < children.len() && doc.children[k] == pruned(#[trigger] children[j]) && !is_section(
                    children[j],
                    names,
                );
            assert(children[j].is_completed_task());
        }
    }
}

} // verus!
