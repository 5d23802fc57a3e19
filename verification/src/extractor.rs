//! Finding the configured sections of a source document and taking them out.
//!
//! A section is a heading whose text is one of the configured names, together
//! with the nodes that follow it up to the next heading of the same or a
//! shallower level. Extraction walks the document from its end to its
//! beginning, so that a section never swallows content that a later
//! configured section has already taken.

use vstd::prelude::*;
use std::collections::VecDeque;
use indexmap::IndexMap;
use crate::document::{forest, lemma_view_children, Node, NodeKind, Tree};
use crate::pruner::{any_completed, lemma_forest_push, lemma_pruned_is_clean, pruned, remove_task_nodes};

verus! {

/// indexmap's insertion-ordered hash map. The library never looks inside.
#[verifier::external_type_specification]
#[verifier::external_body]
#[verifier::reject_recursive_types(K)]
#[verifier::reject_recursive_types(V)]
#[verifier::reject_recursive_types(S)]
pub struct ExIndexMap<K, V, S>(IndexMap<K, V, S>);

/// The configured section names, each with the body captured for it, if any.
pub type SectionMap = IndexMap<String, Option<Vec<Node>>>;

/// One entry of a section map as a mathematical value.
pub type Entry = (Seq<char>, Option<Seq<Tree>>);

/// What a section map holds: its entries in their order.
pub uninterp spec fn section_entries(map: IndexMap<String, Option<Vec<Node>>>) -> Seq<Entry>;

/// The mathematical value of a captured body.
pub open spec fn body_view(body: Option<Vec<Node>>) -> Option<Seq<Tree>> {
    match body {
        Some(nodes) => Some(forest(nodes@)),
        None => None,
    }
}

/// Whether some entry has the key `name`.
pub open spec fn has_key(entries: Seq<Entry>, name: Seq<char>) -> bool {
    exists|i: int| 0 <= i < entries.len() && (#[trigger] entries[i]).0 == name
}

/// The entries after `name` was given the body `body`: an entry that has
/// the key keeps its place and gets the new body; without one, a new entry
/// goes to the end.
pub open spec fn upserted(entries: Seq<Entry>, name: Seq<char>, body: Option<Seq<Tree>>) -> Seq<Entry> {
    if has_key(entries, name) {
        let at = choose|i: int| 0 <= i < entries.len() && (#[trigger] entries[i]).0 == name;
        entries.update(at, (name, body))
    } else {
        entries.push((name, body))
    }
}

/// `IndexMap::new`: a map without entries.
#[verifier::external_body]
fn new_section_map() -> (map: SectionMap)
    ensures
        section_entries(map) == Seq::<Entry>::empty(),
{
    IndexMap::new()
}

/// `IndexMap::insert`: where the key is already in the map, the entry keeps
/// its place in the order and its value is replaced; where it is not, the
/// pair becomes the last entry.
#[verifier::external_body]
fn insert_section(map: &mut SectionMap, name: String, body: Option<Vec<Node>>)
    ensures
        section_entries(*final(map)) == upserted(section_entries(*old(map)), name@, body_view(body)),
{
    map.insert(name, body);
}

/// The views of a list of names.
pub open spec fn names_of(names: Seq<String>) -> Seq<Seq<char>> {
    Seq::new(names.len(), |i: int| names[i]@)
}

/// The name that a heading carries: the literal of its first child, where
/// that child is plain text. Any other node carries no name.
pub open spec fn section_name(tree: Tree) -> Option<Seq<char>> {
    if tree.kind is Heading && tree.children.len() > 0 {
        tree.children[0].literal()
    } else {
        None
    }
}

/// Whether the node opens one of the configured sections.
pub open spec fn is_section(tree: Tree, names: Seq<Seq<char>>) -> bool {
    section_name(tree) matches Some(name) && names.contains(name)
}

/// Whether the node ends the body of a section whose heading has the given
/// level: it is a heading of that level or of a shallower one.
pub open spec fn closes_section(tree: Tree, level: u8) -> bool {
    tree.heading_level() matches Some(found) && found <= level
}

/// The level of a heading, and 0 for any other node.
pub open spec fn level_of(tree: Tree) -> u8 {
    match tree.heading_level() {
        Some(level) => level,
        None => 0,
    }
}

/// How many of the nodes that follow a heading of the given level belong to
/// its body: all of them up to the first node that closes the section.
pub open spec fn body_len(following: Seq<Tree>, level: u8) -> nat
    decreases following.len(),
{
    if following.len() == 0 || closes_section(following[0], level) {
        0
    } else {
        1 + body_len(following.drop_first(), level)
    }
}

/// What is left of a run of sibling nodes once every configured section has
/// been taken out of it, the later sections first.
pub open spec fn residue(children: Seq<Tree>, names: Seq<Seq<char>>) -> Seq<Tree>
    decreases children.len(),
{
    if children.len() == 0 {
        Seq::empty()
    } else {
        let rest = residue(children.drop_first(), names);
        if is_section(children[0], names) {
            rest.skip(body_len(rest, level_of(children[0])) as int)
        } else {
            seq![children[0]] + rest
        }
    }
}

/// Each of the trees, pruned.
pub open spec fn each_pruned(trees: Seq<Tree>) -> Seq<Tree> {
    Seq::new(trees.len(), |i: int| pruned(trees[i]))
}

/// The body captured for `name`: that of the first heading in document
/// order that carries the name. Its body is what follows the heading, once
/// the later sections have been taken out, up to the node that closes the
/// section; completed tasks are pruned from it. Without such a heading
/// there is no body.
pub open spec fn captured(children: Seq<Tree>, names: Seq<Seq<char>>, name: Seq<char>) -> Option<Seq<Tree>>
    decreases children.len(),
{
    if children.len() == 0 {
        None
    } else if names.contains(name) && section_name(children[0]) == Some(name) {
        let rest = residue(children.drop_first(), names);
        Some(each_pruned(rest.take(body_len(rest, level_of(children[0])) as int)))
    } else {
        captured(children.drop_first(), names, name)
    }
}

/// The names in the order of their first occurrence, each once.
pub open spec fn distinct(names: Seq<Seq<char>>) -> Seq<Seq<char>>
    decreases names.len(),
{
    if names.len() == 0 {
        Seq::empty()
    } else {
        let init = distinct(names.drop_last());
        if init.contains(names.last()) {
            init
        } else {
            init.push(names.last())
        }
    }
}

/// The section map that extraction yields: one entry for each configured
/// name, in configured order, with the body captured for it.
pub open spec fn extracted(children: Seq<Tree>, names: Seq<Seq<char>>) -> Seq<Entry> {
    Seq::new(
        distinct(names).len(),
        |i: int| (distinct(names)[i], captured(children, names, distinct(names)[i])),
    )
}

/// Whether `name` is among `names`.
pub fn contains_name(names: &Vec<String>, name: &String) -> (found: bool)
    ensures
        found == names_of(names@).contains(name@),
{
    let mut i: usize = 0;
    while i < names.len()
        invariant
            i <= names.len(),
            forall|j: int| 0 <= j < i ==> names_of(names@)[j] != name@,
        decreases names.len() - i,
    {
        if names[i] == *name {
            assert(names_of(names@)[i as int] == name@);
            return true;
        }
        i += 1;
    }
    false
}

/// The name that a heading carries, if the node is a heading whose first
/// child is plain text.
pub fn heading_name(node: &Node) -> (name: Option<&String>)
    ensures
        match name {
            Some(text) => section_name(node@) == Some(text@),
            None => section_name(node@) is None,
        },
{
    proof {
        lemma_view_children(*node);
    }
    match node.kind {
        NodeKind::Heading(_) => {
            if node.children.len() > 0 {
                match &node.children[0].kind {
                    NodeKind::Text(text) => Some(text),
                    _ => None,
                }
            } else {
                None
            }
        },
        _ => None,
    }
}

/// Whether the node is a heading of the given level or of a shallower one.
pub fn ends_section(node: &Node, level: u8) -> (ends: bool)
    ensures
        ends == closes_section(node@, level),
{
    match node.kind {
        NodeKind::Heading(found) => found <= level,
        _ => false,
    }
}

/// The entries that give every key no body.
pub open spec fn blank(keys: Seq<Seq<char>>) -> Seq<Entry> {
    Seq::new(keys.len(), |i: int| (keys[i], None::<Seq<Tree>>))
}

/// `distinct` keeps exactly the names it was given, and none of them twice.
pub proof fn lemma_distinct(names: Seq<Seq<char>>)
    ensures
        forall|name: Seq<char>| distinct(names).contains(name) <==> names.contains(name),
        forall|i: int, j: int| 0 <= i < j < distinct(names).len() ==> distinct(names)[i] != distinct(names)[j],
    decreases names.len(),
{
    if names.len() > 0 {
        let init = names.drop_last();
        lemma_distinct(init);
        let kept = distinct(init);
        let all = distinct(names);
        assert forall|name: Seq<char>| all.contains(name) <==> names.contains(name) by {
            if names.contains(name) {
                let at = choose|i: int| 0 <= i < names.len() && names[i] == name;
                if at < names.len() - 1 {
                    assert(init[at] == name);
                    assert(init.contains(name));
                    assert(kept.contains(name));
                    let k = choose|i: int| 0 <= i < kept.len() && kept[i] == name;
                    assert(all[k] == name);
                } else if !kept.contains(names.last()) {
                    assert(all[kept.len() as int] == name);
                }
            }
            if all.contains(name) {
                let k = choose|i: int| 0 <= i < all.len() && all[i] == name;
                if k < kept.len() {
                    assert(kept[k] == name);
                    assert(kept.contains(name));
                    assert(init.contains(name));
                    let at = choose|i: int| 0 <= i < init.len() && init[i] == name;
                    assert(names[at] == name);
                } else {
                    assert(names[names.len() - 1] == name);
                }
            }
        }
    }
}

/// Giving a body to a key that the entries hold once replaces that entry.
pub proof fn lemma_upsert_present(entries: Seq<Entry>, at: int, name: Seq<char>, body: Option<Seq<Tree>>)
    requires
        0 <= at < entries.len(),
        entries[at].0 == name,
        forall|i: int, j: int| 0 <= i < j < entries.len() ==> entries[i].0 != entries[j].0,
    ensures
        upserted(entries, name, body) == entries.update(at, (name, body)),
{
    assert(has_key(entries, name));
    let found = choose|i: int| 0 <= i < entries.len() && (#[trigger] entries[i]).0 == name;
    if found < at {
        assert(entries[found].0 != entries[at].0);
    } else if at < found {
        assert(entries[at].0 != entries[found].0);
    }
}

/// One more node of a body: the body's length counts it.
pub proof fn lemma_body_len_step(following: Seq<Tree>, level: u8, taken: int)
    requires
        0 <= taken < following.len(),
        body_len(following, level) == taken + body_len(following.skip(taken), level),
        !closes_section(following[taken], level),
    ensures
        body_len(following, level) == taken + 1 + body_len(following.skip(taken + 1), level),
{
    assert(following.skip(taken).drop_first() =~= following.skip(taken + 1));
}

/// Takes the configured sections out of the document below `root`.
///
/// The children of `root` are walked from the last to the first. A heading
/// whose first child is plain text equal to one of `sections` opens a
/// section. Its body is what follows it in the document as it then stands,
/// up to the next heading of the same or a shallower level; completed task
/// items are pruned from the body. The heading and its body leave the
/// document, and the body is recorded under the section's name, in place of
/// a body recorded before for a heading further down.
///
/// The map that comes back has one entry for each name in `sections`, in
/// that order; a name without a heading has no body.
pub fn extract_sections(root: &mut Node, sections: &Vec<String>) -> (map: SectionMap)
    ensures
        section_entries(map) == extracted(old(root)@.children, names_of(sections@)),
        final(root)@ == (Tree {
            kind: old(root)@.kind,
            column: old(root)@.column,
            children: residue(old(root)@.children, names_of(sections@)),
        }),
{
    let ghost names = names_of(sections@);
    let mut map = new_section_map();
    let mut filled: usize = 0;
    proof {
        assert(section_entries(map) =~= blank(distinct(names.take(0))));
    }
    while filled < sections.len()
        invariant
            filled <= sections.len(),
            names == names_of(sections@),
            section_entries(map) == blank(distinct(names.take(filled as int))),
        decreases sections.len() - filled,
    {
        let ghost keys = distinct(names.take(filled as int));
        let ghost entries = section_entries(map);
        insert_section(&mut map, sections[filled].clone(), None);
        proof {
            let name = names[filled as int];
            assert(names.take(filled + 1).drop_last() =~= names.take(filled as int));
            assert(names.take(filled + 1).last() == name);
            if keys.contains(name) {
                let at = choose|i: int| 0 <= i < keys.len() && keys[i] == name;
                assert(entries[at].0 == name);
                assert(has_key(entries, name));
                let found = choose|i: int| 0 <= i < entries.len() && (#[trigger] entries[i]).0 == name;
                assert(entries.update(found, (name, None::<Seq<Tree>>)) =~= entries);
            } else {
                if has_key(entries, name) {
                    let found = choose|i: int| 0 <= i < entries.len() && (#[trigger] entries[i]).0 == name;
                    assert(keys[found] == name);
                }
                assert(entries.push((name, None::<Seq<Tree>>)) =~= blank(keys.push(name)));
            }
        }
        filled += 1;
    }
    let mut pending: Vec<Node> = Vec::new();
    std::mem::swap(&mut root.children, &mut pending);
    let ghost before = forest(pending@);
    let mut tail: VecDeque<Node> = VecDeque::new();
    proof {
        lemma_view_children(*old(root));
        lemma_distinct(names);
        assert(names.take(sections.len() as int) =~= names);
        assert(before.skip(pending.len() as int) =~= Seq::empty());
        assert(forest(tail@) =~= Seq::empty());
        assert(section_entries(map) =~= extracted(before.skip(pending.len() as int), names));
        assert(forest(pending@) =~= before.take(pending.len() as int));
    }
    while pending.len() > 0
        invariant
            names == names_of(sections@),
            pending.len() <= before.len(),
            forest(pending@) == before.take(pending.len() as int),
            forest(tail@) == residue(before.skip(pending.len() as int), names),
            section_entries(map) == extracted(before.skip(pending.len() as int), names),
            forall|name: Seq<char>| distinct(names).contains(name) <==> names.contains(name),
            forall|i: int, j: int| 0 <= i < j < distinct(names).len() ==> distinct(names)[i] != distinct(names)[j],
        decreases pending.len(),
    {
        let ghost longer = pending@;
        let node = pending.pop().unwrap();
        let ghost left = pending.len() as int;
        let ghost suffix = before.skip(left);
        let ghost rest = residue(before.skip(left + 1), names);
        let ghost entries = section_entries(map);
        proof {
            assert(suffix.drop_first() =~= before.skip(left + 1));
            assert(forest(longer)[left] == node@);
            assert(suffix[0] == node@);
            assert(forest(pending@) =~= before.take(left));
        }
        let level = match node.heading_level() {
            Some(level) => level,
            None => 0,
        };
        let section: Option<String> = match heading_name(&node) {
            Some(text) => if contains_name(sections, text) {
                Some(text.clone())
            } else {
                None
            },
            None => None,
        };
        match section {
            Some(name) => {
                let mut body: Vec<Node> = Vec::new();
                proof {
                    assert(forest(body@) =~= each_pruned(rest.take(0)));
                    assert(rest.skip(0) =~= rest);
                }
                while tail.len() > 0 && !ends_section(&tail[0], level)
                    invariant
                        body.len() <= rest.len(),
                        forest(body@) == each_pruned(rest.take(body.len() as int)),
                        forest(tail@) == rest.skip(body.len() as int),
                        body_len(rest, level) == body.len() + body_len(rest.skip(body.len() as int), level),
                    decreases tail.len(),
                {
                    let ghost taken = body.len() as int;
                    let ghost body_before = body@;
                    let ghost tail_before = tail@;
                    let mut next = tail.pop_front().unwrap();
                    assert(forest(tail_before)[0] == next@);
                    assert(rest[taken] == next@);
                    remove_task_nodes(&mut next);
                    body.push(next);
                    proof {
                        lemma_forest_push(body_before, next);
                        lemma_body_len_step(rest, level, taken);
                        assert(forest(body@) =~= each_pruned(rest.take(taken + 1)));
                        assert forall|j: int| 0 <= j < tail@.len() implies forest(tail@)[j] == rest.skip(
                            taken + 1,
                        )[j] by {
                            assert(tail@[j] == tail_before[j + 1]);
                            assert(forest(tail_before)[j + 1] == rest.skip(taken)[j + 1]);
                        }
                        assert(forest(tail@) =~= rest.skip(taken + 1));
                    }
                }
                proof {
                    let taken = body.len() as int;
                    if tail.len() > 0 {
                        assert(forest(tail@)[0] == tail@[0]@);
                    }
                    assert(body_len(rest.skip(taken), level) == 0);
                    assert(is_section(suffix[0], names));
                    assert(residue(suffix, names) == rest.skip(taken));
                }
                let ghost body_trees = forest(body@);
                insert_section(&mut map, name, Some(body));
                proof {
                    let keys = distinct(names);
                    let at = choose|i: int| 0 <= i < keys.len() && keys[i] == name@;
                    lemma_upsert_present(entries, at, name@, Some(body_trees));
                    assert(entries.update(at, (name@, Some(body_trees))) =~= extracted(suffix, names));
                }
            },
            None => {
                let ghost tail_before = tail@;
                tail.push_front(node);
                proof {
                    assert(!is_section(suffix[0], names));
                    assert(forest(tail@) =~= seq![node@] + forest(tail_before));
                    assert(entries =~= extracted(suffix, names));
                }
            },
        }
    }
    let mut children: Vec<Node> = Vec::new();
    let ghost left_over = forest(tail@);
    proof {
        assert(before.skip(0) =~= before);
        assert(forest(children@) + forest(tail@) =~= left_over);
    }
    while tail.len() > 0
        invariant
            forest(children@) + forest(tail@) == left_over,
        decreases tail.len(),
    {
        let ghost children_before = children@;
        let ghost tail_before = tail@;
        let node = tail.pop_front().unwrap();
        children.push(node);
        proof {
            lemma_forest_push(children_before, node);
            assert(forest(tail_before) =~= seq![node@] + forest(tail@));
            assert(forest(children@) + forest(tail@) =~= forest(children_before) + forest(tail_before));
        }
    }
    proof {
        assert(forest(tail@) =~= Seq::empty());
        assert(forest(children@) =~= left_over);
    }
    root.children = children;
    proof {
        lemma_view_children(*root);
    }
    map
}

/// The body of a section runs up to the first node that closes the
/// section, and no further.
pub proof fn lemma_body_len(following: Seq<Tree>, level: u8)
    ensures
        body_len(following, level) <= following.len(),
        forall|k: int| 0 <= k < body_len(following, level) ==> !closes_section(#[trigger] following[k], level),
        body_len(following, level) < following.len() ==> closes_section(
            following[body_len(following, level) as int],
            level,
        ),
    decreases following.len(),
{
    if following.len() > 0 && !closes_section(following[0], level) {
        let rest = following.drop_first();
        lemma_body_len(rest, level);
        assert forall|k: int| 0 <= k < body_len(following, level) implies !closes_section(
            #[trigger] following[k],
            level,
        ) by {
            if k > 0 {
                assert(following[k] == rest[k - 1]);
            }
        }
        if body_len(following, level) < following.len() {
            assert(following[body_len(following, level) as int] == rest[body_len(rest, level) as int]);
        }
    }
}

/// Whether the node stood at the top level of the source without opening
/// a configured section.
pub open spec fn stays(node: Tree, children: Seq<Tree>, names: Seq<Seq<char>>) -> bool {
    exists|j: int| 0 <= j < children.len() && #[trigger] children[j] == node && !is_section(node, names)
}

/// What extraction leaves in the source stood there before, and none of it
/// opens a configured section: every such heading has been taken out.
pub proof fn lemma_residue_stays(children: Seq<Tree>, names: Seq<Seq<char>>)
    ensures
        residue(children, names).len() <= children.len(),
        forall|k: int|
            0 <= k < residue(children, names).len() ==> stays(
                #[trigger] residue(children, names)[k],
                children,
                names,
            ),
    decreases children.len(),
{
    if children.len() > 0 {
        let later = children.drop_first();
        let rest = residue(later, names);
        lemma_residue_stays(later, names);
        let left = residue(children, names);
        assert forall|k: int| 0 <= k < left.len() implies stays(#[trigger] left[k], children, names) by {
            if is_section(children[0], names) {
                let skipped = body_len(rest, level_of(children[0])) as int;
                lemma_body_len(rest, level_of(children[0]));
                assert(left[k] == rest[k + skipped]);
                assert(stays(rest[k + skipped], later, names));
                let j = choose|j: int| 0 <= j < later.len() && #[trigger] later[j] == left[k];
                assert(children[j + 1] == left[k]);
            } else if k == 0 {
                assert(children[0] == left[k]);
            } else {
                assert(left[k] == rest[k - 1]);
                assert(stays(rest[k - 1], later, names));
                let j = choose|j: int| 0 <= j < later.len() && #[trigger] later[j] == left[k];
                assert(children[j + 1] == left[k]);
            }
        }
        if is_section(children[0], names) {
            lemma_body_len(rest, level_of(children[0]));
        }
    }
}

/// Whether the node is the pruned form of a node that stood at the top
/// level of the source without opening a configured section.
pub open spec fn carried(node: Tree, children: Seq<Tree>, names: Seq<Seq<char>>) -> bool {
    exists|j: int|
        0 <= j < children.len() && node == pruned(#[trigger] children[j]) && !is_section(children[j], names)
}

/// A captured body is made of nodes of the source, pruned: nodes that stood
/// at the top level and open no configured section. No completed task item
/// is left below any of them.
pub proof fn lemma_captured_body(children: Seq<Tree>, names: Seq<Seq<char>>, name: Seq<char>)
    ensures
        captured(children, names, name) matches Some(body) ==> forall|k: int|
            0 <= k < body.len() ==> carried(#[trigger] body[k], children, names) && !any_completed(
                body[k].children,
            ),
    decreases children.len(),
{
    if children.len() > 0 {
        let later = children.drop_first();
        if names.contains(name) && section_name(children[0]) == Some(name) {
            let rest = residue(later, names);
            let taken = body_len(rest, level_of(children[0])) as int;
            let body = each_pruned(rest.take(taken));
            lemma_body_len(rest, level_of(children[0]));
            lemma_residue_stays(later, names);
            assert forall|k: int| 0 <= k < body.len() implies carried(#[trigger] body[k], children, names)
                && !any_completed(body[k].children) by {
                assert(body[k] == pruned(rest[k]));
                lemma_pruned_is_clean(rest[k]);
                assert(stays(rest[k], later, names));
                let j = choose|j: int| 0 <= j < later.len() && #[trigger] later[j] == rest[k];
                assert(children[j + 1] == rest[k]);
            }
        } else {
            lemma_captured_body(later, names, name);
            match captured(children, names, name) {
                Some(body) => {
                    assert forall|k: int| 0 <= k < body.len() implies carried(
                        #[trigger] body[k],
                        children,
                        names,
                    ) && !any_completed(body[k].children) by {
                        assert(carried(body[k], later, names));
                        let j = choose|j: int|
                            0 <= j < later.len() && body[k] == pruned(#[trigger] later[j]) && !is_section(
                                later[j],
                                names,
                            );
                        assert(children[j + 1] == later[j]);
                    }
                },
                None => {},
            }
        }
    }
}

/// The section map has one entry for each configured name and no other: the
/// names stand in the order in which they were configured, each once,
/// however often a name was configured and however many headings carry it.
pub proof fn lemma_one_entry_per_name(children: Seq<Tree>, names: Seq<Seq<char>>)
    ensures
        extracted(children, names).len() == distinct(names).len(),
        extracted(children, names).len() <= names.len(),
        forall|i: int|
            0 <= i < distinct(names).len() ==> (#[trigger] extracted(children, names)[i]).0 == distinct(
                names,
            )[i],
        forall|i: int, j: int|
            0 <= i < j < extracted(children, names).len() ==> (#[trigger] extracted(children, names)[i]).0
                != (#[trigger] extracted(children, names)[j]).0,
        forall|name: Seq<char>| names.contains(name) <==> has_key(extracted(children, names), name),
{
    lemma_distinct(names);
    lemma_distinct_len(names);
    let entries = extracted(children, names);
    let keys = distinct(names);
    assert forall|name: Seq<char>| names.contains(name) <==> has_key(entries, name) by {
        if names.contains(name) {
            assert(keys.contains(name));
            let at = choose|i: int| 0 <= i < keys.len() && keys[i] == name;
            assert(entries[at].0 == name);
        }
        if has_key(entries, name) {
            let at = choose|i: int| 0 <= i < entries.len() && (#[trigger] entries[i]).0 == name;
            assert(keys[at] == name);
            assert(keys.contains(name));
        }
    }
}

/// There are no more distinct names than names.
pub proof fn lemma_distinct_len(names: Seq<Seq<char>>)
    ensures
        distinct(names).len() <= names.len(),
    decreases names.len(),
{
    if names.len() > 0 {
        lemma_distinct_len(names.drop_last());
    }
}

} // verus!
