//! Rewriting a source document in place: a dated title gets the new date,
//! headings outside the configured set go with what stands under them, and
//! completed tasks leave the lists at the top level.

use vstd::prelude::*;
use vstd::string::*;
use std::collections::VecDeque;
use crate::builder::title_text;
use crate::document::{forest, lemma_view_children, Kind, Node, NodeKind, Tree};
use crate::extractor::{
    body_len, contains_name, ends_section, heading_name, lemma_body_len_step, names_of, section_name,
};
use crate::pruner::{lemma_forest_push, pruned, remove_task_nodes};

verus! {

/// The pattern of a dated title.
pub const TITLE_PATTERN: &'static str = "Today's tasks \\d+-\\d+-\\d+";

/// Whether the regular expression `pattern` matches somewhere in `text`;
/// nothing where `pattern` is not a regular expression.
pub uninterp spec fn pattern_found(pattern: Seq<char>, text: Seq<char>) -> Option<bool>;

/// `Regex::new` and, on the expression it returns, `Regex::find`: whether
/// the expression matches somewhere in the text. Nothing comes back where
/// `Regex::new` refuses the pattern.
#[verifier::external_body]
fn find_pattern(pattern: &str, text: &str) -> (found: Option<bool>)
    ensures
        found == pattern_found(pattern@, text@),
{
    match regex::Regex::new(pattern) {
        Ok(expression) => Some(expression.find(text).is_some()),
        Err(_) => None,
    }
}

/// Whether the text holds a dated title.
pub open spec fn has_dated_title(text: Seq<char>) -> bool {
    pattern_found(TITLE_PATTERN@, text) == Some(true)
}

/// The heading with `title` as the literal of its first child.
pub open spec fn retitled(heading: Tree, title: Seq<char>) -> Tree {
    Tree {
        kind: heading.kind,
        column: heading.column,
        children: heading.children.update(
            0,
            Tree {
                kind: Kind::Text(title),
                column: heading.children[0].column,
                children: heading.children[0].children,
            },
        ),
    }
}

/// The children of a document after the rewrite, the later nodes first. A
/// heading that carries a dated title gets the title for `date`. Any other
/// heading that carries a name outside `names` goes, with what follows it
/// up to the next heading of the same or a shallower level. A list loses
/// its completed tasks. Everything else stays as it is.
pub open spec fn rewritten(children: Seq<Tree>, date: Seq<char>, names: Seq<Seq<char>>) -> Seq<Tree>
    decreases children.len(),
{
    if children.len() == 0 {
        Seq::empty()
    } else {
        let rest = rewritten(children.drop_first(), date, names);
        let head = children[0];
        match head.kind {
            Kind::Heading(level) => match section_name(head) {
                Some(name) => if has_dated_title(name) {
                    seq![retitled(head, title_text(date))] + rest
                } else if !names.contains(name) {
                    rest.skip(body_len(rest, level) as int)
                } else {
                    seq![head] + rest
                },
                None => seq![head] + rest,
            },
            Kind::List(_) => seq![pruned(head)] + rest,
            _ => seq![head] + rest,
        }
    }
}

/// Removes the body of a removed heading of the given level from the nodes
/// that follow it: every node up to the next heading of the same or a
/// shallower level, deeper headings included. That heading and all after
/// it stay.
pub fn remove_heading(following: &mut VecDeque<Node>, level: u8)
    ensures
        forest(final(following)@) == forest(old(following)@).skip(
            body_len(forest(old(following)@), level) as int,
        ),
{
    let ghost before = forest(following@);
    let ghost mut removed: int = 0;
    proof {
        assert(before.skip(0) =~= before);
    }
    while following.len() > 0 && !ends_section(&following[0], level)
        invariant
            0 <= removed <= before.len(),
            forest(following@) == before.skip(removed),
            body_len(before, level) == removed + body_len(before.skip(removed), level),
        decreases following.len(),
    {
        let ghost longer = following@;
        let node = following.pop_front().unwrap();
        proof {
            assert(forest(longer)[0] == node@);
            assert(before[removed] == node@);
            lemma_body_len_step(before, level, removed);
            assert forall|j: int| 0 <= j < following@.len() implies forest(following@)[j] == before.skip(
                removed + 1,
            )[j] by {
                assert(following@[j] == longer[j + 1]);
                assert(forest(longer)[j + 1] == before.skip(removed)[j + 1]);
            }
            assert(forest(following@) =~= before.skip(removed + 1));
            removed = removed + 1;
        }
    }
    proof {
        if following.len() > 0 {
            assert(forest(following@)[0] == following@[0]@);
        }
        assert(body_len(before.skip(removed), level) == 0);
    }
}

/// Whether the text holds a dated title: `Today's tasks `, then digits, a
/// hyphen, digits, a hyphen and digits.
pub fn is_dated_title(text: &str) -> (dated: bool)
    ensures
        dated == has_dated_title(text@),
{
    match find_pattern(TITLE_PATTERN, text) {
        Some(found) => found,
        None => false,
    }
}

/// Gives a heading whose first child is plain text a new title.
fn retitle(node: &mut Node, title: String)
    requires
        section_name(old(node)@) is Some,
    ensures
        final(node)@ == retitled(old(node)@, title@),
{
    proof {
        lemma_view_children(*old(node));
    }
    let mut children: Vec<Node> = Vec::new();
    std::mem::swap(&mut node.children, &mut children);
    let ghost before = children@;
    let first = children.remove(0);
    proof {
        lemma_view_children(first);
    }
    let renamed = Node { kind: NodeKind::Text(title), column: first.column, children: first.children };
    children.insert(0, renamed);
    node.children = children;
    proof {
        lemma_view_children(renamed);
        lemma_view_children(*node);
        assert(renamed@ == retitled(old(node)@, title@).children[0]);
        assert(node.children@ =~= before.update(0, renamed));
        assert(node@.children =~= retitled(old(node)@, title@).children);
    }
}

/// Rewrites the document below `root` in place, walking its children from
/// the last to the first. A heading whose text holds a dated title is given
/// the title for `new_date`. Any other heading whose first child is plain
/// text outside `sections` is removed, together with the nodes after it up
/// to the next heading of the same or a shallower level. A list at the top
/// level loses its completed task items.
pub fn process_doc_tree(root: &mut Node, new_date: &str, sections: &Vec<String>)
    ensures
        final(root)@ == (Tree {
            kind: old(root)@.kind,
            column: old(root)@.column,
            children: rewritten(old(root)@.children, new_date@, names_of(sections@)),
        }),
{
    let ghost names = names_of(sections@);
    let mut pending: Vec<Node> = Vec::new();
    std::mem::swap(&mut root.children, &mut pending);
    let ghost before = forest(pending@);
    let mut tail: VecDeque<Node> = VecDeque::new();
    proof {
        lemma_view_children(*old(root));
        assert(before.skip(pending.len() as int) =~= Seq::empty());
        assert(forest(tail@) =~= Seq::empty());
        assert(forest(pending@) =~= before.take(pending.len() as int));
    }
    while pending.len() > 0
        invariant
            names == names_of(sections@),
            pending.len() <= before.len(),
            forest(pending@) == before.take(pending.len() as int),
            forest(tail@) == rewritten(before.skip(pending.len() as int), new_date@, names),
        decreases pending.len(),
    {
        let ghost longer = pending@;
        let mut node = pending.pop().unwrap();
        let ghost left = pending.len() as int;
        let ghost suffix = before.skip(left);
        let ghost head = node@;
        let ghost tail_before = tail@;
        proof {
            assert(suffix.drop_first() =~= before.skip(left + 1));
            assert(forest(longer)[left] == node@);
            assert(suffix[0] == node@);
            assert(forest(pending@) =~= before.take(left));
        }
        let mut retitle_it = false;
        let mut remove_it = false;
        let mut level: u8 = 0;
        let mut prune_it = false;
        match node.kind {
            NodeKind::Heading(found) => {
                level = found;
                match heading_name(&node) {
                    Some(text) => {
                        if is_dated_title(text.as_str()) {
                            retitle_it = true;
                        } else if !contains_name(sections, text) {
                            remove_it = true;
                        }
                    },
                    None => {},
                }
            },
            NodeKind::List(_) => {
                prune_it = true;
            },
            _ => {},
        }
        if retitle_it {
            let mut title = String::new();
            title.append("Today's tasks ");
            title.append(new_date);
            assert(title@ =~= title_text(new_date@));
            retitle(&mut node, title);
            tail.push_front(node);
            assert(forest(tail@) =~= seq![retitled(head, title_text(new_date@))] + forest(tail_before));
        } else if remove_it {
            remove_heading(&mut tail, level);
        } else {
            if prune_it {
                remove_task_nodes(&mut node);
            }
            tail.push_front(node);
            assert(forest(tail@) =~= seq![node@] + forest(tail_before));
        }
    }
    let mut children: Vec<Node> = Vec::new();
    let ghost left_over = forest(tail@);
    proof {
        assert(before.skip(0) =~= before);
        assert(forest(children@) + forest(tail@) =~= left_over);
    }
    while tail.len() > 0
        invariant
            forest(children@) + forest(tail@) == left_over,
        decreases tail.len(),
    {
        let ghost children_before = children@;
        let ghost tail_before = tail@;
        let node = tail.pop_front().unwrap();
        children.push(node);
        proof {
            lemma_forest_push(children_before, node);
            assert(forest(tail_before) =~= seq![node@] + forest(tail@));
            assert(forest(children@) + forest(tail@) =~= forest(children_before) + forest(tail_before));
        }
    }
    proof {
        assert(forest(tail@) =~= Seq::empty());
        assert(forest(children@) =~= left_over);
    }
    root.children = children;
    proof {
        lemma_view_children(*root);
    }
}

} // verus!
