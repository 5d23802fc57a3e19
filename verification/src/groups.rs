//! Reading the configured sections of a document as groups of open tasks.

use vstd::prelude::*;
use vstd::hash_map::StringHashMap;
use crate::document::{forest, lemma_view_children, Node, Tree};
use crate::extractor::{contains_name, heading_name, is_section, level_of, names_of};
use crate::tasks::{
    lemma_task_views_push, parsed_group, task_views, tree_after, GroupView, Status, Task, TaskGroup,
    TaskView,
};

verus! {

/// The tasks that are not done, in their order.
pub open spec fn open_tasks(tasks: Seq<TaskView>) -> Seq<TaskView>
    decreases tasks.len(),
{
    if tasks.len() == 0 {
        Seq::empty()
    } else if tasks.last().status is Done {
        open_tasks(tasks.drop_last())
    } else {
        open_tasks(tasks.drop_last()).push(tasks.last())
    }
}

/// The group that the node at `at` contributes: it has to be a heading of
/// level 2 or deeper that carries a configured name, and it has to read as
/// a group of tasks together with the node after it. The group keeps the
/// tasks that are not done.
pub open spec fn group_at(children: Seq<Tree>, at: int, names: Seq<Seq<char>>) -> Option<GroupView> {
    let next = if at + 1 < children.len() {
        Some(children[at + 1])
    } else {
        None
    };
    if level_of(children[at]) >= 2 && is_section(children[at], names) {
        match parsed_group(children[at], next) {
            Ok(group) => Some(
                GroupView { name: group.name, tasks: open_tasks(group.tasks), level: group.level },
            ),
            Err(_) => None,
        }
    } else {
        None
    }
}

/// The groups found among the nodes from `from` on, by name. Where two
/// headings carry the same name, the one that comes first in the document
/// gives the group.
pub open spec fn grouped(children: Seq<Tree>, names: Seq<Seq<char>>, from: int) -> Map<Seq<char>, GroupView>
    decreases children.len() - from,
{
    if from >= children.len() {
        Map::empty()
    } else {
        let later = grouped(children, names, from + 1);
        match group_at(children, from, names) {
            Some(group) => later.insert(group.name, group),
            None => later,
        }
    }
}

/// The mathematical value of a map of groups.
pub open spec fn group_views(groups: Map<Seq<char>, TaskGroup>) -> Map<Seq<char>, GroupView> {
    groups.map_values(|group: TaskGroup| group@)
}

/// Keeps the tasks that are not done.
pub fn without_done(tasks: Vec<Task>) -> (open: Vec<Task>)
    ensures
        task_views(open@) == open_tasks(task_views(tasks@)),
{
    let mut open: Vec<Task> = Vec::new();
    let ghost all = tasks@;
    proof {
        assert(task_views(all).take(0) =~= Seq::empty());
        assert(task_views(open@) =~= Seq::empty());
    }
    for task in it: tasks
        invariant
            it.seq() == all,
            task_views(open@) == open_tasks(task_views(all).take(it.index() as int)),
    {
        let ghost done = it.index() as int;
        let ghost before = open@;
        proof {
            assert(task_views(all).take(done + 1).drop_last() =~= task_views(all).take(done));
            assert(task_views(all).take(done + 1).last() == task@);
            crate::tasks::lemma_view_subtasks(task);
        }
        match task.status {
            Status::Done(_) => {},
            _ => {
                open.push(task);
                proof {
                    lemma_task_views_push(before, task);
                }
            },
        }
    }
    assert(task_views(all).take(all.len() as int) =~= task_views(all));
    open
}

/// Reads the configured sections of the document below `root` as groups of
/// tasks, without changing the document.
///
/// A group comes from a heading of level 2 or deeper whose first child is
/// plain text equal to one of `sections`, and from the list that has to
/// follow the heading directly. Tasks that are done are left out of the
/// group; their subtasks go with them. A heading that does not read as a
/// group contributes nothing.
pub fn extract_secitons(root: &Node, sections: &Vec<String>) -> (groups: StringHashMap<TaskGroup>)
    ensures
        group_views(groups@) == grouped(root@.children, names_of(sections@), 0),
{
    let ghost names = names_of(sections@);
    let ghost children = root@.children;
    let mut groups: StringHashMap<TaskGroup> = StringHashMap::new();
    let mut at: usize = root.children.len();
    proof {
        lemma_view_children(*root);
        assert(group_views(groups@) =~= grouped(children, names, at as int));
    }
    while at > 0
        invariant
            at <= root.children.len(),
            names == names_of(sections@),
            children == root@.children,
            children == forest(root.children@),
            group_views(groups@) == grouped(children, names, at as int),
        decreases at,
    {
        at -= 1;
        let node = &root.children[at];
        let next: Option<&Node> = if at + 1 < root.children.len() {
            Some(&root.children[at + 1])
        } else {
            None
        };
        let ghost earlier = groups@;
        let level = match node.heading_level() {
            Some(level) => level,
            None => 0,
        };
        if level >= 2 {
            match heading_name(node) {
                Some(title) => {
                    if contains_name(sections, title) {
                        match TaskGroup::try_from(node, next) {
                            Ok(group) => {
                                let TaskGroup { name, tasks, level } = group;
                                let open = without_done(tasks);
                                let kept = TaskGroup { name, tasks: open, level };
                                groups.insert(title.clone(), kept);
                                proof {
                                    assert(group_at(children, at as int, names) == Some(kept@));
                                    assert(group_views(groups@) =~= group_views(earlier).insert(
                                        title@,
                                        kept@,
                                    ));
                                }
                            },
                            Err(_) => {},
                        }
                    }
                },
                None => {},
            }
        }
    }
    groups
}

} // verus!
