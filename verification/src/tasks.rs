//! Tasks and groups of tasks: reading them from an outline tree and writing
//! them as markdown text.

use vstd::prelude::*;
use vstd::string::*;
use crate::document::{forest, lemma_view_children, Kind, Node, NodeKind, Tree};
use crate::text::{
    lemma_trimmed_twice, push_char, push_repeated, repeated, replace_char, replaced, trim, trim_end, trimmed,
    trimmed_end,
};

verus! {

/// The state of a task.
#[derive(Debug, Clone, Copy, PartialEq, Eq, Structural)]
pub enum Status {
    /// Completed; the marker is `x` or `X`.
    Done(char),
    /// Open, with a marker other than `x` and `X`.
    Todo(char),
    /// Without a marker.
    Empty,
}

/// Why a node could not be read as a task or as a group of tasks.
#[derive(Debug, PartialEq)]
pub enum TaskError {
    ParsingError(&'static str),
}

/// A task with the tasks nested under it.
#[derive(Debug, PartialEq)]
pub struct Task {
    pub status: Status,
    pub text: String,
    pub subtasks: Option<Vec<Task>>,
}

/// The tasks that stand under one heading.
#[derive(Debug, PartialEq)]
pub struct TaskGroup {
    pub name: String,
    pub tasks: Vec<Task>,
    /// The level of the group's heading.
    pub level: u8,
}

/// The mathematical value of a [`Task`].
pub struct TaskView {
    pub status: Status,
    pub text: Seq<char>,
    pub subtasks: Option<Seq<TaskView>>,
}

/// The mathematical value of a [`TaskGroup`].
pub struct GroupView {
    pub name: Seq<char>,
    pub tasks: Seq<TaskView>,
    pub level: u8,
}

/// The value of a task: its status, its text and the values of its
/// subtasks.
pub open spec fn task_view(task: Task) -> TaskView
    decreases task,
{
    TaskView {
        status: task.status,
        text: task.text@,
        subtasks: match task.subtasks {
            Some(subtasks) => Some(
                Seq::new(
                    subtasks@.len(),
                    |i: int|
                        if 0 <= i < subtasks@.len() {
                            task_view(subtasks@[i])
                        } else {
                            arbitrary()
                        },
                ),
            ),
            None => None,
        },
    }
}

/// The values of a list of tasks.
pub open spec fn task_views(tasks: Seq<Task>) -> Seq<TaskView> {
    Seq::new(tasks.len(), |i: int| tasks[i]@)
}

impl View for Task {
    type V = TaskView;

    open spec fn view(&self) -> TaskView {
        task_view(*self)
    }
}

impl View for TaskGroup {
    type V = GroupView;

    open spec fn view(&self) -> GroupView {
        GroupView { name: self.name@, tasks: task_views(self.tasks@), level: self.level }
    }
}

impl TaskError {
    /// The message that the error carries.
    pub open spec fn message(self) -> Seq<char> {
        match self {
            TaskError::ParsingError(message) => message@,
        }
    }
}

/// A task's value holds the values of its subtasks, one for one.
pub proof fn lemma_view_subtasks(task: Task)
    ensures
        task@.status == task.status,
        task@.text == task.text@,
        task@.subtasks == match task.subtasks {
            Some(subtasks) => Some(task_views(subtasks@)),
            None => None,
        },
{
    match task.subtasks {
        Some(subtasks) => {
            assert(task@.subtasks->0 =~= task_views(subtasks@));
        },
        None => {},
    }
}

/// The values of a list of tasks that grew by one task.
pub proof fn lemma_task_views_push(tasks: Seq<Task>, task: Task)
    ensures
        task_views(tasks.push(task)) == task_views(tasks).push(task@),
{
    assert(task_views(tasks.push(task)) =~= task_views(tasks).push(task@));
}

/// The status that a marker stands for.
pub open spec fn status_of(marker: Option<char>) -> Status {
    match marker {
        Some(c) => if c == 'x' || c == 'X' {
            Status::Done(c)
        } else {
            Status::Todo(c)
        },
        None => Status::Empty,
    }
}

/// The text of a node that is plain text; any other node has none.
pub open spec fn plain_text(node: Tree) -> Result<Seq<char>, Seq<char>> {
    match node.kind {
        Kind::Text(text) => Ok(text),
        _ => Err("Could not get text from element"@),
    }
}

/// The text that one inline node of a paragraph contributes. Plain text
/// stands for itself. Emphasis and strong emphasis contribute the text of
/// their first child between `*` and `**`; without a child they contribute
/// nothing, and a first child that is not plain text is an error. A soft
/// break is a newline and then as many spaces as the paragraph's column.
/// Every other inline node contributes nothing.
pub open spec fn inline_text(inline: Tree, column: usize) -> Result<Seq<char>, Seq<char>> {
    match inline.kind {
        Kind::Text(text) => Ok(text),
        Kind::Emph => if inline.children.len() > 0 {
            match plain_text(inline.children[0]) {
                Ok(text) => Ok("*"@ + text + "*"@),
                Err(message) => Err(message),
            }
        } else {
            Ok(Seq::empty())
        },
        Kind::Strong => if inline.children.len() > 0 {
            match plain_text(inline.children[0]) {
                Ok(text) => Ok("**"@ + text + "**"@),
                Err(message) => Err(message),
            }
        } else {
            Ok(Seq::empty())
        },
        Kind::SoftBreak => Ok("\n"@ + repeated(" "@, column as nat)),
        _ => Ok(Seq::empty()),
    }
}

/// The texts of the inline nodes, one after another; the first error among
/// them if there is one.
pub open spec fn inlines_text(inlines: Seq<Tree>, column: usize) -> Result<Seq<char>, Seq<char>>
    decreases inlines.len(),
{
    if inlines.len() == 0 {
        Ok(Seq::empty())
    } else {
        match inlines_text(inlines.drop_last(), column) {
            Ok(init) => match inline_text(inlines.last(), column) {
                Ok(text) => Ok(init + text),
                Err(message) => Err(message),
            },
            Err(message) => Err(message),
        }
    }
}

/// The text of a task, read from the first child of its task item, which
/// has to be a paragraph.
pub open spec fn paragraph_text(paragraph: Tree) -> Result<Seq<char>, Seq<char>> {
    if paragraph.kind is Paragraph {
        inlines_text(paragraph.children, paragraph.column)
    } else {
        Err("First child is not Paragraph"@)
    }
}

/// The task that a task item stands for. Its text is that of the item's
/// first child; its subtasks are gathered from the lists among the item's
/// children.
pub open spec fn parsed_task(item: Tree) -> Result<TaskView, Seq<char>>
    decreases item,
{
    match item.kind {
        Kind::TaskItem(marker) => if item.children.len() == 0 {
            Err("No childern of node found"@)
        } else {
            match paragraph_text(item.children[0]) {
                Ok(text) => Ok(
                    TaskView { status: status_of(marker), text, subtasks: nested_tasks(item.children) },
                ),
                Err(message) => Err(message),
            }
        },
        _ => Err("Node being parsed is not a TaskItem"@),
    }
}

/// The subtasks of a task item with the given children: the tasks of every
/// list among them, in the order in which they come. Without a list there
/// are no subtasks to speak of.
pub open spec fn nested_tasks(children: Seq<Tree>) -> Option<Seq<TaskView>>
    decreases children,
{
    if children.len() == 0 {
        None
    } else {
        let init = nested_tasks(children.drop_last());
        if children.last().kind is List {
            let found = listed_tasks(children.last().children);
            match init {
                Some(tasks) => Some(tasks + found),
                None => Some(found),
            }
        } else {
            init
        }
    }
}

/// The tasks among the items of a list: every item that can be read as a
/// task, in order. The others are passed over.
pub open spec fn listed_tasks(items: Seq<Tree>) -> Seq<TaskView>
    decreases items,
{
    if items.len() == 0 {
        Seq::empty()
    } else {
        let init = listed_tasks(items.drop_last());
        match parsed_task(items.last()) {
            Ok(task) => init.push(task),
            Err(_) => init,
        }
    }
}

/// The group of tasks that a heading and the node after it stand for. The
/// heading's first child has to be plain text, which names the group, and
/// the node right after the heading has to be a list, which holds the tasks.
pub open spec fn parsed_group(heading: Tree, next: Option<Tree>) -> Result<GroupView, Seq<char>> {
    match heading.kind {
        Kind::Heading(level) => if heading.children.len() == 0 {
            Err("Node has no children"@)
        } else {
            match heading.children[0].kind {
                Kind::Text(name) => match next {
                    Some(list) => if list.kind is List {
                        Ok(GroupView { name, tasks: listed_tasks(list.children), level })
                    } else {
                        Err("Next sibling of node is not a list"@)
                    },
                    None => Err("Empty section at end of file"@),
                },
                _ => Err("Could not get title from heading node"@),
            }
        },
        _ => Err("Node is not a section heading"@),
    }
}

/// What a function that reads a task returned, as a mathematical value.
pub open spec fn task_outcome(result: Result<Task, TaskError>) -> Result<TaskView, Seq<char>> {
    match result {
        Ok(task) => Ok(task@),
        Err(error) => Err(error.message()),
    }
}

/// What a function that reads a text returned, as a mathematical value.
pub open spec fn text_outcome(result: Result<String, TaskError>) -> Result<Seq<char>, Seq<char>> {
    match result {
        Ok(text) => Ok(text@),
        Err(error) => Err(error.message()),
    }
}

/// What a function that reads a group returned, as a mathematical value.
pub open spec fn group_outcome(result: Result<TaskGroup, TaskError>) -> Result<GroupView, Seq<char>> {
    match result {
        Ok(group) => Ok(group@),
        Err(error) => Err(error.message()),
    }
}

impl Status {
    /// The status that a task item's marker stands for: `x` and `X` mean
    /// done, any other marker an open task, and no marker an empty one.
    pub fn from_marker(marker: Option<char>) -> (status: Status)
        ensures
            status == status_of(marker),
    {
        match marker {
            Some(c) => if c == 'x' || c == 'X' {
                Status::Done(c)
            } else {
                Status::Todo(c)
            },
            None => Status::Empty,
        }
    }

    /// The character that stands between the brackets of a rendered task.
    pub open spec fn spec_marker(self) -> char {
        match self {
            Status::Done(c) => c,
            Status::Todo(c) => c,
            Status::Empty => ' ',
        }
    }

    /// The character that stands between the brackets of a rendered task.
    #[verifier::when_used_as_spec(spec_marker)]
    pub fn marker(self) -> (c: char)
        ensures
            c == self.spec_marker(),
    {
        match self {
            Status::Done(c) => c,
            Status::Todo(c) => c,
            Status::Empty => ' ',
        }
    }
}

impl Task {
    /// The text of a node that is plain text.
    pub fn extract_text(node: &Node) -> (result: Result<String, TaskError>)
        ensures
            text_outcome(result) == plain_text(node@),
    {
        match &node.kind {
            NodeKind::Text(contents) => Ok(contents.clone()),
            _ => Err(TaskError::ParsingError("Could not get text from element")),
        }
    }

    /// The text of a task, read from the paragraph that is the first child
    /// of its task item.
    pub fn extract_text_from_task(node: &Node) -> (result: Result<String, TaskError>)
        ensures
            text_outcome(result) == paragraph_text(node@),
    {
        proof {
            lemma_view_children(*node);
        }
        match node.kind {
            NodeKind::Paragraph => {},
            _ => {
                return Err(TaskError::ParsingError("First child is not Paragraph"));
            },
        }
        let mut text = String::new();
        let mut i: usize = 0;
        assert(node@.children.take(0) =~= Seq::empty());
        while i < node.children.len()
            invariant
                i <= node.children.len(),
                node@.kind is Paragraph,
                node@.children.len() == node.children@.len(),
                forall|j: int| 0 <= j < node.children@.len() ==> node@.children[j] == #[trigger] node.children@[j]@,
                inlines_text(node@.children.take(i as int), node.column) == Ok::<Seq<char>, Seq<char>>(text@),
            decreases node.children.len() - i,
        {
            let child = &node.children[i];
            let ghost so_far = text@;
            proof {
                lemma_view_children(*child);
                assert(node@.children.take(i + 1).drop_last() =~= node@.children.take(i as int));
                assert(node@.children.take(i + 1).last() == child@);
            }
            match &child.kind {
                NodeKind::Text(contents) => {
                    text.append(contents.as_str());
                },
                NodeKind::Emph => {
                    if child.children.len() > 0 {
                        match Task::extract_text(&child.children[0]) {
                            Ok(inner) => {
                                text.append("*");
                                text.append(inner.as_str());
                                text.append("*");
                                assert(text@ =~= so_far + ("*"@ + inner@ + "*"@));
                            },
                            Err(error) => {
                                proof {
                                    assert(child@.children[0] == child.children@[0]@);
                                    assert(inline_text(child@, node.column) == Err::<Seq<char>, Seq<char>>(
                                        error.message(),
                                    ));
                                    assert(node@.children[i as int] == child@);
                                    lemma_inlines_error(node@.children, node.column, i as int);
                                }
                                return Err(error);
                            },
                        }
                    } else {
                        assert(text@ =~= so_far + Seq::<char>::empty());
                    }
                },
                NodeKind::Strong => {
                    if child.children.len() > 0 {
                        match Task::extract_text(&child.children[0]) {
                            Ok(inner) => {
                                text.append("**");
                                text.append(inner.as_str());
                                text.append("**");
                                assert(text@ =~= so_far + ("**"@ + inner@ + "**"@));
                            },
                            Err(error) => {
                                proof {
                                    assert(child@.children[0] == child.children@[0]@);
                                    assert(inline_text(child@, node.column) == Err::<Seq<char>, Seq<char>>(
                                        error.message(),
                                    ));
                                    assert(node@.children[i as int] == child@);
                                    lemma_inlines_error(node@.children, node.column, i as int);
                                }
                                return Err(error);
                            },
                        }
                    } else {
                        assert(text@ =~= so_far + Seq::<char>::empty());
                    }
                },
                NodeKind::SoftBreak => {
                    text.append("\n");
                    push_repeated(&mut text, " ", node.column);
                    assert(text@ =~= so_far + ("\n"@ + repeated(" "@, node.column as nat)));
                },
                _ => {
                    assert(text@ =~= so_far + Seq::<char>::empty());
                },
            }
            i += 1;
        }
        assert(node@.children.take(i as int) =~= node@.children);
        Ok(text)
    }
}

/// Where the inline node at `at` fails, so does the run of inline nodes.
pub proof fn lemma_inlines_error(inlines: Seq<Tree>, column: usize, at: int)
    requires
        0 <= at < inlines.len(),
        inlines_text(inlines.take(at), column) is Ok,
        inline_text(inlines[at], column) is Err,
    ensures
        inlines_text(inlines, column) == Err::<Seq<char>, Seq<char>>(inline_text(inlines[at], column)->Err_0),
    decreases inlines.len() - at,
{
    assert(inlines.take(at + 1).drop_last() =~= inlines.take(at));
    assert(inlines.take(at + 1).last() == inlines[at]);
    lemma_inlines_error_stays(inlines, column, at + 1);
}

/// An error among the first `upto` inline nodes is the error of the run.
pub proof fn lemma_inlines_error_stays(inlines: Seq<Tree>, column: usize, upto: int)
    requires
        0 <= upto <= inlines.len(),
        inlines_text(inlines.take(upto), column) is Err,
    ensures
        inlines_text(inlines, column) == inlines_text(inlines.take(upto), column),
    decreases inlines.len() - upto,
{
    if upto == inlines.len() {
        assert(inlines.take(upto) =~= inlines);
    } else {
        assert(inlines.take(upto + 1).drop_last() =~= inlines.take(upto));
        lemma_inlines_error_stays(inlines, column, upto + 1);
    }
}

/// The mathematical value of the subtasks gathered so far.
pub open spec fn gathered(subtasks: Option<Vec<Task>>) -> Option<Seq<TaskView>> {
    match subtasks {
        Some(tasks) => Some(task_views(tasks@)),
        None => None,
    }
}

/// The tasks among the items of a list: every item that can be read as a
/// task, in order. An item that cannot is passed over.
pub fn tasks_in(items: &Vec<Node>) -> (tasks: Vec<Task>)
    ensures
        task_views(tasks@) == listed_tasks(forest(items@)),
    decreases items,
{
    let mut tasks: Vec<Task> = Vec::new();
    let mut i: usize = 0;
    proof {
        assert(forest(items@).take(0) =~= Seq::empty());
        assert(task_views(tasks@) =~= Seq::empty());
    }
    while i < items.len()
        invariant
            i <= items.len(),
            task_views(tasks@) == listed_tasks(forest(items@).take(i as int)),
        decreases items.len() - i,
    {
        let ghost before = tasks@;
        proof {
            assert(forest(items@).take(i + 1).drop_last() =~= forest(items@).take(i as int));
            assert(forest(items@).take(i + 1).last() == items@[i as int]@);
            assert(decreases_to!(items => items@[i as int]));
        }
        match Task::try_from(&items[i]) {
            Ok(task) => {
                tasks.push(task);
                proof {
                    lemma_task_views_push(before, task);
                }
            },
            Err(_) => {},
        }
        i += 1;
    }
    assert(forest(items@).take(i as int) =~= forest(items@));
    tasks
}

impl Task {
    /// Reads a task from a task item. The marker gives the status, the
    /// item's first child, a paragraph, gives the text, and the lists among
    /// the item's children give the subtasks.
    pub fn try_from(node: &Node) -> (result: Result<Task, TaskError>)
        ensures
            task_outcome(result) == parsed_task(node@),
        decreases node,
    {
        proof {
            lemma_view_children(*node);
        }
        let marker = match node.kind {
            NodeKind::TaskItem(marker) => marker,
            _ => {
                return Err(TaskError::ParsingError("Node being parsed is not a TaskItem"));
            },
        };
        if node.children.len() == 0 {
            return Err(TaskError::ParsingError("No childern of node found"));
        }
        let text = match Task::extract_text_from_task(&node.children[0]) {
            Ok(text) => text,
            Err(error) => {
                return Err(error);
            },
        };
        let status = Status::from_marker(marker);
        let mut subtasks: Option<Vec<Task>> = None;
        let mut i: usize = 0;
        proof {
            assert(node@.children.take(0) =~= Seq::empty());
        }
        while i < node.children.len()
            invariant
                i <= node.children.len(),
                node@.children == forest(node.children@),
                gathered(subtasks) == nested_tasks(node@.children.take(i as int)),
            decreases node.children.len() - i,
        {
            let child = &node.children[i];
            proof {
                lemma_view_children(*child);
                assert(node@.children.take(i + 1).drop_last() =~= node@.children.take(i as int));
                assert(node@.children.take(i + 1).last() == child@);
            }
            match child.kind {
                NodeKind::List(_) => {
                    assert(decreases_to!(node.children => node.children@[i as int]));
                    let mut found = tasks_in(&child.children);
                    let ghost found_views = task_views(found@);
                    subtasks = match subtasks {
                        Some(tasks) => {
                            let mut tasks = tasks;
                            let ghost earlier = task_views(tasks@);
                            tasks.append(&mut found);
                            assert(task_views(tasks@) =~= earlier + found_views);
                            Some(tasks)
                        },
                        None => Some(found),
                    };
                },
                _ => {},
            }
            i += 1;
        }
        assert(node@.children.take(i as int) =~= node@.children);
        let task = Task { status, text, subtasks };
        proof {
            lemma_view_subtasks(task);
        }
        Ok(task)
    }
}

/// The tree of the node that follows a heading, if there is one.
pub open spec fn tree_after(next_sibling: Option<&Node>) -> Option<Tree> {
    match next_sibling {
        Some(node) => Some(node@),
        None => None,
    }
}

impl TaskGroup {
    /// A group without tasks.
    pub fn empty(name: String, level: u8) -> (group: TaskGroup)
        ensures
            group@ == (GroupView { name: name@, tasks: Seq::empty(), level }),
    {
        let group = TaskGroup { name, tasks: Vec::new(), level };
        assert(task_views(group.tasks@) =~= Seq::empty());
        group
    }

    /// Reads a group of tasks from a heading and the node that follows it
    /// in the document. The heading gives the level and, by its first
    /// child, the name; the node after it has to be a list, whose items
    /// give the tasks. An item that cannot be read as a task is passed over.
    pub fn try_from(node: &Node, next_sibling: Option<&Node>) -> (result: Result<TaskGroup, TaskError>)
        ensures
            group_outcome(result) == parsed_group(node@, tree_after(next_sibling)),
    {
        proof {
            lemma_view_children(*node);
        }
        let level = match node.kind {
            NodeKind::Heading(level) => level,
            _ => {
                return Err(TaskError::ParsingError("Node is not a section heading"));
            },
        };
        if node.children.len() == 0 {
            return Err(TaskError::ParsingError("Node has no children"));
        }
        let name = match &node.children[0].kind {
            NodeKind::Text(value) => value.clone(),
            _ => {
                return Err(TaskError::ParsingError("Could not get title from heading node"));
            },
        };
        let list = match next_sibling {
            Some(list) => list,
            None => {
                return Err(TaskError::ParsingError("Empty section at end of file"));
            },
        };
        proof {
            lemma_view_children(*list);
        }
        match list.kind {
            NodeKind::List(_) => {
                let tasks = tasks_in(&list.children);
                Ok(TaskGroup { name, tasks, level })
            },
            _ => Err(TaskError::ParsingError("Next sibling of node is not a list")),
        }
    }
}

/// The markdown text of a task: a list item with the marker between
/// brackets and the trimmed text, and under it, two spaces deeper, the block
/// of its subtasks.
pub open spec fn rendered_task(task: TaskView) -> Seq<char>
    decreases task,
{
    "- ["@.push(task.status.marker()) + "] "@ + trimmed(task.text) + replaced(
        nested_block(task.subtasks),
        '\n',
        "\n  "@,
    ) + "\n"@
}

/// The block of a task's subtasks before it is indented: a newline and the
/// texts of the subtasks, without the whitespace at the end. A task without
/// subtasks has an empty block.
pub open spec fn nested_block(subtasks: Option<Seq<TaskView>>) -> Seq<char>
    decreases subtasks,
{
    match subtasks {
        Some(tasks) => trimmed_end("\n"@ + rendered_tasks(tasks)),
        None => Seq::empty(),
    }
}

/// The markdown texts of the tasks, one after another.
pub open spec fn rendered_tasks(tasks: Seq<TaskView>) -> Seq<char>
    decreases tasks,
{
    if tasks.len() == 0 {
        Seq::empty()
    } else {
        rendered_tasks(tasks.drop_last()) + rendered_task(tasks.last())
    }
}

/// The markdown text of a group: a heading line of as many `#` as the
/// group's level, a space and the name, and then the group's tasks.
pub open spec fn rendered_group(group: GroupView) -> Seq<char> {
    repeated("#"@, group.level as nat) + " "@ + group.name + "\n"@ + rendered_tasks(group.tasks)
}

/// Appends the markdown texts of the tasks to `out`.
pub fn push_tasks(out: &mut String, tasks: &Vec<Task>)
    ensures
        final(out)@ == old(out)@ + rendered_tasks(task_views(tasks@)),
    decreases tasks,
{
    let mut i: usize = 0;
    proof {
        assert(task_views(tasks@).take(0) =~= Seq::empty());
        assert(out@ =~= old(out)@ + rendered_tasks(task_views(tasks@).take(0)));
    }
    while i < tasks.len()
        invariant
            i <= tasks.len(),
            out@ == old(out)@ + rendered_tasks(task_views(tasks@).take(i as int)),
        decreases tasks.len() - i,
    {
        proof {
            assert(task_views(tasks@).take(i + 1).drop_last() =~= task_views(tasks@).take(i as int));
            assert(task_views(tasks@).take(i + 1).last() == tasks@[i as int]@);
            assert(decreases_to!(tasks => tasks@[i as int]));
        }
        let line = tasks[i].to_string();
        out.append(line.as_str());
        i += 1;
        assert(out@ =~= old(out)@ + rendered_tasks(task_views(tasks@).take(i as int)));
    }
    assert(task_views(tasks@).take(i as int) =~= task_views(tasks@));
}

impl Task {
    /// The task as markdown text.
    pub fn to_string(&self) -> (out: String)
        ensures
            out@ == rendered_task(self@),
        decreases self,
    {
        proof {
            lemma_view_subtasks(*self);
        }
        let block: String = match &self.subtasks {
            Some(subtasks) => {
                let mut lines = String::new();
                lines.append("\n");
                assert(lines@ =~= "\n"@);
                push_tasks(&mut lines, subtasks);
                trim_end(lines.as_str()).to_owned()
            },
            None => String::new(),
        };
        assert(block@ == nested_block(self@.subtasks));
        let mut out = String::new();
        out.append("- [");
        push_char(&mut out, self.status.marker());
        out.append("] ");
        out.append(trim(self.text.as_str()));
        out.append(replace_char(block.as_str(), '\n', "\n  ").as_str());
        out.append("\n");
        assert(out@ =~= rendered_task(self@));
        out
    }
}

impl TaskGroup {
    /// The group as markdown text.
    pub fn to_string(&self) -> (out: String)
        ensures
            out@ == rendered_group(self@),
    {
        let mut out = String::new();
        push_repeated(&mut out, "#", self.level as usize);
        out.append(" ");
        out.append(self.name.as_str());
        out.append("\n");
        push_tasks(&mut out, &self.tasks);
        assert(out@ =~= rendered_group(self@));
        out
    }
}

impl Status {
    /// Whether the marker fits the status: a done task is marked `x` or
    /// `X`, an open one with anything else.
    pub open spec fn is_well_formed(self) -> bool {
        match self {
            Status::Done(c) => c == 'x' || c == 'X',
            Status::Todo(c) => c != 'x' && c != 'X',
            Status::Empty => true,
        }
    }

    /// The marker that a task item has for the status.
    pub open spec fn item_marker(self) -> Option<char> {
        match self {
            Status::Done(c) => Some(c),
            Status::Todo(c) => Some(c),
            Status::Empty => None,
        }
    }
}

/// The task item of a task without subtasks whose text is plain: a task
/// item with the marker, and in it a paragraph that holds the text.
pub open spec fn plain_task_item(marker: Option<char>, text: Seq<char>) -> Tree {
    Tree {
        kind: Kind::TaskItem(marker),
        column: 0,
        children: seq![
            Tree {
                kind: Kind::Paragraph,
                column: 0,
                children: seq![Tree { kind: Kind::Text(text), column: 0, children: Seq::empty() }],
            },
        ],
    }
}

/// A status comes back from the marker that stands for it.
pub proof fn lemma_status_round_trip(status: Status)
    requires
        status.is_well_formed(),
    ensures
        status_of(status.item_marker()) == status,
{
}

/// The task item of a plain task reads as that task.
pub proof fn lemma_plain_task_item(status: Status, text: Seq<char>)
    requires
        status.is_well_formed(),
    ensures
        parsed_task(plain_task_item(status.item_marker(), text)) == Ok::<TaskView, Seq<char>>(
            TaskView { status, text, subtasks: None },
        ),
{
    let item = plain_task_item(status.item_marker(), text);
    let paragraph = item.children[0];
    let literal = paragraph.children[0];
    assert(item.children.drop_last() =~= Seq::<Tree>::empty());
    assert(nested_tasks(Seq::<Tree>::empty()) is None);
    assert(nested_tasks(item.children) is None);
    assert(paragraph.children.drop_last() =~= Seq::<Tree>::empty());
    assert(inlines_text(Seq::<Tree>::empty(), paragraph.column) == Ok::<Seq<char>, Seq<char>>(Seq::empty()));
    assert(inline_text(literal, paragraph.column) == Ok::<Seq<char>, Seq<char>>(text));
    assert(Seq::<char>::empty() + text =~= text);
    assert(inlines_text(paragraph.children, paragraph.column) == Ok::<Seq<char>, Seq<char>>(text));
}

/// The line of a task without subtasks: `- [`, the marker, `] `, the
/// trimmed text and a newline.
pub open spec fn task_line(status: Status, text: Seq<char>) -> Seq<char> {
    "- ["@.push(status.marker()) + "] "@ + trimmed(text) + "\n"@
}

/// A task without subtasks renders as its line.
pub proof fn lemma_plain_task_line(status: Status, text: Seq<char>)
    ensures
        rendered_task(TaskView { status, text, subtasks: None }) == task_line(status, text),
{
    assert(replaced(Seq::<char>::empty(), '\n', "\n  "@) =~= Seq::<char>::empty());
    assert(nested_block(None) =~= Seq::<char>::empty());
    assert("- ["@.push(status.marker()) + "] "@ + trimmed(text) + Seq::<char>::empty() + "\n"@ =~= task_line(
        status,
        text,
    ));
}

/// Rendering is stable: the line of a task without subtasks stands for a
/// task item that reads as a task with the same line. What the line holds
/// of the task is its status and its trimmed text, and a task with these
/// renders as the same line again, marker, trimmed text and newline.
pub proof fn lemma_render_round_trip(status: Status, text: Seq<char>)
    requires
        status.is_well_formed(),
    ensures
        ({
            let task = TaskView { status, text, subtasks: None };
            let item = plain_task_item(status.item_marker(), trimmed(text));
            &&& parsed_task(item) is Ok
            &&& rendered_task(parsed_task(item)->Ok_0) == rendered_task(task)
            &&& rendered_task(task) == task_line(status, text)
        }),
{
    lemma_plain_task_item(status, trimmed(text));
    lemma_trimmed_twice(text);
    lemma_plain_task_line(status, text);
}

/// A second list of tasks with the same values.
pub fn copy_tasks(tasks: &Vec<Task>) -> (copy: Vec<Task>)
    ensures
        task_views(copy@) == task_views(tasks@),
    decreases tasks,
{
    let mut copy: Vec<Task> = Vec::new();
    let mut i: usize = 0;
    assert(task_views(copy@) =~= task_views(tasks@).take(0));
    while i < tasks.len()
        invariant
            i <= tasks.len(),
            task_views(copy@) == task_views(tasks@).take(i as int),
        decreases tasks.len() - i,
    {
        let ghost before = copy@;
        assert(decreases_to!(tasks => tasks@[i as int]));
        let task = tasks[i].duplicate();
        copy.push(task);
        proof {
            lemma_task_views_push(before, task);
            assert(task_views(copy@) =~= task_views(tasks@).take(i + 1));
        }
        i += 1;
    }
    assert(task_views(tasks@).take(i as int) =~= task_views(tasks@));
    copy
}

impl Task {
    /// A second task with the same value.
    pub fn duplicate(&self) -> (copy: Task)
        ensures
            copy@ == self@,
        decreases self,
    {
        let subtasks = match &self.subtasks {
            Some(subtasks) => Some(copy_tasks(subtasks)),
            None => None,
        };
        let copy = Task { status: self.status, text: self.text.clone(), subtasks };
        proof {
            lemma_view_subtasks(*self);
            lemma_view_subtasks(copy);
        }
        copy
    }
}

impl Clone for Task {
    fn clone(&self) -> (copy: Task)
        ensures
            copy@ == self@,
    {
        self.duplicate()
    }
}

impl Clone for TaskGroup {
    fn clone(&self) -> (copy: TaskGroup)
        ensures
            copy@ == self@,
    {
        TaskGroup { name: self.name.clone(), tasks: copy_tasks(&self.tasks), level: self.level }
    }
}

} // verus!
