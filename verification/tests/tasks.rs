use rusty_task::document::{Node, NodeKind};
use rusty_task::markdown::parse_todo_file;
use rusty_task::tasks::{Status, Task, TaskError, TaskGroup};

fn plain_task(status: Status, text: &str) -> Task {
    Task { status, text: text.to_string(), subtasks: None }
}

fn text_node(text: &str) -> Node {
    Node { kind: NodeKind::Text(text.to_string()), column: 0, children: vec![] }
}

fn paragraph(children: Vec<Node>) -> Node {
    Node { kind: NodeKind::Paragraph, column: 0, children }
}

fn first_task_item(root: &Node) -> &Node {
    &root.children[0].children[0]
}

#[test]
fn group_renders_as_heading_and_task_lines() {
    let group = TaskGroup {
        name: "Tasks".to_string(),
        tasks: vec![
            plain_task(Status::Empty, "task 1"),
            plain_task(Status::Done('x'), "task 2"),
            plain_task(Status::Todo('>'), "task 3"),
        ],
        level: 2,
    };
    assert_eq!(group.to_string(), "## Tasks\n- [ ] task 1\n- [x] task 2\n- [>] task 3\n");
}

#[test]
fn empty_group_has_no_tasks() {
    let group = TaskGroup::empty("Daily".to_string(), 2);
    assert_eq!(group.name, "Daily");
    assert_eq!(group.level, 2);
    assert!(group.tasks.is_empty());
    assert_eq!(group.to_string(), "## Daily\n");
}

#[test]
fn group_level_gives_the_number_of_hashes() {
    assert_eq!(TaskGroup::empty("Top".to_string(), 1).to_string(), "# Top\n");
    assert_eq!(TaskGroup::empty("Deep".to_string(), 6).to_string(), "###### Deep\n");
    assert_eq!(TaskGroup::empty("None".to_string(), 0).to_string(), " None\n");
}

#[test]
fn task_text_is_trimmed_when_rendered() {
    let task = plain_task(Status::Done('X'), "  spaced out \t");
    assert_eq!(task.to_string(), "- [X] spaced out\n");
}

#[test]
fn subtasks_render_two_spaces_deeper() {
    let task = Task {
        status: Status::Empty,
        text: "parent".to_string(),
        subtasks: Some(vec![
            Task {
                status: Status::Todo('!'),
                text: "child".to_string(),
                subtasks: Some(vec![plain_task(Status::Empty, "grandchild")]),
            },
            plain_task(Status::Empty, "second"),
        ]),
    };
    assert_eq!(
        task.to_string(),
        "- [ ] parent\n  - [!] child\n    - [ ] grandchild\n  - [ ] second\n"
    );
}

#[test]
fn empty_list_of_subtasks_renders_as_no_subtasks() {
    let task = Task { status: Status::Empty, text: "alone".to_string(), subtasks: Some(vec![]) };
    assert_eq!(task.to_string(), "- [ ] alone\n");
}

#[test]
fn marker_gives_the_status() {
    assert_eq!(Status::from_marker(Some('x')), Status::Done('x'));
    assert_eq!(Status::from_marker(Some('X')), Status::Done('X'));
    assert_eq!(Status::from_marker(Some('>')), Status::Todo('>'));
    assert_eq!(Status::from_marker(None), Status::Empty);
    assert_eq!(Status::Done('x').marker(), 'x');
    assert_eq!(Status::Todo('!').marker(), '!');
    assert_eq!(Status::Empty.marker(), ' ');
}

#[test]
fn task_is_read_from_a_task_item() {
    let root = parse_todo_file(&"- [>] moved on\n".to_string());
    let task = Task::try_from(first_task_item(&root));
    assert_eq!(task, Ok(plain_task(Status::Todo('>'), "moved on")));
}

#[test]
fn task_text_keeps_emphasis_and_wrapping() {
    let root = parse_todo_file(&"- [ ] some *emph* and **strong** text\n  wrapped\n".to_string());
    let item = first_task_item(&root);
    let column = item.children[0].column;
    let task = Task::try_from(item).unwrap();
    assert_eq!(
        task.text,
        format!("some *emph* and **strong** text\n{}wrapped", " ".repeat(column))
    );
}

#[test]
fn task_text_drops_what_it_cannot_write() {
    let root = parse_todo_file(&"- [ ] see `code` and [a link](http://example.com) here\n".to_string());
    let task = Task::try_from(first_task_item(&root)).unwrap();
    assert_eq!(task.text, "see  and  here");
}

#[test]
fn subtasks_are_gathered_from_every_nested_list() {
    let root = parse_todo_file(&"- [ ] parent\n  - [x] one\n  - [ ] two\n".to_string());
    let task = Task::try_from(first_task_item(&root)).unwrap();
    assert_eq!(
        task.subtasks,
        Some(vec![plain_task(Status::Done('x'), "one"), plain_task(Status::Empty, "two")])
    );
}

#[test]
fn nested_items_that_are_no_tasks_are_passed_over() {
    let root = parse_todo_file(&"- [ ] parent\n  - plain item\n  - [ ] task\n".to_string());
    let task = Task::try_from(first_task_item(&root)).unwrap();
    assert_eq!(task.subtasks, Some(vec![plain_task(Status::Empty, "task")]));
}

#[test]
fn node_that_is_no_task_item_is_refused() {
    let result = Task::try_from(&paragraph(vec![text_node("text")]));
    assert_eq!(result, Err(TaskError::ParsingError("Node being parsed is not a TaskItem")));
}

#[test]
fn task_item_without_children_is_refused() {
    let item = Node { kind: NodeKind::TaskItem(None), column: 0, children: vec![] };
    assert_eq!(Task::try_from(&item), Err(TaskError::ParsingError("No childern of node found")));
}

#[test]
fn task_item_that_starts_with_no_paragraph_is_refused() {
    let item = Node { kind: NodeKind::TaskItem(Some('x')), column: 0, children: vec![text_node("text")] };
    assert_eq!(Task::try_from(&item), Err(TaskError::ParsingError("First child is not Paragraph")));
}

#[test]
fn emphasis_around_something_else_than_text_is_refused() {
    let emph = Node { kind: NodeKind::Emph, column: 0, children: vec![paragraph(vec![])] };
    let item = Node {
        kind: NodeKind::TaskItem(None),
        column: 0,
        children: vec![paragraph(vec![text_node("before "), emph])],
    };
    assert_eq!(Task::try_from(&item), Err(TaskError::ParsingError("Could not get text from element")));
    assert_eq!(
        Task::extract_text(&paragraph(vec![])),
        Err(TaskError::ParsingError("Could not get text from element"))
    );
}

#[test]
fn emphasis_without_content_adds_nothing() {
    let emph = Node { kind: NodeKind::Emph, column: 0, children: vec![] };
    let strong = Node { kind: NodeKind::Strong, column: 0, children: vec![text_node("loud")] };
    let text = Task::extract_text_from_task(&paragraph(vec![text_node("a"), emph, strong]));
    assert_eq!(text, Ok("a**loud**".to_string()));
}

#[test]
fn soft_break_is_padded_to_the_column_of_the_paragraph() {
    let soft_break = Node { kind: NodeKind::SoftBreak, column: 9, children: vec![] };
    let wrapped = Node {
        kind: NodeKind::Paragraph,
        column: 3,
        children: vec![text_node("one"), soft_break, text_node("two")],
    };
    assert_eq!(Task::extract_text_from_task(&wrapped), Ok("one\n   two".to_string()));
}

#[test]
fn group_is_read_from_a_heading_and_the_list_after_it() {
    let root = parse_todo_file(&"## Work\n- [ ] one\n- plain\n- [x] two\n".to_string());
    let group = TaskGroup::try_from(&root.children[0], Some(&root.children[1]));
    assert_eq!(
        group,
        Ok(TaskGroup {
            name: "Work".to_string(),
            tasks: vec![plain_task(Status::Empty, "one"), plain_task(Status::Done('x'), "two")],
            level: 2,
        })
    );
}

#[test]
fn group_is_refused_with_the_reason() {
    let heading = Node { kind: NodeKind::Heading(2), column: 0, children: vec![text_node("Work")] };
    let bare = Node { kind: NodeKind::Heading(2), column: 0, children: vec![] };
    let styled = Node {
        kind: NodeKind::Heading(2),
        column: 0,
        children: vec![Node { kind: NodeKind::Emph, column: 0, children: vec![text_node("Work")] }],
    };
    let other = paragraph(vec![text_node("text")]);
    assert_eq!(
        TaskGroup::try_from(&other, None),
        Err(TaskError::ParsingError("Node is not a section heading"))
    );
    assert_eq!(TaskGroup::try_from(&bare, Some(&other)), Err(TaskError::ParsingError("Node has no children")));
    assert_eq!(
        TaskGroup::try_from(&styled, Some(&other)),
        Err(TaskError::ParsingError("Could not get title from heading node"))
    );
    assert_eq!(
        TaskGroup::try_from(&heading, None),
        Err(TaskError::ParsingError("Empty section at end of file"))
    );
    assert_eq!(
        TaskGroup::try_from(&heading, Some(&other)),
        Err(TaskError::ParsingError("Next sibling of node is not a list"))
    );
}

#[test]
fn rendered_task_reads_back_as_the_same_line() {
    let tasks = vec![
        plain_task(Status::Empty, "task 1"),
        plain_task(Status::Done('x'), "  task 2 "),
        plain_task(Status::Done('X'), "task 3"),
        plain_task(Status::Todo('>'), "task 4"),
        plain_task(Status::Todo('!'), "a *marked* and **bold** task"),
    ];
    for task in tasks {
        let line = task.to_string();
        let root = parse_todo_file(&line);
        let read = Task::try_from(first_task_item(&root)).unwrap();
        assert_eq!(read.status, task.status);
        assert_eq!(read.to_string(), line);
    }
}
