use rusty_task::builder::create_heading;
use rusty_task::document::{Node, NodeKind};
use rusty_task::extractor::extract_sections;
use rusty_task::pruner::remove_task_nodes;

fn task_item(marker: Option<char>, children: Vec<Node>) -> Node {
    Node { kind: NodeKind::TaskItem(marker), column: 0, children }
}

#[test]
fn completed_task_is_marked_x() {
    assert!(task_item(Some('x'), vec![]).is_completed_task());
    assert!(task_item(Some('X'), vec![]).is_completed_task());
    assert!(!task_item(Some('y'), vec![]).is_completed_task());
    assert!(!task_item(Some(' '), vec![]).is_completed_task());
    assert!(!task_item(None, vec![]).is_completed_task());
    assert!(!Node::leaf(NodeKind::Text("x".to_string()), 0).is_completed_task());
}

#[test]
fn only_headings_have_a_level() {
    assert_eq!(create_heading(3, "Name").heading_level(), Some(3));
    assert_eq!(Node::leaf(NodeKind::Paragraph, 0).heading_level(), None);
    assert_eq!(Node::leaf(NodeKind::Document, 0).heading_level(), None);
}

#[test]
fn leaf_has_no_children() {
    let leaf = Node::leaf(NodeKind::SoftBreak, 7);
    assert_eq!(leaf.kind, NodeKind::SoftBreak);
    assert_eq!(leaf.column, 7);
    assert!(leaf.children.is_empty());
}

#[test]
fn copy_of_a_kind_equals_the_kind() {
    assert_eq!(NodeKind::Text("text".to_string()).duplicate(), NodeKind::Text("text".to_string()));
    assert_eq!(NodeKind::TaskItem(Some('>')).duplicate(), NodeKind::TaskItem(Some('>')));
    assert_eq!(NodeKind::Heading(5).duplicate(), NodeKind::Heading(5));
}

#[test]
fn pruning_works_below_the_root_it_is_given() {
    let mut done = task_item(
        Some('x'),
        vec![task_item(Some('X'), vec![]), task_item(None, vec![task_item(Some('x'), vec![])])],
    );
    remove_task_nodes(&mut done);
    assert_eq!(done, task_item(Some('x'), vec![task_item(None, vec![])]));
}

#[test]
fn node_of_a_body_stays_even_if_it_is_a_completed_task() {
    let mut root = Node {
        kind: NodeKind::Document,
        column: 0,
        children: vec![
            create_heading(2, "A"),
            task_item(Some('x'), vec![task_item(Some('x'), vec![])]),
            task_item(None, vec![]),
        ],
    };
    let map = extract_sections(&mut root, &vec!["A".to_string()]);
    let body = map.get("A").unwrap().as_ref().unwrap();
    assert_eq!(body, &vec![task_item(Some('x'), vec![]), task_item(None, vec![])]);
    assert!(root.children.is_empty());
}
