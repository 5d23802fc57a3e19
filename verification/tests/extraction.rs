use indexmap::IndexMap;
use rusty_task::builder::{create_heading, create_new_doc, create_title};
use rusty_task::document::{Node, NodeKind};
use rusty_task::extractor::{contains_name, extract_sections, heading_name, SectionMap};
use rusty_task::markdown::{format_commonmark, parse_todo_file};
use rusty_task::pruner::remove_task_nodes;
use rusty_task::tasks::{Status, Task};

fn names(list: &[&str]) -> Vec<String> {
    list.iter().map(|name| name.to_string()).collect()
}

fn parsed(text: &str) -> Node {
    parse_todo_file(&text.to_string())
}

fn heading_texts(doc: &Node) -> Vec<(u8, String)> {
    let mut found = Vec::new();
    for child in &doc.children {
        if let NodeKind::Heading(level) = child.kind {
            found.push((level, heading_name(child).cloned().unwrap_or_default()));
        }
    }
    found
}

fn tasks_of_list(list: &Node) -> Vec<Task> {
    list.children.iter().filter_map(|item| Task::try_from(item).ok()).collect()
}

fn rendered(doc: &Node) -> String {
    format_commonmark(doc).unwrap()
}

#[test]
fn done_items_leave_the_captured_section() {
    let mut root = parsed("# Test\n## Content\n - [ ] something\n - [x] done\n - [!] other\n");
    let map = extract_sections(&mut root, &names(&["Content"]));
    assert_eq!(map.len(), 1);
    let body = map.get("Content").unwrap().as_ref().unwrap();
    assert_eq!(body.len(), 1);
    let tasks = tasks_of_list(&body[0]);
    assert_eq!(
        tasks,
        vec![
            Task { status: Status::Empty, text: "something".to_string(), subtasks: None },
            Task { status: Status::Todo('!'), text: "other".to_string(), subtasks: None },
        ]
    );
}

#[test]
fn map_has_the_configured_names_in_configured_order() {
    let mut root = parsed("## Zeta\n\ntext\n\n## Alpha\n\nmore\n");
    let map = extract_sections(&mut root, &names(&["Alpha", "Missing", "Zeta"]));
    let keys: Vec<&String> = map.keys().collect();
    assert_eq!(keys, vec!["Alpha", "Missing", "Zeta"]);
    assert!(map.get("Alpha").unwrap().is_some());
    assert!(map.get("Missing").unwrap().is_none());
    assert!(map.get("Zeta").unwrap().is_some());
}

#[test]
fn name_configured_twice_has_one_entry() {
    let mut root = parsed("## A\n\ntext\n");
    let map = extract_sections(&mut root, &names(&["A", "B", "A"]));
    let keys: Vec<&String> = map.keys().collect();
    assert_eq!(keys, vec!["A", "B"]);
    assert_eq!(map.get("A").unwrap().as_ref().unwrap().len(), 1);
}

#[test]
fn no_names_give_an_empty_map_and_leave_the_source() {
    let text = "## A\n\ntext\n";
    let mut root = parsed(text);
    let map = extract_sections(&mut root, &names(&[]));
    assert_eq!(map.len(), 0);
    assert_eq!(rendered(&root), text);
}

#[test]
fn two_headings_with_one_name_give_one_entry() {
    let mut root = parsed("## A\n\nfirst\n\n## A\n\nsecond\n\n## B\n\nthird\n");
    let map = extract_sections(&mut root, &names(&["A"]));
    assert_eq!(map.len(), 1);
    let body = map.get("A").unwrap().as_ref().unwrap();
    assert_eq!(body.len(), 1);
    let doc = create_new_doc("2024-01-02", map);
    assert_eq!(rendered(&doc), "# Today's tasks 2024-01-02\n\n## A\n\nfirst\n");
    assert_eq!(rendered(&root), "## B\n\nthird\n");
}

#[test]
fn heading_right_before_the_next_one_has_an_empty_body() {
    let mut root = parsed("## A\n## B\n\ntext\n");
    let map = extract_sections(&mut root, &names(&["A", "C"]));
    assert_eq!(map.get("A").unwrap().as_ref().map(|body| body.len()), Some(0));
    assert_eq!(map.get("C").unwrap().as_ref().map(|body| body.len()), None);
    assert_eq!(rendered(&root), "## B\n\ntext\n");
}

#[test]
fn last_heading_of_the_document_has_an_empty_body() {
    let mut root = parsed("intro\n\n## A\n");
    let map = extract_sections(&mut root, &names(&["A"]));
    assert_eq!(map.get("A").unwrap().as_ref().map(|body| body.len()), Some(0));
    assert_eq!(rendered(&root), "intro\n");
}

#[test]
fn heading_that_is_not_plain_text_never_matches() {
    let text = "## *Tasks*\n\n- [ ] one\n";
    let mut root = parsed(text);
    let map = extract_sections(&mut root, &names(&["Tasks"]));
    assert!(map.get("Tasks").unwrap().is_none());
    assert_eq!(rendered(&root), text);
    let empty = Node { kind: NodeKind::Heading(2), column: 0, children: vec![] };
    assert_eq!(heading_name(&empty), None);
}

#[test]
fn names_are_matched_exactly() {
    let mut root = parsed("## tasks\n\none\n\n## Tasks \n\ntwo\n\n## Task\n\nthree\n");
    let map = extract_sections(&mut root, &names(&["Tasks"]));
    let doc = create_new_doc("2024-01-02", map);
    assert_eq!(rendered(&doc), "# Today's tasks 2024-01-02\n\n## Tasks\n\ntwo\n");
    assert!(contains_name(&names(&["a", "b"]), &"b".to_string()));
    assert!(!contains_name(&names(&["a", "b"]), &"B".to_string()));
    assert!(!contains_name(&names(&[]), &"".to_string()));
}

#[test]
fn deeper_headings_belong_to_the_body() {
    let mut root = parsed("## A\n\none\n\n### Sub\n\ntwo\n\n## B\n\nthree\n");
    let map = extract_sections(&mut root, &names(&["A"]));
    let doc = create_new_doc("2024-01-02", map);
    assert_eq!(rendered(&doc), "# Today's tasks 2024-01-02\n\n## A\n\none\n\n### Sub\n\ntwo\n");
    assert_eq!(rendered(&root), "## B\n\nthree\n");
}

#[test]
fn shallower_heading_ends_the_body() {
    let mut root = parsed("### A\n\none\n\n# Top\n\ntwo\n");
    let map = extract_sections(&mut root, &names(&["A"]));
    assert_eq!(map.get("A").unwrap().as_ref().map(|body| body.len()), Some(1));
    assert_eq!(rendered(&root), "# Top\n\ntwo\n");
}

#[test]
fn inner_section_is_taken_before_the_outer_one() {
    let mut root = parsed("## Outer\n\none\n\n### Inner\n\ntwo\n\n## Next\n\nthree\n");
    let map = extract_sections(&mut root, &names(&["Outer", "Inner"]));
    let doc = create_new_doc("2024-01-02", map);
    assert_eq!(
        rendered(&doc),
        "# Today's tasks 2024-01-02\n\n## Outer\n\none\n\n## Inner\n\ntwo\n"
    );
    assert_eq!(rendered(&root), "## Next\n\nthree\n");
}

#[test]
fn built_document_has_one_heading_for_each_name() {
    let source = "\
# Today's tasks 2024-01-01

## Tasks

- [ ] task 1

## Long Term

- [ ] task 2

## Todays Notes

- some notes here
";
    let mut root = parsed(source);
    let map = extract_sections(&mut root, &names(&["Tasks", "Other", "Long Term", "Last"]));
    let doc = create_new_doc("2024-01-02", map);
    assert_eq!(
        heading_texts(&doc),
        vec![
            (1, "Today's tasks 2024-01-02".to_string()),
            (2, "Tasks".to_string()),
            (2, "Other".to_string()),
            (2, "Long Term".to_string()),
            (2, "Last".to_string()),
        ]
    );
    assert_eq!(doc.children.len(), 7);
    assert!(matches!(doc.children[2].kind, NodeKind::List(_)));
    assert!(matches!(doc.children[3].kind, NodeKind::Heading(2)));
    assert!(matches!(doc.children[4].kind, NodeKind::Heading(2)));
    assert!(matches!(doc.children[5].kind, NodeKind::List(_)));
    assert!(!rendered(&doc).contains("notes"));
}

#[test]
fn order_of_the_source_does_not_matter() {
    let mut root = parsed("## B\n\nsecond\n\n## A\n\nfirst\n");
    let map = extract_sections(&mut root, &names(&["A", "B"]));
    let doc = create_new_doc("2024-01-02", map);
    assert_eq!(
        rendered(&doc),
        "# Today's tasks 2024-01-02\n\n## A\n\nfirst\n\n## B\n\nsecond\n"
    );
}

#[test]
fn completed_task_takes_its_subtasks_along() {
    let source = "\
## Tasks

- [x] done
    - [ ] open below done
        - [!] deeper
- [ ] open
    - [X] done below open
    - [ ] kept
";
    let mut root = parsed(source);
    let map = extract_sections(&mut root, &names(&["Tasks"]));
    let doc = create_new_doc("2024-01-02", map);
    assert_eq!(
        rendered(&doc),
        "# Today's tasks 2024-01-02\n\n## Tasks\n\n- [ ] open\n  - [ ] kept\n"
    );
}

#[test]
fn completed_tasks_go_at_any_depth() {
    let mut root = parsed("> - [x] quoted and done\n> - [ ] quoted and open\n");
    remove_task_nodes(&mut root);
    assert_eq!(rendered(&root), "> - [ ] quoted and open\n");
}

#[test]
fn pruning_leaves_other_nodes_alone() {
    let text = "# Title\n\ntext with `code`\n\n- plain item\n- [ ] open\n";
    let mut root = parsed(text);
    remove_task_nodes(&mut root);
    assert_eq!(rendered(&root), text);
}

#[test]
fn document_is_built_in_the_order_of_the_map() {
    let mut map: SectionMap = IndexMap::new();
    map.insert("Second".to_string(), None);
    map.insert("First".to_string(), Some(vec![create_heading(3, "Inner")]));
    map.insert("Second".to_string(), Some(vec![]));
    let doc = create_new_doc("2030-12-31", map);
    assert_eq!(
        heading_texts(&doc),
        vec![
            (1, "Today's tasks 2030-12-31".to_string()),
            (2, "Second".to_string()),
            (2, "First".to_string()),
            (3, "Inner".to_string()),
        ]
    );
    assert!(matches!(doc.kind, NodeKind::Document));
}

#[test]
fn document_without_sections_is_a_title() {
    let doc = create_new_doc("2024-01-02", IndexMap::new());
    assert_eq!(rendered(&doc), "# Today's tasks 2024-01-02\n");
    let title = create_title("tomorrow");
    assert!(matches!(title.kind, NodeKind::Heading(1)));
    assert_eq!(title.children[0].kind, NodeKind::Text("Today's tasks tomorrow".to_string()));
}

#[test]
fn heading_is_made_with_its_text() {
    let heading = create_heading(4, "Name");
    assert!(matches!(heading.kind, NodeKind::Heading(4)));
    assert_eq!(heading.column, 0);
    assert_eq!(heading.children.len(), 1);
    assert_eq!(heading.children[0].kind, NodeKind::Text("Name".to_string()));
    assert_eq!(heading.children[0].column, 2);
    assert_eq!(heading_name(&heading), Some(&"Name".to_string()));
}
