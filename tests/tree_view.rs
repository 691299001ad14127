use treeview::frame::{render_line, traverse, Line, PAD};
use treeview::item::{
    append_title_on_root, find_item, find_item_with_parent, item_leaf, item_with_children,
    IdGen, Item,
};
use treeview::session::{sample_tree, Key, Session, Tree};

fn row(depth: usize, glyph: &str, title: &str) -> String {
    format!(" {}{} {}{}", "  ".repeat(depth), glyph, title, " ".repeat(PAD))
}

fn texts(lines: &[Line]) -> Vec<String> {
    lines.iter().map(|l| l.text.clone()).collect()
}

fn sample_session() -> Session {
    let mut ids = IdGen::new();
    Session::new(sample_tree(&mut ids))
}

#[test]
fn ids_are_handed_out_in_order() {
    let mut ids = IdGen::new();
    assert_eq!(ids.get_id(), 1);
    assert_eq!(ids.get_id(), 2);
    let leaf = item_leaf(&mut ids, "leaf");
    assert_eq!(leaf.id, 3);
    assert!(!leaf.is_open);
    let branch = item_with_children(&mut ids, "branch", vec![leaf]);
    assert_eq!(branch.id, 4);
    assert!(branch.is_open);
    assert_eq!(branch.title, "branch");
    let empty = item_with_children(&mut ids, "empty", Vec::new());
    assert!(!empty.is_open);
    assert_eq!(ids.next, 6);
}

#[test]
fn sample_tree_ids_follow_display_order() {
    let mut ids = IdGen::new();
    let tree = sample_tree(&mut ids);
    assert_eq!(tree.root.id, 1);
    assert_eq!(tree.root.title, "Root");
    assert_eq!(tree.selected_item, 2);
    assert_eq!(tree.root.children[0].children[0].id, 3);
    assert_eq!(tree.root.children[0].children[1].children[3].title, "Item 1.2.4");
    assert_eq!(tree.root.children[5].id, 14);
    assert_eq!(ids.next, 15);
}

#[test]
fn render_line_formats_indent_glyph_and_title() {
    let mut ids = IdGen::new();
    let leaf = item_leaf(&mut ids, "Leaf");
    let line = render_line(&leaf, 2, 1);
    assert_eq!(line.text, format!("     ○ Leaf{}", " ".repeat(60)));
    assert!(line.highlighted);
    let branch = item_with_children(&mut ids, "Branch", vec![leaf]);
    let line = render_line(&branch, 0, 1);
    assert_eq!(line.text, format!(" ● Branch{}", " ".repeat(60)));
    assert!(!line.highlighted);
}

#[test]
fn sample_frame_is_depth_first() {
    let session = sample_session();
    let lines = session.tree.render();
    let expected = vec![
        row(0, "●", "Item 1"),
        row(1, "○", "Item 1.1"),
        row(1, "●", "Item 1.2"),
        row(2, "○", "Item 1.2.1"),
        row(2, "○", "Item 1.2.2"),
        row(2, "○", "Item 1.2.3"),
        row(2, "○", "Item 1.2.4"),
        row(1, "○", "Item 1.3"),
        row(0, "○", "Item 2"),
        row(0, "○", "Item 3"),
        row(0, "○", "Item 4"),
        row(0, "○", "Item 5"),
        row(0, "○", "Item 6"),
    ];
    assert_eq!(texts(&lines), expected);
    let marked: Vec<bool> = lines.iter().map(|l| l.highlighted).collect();
    let mut want = vec![false; 13];
    want[0] = true;
    assert_eq!(marked, want);
}

#[test]
fn closed_branch_hides_its_descendants() {
    let mut session = sample_session();
    session.tree.root.children[0].children[1].is_open = false;
    let lines = texts(&session.tree.render());
    assert_eq!(lines.len(), 9);
    assert_eq!(lines[2], row(1, "●", "Item 1.2"));
    assert_eq!(lines[3], row(1, "○", "Item 1.3"));
    session.tree.root.children[0].is_open = false;
    let lines = texts(&session.tree.render());
    assert_eq!(lines.len(), 6);
    assert_eq!(lines[0], row(0, "●", "Item 1"));
    assert_eq!(lines[1], row(0, "○", "Item 2"));
}

#[test]
fn traverse_of_empty_forest_is_empty() {
    assert!(traverse(&Vec::new(), 0, 1).is_empty());
}

#[test]
fn describe_parent_of_first_item_names_root() {
    let mut session = sample_session();
    assert!(!session.handle_key(Key::DescribeParent));
    assert_eq!(session.extra_messages, vec!["Root - Item 1".to_string()]);
    assert!(!session.handle_key(Key::Down));
    assert!(!session.handle_key(Key::DescribeParent));
    assert_eq!(session.extra_messages[1], "Item 1 - Item 1.1");
    assert!(session.handle_key(Key::Quit));
    assert_eq!(session.extra_messages.len(), 2);
}

#[test]
fn describe_nested_leaf_names_its_branch() {
    let mut session = sample_session();
    session.tree.selected_item = 5;
    session.handle_key(Key::DescribeParent);
    assert_eq!(session.extra_messages, vec!["Item 1.2 - Item 1.2.1".to_string()]);
}

#[test]
fn describe_missing_id_is_not_found() {
    let mut session = sample_session();
    session.tree.selected_item = 0;
    session.handle_key(Key::DescribeParent);
    session.tree.selected_item = 99;
    session.handle_key(Key::DescribeParent);
    assert_eq!(session.extra_messages, vec!["Not Found".to_string(), "Not Found".to_string()]);
}

#[test]
fn describe_root_id_is_not_found() {
    let mut session = sample_session();
    session.tree.selected_item = session.tree.root.id;
    session.handle_key(Key::DescribeParent);
    assert_eq!(session.extra_messages[0], "Not Found");
}

#[test]
fn describe_hidden_node_is_not_found() {
    let mut session = sample_session();
    session.tree.root.children[0].children[1].is_open = false;
    session.tree.selected_item = 6;
    session.handle_key(Key::DescribeParent);
    session.tree.selected_item = 4;
    session.handle_key(Key::DescribeParent);
    assert_eq!(
        session.extra_messages,
        vec!["Not Found".to_string(), "Item 1 - Item 1.2".to_string()]
    );
}

#[test]
fn describe_leaves_the_tree_alone() {
    let mut session = sample_session();
    let before = texts(&session.tree.render());
    session.handle_key(Key::DescribeParent);
    session.handle_key(Key::Down);
    session.handle_key(Key::Up);
    session.handle_key(Key::DescribeParent);
    assert_eq!(texts(&session.tree.render()), before);
    assert!(session.tree.root.is_open);
    assert!(session.tree.root.children[0].children[1].is_open);
    assert_eq!(session.tree.root.children[0].children[1].id, 4);
}

#[test]
fn up_stops_at_zero() {
    let mut session = sample_session();
    for _ in 0..5 {
        session.handle_key(Key::Up);
    }
    assert_eq!(session.tree.selected_item, 0);
    session.handle_key(Key::DescribeParent);
    assert_eq!(session.extra_messages, vec!["Not Found".to_string()]);
    session.handle_key(Key::Down);
    assert_eq!(session.tree.selected_item, 1);
}

#[test]
fn down_moves_by_raw_id_without_upper_bound() {
    let mut session = sample_session();
    for _ in 0..20 {
        session.handle_key(Key::Down);
    }
    assert_eq!(session.tree.selected_item, 22);
    session.tree.selected_item = usize::MAX;
    session.handle_key(Key::Down);
    assert_eq!(session.tree.selected_item, usize::MAX);
}

#[test]
fn other_keys_change_nothing() {
    let mut session = sample_session();
    assert!(!session.handle_key(Key::Other));
    assert_eq!(session.tree.selected_item, 2);
    assert!(session.extra_messages.is_empty());
}

#[test]
fn selection_highlight_follows_down_key() {
    let mut session = sample_session();
    session.handle_key(Key::Down);
    let lines = session.tree.render();
    assert!(!lines[0].highlighted);
    assert!(lines[1].highlighted);
}

#[test]
fn parent_search_returns_both_nodes() {
    let mut ids = IdGen::new();
    let tree = sample_tree(&mut ids);
    let (p, c) = find_item_with_parent(&tree.root, 8).unwrap();
    assert_eq!(p.title, "Item 1.2");
    assert_eq!(c.title, "Item 1.2.4");
    assert!(find_item_with_parent(&tree.root, 15).is_none());
    let closed = Item::new(20, "closed", vec![item_leaf(&mut ids, "x")]);
    let mut closed = closed;
    closed.is_open = false;
    assert!(find_item_with_parent(&closed, 15).is_none());
}

#[test]
fn find_item_searches_closed_branches() {
    let mut ids = IdGen::new();
    let mut tree = sample_tree(&mut ids);
    tree.root.children[0].is_open = false;
    assert_eq!(find_item(&tree.root.children, 7).unwrap().title, "Item 1.2.3");
    assert_eq!(find_item(&tree.root.children, 14).unwrap().title, "Item 6");
    assert!(find_item(&tree.root.children, 1).is_none());
    assert!(find_item(&tree.root.children, 40).is_none());
}

#[test]
fn append_title_reaches_hidden_nodes_only() {
    let mut ids = IdGen::new();
    let mut tree = sample_tree(&mut ids);
    tree.root.children[0].is_open = false;
    append_title_on_root(&mut tree.root, 6, " (edited)");
    assert_eq!(tree.root.children[0].children[1].children[1].title, "Item 1.2.2 (edited)");
    assert_eq!(tree.root.children[0].children[1].children[0].title, "Item 1.2.1");
    assert_eq!(tree.root.children[0].title, "Item 1");
    assert!(!tree.root.children[0].is_open);
    append_title_on_root(&mut tree.root, 11, "!");
    assert_eq!(tree.root.children[2].title, "Item 3!");
    assert_eq!(tree.root.title, "Root");
}

#[test]
fn tree_new_selects_first_child() {
    let mut ids = IdGen::new();
    let a = item_leaf(&mut ids, "a");
    let b = item_leaf(&mut ids, "b");
    let root = item_with_children(&mut ids, "r", vec![a, b]);
    let tree = Tree::new(root);
    assert_eq!(tree.selected_item, 1);
    assert_eq!(texts(&tree.render()), vec![row(0, "○", "a"), row(0, "○", "b")]);
}
