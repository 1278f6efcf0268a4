use red::outline::{link_tree, DirectoryNode, EMPTY, SHOWN};
use red::path::{Name, ScanRoot, TreePath};
use red::rows::{
    apply_statuses, count_empty, rebuild_visible_items, toggle_expand, DirectoryItem, BLANK, CORNER,
    RUN, TEE,
};

fn root() -> ScanRoot {
    ScanRoot {
        text: "top".to_string(),
        base: "top/".to_string(),
        sep: '/',
    }
}

fn name(text: &str) -> Name {
    Name {
        raw: text.as_bytes().to_vec(),
        text: text.to_string(),
    }
}

fn node(p: &str, status: i32) -> DirectoryNode {
    let names: Vec<Name> = p
        .split('/')
        .filter(|s| !s.is_empty())
        .map(name)
        .collect();
    DirectoryNode {
        depth: names.len() as i32,
        name: p.rsplit('/').next().unwrap().to_string(),
        path: TreePath { names },
        status,
        has_children: false,
        is_expanded: true,
        is_last_sibling: false,
    }
}

fn tree() -> Vec<DirectoryNode> {
    let mut nodes = vec![
        node("", SHOWN),
        node("a", EMPTY),
        node("a/b", EMPTY),
        node("a/b/c", EMPTY),
        node("a/d", EMPTY),
        node("e", SHOWN),
        node("e/f", EMPTY),
    ];
    link_tree(&mut nodes);
    nodes
}

fn ids(items: &[DirectoryItem]) -> Vec<i32> {
    items.iter().map(|i| i.id).collect()
}

#[test]
fn fresh_outline_is_shown_in_full() {
    let items = rebuild_visible_items(&root(), &tree());
    assert_eq!(ids(&items), vec![0, 1, 2, 3, 4, 5, 6]);
    let texts: Vec<&str> = items.iter().map(|i| i.path.as_str()).collect();
    assert_eq!(
        texts,
        vec!["top", "top/a", "top/a/b", "top/a/b/c", "top/a/d", "top/e", "top/e/f"]
    );
    assert!(items[0].is_root);
    assert!(!items[1].is_root);
    assert!(items.iter().all(|i| i.tree_prefix.is_empty()));
}

#[test]
fn columns_draw_the_tree() {
    let items = rebuild_visible_items(&root(), &tree());
    let lines: Vec<Vec<i32>> = items.iter().map(|i| i.tree_lines.clone()).collect();
    assert_eq!(
        lines,
        vec![
            vec![],
            vec![TEE],
            vec![RUN, TEE],
            vec![RUN, RUN, CORNER],
            vec![RUN, CORNER],
            vec![CORNER],
            vec![BLANK, CORNER],
        ]
    );
}

#[test]
fn collapsed_lines_hide_what_is_below() {
    let mut nodes = tree();
    toggle_expand(&mut nodes, 1);
    assert_eq!(ids(&rebuild_visible_items(&root(), &nodes)), vec![0, 1, 5, 6]);
    toggle_expand(&mut nodes, 2);
    assert_eq!(ids(&rebuild_visible_items(&root(), &nodes)), vec![0, 1, 5, 6]);
    toggle_expand(&mut nodes, 1);
    assert_eq!(
        ids(&rebuild_visible_items(&root(), &nodes)),
        vec![0, 1, 2, 4, 5, 6]
    );
    toggle_expand(&mut nodes, 0);
    assert_eq!(ids(&rebuild_visible_items(&root(), &nodes)), vec![0]);
}

#[test]
fn toggling_twice_changes_nothing() {
    let mut nodes = tree();
    let want: Vec<bool> = nodes.iter().map(|n| n.is_expanded).collect();
    for id in [3, 3, -1, 7, i32::MAX, i32::MIN] {
        toggle_expand(&mut nodes, id);
    }
    let got: Vec<bool> = nodes.iter().map(|n| n.is_expanded).collect();
    assert_eq!(got, want);
}

#[test]
fn last_change_of_status_wins() {
    let mut nodes = tree();
    apply_statuses(&mut nodes, &vec![(1, 4), (99, 2), (2, 2), (1, 2)]);
    let got: Vec<i32> = nodes.iter().map(|n| n.status).collect();
    assert_eq!(got, vec![SHOWN, 2, 2, EMPTY, EMPTY, SHOWN, EMPTY]);
    assert_eq!(count_empty(&nodes), 3);
}

#[test]
fn empty_lines_are_counted() {
    assert_eq!(count_empty(&tree()), 5);
    assert_eq!(count_empty(&Vec::new()), 0);
}

#[test]
fn very_deep_lines_are_drawn_blank() {
    let mut deep = node("", SHOWN);
    deep.depth = 300;
    let mut parent = node("", SHOWN);
    parent.depth = 255;
    let mut beyond = node("", SHOWN);
    beyond.depth = 256;
    let items = rebuild_visible_items(&root(), &vec![parent, beyond, deep]);
    assert_eq!(items[2].tree_lines.len(), 300);
    assert_eq!(items[2].tree_lines[254], RUN);
    assert_eq!(items[2].tree_lines[255], BLANK);
    assert_eq!(items[2].tree_lines[298], BLANK);
    assert_eq!(items[2].tree_lines[299], TEE);
}

#[test]
fn shallow_lines_have_no_columns() {
    let mut odd = node("", SHOWN);
    odd.depth = -3;
    let items = rebuild_visible_items(&root(), &vec![odd]);
    assert_eq!(items.len(), 1);
    assert!(items[0].tree_lines.is_empty());
    assert!(!items[0].is_root);
}
