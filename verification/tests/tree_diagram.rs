use project_snapshot::tree::{
    build_tree, build_tree_string, generate_project_tree, insert_path, render_tree, TreeNode,
};
use std::path::Path;

fn texts(items: &[&str]) -> Vec<String> {
    items.iter().map(|s| s.to_string()).collect()
}

#[test]
fn test_generate_project_tree() {
    let base_path = Path::new("/tmp/test-project");
    let paths = vec![
        base_path.join("src/main.rs"),
        base_path.join("Cargo.toml"),
        base_path.join("src/module/api.rs"),
        base_path.join(".gitignore"),
    ];
    let base_text = base_path.to_str().unwrap();
    let path_texts: Vec<String> = paths.iter().map(|p| p.to_str().unwrap().to_string()).collect();

    let tree = generate_project_tree(base_text, &path_texts);

    let expected_tree = r#".
├── .gitignore
├── Cargo.toml
└── src
    ├── main.rs
    └── module
        └── api.rs
"#;
    assert_eq!(tree.trim(), expected_tree.trim());
}

#[test]
fn diagram_is_exact_to_the_byte() {
    let paths = texts(&["/p/src/main.ext", "/p/Cargo.toml", "/p/src/module/api.ext", "/p/.gitignore"]);
    let tree = generate_project_tree("/p", &paths);
    assert_eq!(
        tree,
        ".\n├── .gitignore\n├── Cargo.toml\n└── src\n    ├── main.ext\n    └── module\n        └── api.ext\n"
    );
}

#[test]
fn branch_continues_beside_a_directory_that_is_not_last() {
    let paths = texts(&["a/x", "a/y", "b"]);
    let tree = generate_project_tree("", &paths);
    assert_eq!(tree, ".\n├── a\n│   ├── x\n│   └── y\n└── b\n");
}

#[test]
fn no_paths_give_the_root_alone() {
    let tree = generate_project_tree("/p", &[]);
    assert_eq!(tree, ".\n");
}

#[test]
fn order_of_the_paths_does_not_show() {
    let one = texts(&["r/b/2", "r/a", "r/b/1", "r/c"]);
    let other = texts(&["r/c", "r/b/1", "r/a", "r/b/2"]);
    assert_eq!(generate_project_tree("r", &one), generate_project_tree("r", &other));
    assert_eq!(generate_project_tree("r", &one), ".\n├── a\n├── b\n│   ├── 1\n│   └── 2\n└── c\n");
}

#[test]
fn children_are_sorted_by_code_point() {
    let paths = texts(&["r/b", "r/B", "r/_x", "r/a.b", "r/a", "r/é"]);
    let tree = generate_project_tree("r", &paths);
    assert_eq!(tree, ".\n├── B\n├── _x\n├── a\n├── a.b\n├── b\n└── é\n");
}

#[test]
fn a_repeated_path_is_one_leaf() {
    let paths = texts(&["r/a/b", "r/a/b", "r/a/b"]);
    assert_eq!(generate_project_tree("r", &paths), ".\n└── a\n    └── b\n");
}

#[test]
fn the_root_itself_in_the_list_adds_nothing() {
    let paths = texts(&["r", "r/a"]);
    assert_eq!(generate_project_tree("r", &paths), ".\n└── a\n");
}

#[test]
fn a_path_outside_the_root_is_drawn_whole() {
    let paths = texts(&["/other/file.txt"]);
    assert_eq!(generate_project_tree("/p", &paths), ".\n└── /\n    └── other\n        └── file.txt\n");
    let relative = texts(&["x/y"]);
    assert_eq!(generate_project_tree("p", &relative), ".\n└── x\n    └── y\n");
}

#[test]
fn a_root_given_as_dot_is_taken_away() {
    let paths = texts(&["./src/main.rs", "./README.md"]);
    assert_eq!(generate_project_tree(".", &paths), ".\n├── README.md\n└── src\n    └── main.rs\n");
}

#[test]
fn a_file_on_the_way_stops_the_insertion() {
    let mut root = TreeNode::new();
    insert_path(&mut root, &texts(&["a"]));
    insert_path(&mut root, &texts(&["a", "b"]));
    assert_eq!(render_tree(&root), ".\n└── a\n");
}

#[test]
fn a_file_replaces_a_directory_of_its_name() {
    let mut root = TreeNode::new();
    insert_path(&mut root, &texts(&["a", "b"]));
    insert_path(&mut root, &texts(&["a"]));
    assert_eq!(render_tree(&root), ".\n└── a\n");
}

#[test]
fn inserting_no_components_changes_nothing() {
    let mut root = TreeNode::new();
    insert_path(&mut root, &texts(&["a"]));
    insert_path(&mut root, &[]);
    assert_eq!(render_tree(&root), ".\n└── a\n");
}

#[test]
fn inserting_into_a_file_changes_nothing() {
    let mut node = TreeNode::File;
    insert_path(&mut node, &texts(&["a"]));
    assert!(matches!(node, TreeNode::File));
    assert_eq!(render_tree(&node), ".\n");
}

#[test]
fn rendering_twice_gives_the_same_text() {
    let root = build_tree("r", &texts(&["r/z", "r/m/k", "r/m/j", "r/a"]));
    let first = render_tree(&root);
    let second = render_tree(&root);
    assert_eq!(first, second);
    assert_eq!(first, ".\n├── a\n├── m\n│   ├── j\n│   └── k\n└── z\n");
}

#[test]
fn lines_below_a_node_carry_the_prefix() {
    let root = build_tree("", &texts(&["a/b", "c"]));
    assert_eq!(build_tree_string(&root, "> "), "> ├── a\n> │   └── b\n> └── c\n");
    assert_eq!(build_tree_string(&TreeNode::File, "> "), "");
}
