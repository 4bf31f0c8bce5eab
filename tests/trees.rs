use treegen::ascii::{parse_md_text, parse_md_tree};
use treegen::structured::{mapping_to_root, parse_toml_node, serde_to_node, SerdeNode};
use treegen::tree::{Node, NodeType};

fn names(n: &Node) -> Vec<String> {
    n.children.iter().map(|c| c.name.clone()).collect()
}

#[test]
fn connector_line_is_directory_with_file_child() {
    let root = parse_md_text("├── src/\n│   └── main.rs\n").ok().unwrap();
    assert_eq!(root.name, "");
    assert_eq!(root.node_type, NodeType::Dir);
    assert_eq!(root.children.len(), 1);
    let src = &root.children[0];
    assert_eq!(src.name, "src/");
    assert_eq!(src.node_type, NodeType::Dir);
    assert_eq!(src.children.len(), 1);
    assert_eq!(src.children[0].name, "main.rs");
    assert_eq!(src.children[0].node_type, NodeType::File);
    assert!(src.children[0].content.is_none());
}

#[test]
fn full_drawing_keeps_order_and_nesting() {
    let text = "project/\n├── src/\n│   ├── main.rs\n│   └── lib.rs\n├── Cargo.toml\n└── README.md\n";
    let root = parse_md_text(text).ok().unwrap();
    assert_eq!(names(&root), vec!["project/"]);
    let p = &root.children[0];
    assert_eq!(names(p), vec!["src/", "Cargo.toml", "README.md"]);
    assert_eq!(names(&p.children[0]), vec!["main.rs", "lib.rs"]);
}

#[test]
fn shallower_line_climbs_several_levels() {
    let text = "a/\n├── b/\n│   ├── c/\n│   │   └── d.txt\n└── e.txt\nf.txt";
    let root = parse_md_text(text).ok().unwrap();
    assert_eq!(names(&root), vec!["a/", "f.txt"]);
    let a = &root.children[0];
    assert_eq!(names(a), vec!["b/", "e.txt"]);
    assert_eq!(names(&a.children[0]), vec!["c/"]);
    assert_eq!(names(&a.children[0].children[0]), vec!["d.txt"]);
}

#[test]
fn lines_below_a_file_attach_to_its_directory() {
    let root = parse_md_text("d/\n├── f\n│   └── g\n").ok().unwrap();
    assert_eq!(names(&root.children[0]), vec!["f", "g"]);
}

#[test]
fn colons_become_underscores_and_blank_lines_are_skipped() {
    let root = parse_md_text("\n  \na:b.txt\n\n").ok().unwrap();
    assert_eq!(names(&root), vec!["a_b.txt"]);
}

#[test]
fn stray_glyphs_are_a_name() {
    let root = parse_md_text("├──").ok().unwrap();
    assert_eq!(names(&root), vec!["├──"]);
    let root = parse_md_text("│   │   ").ok().unwrap();
    assert_eq!(names(&root), vec!["│"]);
}

#[test]
fn line_with_line_feed_fails_naming_it() {
    let lines = vec!["a/".to_string(), "├── b\nc".to_string(), "├── d".to_string()];
    let err = parse_md_tree(&lines).err().unwrap();
    assert_eq!(err.line, "├── b\nc");
}

#[test]
fn nested_mapping_becomes_directory_of_files() {
    let m = vec![(
        "a".to_string(),
        SerdeNode::Mapping(vec![("b".to_string(), SerdeNode::Str("hello".to_string()))]),
    )];
    let root = mapping_to_root(&m);
    assert_eq!(root.name, "");
    assert_eq!(names(&root), vec!["a"]);
    let a = &root.children[0];
    assert_eq!(a.node_type, NodeType::Dir);
    assert_eq!(a.children.len(), 1);
    assert_eq!(a.children[0].name, "b");
    assert_eq!(a.children[0].node_type, NodeType::File);
    assert_eq!(a.children[0].content.as_deref(), Some("hello"));
}

#[test]
fn scalar_becomes_file_with_content() {
    let n = serde_to_node("x.txt".to_string(), &SerdeNode::Str("body".to_string()));
    assert_eq!(n.node_type, NodeType::File);
    assert_eq!(n.content.as_deref(), Some("body"));
    let t = parse_toml_node("y".to_string(), &SerdeNode::Mapping(vec![]));
    assert_eq!(t.node_type, NodeType::Dir);
    assert!(t.children.is_empty());
}

#[test]
fn merged_inputs_keep_repeated_names() {
    let mut root = Node::new_dir(String::new());
    let mut a = Node::new_dir(String::new());
    a.children.push(Node::new_file("README.md".to_string(), Some("one".to_string())));
    let mut b = Node::new_dir(String::new());
    b.children.push(Node::new_file("README.md".to_string(), Some("two".to_string())));
    root.merge_children(a);
    root.merge_children(b);
    assert_eq!(names(&root), vec!["README.md", "README.md"]);
    assert_eq!(root.children[1].content.as_deref(), Some("two"));
}
