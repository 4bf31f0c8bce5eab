use treegen::materialize::{plan_fs, FsOp, NoteKind};
use treegen::tree::Node;

fn sample() -> Node {
    let mut root = Node::new_dir(String::new());
    let mut d = Node::new_dir("src/".to_string());
    d.children.push(Node::new_file("main.rs".to_string(), Some("fn main() {}".to_string())));
    root.children.push(d);
    root.children.push(Node::new_file("empty".to_string(), None));
    root
}

fn p(v: &[&str]) -> Vec<String> {
    v.iter().map(|s| s.to_string()).collect()
}

#[test]
fn real_plan_creates_and_writes_in_order() {
    let ops = plan_fs(&sample(), false, true, 0o644);
    assert_eq!(ops.len(), 12);
    assert!(matches!(&ops[0], FsOp::Log(NoteKind::CreateDir, x) if x.is_empty()));
    assert!(matches!(&ops[1], FsOp::MakeDir(x) if x.is_empty()));
    assert!(matches!(&ops[2], FsOp::Log(NoteKind::CreateDir, x) if *x == p(&["src/"])));
    assert!(matches!(&ops[3], FsOp::MakeDir(x) if *x == p(&["src/"])));
    assert!(matches!(&ops[4], FsOp::MakeParents(x) if *x == p(&["src/", "main.rs"])));
    assert!(matches!(&ops[6], FsOp::Write(x, c) if *x == p(&["src/", "main.rs"]) && c == "fn main() {}"));
    assert!(matches!(&ops[7], FsOp::SetMode(_, 0o644)));
    assert!(matches!(&ops[10], FsOp::Write(x, c) if *x == p(&["empty"]) && c.is_empty()));
}

#[test]
fn dry_run_only_logs_same_nodes() {
    let ops = plan_fs(&sample(), true, true, 0o644);
    assert!(ops.iter().all(|o| matches!(o, FsOp::Log(_, _))));
    let kinds: Vec<NoteKind> = ops
        .iter()
        .map(|o| match o {
            FsOp::Log(k, _) => *k,
            _ => unreachable!(),
        })
        .collect();
    assert_eq!(
        kinds,
        vec![
            NoteKind::DryCreateDir,
            NoteKind::DryCreateDir,
            NoteKind::DryCreateFile,
            NoteKind::DryCreateFile
        ]
    );
}

#[test]
fn quiet_dry_run_is_empty() {
    assert!(plan_fs(&sample(), true, false, 0o644).is_empty());
}

#[test]
fn quiet_real_run_has_no_logs() {
    let ops = plan_fs(&sample(), false, false, 0o600);
    assert_eq!(ops.len(), 8);
    assert!(ops.iter().all(|o| !matches!(o, FsOp::Log(_, _))));
}

#[test]
fn dry_run_logs_match_real_logs_line_for_line() {
    let logs = |dry: bool| -> Vec<(bool, Vec<String>)> {
        plan_fs(&sample(), dry, true, 0o644)
            .into_iter()
            .filter_map(|o| match o {
                FsOp::Log(k, x) => Some((matches!(k, NoteKind::CreateDir | NoteKind::DryCreateDir), x)),
                _ => None,
            })
            .collect()
    };
    let dry = logs(true);
    assert_eq!(dry.len(), 4);
    assert_eq!(dry, logs(false));
}

#[test]
fn later_input_is_written_last_at_a_shared_path() {
    let mut root = Node::new_dir(String::new());
    let mut a = Node::new_dir(String::new());
    a.children.push(Node::new_file("README.md".to_string(), Some("one".to_string())));
    let mut b = Node::new_dir(String::new());
    b.children.push(Node::new_file("README.md".to_string(), Some("two".to_string())));
    root.merge_children(a);
    root.merge_children(b);
    let ops = plan_fs(&root, false, true, 0o644);
    let writes: Vec<&String> = ops
        .iter()
        .filter_map(|o| match o {
            FsOp::Write(x, c) if *x == p(&["README.md"]) => Some(c),
            _ => None,
        })
        .collect();
    assert_eq!(writes, vec!["one", "two"]);
    let file_logs = ops
        .iter()
        .filter(|o| matches!(o, FsOp::Log(NoteKind::CreateFile, x) if *x == p(&["README.md"])))
        .count();
    assert_eq!(file_logs, 2);
}
