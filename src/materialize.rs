//! The tree materializer: the file-system operations that realize a tree, in
//! the order in which they are to be performed.
use vstd::prelude::*;
use crate::tree::{Node, NodeType, Tree};

verus! {

/// What a log line reports.
#[derive(Debug, Clone, Copy, PartialEq, Eq, Structural)]
pub enum NoteKind {
    CreateDir,
    CreateFile,
    DryCreateDir,
    DryCreateFile,
}

/// One step of materialization. A path is a list of segments below the
/// destination directory.
#[derive(Debug)]
pub enum FsOp {
    /// Print a log line about the path.
    Log(NoteKind, Vec<String>),
    /// Create the directory and its missing ancestors; failure is fatal.
    MakeDir(Vec<String>),
    /// Create the missing ancestors of the file; failure is tolerated.
    MakeParents(Vec<String>),
    /// Write the file with this content; failure is fatal.
    Write(Vec<String>, String),
    /// Give the file this mode where the platform has one; failure is fatal.
    SetMode(Vec<String>, u32),
}

pub enum OpModel {
    Log(NoteKind, Seq<Seq<char>>),
    MakeDir(Seq<Seq<char>>),
    MakeParents(Seq<Seq<char>>),
    Write(Seq<Seq<char>>, Seq<char>),
    SetMode(Seq<Seq<char>>, u32),
}

pub open spec fn path_view(p: Vec<String>) -> Seq<Seq<char>> {
    p@.map_values(|s: String| s@)
}

impl FsOp {
    pub open spec fn view(&self) -> OpModel {
        match self {
            FsOp::Log(k, p) => OpModel::Log(*k, path_view(*p)),
            FsOp::MakeDir(p) => OpModel::MakeDir(path_view(*p)),
            FsOp::MakeParents(p) => OpModel::MakeParents(path_view(*p)),
            FsOp::Write(p, c) => OpModel::Write(path_view(*p), c@),
            FsOp::SetMode(p, m) => OpModel::SetMode(path_view(*p), *m),
        }
    }
}

pub open spec fn op_views(v: Seq<FsOp>) -> Seq<OpModel> {
    v.map_values(|o: FsOp| o@)
}

/// The path of a node below `base`: the root (empty name) is `base` itself.
pub open spec fn node_path(base: Seq<Seq<char>>, name: Seq<char>) -> Seq<Seq<char>> {
    if name.len() == 0 {
        base
    } else {
        base.push(name)
    }
}

pub open spec fn log_if(verbose: bool, k: NoteKind, p: Seq<Seq<char>>) -> Seq<OpModel> {
    if verbose {
        seq![OpModel::Log(k, p)]
    } else {
        Seq::empty()
    }
}

/// The operations for one node, before those of its children.
pub open spec fn own_ops(t: Tree, p: Seq<Seq<char>>, dry: bool, verbose: bool, mode: u32) -> Seq<OpModel> {
    if t.is_dir {
        if dry {
            log_if(verbose, NoteKind::DryCreateDir, p)
        } else {
            log_if(verbose, NoteKind::CreateDir, p) + seq![OpModel::MakeDir(p)]
        }
    } else if dry {
        log_if(verbose, NoteKind::DryCreateFile, p)
    } else {
        let c = match t.content {
            Some(c) => c,
            None => Seq::empty(),
        };
        seq![OpModel::MakeParents(p)] + log_if(verbose, NoteKind::CreateFile, p) + seq![
            OpModel::Write(p, c),
            OpModel::SetMode(p, mode),
        ]
    }
}

/// The operations that realize `t` below `base`, depth first.
pub open spec fn plan_tree(t: Tree, base: Seq<Seq<char>>, dry: bool, verbose: bool, mode: u32) -> Seq<OpModel>
    decreases t,
{
    let p = node_path(base, t.name);
    own_ops(t, p, dry, verbose, mode) + if t.is_dir {
        plan_forest(t.children, p, dry, verbose, mode)
    } else {
        Seq::empty()
    }
}

/// The operations that realize each tree of `cs` below `base`, in order.
pub open spec fn plan_forest(cs: Seq<Tree>, base: Seq<Seq<char>>, dry: bool, verbose: bool, mode: u32) -> Seq<OpModel>
    decreases cs,
{
    if cs.len() == 0 {
        Seq::empty()
    } else {
        plan_forest(cs.drop_last(), base, dry, verbose, mode) + plan_tree(cs.last(), base, dry, verbose, mode)
    }
}


fn copy_path(p: &Vec<String>) -> (r: Vec<String>)
    ensures
        path_view(r) == path_view(*p),
{
    let mut r: Vec<String> = Vec::new();
    let mut i: usize = 0;
    while i < p.len()
        invariant
            i <= p.len(),
            path_view(r) == path_view(*p).take(i as int),
        decreases p.len() - i,
    {
        let ghost before = path_view(r);
        r.push(p[i].clone());
        assert(path_view(r) =~= before.push(p@[i as int]@));
        i = i + 1;
        assert(path_view(r) =~= path_view(*p).take(i as int));
    }
    assert(path_view(*p).take(i as int) =~= path_view(*p));
    r
}

fn push_log(ops: &mut Vec<FsOp>, verbose: bool, k: NoteKind, p: &Vec<String>)
    ensures
        op_views(final(ops)@) == op_views(old(ops)@) + log_if(verbose, k, path_view(*p)),
{
    if verbose {
        ops.push(FsOp::Log(k, copy_path(p)));
        assert(op_views(final(ops)@) =~= op_views(old(ops)@) + log_if(verbose, k, path_view(*p)));
    } else {
        assert(op_views(final(ops)@) =~= op_views(old(ops)@) + log_if(verbose, k, path_view(*p)));
    }
}

fn push_op(ops: &mut Vec<FsOp>, op: FsOp)
    ensures
        op_views(final(ops)@) == op_views(old(ops)@).push(op@),
{
    ops.push(op);
    assert(op_views(final(ops)@) =~= op_views(old(ops)@).push(op@));
}

/// Appends the operations that realize `node` below `base` to `ops`.
pub fn plan_node(node: &Node, base: &Vec<String>, dry_run: bool, verbose: bool, mode: u32, ops: &mut Vec<FsOp>)
    ensures
        op_views(final(ops)@) == op_views(old(ops)@) + plan_tree(node@, path_view(*base), dry_run, verbose, mode),
    decreases node,
{
    let ghost start = op_views(ops@);
    let mut path = copy_path(base);
    if !node.name.as_str().is_empty() {
        let ghost b = path_view(path);
        path.push(node.name.clone());
        assert(path_view(path) =~= b.push(node.name@));
    }
    assert(path_view(path) == node_path(path_view(*base), node@.name));
    let ghost p = path_view(path);
    match node.node_type {
        NodeType::Dir => {
            if dry_run {
                push_log(ops, verbose, NoteKind::DryCreateDir, &path);
            } else {
                push_log(ops, verbose, NoteKind::CreateDir, &path);
                push_op(ops, FsOp::MakeDir(copy_path(&path)));
            }
            let ghost mid = op_views(ops@);
            assert(mid =~= start + own_ops(node@, p, dry_run, verbose, mode));
            let mut i: usize = 0;
            while i < node.children.len()
                invariant
                    i <= node.children.len(),
                    p == path_view(path),
                    node@.children.len() == node.children.len(),
                    op_views(ops@) == mid + plan_forest(node@.children.take(i as int), p, dry_run, verbose, mode),
                decreases node.children.len() - i,
            {
                proof {
                    assert(decreases_to!(node => node.children));
                    assert(decreases_to!(node.children => node.children[i as int]));
                }
                plan_node(&node.children[i], &path, dry_run, verbose, mode, ops);
                assert(node@.children.take(i + 1).drop_last() =~= node@.children.take(i as int));
                assert(node@.children[i as int] == node.children[i as int]@);
                i = i + 1;
                assert(op_views(ops@) =~= mid + plan_forest(node@.children.take(i as int), p, dry_run, verbose, mode));
            }
            assert(node@.children.take(i as int) =~= node@.children);
        },
        NodeType::File => {
            if dry_run {
                push_log(ops, verbose, NoteKind::DryCreateFile, &path);
            } else {
                push_op(ops, FsOp::MakeParents(copy_path(&path)));
                push_log(ops, verbose, NoteKind::CreateFile, &path);
                let content = match &node.content {
                    Some(c) => c.clone(),
                    None => String::new(),
                };
                push_op(ops, FsOp::Write(copy_path(&path), content));
                push_op(ops, FsOp::SetMode(copy_path(&path), mode));
            }
            assert(op_views(ops@) =~= start + own_ops(node@, p, dry_run, verbose, mode));
        },
    }
    assert(op_views(ops@) =~= start + plan_tree(node@, path_view(*base), dry_run, verbose, mode));
}

/// The operations that realize `root` in the destination directory: real
/// creations and writes, or, when simulating, only log lines.
pub fn plan_fs(root: &Node, dry_run: bool, verbose: bool, mode: u32) -> (r: Vec<FsOp>)
    ensures
        op_views(r@) == plan_tree(root@, Seq::empty(), dry_run, verbose, mode),
{
    let mut ops: Vec<FsOp> = Vec::new();
    let base: Vec<String> = Vec::new();
    assert(path_view(base) =~= Seq::<Seq<char>>::empty());
    plan_node(root, &base, dry_run, verbose, mode, &mut ops);
    assert(op_views(ops@) =~= plan_tree(root@, Seq::empty(), dry_run, verbose, mode));
    ops
}

} // verus!
