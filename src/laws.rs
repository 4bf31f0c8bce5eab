//! Properties that relate several operations of the library.
use vstd::prelude::*;
use crate::materialize::{NoteKind, OpModel, own_ops, plan_forest, plan_tree, log_if, node_path};
use crate::tree::{merged, Tree};

verus! {

/// The node that a log line reports, with whether it is a directory.
pub open spec fn visit_of(o: OpModel) -> Seq<(Seq<Seq<char>>, bool)> {
    match o {
        OpModel::Log(k, p) => match k {
            NoteKind::CreateDir | NoteKind::DryCreateDir => seq![(p, true)],
            NoteKind::CreateFile | NoteKind::DryCreateFile => seq![(p, false)],
        },
        _ => Seq::empty(),
    }
}

/// The nodes that the log lines of `ops` report, in order.
pub open spec fn visits(ops: Seq<OpModel>) -> Seq<(Seq<Seq<char>>, bool)>
    decreases ops.len(),
{
    if ops.len() == 0 {
        Seq::empty()
    } else {
        visits(ops.drop_last()) + visit_of(ops.last())
    }
}

/// Operations that only print.
pub open spec fn only_logs(ops: Seq<OpModel>) -> bool {
    forall|i: int| 0 <= i < ops.len() ==> #[trigger] ops[i] is Log
}

proof fn lemma_visits_append(a: Seq<OpModel>, b: Seq<OpModel>)
    ensures
        visits(a + b) == visits(a) + visits(b),
    decreases b.len(),
{
    if b.len() == 0 {
        assert(a + b =~= a);
        assert(visits(a) + visits(b) =~= visits(a));
    } else {
        lemma_visits_append(a, b.drop_last());
        assert((a + b).drop_last() =~= a + b.drop_last());
        assert(visits(a) + visits(b) =~= visits(a) + visits(b.drop_last()) + visit_of(b.last()));
    }
}

proof fn lemma_visits_two(x: OpModel, y: OpModel)
    ensures
        visits(seq![x, y]) == visit_of(x) + visit_of(y),
{
    assert(seq![x, y].drop_last() =~= seq![x]);
    assert(seq![x, y].last() == y);
    lemma_visits_one(x);
}

proof fn lemma_visits_one(x: OpModel)
    ensures
        visits(seq![x]) == visit_of(x),
{
    assert(seq![x].drop_last() =~= Seq::<OpModel>::empty());
    assert(visits(Seq::<OpModel>::empty()) + visit_of(x) =~= visit_of(x));
}

proof fn lemma_own_ops(t: Tree, p: Seq<Seq<char>>, verbose: bool, mode: u32)
    ensures
        only_logs(own_ops(t, p, true, verbose, mode)),
        visits(own_ops(t, p, true, verbose, mode)) == visits(own_ops(t, p, false, verbose, mode)),
{
    let e = Seq::<OpModel>::empty();
    assert(visits(e) =~= Seq::<(Seq<Seq<char>>, bool)>::empty());
    if t.is_dir {
        let l = log_if(verbose, NoteKind::CreateDir, p);
        lemma_visits_append(l, seq![OpModel::MakeDir(p)]);
        lemma_visits_one(OpModel::MakeDir(p));
        if verbose {
            lemma_visits_one(OpModel::Log(NoteKind::CreateDir, p));
            lemma_visits_one(OpModel::Log(NoteKind::DryCreateDir, p));
        }
        assert(visits(l) + visits(seq![OpModel::MakeDir(p)]) =~= visits(l));
    } else {
        let c = match t.content {
            Some(c) => c,
            None => Seq::empty(),
        };
        let b = log_if(verbose, NoteKind::DryCreateFile, p);
        let x = seq![OpModel::MakeParents(p)];
        let y = log_if(verbose, NoteKind::CreateFile, p);
        let z = seq![OpModel::Write(p, c), OpModel::SetMode(p, mode)];
        lemma_visits_append(x + y, z);
        lemma_visits_append(x, y);
        lemma_visits_one(OpModel::MakeParents(p));
        lemma_visits_two(OpModel::Write(p, c), OpModel::SetMode(p, mode));
        if verbose {
            lemma_visits_one(OpModel::Log(NoteKind::DryCreateFile, p));
            lemma_visits_one(OpModel::Log(NoteKind::CreateFile, p));
        }
        assert(visits(b) =~= visits(x) + visits(y) + visits(z));
    }
}

proof fn lemma_tree_dry(t: Tree, base: Seq<Seq<char>>, verbose: bool, mode: u32)
    ensures
        only_logs(plan_tree(t, base, true, verbose, mode)),
        visits(plan_tree(t, base, true, verbose, mode)) == visits(plan_tree(t, base, false, verbose, mode)),
    decreases t,
{
    let p = node_path(base, t.name);
    lemma_own_ops(t, p, verbose, mode);
    let (d, r) = if t.is_dir {
        lemma_forest_dry(t.children, p, verbose, mode);
        (plan_forest(t.children, p, true, verbose, mode), plan_forest(t.children, p, false, verbose, mode))
    } else {
        (Seq::empty(), Seq::empty())
    };
    lemma_visits_append(own_ops(t, p, true, verbose, mode), d);
    lemma_visits_append(own_ops(t, p, false, verbose, mode), r);
    assert(visits(Seq::<OpModel>::empty()) =~= Seq::<(Seq<Seq<char>>, bool)>::empty());
    let all = own_ops(t, p, true, verbose, mode) + d;
    assert(all == plan_tree(t, base, true, verbose, mode));
    assert forall|i: int| 0 <= i < all.len() implies #[trigger] all[i] is Log by {
        if i < own_ops(t, p, true, verbose, mode).len() {
            assert(own_ops(t, p, true, verbose, mode)[i] is Log);
        } else {
            assert(d[i - own_ops(t, p, true, verbose, mode).len()] is Log);
        }
    }
}

proof fn lemma_forest_dry(cs: Seq<Tree>, base: Seq<Seq<char>>, verbose: bool, mode: u32)
    ensures
        only_logs(plan_forest(cs, base, true, verbose, mode)),
        visits(plan_forest(cs, base, true, verbose, mode)) == visits(plan_forest(cs, base, false, verbose, mode)),
    decreases cs,
{
    if cs.len() == 0 {
        assert(visits(Seq::<OpModel>::empty()) =~= Seq::<(Seq<Seq<char>>, bool)>::empty());
    } else {
        lemma_forest_dry(cs.drop_last(), base, verbose, mode);
        lemma_tree_dry(cs.last(), base, verbose, mode);
        let a = plan_forest(cs.drop_last(), base, true, verbose, mode);
        let b = plan_tree(cs.last(), base, true, verbose, mode);
        lemma_visits_append(a, b);
        lemma_visits_append(
            plan_forest(cs.drop_last(), base, false, verbose, mode),
            plan_tree(cs.last(), base, false, verbose, mode),
        );
        assert forall|i: int| 0 <= i < (a + b).len() implies #[trigger] (a + b)[i] is Log by {
            if i < a.len() {
                assert(a[i] is Log);
            } else {
                assert(b[i - a.len()] is Log);
            }
        }
    }
}

/// Simulating performs no file-system operation, only log lines, and those
/// report the same nodes, in the same order, as a real run reports.
pub proof fn lemma_dry_run_writes_nothing(root: Tree, verbose: bool, mode: u32)
    ensures
        only_logs(plan_tree(root, Seq::empty(), true, verbose, mode)),
        visits(plan_tree(root, Seq::empty(), true, verbose, mode)) == visits(
            plan_tree(root, Seq::empty(), false, verbose, mode),
        ),
{
    lemma_tree_dry(root, Seq::empty(), verbose, mode);
}

proof fn lemma_forest_append(a: Seq<Tree>, b: Seq<Tree>, base: Seq<Seq<char>>, dry: bool, verbose: bool, mode: u32)
    ensures
        plan_forest(a + b, base, dry, verbose, mode) == plan_forest(a, base, dry, verbose, mode)
            + plan_forest(b, base, dry, verbose, mode),
    decreases b.len(),
{
    if b.len() == 0 {
        assert(a + b =~= a);
        assert(plan_forest(a, base, dry, verbose, mode) + plan_forest(b, base, dry, verbose, mode)
            =~= plan_forest(a, base, dry, verbose, mode));
    } else {
        lemma_forest_append(a, b.drop_last(), base, dry, verbose, mode);
        assert((a + b).drop_last() =~= a + b.drop_last());
        assert((a + b).last() == b.last());
        assert(plan_forest(a, base, dry, verbose, mode) + plan_forest(b, base, dry, verbose, mode)
            =~= plan_forest(a, base, dry, verbose, mode) + plan_forest(b.drop_last(), base, dry, verbose, mode)
            + plan_tree(b.last(), base, dry, verbose, mode));
    }
}

/// Merging two parsed roots keeps every child of both, those of the first
/// input before those of the second, even where names repeat; and realizing
/// the merged root performs all operations of the second input after those
/// of the first, so that the later input's file is the one left on disk.
pub proof fn lemma_merge_keeps_both(a: Tree, b: Tree, dry: bool, verbose: bool, mode: u32)
    requires
        a.name.len() == 0,
        a.is_dir,
    ensures
        merged(a, b).children.len() == a.children.len() + b.children.len(),
        forall|i: int| 0 <= i < a.children.len() ==> #[trigger] merged(a, b).children[i] == a.children[i],
        forall|j: int| 0 <= j < b.children.len() ==> merged(a, b).children[a.children.len() + j] == #[trigger] b.children[j],
        plan_tree(merged(a, b), Seq::empty(), dry, verbose, mode) == own_ops(a, Seq::empty(), dry, verbose, mode)
            + plan_forest(a.children, Seq::empty(), dry, verbose, mode) + plan_forest(b.children, Seq::empty(), dry, verbose, mode),
{
    lemma_forest_append(a.children, b.children, Seq::empty(), dry, verbose, mode);
    let m = merged(a, b);
    assert(node_path(Seq::empty(), m.name) == Seq::<Seq<char>>::empty());
    assert(own_ops(m, Seq::empty(), dry, verbose, mode) == own_ops(a, Seq::empty(), dry, verbose, mode));
}


/// What an operation leaves on disk: a directory (no content) or a file
/// with its content.
pub open spec fn effect_of(o: OpModel) -> Seq<(Seq<Seq<char>>, Option<Seq<char>>)> {
    match o {
        OpModel::MakeDir(p) => seq![(p, None)],
        OpModel::Write(p, c) => seq![(p, Some(c))],
        _ => Seq::empty(),
    }
}

/// The directories and files that `ops` create, in order.
pub open spec fn effects(ops: Seq<OpModel>) -> Seq<(Seq<Seq<char>>, Option<Seq<char>>)>
    decreases ops.len(),
{
    if ops.len() == 0 {
        Seq::empty()
    } else {
        effects(ops.drop_last()) + effect_of(ops.last())
    }
}

/// The directories and files of `t` below `base`, depth first: a file with
/// its content, or empty where it has none.
pub open spec fn shape(t: Tree, base: Seq<Seq<char>>) -> Seq<(Seq<Seq<char>>, Option<Seq<char>>)>
    decreases t,
{
    let p = node_path(base, t.name);
    if t.is_dir {
        seq![(p, None)] + shape_all(t.children, p)
    } else {
        seq![(p, Some(match t.content {
            Some(c) => c,
            None => Seq::empty(),
        }))]
    }
}

pub open spec fn shape_all(cs: Seq<Tree>, base: Seq<Seq<char>>) -> Seq<(Seq<Seq<char>>, Option<Seq<char>>)>
    decreases cs,
{
    if cs.len() == 0 {
        Seq::empty()
    } else {
        shape_all(cs.drop_last(), base) + shape(cs.last(), base)
    }
}

proof fn lemma_effects_append(a: Seq<OpModel>, b: Seq<OpModel>)
    ensures
        effects(a + b) == effects(a) + effects(b),
    decreases b.len(),
{
    if b.len() == 0 {
        assert(a + b =~= a);
        assert(effects(a) + effects(b) =~= effects(a));
    } else {
        lemma_effects_append(a, b.drop_last());
        assert((a + b).drop_last() =~= a + b.drop_last());
        assert(effects(a) + effects(b) =~= effects(a) + effects(b.drop_last()) + effect_of(b.last()));
    }
}

proof fn lemma_effects_one(x: OpModel)
    ensures
        effects(seq![x]) == effect_of(x),
{
    assert(seq![x].drop_last() =~= Seq::<OpModel>::empty());
    assert(effects(Seq::<OpModel>::empty()) + effect_of(x) =~= effect_of(x));
}

proof fn lemma_effects_log(verbose: bool, k: NoteKind, p: Seq<Seq<char>>)
    ensures
        effects(log_if(verbose, k, p)) =~= Seq::<(Seq<Seq<char>>, Option<Seq<char>>)>::empty(),
{
    if verbose {
        lemma_effects_one(OpModel::Log(k, p));
    }
}

proof fn lemma_tree_effects(t: Tree, base: Seq<Seq<char>>, verbose: bool, mode: u32)
    ensures
        effects(plan_tree(t, base, false, verbose, mode)) == shape(t, base),
    decreases t,
{
    let p = node_path(base, t.name);
    let own = own_ops(t, p, false, verbose, mode);
    if t.is_dir {
        let l = log_if(verbose, NoteKind::CreateDir, p);
        lemma_effects_log(verbose, NoteKind::CreateDir, p);
        lemma_effects_one(OpModel::MakeDir(p));
        lemma_effects_append(l, seq![OpModel::MakeDir(p)]);
        lemma_forest_effects(t.children, p, verbose, mode);
        lemma_effects_append(own, plan_forest(t.children, p, false, verbose, mode));
        assert(effects(own) =~= seq![(p, None::<Seq<char>>)]);
    } else {
        let c = match t.content {
            Some(c) => c,
            None => Seq::empty(),
        };
        let x = seq![OpModel::MakeParents(p)];
        let y = log_if(verbose, NoteKind::CreateFile, p);
        let z = seq![OpModel::Write(p, c), OpModel::SetMode(p, mode)];
        lemma_effects_append(x + y, z);
        lemma_effects_append(x, y);
        lemma_effects_one(OpModel::MakeParents(p));
        lemma_effects_log(verbose, NoteKind::CreateFile, p);
        assert(z.drop_last() =~= seq![OpModel::Write(p, c)]);
        lemma_effects_one(OpModel::Write(p, c));
        assert(effects(z) =~= seq![(p, Some(c))]);
        lemma_effects_append(own, Seq::empty());
        assert(effects(Seq::<OpModel>::empty()) =~= Seq::<(Seq<Seq<char>>, Option<Seq<char>>)>::empty());
        assert(own + Seq::<OpModel>::empty() =~= own);
        assert(effects(own) =~= seq![(p, Some(c))]);
    }
}

proof fn lemma_forest_effects(cs: Seq<Tree>, base: Seq<Seq<char>>, verbose: bool, mode: u32)
    ensures
        effects(plan_forest(cs, base, false, verbose, mode)) == shape_all(cs, base),
    decreases cs,
{
    if cs.len() == 0 {
        assert(effects(Seq::<OpModel>::empty()) =~= Seq::<(Seq<Seq<char>>, Option<Seq<char>>)>::empty());
    } else {
        lemma_forest_effects(cs.drop_last(), base, verbose, mode);
        lemma_tree_effects(cs.last(), base, verbose, mode);
        lemma_effects_append(
            plan_forest(cs.drop_last(), base, false, verbose, mode),
            plan_tree(cs.last(), base, false, verbose, mode),
        );
    }
}

/// A real run creates exactly the directories of the tree and writes
/// exactly its files, each with its content (empty where it has none), depth
/// first and each at its own path below the destination.
pub proof fn lemma_real_run_realizes_shape(root: Tree, verbose: bool, mode: u32)
    ensures
        effects(plan_tree(root, Seq::empty(), false, verbose, mode)) == shape(root, Seq::empty()),
{
    lemma_tree_effects(root, Seq::empty(), verbose, mode);
}


proof fn lemma_forest_split(cs: Seq<Tree>, i: int, base: Seq<Seq<char>>, dry: bool, verbose: bool, mode: u32)
    requires
        0 <= i < cs.len(),
    ensures
        plan_forest(cs, base, dry, verbose, mode) == plan_forest(cs.take(i), base, dry, verbose, mode)
            + plan_tree(cs[i], base, dry, verbose, mode) + plan_forest(cs.skip(i + 1), base, dry, verbose, mode),
{
    let x = seq![cs[i]];
    assert(cs =~= cs.take(i) + (x + cs.skip(i + 1)));
    lemma_forest_append(cs.take(i), x + cs.skip(i + 1), base, dry, verbose, mode);
    lemma_forest_append(x, cs.skip(i + 1), base, dry, verbose, mode);
    assert(x.drop_last() =~= Seq::<Tree>::empty());
    assert(plan_forest(Seq::<Tree>::empty(), base, dry, verbose, mode) + plan_tree(cs[i], base, dry, verbose, mode)
        =~= plan_tree(cs[i], base, dry, verbose, mode));
}

proof fn lemma_file_visit(t: Tree, base: Seq<Seq<char>>, dry: bool, mode: u32)
    requires
        !t.is_dir,
    ensures
        visits(plan_tree(t, base, dry, true, mode)) == seq![(node_path(base, t.name), false)],
{
    let p = node_path(base, t.name);
    lemma_tree_dry(t, base, true, mode);
    lemma_visits_one(OpModel::Log(NoteKind::DryCreateFile, p));
    assert(plan_tree(t, base, true, true, mode) =~= seq![OpModel::Log(NoteKind::DryCreateFile, p)]);
}

/// Where both inputs declare a file of the same name at the top, the log of
/// the merged run holds a line for each, the first input's before the
/// second's: neither is dropped or merged.
pub proof fn lemma_merge_logs_both(a: Tree, b: Tree, i: int, j: int, dry: bool, mode: u32)
    requires
        a.name.len() == 0,
        a.is_dir,
        0 <= i < a.children.len(),
        0 <= j < b.children.len(),
        !a.children[i].is_dir,
        !b.children[j].is_dir,
        a.children[i].name.len() > 0,
        a.children[i].name == b.children[j].name,
    ensures
        exists|ka: int, kb: int|
            0 <= ka < kb < visits(plan_tree(merged(a, b), Seq::empty(), dry, true, mode)).len()
                && visits(plan_tree(merged(a, b), Seq::empty(), dry, true, mode))[ka] == (
            seq![a.children[i].name],
            false,
        ) && visits(plan_tree(merged(a, b), Seq::empty(), dry, true, mode))[kb] == (seq![a.children[i].name], false),
{
    let e = Seq::<Seq<char>>::empty();
    let x = a.children[i].name;
    lemma_merge_keeps_both(a, b, dry, true, mode);
    lemma_forest_split(a.children, i, e, dry, true, mode);
    lemma_forest_split(b.children, j, e, dry, true, mode);
    lemma_file_visit(a.children[i], e, dry, mode);
    lemma_file_visit(b.children[j], e, dry, mode);
    assert(node_path(e, x) == seq![x]);
    let o = own_ops(a, e, dry, true, mode);
    let a1 = plan_forest(a.children.take(i), e, dry, true, mode);
    let at = plan_tree(a.children[i], e, dry, true, mode);
    let a2 = plan_forest(a.children.skip(i + 1), e, dry, true, mode);
    let b1 = plan_forest(b.children.take(j), e, dry, true, mode);
    let bt = plan_tree(b.children[j], e, dry, true, mode);
    let b2 = plan_forest(b.children.skip(j + 1), e, dry, true, mode);
    let all = plan_tree(merged(a, b), e, dry, true, mode);
    assert(all =~= (o + a1) + (at + ((a2 + b1) + (bt + b2))));
    lemma_visits_append(o + a1, at + ((a2 + b1) + (bt + b2)));
    lemma_visits_append(at, (a2 + b1) + (bt + b2));
    lemma_visits_append(a2 + b1, bt + b2);
    lemma_visits_append(bt, b2);
    let ka = visits(o + a1).len() as int;
    let kb = ka + 1 + visits(a2 + b1).len();
    assert(visits(all)[ka] == (seq![x], false));
    assert(visits(all)[kb] == (seq![x], false));
}

/// Where the second input declares a file at a top-level path that the
/// first input also uses, and nothing after it in the second input maps to
/// that path, a real run of the merged root writes that file's content there
/// last: the later input wins, with no conflict raised.
pub proof fn lemma_merge_later_write_last(a: Tree, b: Tree, j: int, verbose: bool, mode: u32)
    requires
        a.name.len() == 0,
        a.is_dir,
        0 <= j < b.children.len(),
        !b.children[j].is_dir,
        b.children[j].name.len() > 0,
        forall|k: int|
            0 <= k < shape_all(b.children.skip(j + 1), Seq::empty()).len() ==> (#[trigger] shape_all(
                b.children.skip(j + 1),
                Seq::empty(),
            )[k]).0 != seq![b.children[j].name],
    ensures
        ({
            let w = effects(plan_tree(merged(a, b), Seq::empty(), false, verbose, mode));
            let c = match b.children[j].content {
                Some(c) => c,
                None => Seq::empty(),
            };
            exists|kb: int|
                0 <= kb < w.len() && w[kb] == (seq![b.children[j].name], Some(c)) && forall|k: int|
                    kb < k < w.len() ==> (#[trigger] w[k]).0 != seq![b.children[j].name]
        }),
{
    let e = Seq::<Seq<char>>::empty();
    let x = b.children[j].name;
    let c = match b.children[j].content {
        Some(c) => c,
        None => Seq::empty(),
    };
    lemma_merge_keeps_both(a, b, false, verbose, mode);
    lemma_forest_split(b.children, j, e, false, verbose, mode);
    lemma_tree_effects(b.children[j], e, verbose, mode);
    lemma_forest_effects(b.children.skip(j + 1), e, verbose, mode);
    assert(node_path(e, x) == seq![x]);
    let pre = own_ops(a, e, false, verbose, mode) + plan_forest(a.children, e, false, verbose, mode)
        + plan_forest(b.children.take(j), e, false, verbose, mode);
    let bt = plan_tree(b.children[j], e, false, verbose, mode);
    let b2 = plan_forest(b.children.skip(j + 1), e, false, verbose, mode);
    let all = plan_tree(merged(a, b), e, false, verbose, mode);
    assert(all =~= pre + (bt + b2));
    lemma_effects_append(pre, bt + b2);
    lemma_effects_append(bt, b2);
    let w = effects(all);
    let kb = effects(pre).len() as int;
    assert(effects(bt) == seq![(seq![x], Some(c))]);
    assert(w[kb] == (seq![x], Some(c)));
    assert forall|k: int| kb < k < w.len() implies (#[trigger] w[k]).0 != seq![x] by {
        assert(w[k] == shape_all(b.children.skip(j + 1), e)[k - kb - 1]);
    }
}

} // verus!
