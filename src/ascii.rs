//! The ASCII-art tree parser.
use vstd::prelude::*;
use crate::text::{
    blank, chars_of, is_blank, is_whitespace, is_ws, lines_of, push_from, split_lines,
    string_of, views, ws_end,
};
use crate::tree::{node_views, Node, NodeType, Tree};

verus! {

/// A four-character indent block at `p`: four spaces, or a vertical bar and
/// three spaces.
pub open spec fn indent_at(l: Seq<char>, p: int) -> bool {
    0 <= p && p + 4 <= l.len() && (l[p] == ' ' || l[p] == '│') && l[p + 1] == ' ' && l[p + 2]
        == ' ' && l[p + 3] == ' '
}

/// A four-character connector at `p`: a mid-branch or a last-branch.
pub open spec fn connector_at(l: Seq<char>, p: int) -> bool {
    0 <= p && p + 4 <= l.len() && (l[p] == '├' || l[p] == '└') && l[p + 1] == '─' && l[p + 2]
        == '─' && l[p + 3] == ' '
}

/// The number of indent blocks that follow one another from position `p`.
pub open spec fn blocks(l: Seq<char>, p: int) -> nat
    decreases l.len() - p,
{
    if indent_at(l, p) {
        1 + blocks(l, p + 4)
    } else {
        0
    }
}

/// One past the last character before `j`, and not before `a`, that is not whitespace.
pub open spec fn ws_back(l: Seq<char>, a: int, j: int) -> int
    decreases j - a,
{
    if a < j <= l.len() && is_ws(l[j - 1]) {
        ws_back(l, a, j - 1)
    } else {
        j
    }
}

/// `l` without whitespace at either end.
pub open spec fn trim(l: Seq<char>) -> Seq<char> {
    let a = ws_end(l, 0);
    l.subrange(a, ws_back(l, a, l.len() as int))
}

pub open spec fn names_dir(name: Seq<char>) -> bool {
    name.len() > 0 && name.last() == '/'
}

/// What a line of a drawing declares: its level, its name and whether it is a
/// directory.
pub struct EntryModel {
    pub level: nat,
    pub name: Seq<char>,
    pub is_dir: bool,
}

pub open spec fn entry_of(level: nat, name: Seq<char>) -> EntryModel {
    EntryModel { level, name, is_dir: names_dir(name) }
}

/// How a line matches `indent* connector? name`, where `name` is at least one
/// character and no part holds a line feed. As many indent blocks as possible
/// are taken, then the connector where one follows and a name remains after
/// it. With a connector the level is the number of blocks plus two, without
/// one plus one.
pub open spec fn line_entry(l: Seq<char>) -> Option<EntryModel> {
    let k = blocks(l, 0);
    let p = 4 * k as int;
    if l.len() == 0 || l.contains('\n') {
        None
    } else if l.len() > p {
        if connector_at(l, p) && l.len() > p + 4 {
            Some(entry_of(k + 2, trim(l.skip(p + 4))))
        } else {
            Some(entry_of(k + 1, trim(l.skip(p))))
        }
    } else {
        Some(entry_of(k, trim(l.skip(p - 4))))
    }
}

/// An entry of a drawing: a line that declares a node.
pub struct Entry {
    pub level: usize,
    pub name: String,
    pub is_dir: bool,
}

impl Entry {
    pub open spec fn view(&self) -> EntryModel {
        EntryModel { level: self.level as nat, name: self.name@, is_dir: self.is_dir }
    }
}

pub open spec fn entry_views(v: Seq<Entry>) -> Seq<EntryModel> {
    v.map_values(|e: Entry| e@)
}

fn trim_exec(l: &Vec<char>) -> (r: Vec<char>)
    ensures
        r@ == trim(l@),
{
    let mut a: usize = 0;
    while a < l.len() && is_whitespace(l[a])
        invariant
            a <= l.len(),
            ws_end(l@, 0) == ws_end(l@, a as int),
        decreases l.len() - a,
    {
        a = a + 1;
    }
    let mut b: usize = l.len();
    while b > a && is_whitespace(l[b - 1])
        invariant
            a <= b <= l.len(),
            a == ws_end(l@, 0),
            ws_back(l@, a as int, l.len() as int) == ws_back(l@, a as int, b as int),
        decreases b - a,
    {
        b = b - 1;
    }
    let mut r: Vec<char> = Vec::new();
    let mut i = a;
    while i < b
        invariant
            a <= i <= b <= l.len(),
            r@ == l@.subrange(a as int, i as int),
        decreases b - i,
    {
        r.push(l[i]);
        i = i + 1;
        assert(r@ =~= l@.subrange(a as int, i as int));
    }
    r
}

fn make_entry(l: &Vec<char>, level: usize, from: usize) -> (r: Entry)
    requires
        from <= l.len(),
    ensures
        r@ == entry_of(level as nat, trim(l@.skip(from as int))),
{
    let mut rest: Vec<char> = Vec::new();
    push_from(&mut rest, l, from);
    assert(rest@ =~= l@.skip(from as int));
    let nm = trim_exec(&rest);
    let is_dir = nm.len() > 0 && nm[nm.len() - 1] == '/';
    Entry { level, name: string_of(&nm), is_dir }
}

/// Matches one line against the drawing grammar.
pub fn parse_line(l: &Vec<char>) -> (r: Option<Entry>)
    ensures
        match r {
            Some(e) => line_entry(l@) == Some(e@),
            None => line_entry(l@) is None,
        },
{
    let n = l.len();
    let mut i: usize = 0;
    while i < n
        invariant
            i <= n == l.len(),
            forall|j: int| 0 <= j < i ==> l@[j] != '\n',
        decreases n - i,
    {
        if l[i] == '\n' {
            assert(l@.contains('\n'));
            return None;
        }
        i = i + 1;
    }
    if n == 0 {
        return None;
    }
    let mut k: usize = 0;
    let mut p: usize = 0;
    while n - p >= 4 && (l[p] == ' ' || l[p] == '│') && l[p + 1] == ' ' && l[p + 2] == ' ' && l[p
        + 3] == ' '
        invariant
            p == 4 * k,
            p <= n == l.len(),
            blocks(l@, 0) == k + blocks(l@, p as int),
        decreases n - p,
    {
        k = k + 1;
        p = p + 4;
    }
    assert(blocks(l@, 0) == k);
    if n > p {
        if n - p > 4 && (l[p] == '├' || l[p] == '└') && l[p + 1] == '─' && l[p + 2] == '─' && l[p
            + 3] == ' ' {
            Some(make_entry(l, k + 2, p + 4))
        } else {
            Some(make_entry(l, k + 1, p))
        }
    } else {
        Some(make_entry(l, k, p - 4))
    }
}


/// The first entry at or after `k`, and before `to`, whose level is not
/// greater than that of entry `p`.
pub open spec fn scan_end(es: Seq<EntryModel>, p: int, k: int, to: int) -> int
    decreases to - k,
{
    if k < to && es[k].level > es[p].level {
        scan_end(es, p, k + 1, to)
    } else {
        k
    }
}

/// The end of the span of entry `p` inside `(p, to)`: the entries that follow
/// it with a greater level.
pub open spec fn span_end(es: Seq<EntryModel>, p: int, to: int) -> int {
    let e = scan_end(es, p, p + 1, to);
    if p < e <= to {
        e
    } else {
        to
    }
}

/// The node that entry `p` declares. A directory holds the entries of its
/// span that no deeper directory of that span holds.
pub open spec fn node_at(es: Seq<EntryModel>, p: int, to: int) -> Tree
    decreases to - p, 0nat,
{
    Tree {
        name: es[p].name,
        is_dir: es[p].is_dir,
        children: if es[p].is_dir && p < to {
            siblings(es, p + 1, span_end(es, p, to))
        } else {
            Seq::empty()
        },
        content: None,
    }
}

/// The nodes declared in `[from, to)` that no directory of that range holds.
pub open spec fn siblings(es: Seq<EntryModel>, from: int, to: int) -> Seq<Tree>
    decreases to - from, 1nat,
{
    if from < to {
        let next = if es[from].is_dir {
            span_end(es, from, to)
        } else {
            from + 1
        };
        seq![node_at(es, from, to)] + siblings(es, next, to)
    } else {
        Seq::empty()
    }
}

/// Index of the first line at or after `i` that is neither blank nor in the
/// grammar.
pub open spec fn first_bad(ls: Seq<Seq<char>>, i: int) -> int
    decreases ls.len() - i,
{
    if 0 <= i < ls.len() {
        if !blank(ls[i]) && line_entry(ls[i]) is None {
            i
        } else {
            first_bad(ls, i + 1)
        }
    } else {
        i
    }
}

/// The entries that the non-blank lines among the first `n` declare.
pub open spec fn entries_upto(ls: Seq<Seq<char>>, n: int) -> Seq<EntryModel>
    decreases n,
{
    if n <= 0 {
        Seq::empty()
    } else {
        let r = entries_upto(ls, n - 1);
        if blank(ls[n - 1]) {
            r
        } else {
            match line_entry(ls[n - 1]) {
                Some(e) => r.push(e),
                None => r,
            }
        }
    }
}

/// The tree that a drawing describes, or the first line outside the grammar.
pub open spec fn drawing_tree(ls: Seq<Seq<char>>) -> Result<Tree, Seq<char>> {
    let b = first_bad(ls, 0);
    if b < ls.len() {
        Err(ls[b])
    } else {
        let es = entries_upto(ls, ls.len() as int);
        Ok(Tree { name: Seq::empty(), is_dir: true, children: siblings(es, 0, es.len() as int), content: None })
    }
}

fn build_siblings(es: &Vec<Entry>, from: usize, to: usize) -> (r: Vec<Node>)
    requires
        from <= to <= es.len(),
    ensures
        node_views(r@) == siblings(entry_views(es@), from as int, to as int),
    decreases to - from,
{
    let ghost ev = entry_views(es@);
    let mut out: Vec<Node> = Vec::new();
    let mut cur = from;
    while cur < to
        invariant
            from <= cur <= to <= es.len(),
            ev == entry_views(es@),
            ev.len() == es.len(),
            siblings(ev, from as int, to as int) == node_views(out@) + siblings(ev, cur as int, to as int),
        decreases to - cur,
    {
        let e = &es[cur];
        let ghost c = cur as int;
        assert(ev[c] == e@);
        if e.is_dir {
            let mut k = cur + 1;
            while k < to && es[k].level > e.level
                invariant
                    c < k <= to <= es.len(),
                    ev == entry_views(es@),
                    ev.len() == es.len(),
                    e == es@[c],
                    ev[c] == e@,
                    scan_end(ev, c, c + 1, to as int) == scan_end(ev, c, k as int, to as int),
                decreases to - k,
            {
                assert(ev[k as int] == es@[k as int]@);
                k = k + 1;
            }
            assert(span_end(ev, c, to as int) == k);
            let children = build_siblings(es, cur + 1, k);
            let node = Node { name: e.name.clone(), node_type: NodeType::Dir, children, content: None };
            assert(node@.children =~= node_views(children@));
            assert(node@ == node_at(ev, c, to as int));
            out.push(node);
            cur = k;
        } else {
            let node = Node::new_file(e.name.clone(), None);
            assert(node@ == node_at(ev, c, to as int));
            out.push(node);
            cur = cur + 1;
        }
        assert(node_views(out@) =~= node_views(out@.drop_last()).push(out@.last()@));
        assert(siblings(ev, from as int, to as int) =~= node_views(out@) + siblings(ev, cur as int, to as int));
    }
    assert(siblings(ev, cur as int, to as int) =~= Seq::<Tree>::empty());
    assert(node_views(out@) + Seq::<Tree>::empty() =~= node_views(out@));
    out
}

pub open spec fn string_views(v: Seq<String>) -> Seq<Seq<char>> {
    v.map_values(|s: String| s@)
}

/// A line of a drawing that is not in its grammar.
pub struct LineError {
    pub line: String,
}

/// Builds the tree that the lines of a drawing describe; fails on the first
/// non-blank line outside the grammar, naming it.
pub fn parse_md_tree(lines: &Vec<String>) -> (r: Result<Node, LineError>)
    ensures
        match r {
            Ok(root) => drawing_tree(string_views(lines@)) == Ok::<Tree, Seq<char>>(root@),
            Err(e) => drawing_tree(string_views(lines@)) == Err::<Tree, Seq<char>>(e.line@),
        },
{
    let ghost ls = string_views(lines@);
    let mut es: Vec<Entry> = Vec::new();
    let mut i: usize = 0;
    while i < lines.len()
        invariant
            i <= lines.len(),
            ls == string_views(lines@),
            first_bad(ls, 0) == first_bad(ls, i as int),
            entry_views(es@) == entries_upto(ls, i as int),
        decreases lines.len() - i,
    {
        let l = chars_of(lines[i].as_str());
        assert(l@ == ls[i as int]);
        if !is_blank(&l) {
            match parse_line(&l) {
                Some(e) => {
                    es.push(e);
                    assert(entry_views(es@) =~= entries_upto(ls, i as int + 1));
                },
                None => {
                    return Err(LineError { line: lines[i].clone() });
                },
            }
        } else {
            assert(entry_views(es@) =~= entries_upto(ls, i as int + 1));
        }
        i = i + 1;
    }
    let children = build_siblings(&es, 0, es.len());
    let root = Node { name: String::new(), node_type: NodeType::Dir, children, content: None };
    assert(root@.children =~= node_views(children@));
    assert(root@.name =~= Seq::<char>::empty());
    Ok(root)
}


/// A colon becomes an underscore, so that it cannot be read as path syntax.
pub open spec fn sanitize(l: Seq<char>) -> Seq<char> {
    l.map_values(|c: char| if c == ':' { '_' } else { c })
}

fn sanitize_exec(l: &Vec<char>) -> (r: Vec<char>)
    ensures
        r@ == sanitize(l@),
{
    let mut r: Vec<char> = Vec::new();
    let mut i: usize = 0;
    while i < l.len()
        invariant
            i <= l.len(),
            r@ == sanitize(l@.take(i as int)),
        decreases l.len() - i,
    {
        let c = l[i];
        r.push(if c == ':' { '_' } else { c });
        i = i + 1;
        assert(r@ =~= sanitize(l@.take(i as int)));
    }
    assert(l@.take(i as int) =~= l@);
    r
}

/// Builds the tree that the text of a drawing describes, after replacing
/// each colon of it by an underscore.
pub fn parse_md_text(text: &str) -> (r: Result<Node, LineError>)
    ensures
        match r {
            Ok(root) => drawing_tree(lines_of(text@).map_values(|l: Seq<char>| sanitize(l)))
                == Ok::<Tree, Seq<char>>(root@),
            Err(e) => drawing_tree(lines_of(text@).map_values(|l: Seq<char>| sanitize(l)))
                == Err::<Tree, Seq<char>>(e.line@),
        },
{
    let v = chars_of(text);
    let ls = split_lines(&v);
    let ghost want = lines_of(text@).map_values(|l: Seq<char>| sanitize(l));
    let mut lines: Vec<String> = Vec::new();
    let mut i: usize = 0;
    while i < ls.len()
        invariant
            i <= ls.len(),
            views(ls@) == lines_of(text@),
            want == lines_of(text@).map_values(|l: Seq<char>| sanitize(l)),
            string_views(lines@) == want.take(i as int),
        decreases ls.len() - i,
    {
        assert(views(ls@)[i as int] == ls@[i as int]@);
        let s = sanitize_exec(&ls[i]);
        let ghost before = string_views(lines@);
        let st = string_of(&s);
        lines.push(st);
        assert(string_views(lines@) =~= before.push(st@));
        assert(want.take(i + 1) =~= want.take(i as int).push(want[i as int]));
        i = i + 1;
        assert(string_views(lines@) =~= want.take(i as int));
    }
    assert(want.take(i as int) =~= want);
    parse_md_tree(&lines)
}

} // verus!
