//! The structured-mapping unifier and the literal-block preprocessor.
use vstd::prelude::*;
use crate::text::{chars_of, dedent, dedent_spec, push_from, string_of};
use crate::tree::{node_views, Node, NodeType, Tree};

verus! {

/// A decoded value: text, or a mapping from names to values. A mapping
/// holds its entries in the order that the decoder gave (ascending keys for
/// an ordered map) and, when well formed, each key once.
pub enum SerdeNode {
    Str(String),
    Mapping(Vec<(String, SerdeNode)>),
}

/// No key of `m` occurs twice.
pub open spec fn keys_unique(m: Seq<(String, SerdeNode)>) -> bool {
    forall|i: int, j: int| 0 <= i < j < m.len() ==> m[i].0@ != m[j].0@
}

impl SerdeNode {
    /// Every mapping in the value, at any depth, names each key once.
    pub open spec fn wf(&self) -> bool
        decreases self,
    {
        match self {
            SerdeNode::Str(_) => true,
            SerdeNode::Mapping(m) => keys_unique(m@) && forall|i: int|
                0 <= i < m.len() ==> (#[trigger] m[i]).1.wf(),
        }
    }
}

/// The node for `name` bound to `v`: text is a file with that content, a
/// mapping is a directory of its entries.
pub open spec fn value_tree(name: Seq<char>, v: SerdeNode) -> Tree
    decreases v,
{
    match v {
        SerdeNode::Str(c) => Tree { name, is_dir: false, children: Seq::empty(), content: Some(c@) },
        SerdeNode::Mapping(m) => Tree {
            name,
            is_dir: true,
            children: Seq::new(
                m.len() as nat,
                |i: int|
                    if 0 <= i < m.len() {
                        value_tree(m[i].0@, m[i].1)
                    } else {
                        arbitrary()
                    },
            ),
            content: None,
        },
    }
}

pub open spec fn mapping_trees(m: Seq<(String, SerdeNode)>) -> Seq<Tree> {
    m.map_values(|kv: (String, SerdeNode)| value_tree(kv.0@, kv.1))
}

/// The root of the tree that a decoded top-level mapping describes.
pub open spec fn mapping_root(m: Seq<(String, SerdeNode)>) -> Tree {
    Tree { name: Seq::empty(), is_dir: true, children: mapping_trees(m), content: None }
}

fn convert_entries(m: &Vec<(String, SerdeNode)>) -> (r: Vec<Node>)
    ensures
        node_views(r@) == mapping_trees(m@),
    decreases m, 0nat,
{
    let mut out: Vec<Node> = Vec::new();
    let mut i: usize = 0;
    while i < m.len()
        invariant
            i <= m.len(),
            node_views(out@) == mapping_trees(m@).take(i as int),
        decreases m.len() - i,
    {
        let (k, v) = &m[i];
        proof {
            assert(decreases_to!(m => m[i as int]));
        }
        let node = serde_to_node(k.clone(), v);
        assert(mapping_trees(m@)[i as int] == node@);
        let ghost before = node_views(out@);
        out.push(node);
        assert(node_views(out@) =~= before.push(node@));
        assert(mapping_trees(m@).take(i + 1) =~= mapping_trees(m@).take(i as int).push(
            mapping_trees(m@)[i as int],
        ));
        i = i + 1;
        assert(node_views(out@) =~= mapping_trees(m@).take(i as int));
    }
    assert(mapping_trees(m@).take(i as int) =~= mapping_trees(m@));
    out
}

/// Converts `name` bound to a decoded value into a node.
pub fn serde_to_node(name: String, snode: &SerdeNode) -> (r: Node)
    ensures
        r@ == value_tree(name@, *snode),
    decreases snode, 1nat,
{
    match snode {
        SerdeNode::Str(content) => Node::new_file(name, Some(content.clone())),
        SerdeNode::Mapping(m) => {
            let children = convert_entries(m);
            let ghost cv = node_views(children@);
            assert(cv.len() == children.len());
            let r = Node { name, node_type: NodeType::Dir, children, content: None };
            let ghost want = value_tree(name@, *snode);
            assert(want.children.len() == m.len());
            assert(r@.children.len() == m.len());
            assert forall|i: int| 0 <= i < m.len() implies #[trigger] r@.children[i] == value_tree(
                name@,
                *snode,
            ).children[i] by {
                assert(cv[i] == mapping_trees(m@)[i]);
                assert(cv[i] == r.children[i]@);
            }
            assert(r@.children =~= value_tree(name@, *snode).children);
            r
        },
    }
}

/// Converts `name` bound to a value decoded from TOML into a node.
pub fn parse_toml_node(name: String, snode: &SerdeNode) -> (r: Node)
    ensures
        r@ == value_tree(name@, *snode),
{
    serde_to_node(name, snode)
}

/// The root whose children are the nodes of a decoded top-level mapping, in
/// its order.
pub fn mapping_to_root(m: &Vec<(String, SerdeNode)>) -> (r: Node)
    ensures
        r@ == mapping_root(m@),
{
    let children = convert_entries(m);
    let r = Node { name: String::new(), node_type: NodeType::Dir, children, content: None };
    assert(r@.children =~= mapping_trees(m@));
    assert(r@.name =~= Seq::<char>::empty());
    r
}


/// The first backtick at or after `k`, or the end of `s`.
pub open spec fn backtick_from(s: Seq<char>, k: int) -> int
    decreases s.len() - k,
{
    if 0 <= k < s.len() && s[k] != '`' {
        backtick_from(s, k + 1)
    } else {
        k
    }
}

/// The backtick that closes the one at `i`, or the end of `s`.
pub open spec fn closing_of(s: Seq<char>, i: int) -> int {
    let j = backtick_from(s, i + 1);
    if i < j <= s.len() {
        j
    } else {
        s.len() as int
    }
}

/// `s` from position `i` on, with the body of each backtick literal dedented;
/// a literal that the text leaves open is closed.
pub open spec fn literals_from(s: Seq<char>, i: int) -> Seq<char>
    decreases s.len() - i,
{
    if 0 <= i < s.len() {
        if s[i] != '`' {
            seq![s[i]] + literals_from(s, i + 1)
        } else {
            let j = closing_of(s, i);
            let rest = if j < s.len() {
                literals_from(s, j + 1)
            } else {
                Seq::empty()
            };
            seq!['`'] + dedent_spec(s.subrange(i + 1, j)) + seq!['`'] + rest
        }
    } else {
        Seq::empty()
    }
}

/// The children of a well-formed mapping's root carry distinct names, the
/// keys of the mapping in its order.
pub proof fn lemma_unique_keys_distinct_names(m: Seq<(String, SerdeNode)>)
    requires
        keys_unique(m),
    ensures
        mapping_root(m).children.len() == m.len(),
        forall|i: int| 0 <= i < m.len() ==> #[trigger] mapping_root(m).children[i].name == m[i].0@,
        forall|i: int, j: int|
            0 <= i < j < m.len() ==> #[trigger] mapping_root(m).children[i].name
                != #[trigger] mapping_root(m).children[j].name,
{
}

fn slice_of(v: &Vec<char>, a: usize, b: usize) -> (r: Vec<char>)
    requires
        a <= b <= v.len(),
    ensures
        r@ == v@.subrange(a as int, b as int),
{
    let mut r: Vec<char> = Vec::new();
    let mut i = a;
    while i < b
        invariant
            a <= i <= b <= v.len(),
            r@ == v@.subrange(a as int, i as int),
        decreases b - i,
    {
        r.push(v[i]);
        i = i + 1;
        assert(r@ =~= v@.subrange(a as int, i as int));
    }
    r
}

/// Dedents the body of every backtick-delimited literal of `raw`, leaving
/// every character outside such literals as it is.
pub fn normalize_literals(raw: &str) -> (r: String)
    ensures
        r@ == literals_from(raw@, 0),
{
    let v = chars_of(raw);
    let n = v.len();
    let mut out: Vec<char> = Vec::new();
    let mut i: usize = 0;
    while i < n
        invariant
            i <= n == v.len(),
            v@ == raw@,
            literals_from(v@, 0) == out@ + literals_from(v@, i as int),
        decreases n - i,
    {
        let c = v[i];
        if c != '`' {
            out.push(c);
            assert(literals_from(v@, 0) =~= out@ + literals_from(v@, i + 1));
            i = i + 1;
        } else {
            let mut k = i + 1;
            while k < n && v[k] != '`'
                invariant
                    i < k <= n == v.len(),
                    backtick_from(v@, i + 1) == backtick_from(v@, k as int),
                decreases n - k,
            {
                k = k + 1;
            }
            assert(closing_of(v@, i as int) == k);
            let body = slice_of(&v, i + 1, k);
            let d = dedent(string_of(&body).as_str());
            let dc = chars_of(d.as_str());
            let ghost before = out@;
            out.push('`');
            push_from(&mut out, &dc, 0);
            out.push('`');
            assert(dc@.skip(0) =~= dc@);
            let next = if k < n { k + 1 } else { n };
            assert(out@ =~= before + (seq!['`'] + dedent_spec(v@.subrange(i + 1, k as int)) + seq!['`']));
            assert(literals_from(v@, 0) =~= out@ + literals_from(v@, next as int));
            i = next;
        }
    }
    assert(out@ + literals_from(v@, i as int) =~= out@);
    string_of(&out)
}

} // verus!
