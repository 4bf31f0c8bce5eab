use vstd::prelude::*;

verus! {

/// Whether a node is a directory or a file.
#[derive(Debug, Clone, Copy, PartialEq, Eq, Structural)]
pub enum NodeType {
    Dir,
    File,
}

/// One node of the canonical tree.
#[derive(Debug)]
pub struct Node {
    pub name: String,
    pub node_type: NodeType,
    pub children: Vec<Node>,
    pub content: Option<String>,
}

/// The mathematical value of a node.
pub struct Tree {
    pub name: Seq<char>,
    pub is_dir: bool,
    pub children: Seq<Tree>,
    pub content: Option<Seq<char>>,
}

pub open spec fn opt_view(o: Option<String>) -> Option<Seq<char>> {
    match o {
        Some(s) => Some(s@),
        None => None,
    }
}

impl Node {
    pub open spec fn view(&self) -> Tree
        decreases self,
    {
        Tree {
            name: self.name@,
            is_dir: self.node_type == NodeType::Dir,
            children: Seq::new(
                self.children.len() as nat,
                |i: int|
                    if 0 <= i < self.children.len() {
                        self.children[i].view()
                    } else {
                        arbitrary()
                    },
            ),
            content: opt_view(self.content),
        }
    }

    /// A file node with the given name and optional content.
    pub fn new_file(name: String, content: Option<String>) -> (r: Node)
        ensures
            r@ == (Tree { name: name@, is_dir: false, children: seq![], content: opt_view(content) }),
    {
        let r = Node { name, node_type: NodeType::File, children: Vec::new(), content };
        assert(r@.children =~= seq![]);
        r
    }

    /// An empty directory node with the given name.
    pub fn new_dir(name: String) -> (r: Node)
        ensures
            r@ == (Tree { name: name@, is_dir: true, children: seq![], content: None }),
    {
        let r = Node { name, node_type: NodeType::Dir, children: Vec::new(), content: None };
        assert(r@.children =~= seq![]);
        r
    }
}

} // verus!

verus! {

pub open spec fn node_views(v: Seq<Node>) -> Seq<Tree> {
    v.map_values(|n: Node| n@)
}

} // verus!

verus! {

/// `a` with the children of `b` after its own.
pub open spec fn merged(a: Tree, b: Tree) -> Tree {
    Tree { children: a.children + b.children, ..a }
}

impl Node {
    /// Moves the children of `other` after those of `self`; none is dropped,
    /// even where names repeat.
    pub fn merge_children(&mut self, other: Node)
        ensures
            final(self)@ == merged(old(self)@, other@),
    {
        let ghost a = self.children@;
        let ghost b = other.children@;
        let ghost old_view = self@;
        let ghost other_view = other@;
        let mut rest = other;
        self.children.append(&mut rest.children);
        assert(self.children@ == a + b);
        assert forall|i: int| 0 <= i < a.len() + b.len() implies #[trigger] self@.children[i] == (
        old_view.children + other_view.children)[i] by {
            if i < a.len() {
                assert(old_view.children[i] == a[i]@);
            } else {
                assert(other_view.children[i - a.len()] == b[i - a.len()]@);
            }
        }
        assert(self@.children =~= old_view.children + other_view.children);
    }
}

} // verus!
