//! Source files and their syntax trees.
//!
//! A tree is stored as an arena in preorder: node `0` is the root, the
//! subtree of node `i` occupies the indices `i .. stop(i)`, the first child
//! of `i` (if any) is `i + 1` and the next sibling of `i` (if any) is
//! `stop(i)`.
use vstd::prelude::*;
use vstd::utf8::*;
use vstd::string::*;

verus! {

broadcast use vstd::utf8::group_utf8_lib;

/// One node of a syntax tree.
pub struct Node {
    /// The grammar symbol of the node.
    pub kind: String,
    /// The field name under which the node hangs from its parent, if any.
    pub field: Option<String>,
    /// Whether the node is a named node of the grammar (as opposed to a token).
    pub named: bool,
    /// First byte of the node's text in the source.
    pub start: usize,
    /// One past the last byte of the node's text in the source.
    pub end: usize,
    /// Index of the parent node; the root is its own parent.
    pub parent: usize,
    /// One past the last index of the node's subtree.
    pub stop: usize,
}

impl Node {
    /// A node of the parts given.
    pub fn new(
        kind: String,
        field: Option<String>,
        named: bool,
        start: usize,
        end: usize,
        parent: usize,
        stop: usize,
    ) -> (node: Node)
        ensures
            node == (Node { kind, field, named, start, end, parent, stop }),
    {
        Node { kind, field, named, start, end, parent, stop }
    }
}

/// The conditions that node `j` of `nodes` must meet in a preorder arena.
pub open spec fn node_ok(nodes: Seq<Node>, j: int) -> bool {
    let p = nodes[j].parent as int;
    let s = nodes[j].stop as int;
    &&& j < s <= nodes.len()
    &&& j == 0 ==> p == 0 && s == nodes.len()
    &&& j > 0 ==> p < j && j < nodes[p].stop && s <= nodes[p].stop
    &&& j + 1 < s ==> nodes[j + 1].parent == j
    &&& j > 0 && s < nodes[p].stop ==> s < nodes.len() && nodes[s].parent == p
}

/// `nodes` is a tree laid out in preorder.
pub open spec fn well_formed(nodes: Seq<Node>) -> bool {
    &&& nodes.len() >= 1
    &&& forall|j: int| 0 <= j < nodes.len() ==> #[trigger] node_ok(nodes, j)
}

/// The first child of node `i`, if it has one.
pub open spec fn first_child_of(nodes: Seq<Node>, i: int) -> Option<int> {
    if i + 1 < nodes[i].stop {
        Some(i + 1)
    } else {
        None
    }
}

/// The next sibling of node `i`, if it has one.
pub open spec fn next_sibling_of(nodes: Seq<Node>, i: int) -> Option<int> {
    if i > 0 && nodes[i].stop < nodes[nodes[i].parent as int].stop {
        Some(nodes[i].stop as int)
    } else {
        None
    }
}

/// The parent of node `i`, if it is not the root.
pub open spec fn parent_of(nodes: Seq<Node>, i: int) -> Option<int> {
    if i > 0 {
        Some(nodes[i].parent as int)
    } else {
        None
    }
}

/// In a well-formed arena subtrees nest: a node that lies inside the index
/// range of `i` has its parent and its whole subtree inside that range too.
pub proof fn lemma_subtrees_nest(nodes: Seq<Node>, i: int, j: int)
    requires
        well_formed(nodes),
        0 <= i < j < nodes[i].stop,
        i < nodes.len(),
    ensures
        i <= nodes[j].parent < j,
        nodes[j].stop <= nodes[i].stop,
    decreases j, 1int, 0int,
{
    let k = j - 1;
    assert(node_ok(nodes, i));
    assert(node_ok(nodes, j));
    assert(node_ok(nodes, k));
    if j < nodes[k].stop {
        if k > i {
            lemma_subtrees_nest(nodes, i, k);
        }
    } else {
        lemma_climb(nodes, i, k, j);
    }
}

proof fn lemma_climb(nodes: Seq<Node>, i: int, a: int, j: int)
    requires
        well_formed(nodes),
        0 <= i < a < j < nodes[i].stop,
        i < nodes.len(),
        nodes[a].stop == j,
    ensures
        i <= nodes[j].parent < j,
        nodes[j].stop <= nodes[i].stop,
    decreases j, 0int, a,
{
    let p = nodes[a].parent as int;
    assert(node_ok(nodes, i));
    assert(node_ok(nodes, j));
    assert(node_ok(nodes, a));
    lemma_subtrees_nest(nodes, i, a);
    assert(node_ok(nodes, p));
    if nodes[a].stop < nodes[p].stop {
        if p > i {
            lemma_subtrees_nest(nodes, i, p);
        }
    } else {
        lemma_climb(nodes, i, p, j);
    }
}

/// A syntax tree: a well-formed preorder arena of nodes.
pub struct SyntaxTree {
    nodes: Vec<Node>,
}

impl View for SyntaxTree {
    type V = Seq<Node>;

    closed spec fn view(&self) -> Seq<Node> {
        self.nodes@
    }
}

fn check_node(nodes: &Vec<Node>, j: usize) -> (ok: bool)
    requires
        j < nodes.len(),
    ensures
        ok == node_ok(nodes@, j as int),
{
    let n = nodes.len();
    let p = nodes[j].parent;
    let s = nodes[j].stop;
    if !(j < s && s <= n) {
        return false;
    }
    if j == 0 {
        if !(p == 0 && s == n) {
            return false;
        }
    } else {
        if !(p < j && j < nodes[p].stop && s <= nodes[p].stop) {
            return false;
        }
        if s < nodes[p].stop && (s >= n || nodes[s].parent != p) {
            return false;
        }
    }
    if j + 1 < s && nodes[j + 1].parent != j {
        return false;
    }
    true
}

impl SyntaxTree {
    /// Holds of every tree: its arena is well formed.
    #[verifier::type_invariant]
    pub open spec fn inv(self) -> bool {
        well_formed(self@)
    }

    /// Makes a tree of `nodes`, which must be a well-formed preorder arena.
    pub fn new(nodes: Vec<Node>) -> (tree: Option<SyntaxTree>)
        ensures
            tree is Some <==> well_formed(nodes@),
            tree is Some ==> tree->0@ == nodes@,
    {
        let n = nodes.len();
        if n == 0 {
            return None;
        }
        let mut j: usize = 0;
        while j < n
            invariant
                n == nodes.len(),
                j <= n,
                forall|k: int| 0 <= k < j ==> #[trigger] node_ok(nodes@, k),
            decreases n - j,
        {
            if !check_node(&nodes, j) {
                return None;
            }
            j += 1;
        }
        Some(SyntaxTree { nodes })
    }

    /// The number of nodes.
    pub fn len(&self) -> (n: usize)
        ensures
            n == self@.len(),
            n >= 1,
    {
        proof {
            use_type_invariant(self);
        }
        self.nodes.len()
    }

    /// The node at index `i`.
    pub fn node(&self, i: usize) -> (node: &Node)
        requires
            i < self@.len(),
        ensures
            *node == self@[i as int],
    {
        &self.nodes[i]
    }
}

/// Whether `start .. end` is a range of whole characters of the UTF-8 text
/// `bytes`.
pub open spec fn range_ok(bytes: Seq<u8>, start: int, end: int) -> bool {
    &&& 0 <= start <= end <= bytes.len()
    &&& is_char_boundary(bytes, end)
    &&& is_char_boundary(bytes.subrange(0, end), start)
}

/// The text that the byte range `start .. end` of `source` holds; empty
/// where the range does not delimit whole characters of the source.
pub open spec fn text_of(source: Seq<char>, start: int, end: int) -> Seq<char> {
    let bytes = encode_utf8(source);
    if range_ok(bytes, start, end) {
        decode_utf8(bytes.subrange(start, end))
    } else {
        Seq::empty()
    }
}

/// The byte range `start .. end` of `source` as text.
pub fn slice_text(source: &str, start: usize, end: usize) -> (text: &str)
    ensures
        text@ == text_of(source@, start as int, end as int),
{
    proof {
        reveal_strlit("");
        assert(""@ =~= Seq::<char>::empty());
    }
    let ghost bytes = encode_utf8(source@);
    let len = source.as_bytes().len();
    if start <= end && end <= len && source.is_char_boundary(end) {
        let (head, _) = source.split_at(end);
        assert(head.spec_bytes() == bytes.subrange(0, end as int));
        if head.is_char_boundary(start) {
            let (_, text) = head.split_at(start);
            assert(text.spec_bytes() == bytes.subrange(start as int, end as int));
            assert(decode_utf8(encode_utf8(text@)) == text@);
            text
        } else {
            ""
        }
    } else {
        ""
    }
}

/// A source file: its name, its text and its syntax tree.
pub struct File {
    name: String,
    source: String,
    tree: SyntaxTree,
}

impl File {
    /// Puts a file together from its parts.
    pub fn from_tree(name: &str, tree: SyntaxTree, source: String) -> (file: File)
        ensures
            file.name_spec() == name@,
            file.source_spec() == source@,
            file.nodes() == tree@,
    {
        proof {
            use_type_invariant(&tree);
        }
        File { name: name.to_owned(), source, tree }
    }

    /// The file's name, by which it is identified.
    pub closed spec fn name_spec(&self) -> Seq<char> {
        self.name@
    }

    /// The file's text.
    pub closed spec fn source_spec(&self) -> Seq<char> {
        self.source@
    }

    /// The nodes of the file's syntax tree.
    pub closed spec fn nodes(&self) -> Seq<Node> {
        self.tree@
    }

    /// The text of node `i`.
    pub open spec fn node_text(&self, i: int) -> Seq<char> {
        text_of(self.source_spec(), self.nodes()[i].start as int, self.nodes()[i].end as int)
    }

    /// Holds of every file: the arena of its tree is well formed.
    #[verifier::type_invariant]
    pub open spec fn inv(self) -> bool {
        well_formed(self.nodes())
    }

    /// The file's name.
    pub fn name(&self) -> (name: String)
        ensures
            name@ == self.name_spec(),
    {
        self.name.clone()
    }

    /// The file's name.
    pub fn name_ref(&self) -> (name: &str)
        ensures
            name@ == self.name_spec(),
    {
        self.name.as_str()
    }

    /// The file's text.
    pub fn get_source(&self) -> (source: &str)
        ensures
            source@ == self.source_spec(),
    {
        self.source.as_str()
    }

    /// A cursor on the root of the file's tree.
    pub fn cursor(&self) -> (cursor: crate::tree::cursor::Cursor<'_>)
        ensures
            cursor.file() == *self,
            cursor.index() == 0,
    {
        crate::tree::cursor::Cursor::from_file(self)
    }

    /// A traversal of the named nodes of the file.
    pub fn traverse(&self) -> (t: crate::tree::traverser::Traversal<'_>)
        ensures
            t.file() == *self,
            t.start().index() == 0,
            t.start().file() == *self,
            t.bounds() == Seq::<&str>::empty(),
            !t.concrete(),
            t.step() == crate::tree::traverser::Step::Enter(0),
            t.entered() is None,
    {
        crate::tree::traverser::Traversal::new(self.cursor())
    }

    /// The file's syntax tree.
    pub fn tree(&self) -> (tree: &SyntaxTree)
        ensures
            tree@ == self.nodes(),
    {
        &self.tree
    }
}

} // verus!
