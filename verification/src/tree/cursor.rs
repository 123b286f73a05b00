//! Cursors: positions in the syntax tree of a file.
use vstd::prelude::*;
use vstd::string::*;
use vstd::std_specs::cmp::PartialEqSpecImpl;
use crate::text::same_text;
use crate::tree::tracer::Trace;
use crate::tree::traverser::{Traversal, Step};
use crate::tree::file::{
    File, Node, first_child_of, next_sibling_of, parent_of, well_formed, node_ok, slice_text,
};

verus! {

/// The first node with `pred` among `c` and the siblings that follow it.
pub open spec fn chain_find(nodes: Seq<Node>, c: int, pred: spec_fn(Node) -> bool) -> Option<int>
    decreases nodes.len() - c,
{
    if 0 < c < nodes.len() && c < nodes[c].stop <= nodes.len() {
        if pred(nodes[c]) {
            Some(c)
        } else if next_sibling_of(nodes, c) is Some {
            chain_find(nodes, nodes[c].stop as int, pred)
        } else {
            None
        }
    } else {
        None
    }
}

/// The `n`-th named node (counting from 0) among `c` and the siblings that
/// follow it.
pub open spec fn chain_nth_named(nodes: Seq<Node>, c: int, n: nat) -> Option<int>
    decreases nodes.len() - c,
{
    if 0 < c < nodes.len() && c < nodes[c].stop <= nodes.len() {
        if nodes[c].named && n == 0 {
            Some(c)
        } else if next_sibling_of(nodes, c) is Some {
            chain_nth_named(
                nodes,
                nodes[c].stop as int,
                if nodes[c].named { (n - 1) as nat } else { n },
            )
        } else {
            None
        }
    } else {
        None
    }
}

/// The first child of node `i` with `pred`.
pub open spec fn child_find(nodes: Seq<Node>, i: int, pred: spec_fn(Node) -> bool) -> Option<int> {
    if first_child_of(nodes, i) is Some {
        chain_find(nodes, i + 1, pred)
    } else {
        None
    }
}

/// The `n`-th named child of node `i`, counting from 0.
pub open spec fn nth_named_child(nodes: Seq<Node>, i: int, n: nat) -> Option<int> {
    if first_child_of(nodes, i) is Some {
        chain_nth_named(nodes, i + 1, n)
    } else {
        None
    }
}

/// The number of named nodes among `c` and the siblings that follow it, as
/// far as they lie before `target`.
pub open spec fn named_before(nodes: Seq<Node>, c: int, target: int) -> nat
    decreases target - c,
{
    if 0 < c < target && c < nodes[c].stop {
        (if nodes[c].named { 1nat } else { 0nat }) + (if nodes[c].stop < target {
            named_before(nodes, nodes[c].stop as int, target)
        } else {
            0
        })
    } else {
        0
    }
}

/// The first index in `lo .. hi` whose node is named and has the kind `kind`.
pub open spec fn range_find_kind(nodes: Seq<Node>, lo: int, hi: int, kind: Seq<char>) -> Option<int>
    decreases hi - lo,
{
    if lo >= hi {
        None
    } else if nodes[lo].named && nodes[lo].kind@ == kind {
        Some(lo)
    } else {
        range_find_kind(nodes, lo + 1, hi, kind)
    }
}

/// The node that names node `i`: the node itself if its kind is `name`,
/// else its first child of that kind, else its first named descendant of
/// that kind in preorder.
pub open spec fn name_node(nodes: Seq<Node>, i: int) -> Option<int> {
    if nodes[i].kind@ == "name"@ {
        Some(i)
    } else {
        let child = child_find(nodes, i, |n: Node| n.kind@ == "name"@);
        if child is Some {
            child
        } else {
            range_find_kind(nodes, i + 1, nodes[i].stop as int, "name"@)
        }
    }
}

/// The position of node `i` among the named children of its parent.
pub open spec fn index_of(nodes: Seq<Node>, i: int) -> nat {
    if i > 0 {
        named_before(nodes, nodes[i].parent + 1, i)
    } else {
        0
    }
}

/// Whether the arena of the file of `cursor` is well formed and of a size
/// that the machine can hold.
pub open spec fn sound(cursor: Cursor) -> bool {
    well_formed(cursor.file().nodes()) && cursor.file().nodes().len() <= usize::MAX
}

/// A position in the syntax tree of a file.
#[derive(Clone, Copy)]
pub struct Cursor<'a> {
    file: &'a File,
    node: usize,
}

impl<'a> Cursor<'a> {
    /// Holds of every cursor: it stands on a node of its file, whose tree
    /// is well formed.
    #[verifier::type_invariant]
    pub open spec fn inv(self) -> bool {
        &&& 0 <= self.index() < self.file().nodes().len()
        &&& self.file().nodes().len() <= usize::MAX
        &&& well_formed(self.file().nodes())
    }

    /// The file that the cursor walks.
    pub closed spec fn file(self) -> File {
        *self.file
    }

    /// The index of the node that the cursor stands on.
    pub closed spec fn index(self) -> int {
        self.node as int
    }

    /// What identifies the cursor: the name of its file and the index of its
    /// node.
    pub open spec fn key(self) -> (Seq<char>, int) {
        (self.file().name_spec(), self.index())
    }

    /// The node that the cursor stands on.
    pub open spec fn node(self) -> Node {
        self.file().nodes()[self.index()]
    }

    /// The text of the node that the cursor stands on.
    pub open spec fn text(self) -> Seq<char> {
        self.file().node_text(self.index())
    }

    /// The cursor of the same file that stands on node `i`.
    pub open spec fn moved_to(self, other: Cursor<'a>, i: int) -> bool {
        other.file() == self.file() && other.index() == i
    }

    /// The cursor on the root of `file`.
    pub closed spec fn root(file: &'a File) -> Cursor<'a> {
        Cursor { file, node: 0 }
    }

    /// The cursor on the root of a file stands in that file, on node 0.
    pub proof fn lemma_root(file: &'a File, other: Cursor<'a>)
        ensures
            Cursor::root(file).file() == *file,
            Cursor::root(file).index() == 0,
            other.file() == *file && other.index() == 0 ==> other == Cursor::root(file),
    {
    }

    /// The cursor of the same file on node `i`.
    pub closed spec fn jump(self, i: int) -> Cursor<'a> {
        Cursor { file: self.file, node: i as usize }
    }

    /// A cursor is told by its file and the index of its node.
    pub proof fn lemma_jump(self, other: Cursor<'a>, i: int)
        requires
            self.moved_to(other, i),
        ensures
            other == self.jump(i),
            self.jump(i).file() == self.file(),
            self.jump(i).index() == i,
    {
    }

    /// The index of a node is a machine word.
    pub proof fn lemma_index_bounds(self)
        ensures
            0 <= self.index() <= usize::MAX,
    {
    }

    /// The cursor on a node of a file stands in that file and on that
    /// node.
    pub proof fn lemma_jump_lands(self, i: int)
        requires
            0 <= i < self.file().nodes().len(),
            self.file().nodes().len() <= usize::MAX,
        ensures
            self.jump(i).file() == self.file(),
            self.jump(i).index() == i,
    {
    }

    /// A cursor on the root of `file`.
    pub fn from_file(file: &'a File) -> (cursor: Cursor<'a>)
        ensures
            cursor.file() == *file,
            cursor.index() == 0,
    {
        proof {
            use_type_invariant(file);
        }
        let size = file.tree().len();
        Cursor { file, node: 0 }
    }

    /// A cursor on node `index` of `file`, if the file has such a node.
    pub fn new(file: &'a File, index: usize) -> (cursor: Option<Cursor<'a>>)
        ensures
            cursor is Some <==> index < file.nodes().len(),
            cursor is Some ==> cursor->0.file() == *file && cursor->0.index() == index,
    {
        proof {
            use_type_invariant(file);
        }
        if index < file.tree().len() {
            Some(Cursor { file, node: index })
        } else {
            None
        }
    }

    /// The file that the cursor walks.
    pub fn file_ref(&self) -> (file: &'a File)
        ensures
            *file == self.file(),
    {
        self.file
    }

    /// The index of the node that the cursor stands on.
    pub fn raw_cursor(&self) -> (index: usize)
        ensures
            index == self.index(),
            index < self.file().nodes().len(),
    {
        proof {
            use_type_invariant(self);
        }
        self.node
    }

    fn data(&self) -> (node: &'a Node)
        ensures
            *node == self.node(),
    {
        proof {
            use_type_invariant(self);
        }
        self.file.tree().node(self.node)
    }

    /// The name of the file that the cursor walks.
    pub fn filename(&self) -> (name: String)
        ensures
            name@ == self.file().name_spec(),
    {
        self.file.name()
    }

    /// The kind of the node.
    pub fn kind(&self) -> (kind: &'a str)
        ensures
            kind@ == self.node().kind@,
    {
        self.data().kind.as_str()
    }

    /// The field under which the node hangs from its parent, if any.
    pub fn field(&self) -> (field: Option<&'a str>)
        ensures
            field is Some <==> self.node().field is Some,
            field is Some ==> field->0@ == self.node().field->0@,
    {
        match &self.data().field {
            Some(f) => Some(f.as_str()),
            None => None,
        }
    }

    /// Whether the node is a named node of the grammar.
    pub fn is_named(&self) -> (named: bool)
        ensures
            named == self.node().named,
    {
        self.data().named
    }

    /// One past the last index of the node's subtree.
    pub fn stop(&self) -> (stop: usize)
        ensures
            stop == self.node().stop,
            self.index() < stop <= self.file().nodes().len(),
    {
        proof {
            use_type_invariant(self);
            use_type_invariant(self.file);
            assert(node_ok(self.file().nodes(), self.index()));
        }
        self.data().stop
    }

    /// Whether the two cursors stand on the same node of files of the same
    /// name.
    pub fn same(&self, other: &Cursor<'a>) -> (same: bool)
        ensures
            same == (self.key() == other.key()),
    {
        self.node == other.node && same_text(self.file.name_ref(), other.file.name_ref())
    }

    /// Moves to the parent; stays where it is on the root.
    pub fn goto_parent(&mut self) -> (moved: bool)
        ensures
            moved == (parent_of(old(self).file().nodes(), old(self).index()) is Some),
            moved ==> old(self).moved_to(*final(self), parent_of(old(self).file().nodes(), old(self).index())->0),
            !moved ==> *final(self) == *old(self),
    {
        proof {
            use_type_invariant(&*self);
            use_type_invariant(self.file);
            assert(node_ok(self.file().nodes(), self.index()));
        }
        if self.node > 0 {
            self.node = self.data().parent;
            true
        } else {
            false
        }
    }

    /// Moves to the first child; stays where it is if there is none.
    pub fn goto_first_child(&mut self) -> (moved: bool)
        ensures
            moved == (first_child_of(old(self).file().nodes(), old(self).index()) is Some),
            moved ==> old(self).moved_to(*final(self), old(self).index() + 1),
            !moved ==> *final(self) == *old(self),
    {
        proof {
            use_type_invariant(&*self);
            use_type_invariant(self.file);
            assert(node_ok(self.file().nodes(), self.index()));
        }
        if self.node + 1 < self.data().stop {
            self.node = self.node + 1;
            true
        } else {
            false
        }
    }

    /// Moves to the next sibling; stays where it is if there is none.
    pub fn goto_next_sibling(&mut self) -> (moved: bool)
        ensures
            moved == (next_sibling_of(old(self).file().nodes(), old(self).index()) is Some),
            moved ==> old(self).moved_to(*final(self), old(self).node().stop as int),
            !moved ==> *final(self) == *old(self),
    {
        proof {
            use_type_invariant(&*self);
            use_type_invariant(self.file);
            assert(node_ok(self.file().nodes(), self.index()));
        }
        if self.node > 0 {
            let stop = self.data().stop;
            let parent = self.data().parent;
            if stop < self.file.tree().node(parent).stop {
                self.node = stop;
                return true;
            }
        }
        false
    }

    /// Moves to the `index`-th named child; stays where it is if there is
    /// none.
    #[verifier::loop_isolation(false)]
    pub fn goto_child(&mut self, index: usize) -> (moved: bool)
        ensures
            moved == (nth_named_child(old(self).file().nodes(), old(self).index(), index as nat) is Some),
            moved ==> old(self).moved_to(
                *final(self),
                nth_named_child(old(self).file().nodes(), old(self).index(), index as nat)->0,
            ),
            !moved ==> *final(self) == *old(self),
    {
        proof {
            use_type_invariant(&*self);
            use_type_invariant(self.file);
            assert(node_ok(self.file().nodes(), self.index()));
        }
        let mut cur = *self;
        if !cur.goto_first_child() {
            proof {
                use_type_invariant(&*self);
                use_type_invariant(self.file);
                assert(node_ok(self.file().nodes(), self.index()));
            }
            return false;
        }
        let mut left = index;
        let ghost nodes = self.file().nodes();
        let ghost goal = chain_nth_named(nodes, self.index() + 1, index as nat);
        loop
            invariant
                cur.file() == self.file(),
                nodes == self.file().nodes(),
                well_formed(nodes),
                0 < cur.index() < nodes.len(),
                chain_nth_named(nodes, cur.index(), left as nat) == goal,
                *self == *old(self),
            decreases nodes.len() - cur.index(),
        {
            proof {
                assert(node_ok(nodes, cur.index()));
            }
            if cur.is_named() {
                if left == 0 {
                    *self = cur;
                    return true;
                }
                left -= 1;
            }
            if !cur.goto_next_sibling() {
                return false;
            }
        }
    }

    /// Moves to the first child that hangs under the field `field`; stays
    /// where it is if there is none.
    #[verifier::loop_isolation(false)]
    pub fn goto_field(&mut self, field: &str) -> (moved: bool)
        ensures
            moved == (child_find(
                old(self).file().nodes(),
                old(self).index(),
                |n: Node| n.field is Some && n.field->0@ == field@,
            ) is Some),
            moved ==> old(self).moved_to(
                *final(self),
                child_find(
                    old(self).file().nodes(),
                    old(self).index(),
                    |n: Node| n.field is Some && n.field->0@ == field@,
                )->0,
            ),
            !moved ==> *final(self) == *old(self),
    {
        proof {
            use_type_invariant(&*self);
            use_type_invariant(self.file);
            assert(node_ok(self.file().nodes(), self.index()));
        }
        let mut cur = *self;
        if !cur.goto_first_child() {
            return false;
        }
        let ghost nodes = self.file().nodes();
        let ghost pred = |n: Node| n.field is Some && n.field->0@ == field@;
        let ghost goal = chain_find(nodes, self.index() + 1, pred);
        proof {
            use_type_invariant(self.file);
        }
        loop
            invariant
                cur.file() == self.file(),
                nodes == self.file().nodes(),
                well_formed(nodes),
                0 < cur.index() < nodes.len(),
                pred == (|n: Node| n.field is Some && n.field->0@ == field@),
                chain_find(nodes, cur.index(), pred) == goal,
                *self == *old(self),
            decreases nodes.len() - cur.index(),
        {
            proof {
                assert(node_ok(nodes, cur.index()));
            }
            if crate::text::is_text(cur.field(), field) {
                *self = cur;
                return true;
            }
            if !cur.goto_next_sibling() {
                return false;
            }
        }
    }

    /// The cursor's first child of kind `name`, if any.
    #[verifier::loop_isolation(false)]
    fn name_child(&self) -> (found: Option<Cursor<'a>>)
        ensures
            found is Some <==> child_find(
                self.file().nodes(),
                self.index(),
                |n: Node| n.kind@ == "name"@,
            ) is Some,
            found is Some ==> self.moved_to(
                found->0,
                child_find(self.file().nodes(), self.index(), |n: Node| n.kind@ == "name"@)->0,
            ),
    {
        proof {
            use_type_invariant(&*self);
            use_type_invariant(self.file);
            assert(node_ok(self.file().nodes(), self.index()));
        }
        let mut cur = *self;
        if !cur.goto_first_child() {
            return None;
        }
        let ghost nodes = self.file().nodes();
        let ghost pred = |n: Node| n.kind@ == "name"@;
        let ghost goal = chain_find(nodes, self.index() + 1, pred);
        proof {
            use_type_invariant(self.file);
        }
        loop
            invariant
                cur.file() == self.file(),
                nodes == self.file().nodes(),
                well_formed(nodes),
                0 < cur.index() < nodes.len(),
                pred == (|n: Node| n.kind@ == "name"@),
                chain_find(nodes, cur.index(), pred) == goal,
            decreases nodes.len() - cur.index(),
        {
            proof {
                assert(node_ok(nodes, cur.index()));
            }
            if same_text(cur.kind(), "name") {
                return Some(cur);
            }
            if !cur.goto_next_sibling() {
                return None;
            }
        }
    }

    /// The first named node of kind `kind` below the cursor, in preorder.
    #[verifier::loop_isolation(false)]
    pub fn find_below(&self, kind: &str) -> (found: Option<Cursor<'a>>)
        ensures
            found is Some <==> range_find_kind(
                self.file().nodes(),
                self.index() + 1,
                self.node().stop as int,
                kind@,
            ) is Some,
            found is Some ==> self.moved_to(
                found->0,
                range_find_kind(self.file().nodes(), self.index() + 1, self.node().stop as int, kind@)->0,
            ),
    {
        proof {
            use_type_invariant(self);
            use_type_invariant(self.file);
        }
        let stop = self.stop();
        let mut j = self.node + 1;
        let ghost nodes = self.file().nodes();
        let ghost goal = range_find_kind(nodes, self.index() + 1, stop as int, kind@);
        while j < stop
            invariant
                self.index() < j <= stop <= nodes.len(),
                nodes == self.file().nodes(),
                range_find_kind(nodes, j as int, stop as int, kind@) == goal,
            decreases stop - j,
        {
            let cur = Cursor { file: self.file, node: j };
            if cur.is_named() && same_text(cur.kind(), kind) {
                return Some(cur);
            }
            j += 1;
        }
        None
    }

    /// The cursor that names this one, if any.
    pub fn name_cursor(&self) -> (found: Option<Cursor<'a>>)
        ensures
            found is Some <==> name_node(self.file().nodes(), self.index()) is Some,
            found is Some ==> self.moved_to(found->0, name_node(self.file().nodes(), self.index())->0),
    {
        if same_text(self.kind(), "name") {
            return Some(*self);
        }
        match self.name_child() {
            Some(c) => Some(c),
            None => self.find_below("name"),
        }
    }

    /// The name of the node: the text of the node that names it.
    pub fn name(&self) -> (name: Option<String>)
        ensures
            name is Some <==> self.name_spec() is Some,
            name is Some ==> name->0@ == self.name_spec()->0,
    {
        match self.name_cursor() {
            Some(c) => Some(c.to_string()),
            None => None,
        }
    }

    /// The name of the node, where it has one.
    pub open spec fn name_spec(self) -> Option<Seq<char>> {
        match name_node(self.file().nodes(), self.index()) {
            Some(j) => Some(self.file().node_text(j)),
            None => None,
        }
    }

    /// The position of the node among the named children of its parent.
    #[verifier::loop_isolation(false)]
    pub fn get_index(&self) -> (index: usize)
        ensures
            index == index_of(self.file().nodes(), self.index()),
    {
        proof {
            use_type_invariant(self);
            use_type_invariant(self.file);
            assert(node_ok(self.file().nodes(), self.index()));
        }
        if self.node == 0 {
            return 0;
        }
        let target = self.node;
        let mut c = self.data().parent + 1;
        let mut index: usize = 0;
        let ghost nodes = self.file().nodes();
        let ghost first = c as int;
        while c < target
            invariant
                0 < first <= c,
                target == self.index(),
                target < nodes.len(),
                nodes == self.file().nodes(),
                well_formed(nodes),
                index <= c,
                index + named_before(nodes, c as int, target as int) == named_before(
                    nodes,
                    first,
                    target as int,
                ),
            decreases nodes.len() - c,
        {
            proof {
                assert(node_ok(nodes, c as int));
            }
            let n = self.file.tree().node(c);
            if n.named {
                index += 1;
            }
            c = n.stop;
        }
        index
    }

    /// A traversal of the named nodes under the cursor.
    pub fn traverse(&self) -> (t: Traversal<'a>)
        ensures
            t.start() == *self,
            t.file() == self.file(),
            t.bounds() == Seq::<&str>::empty(),
            !t.concrete(),
            t.step() == Step::Enter(self.index()),
            t.entered() is None,
    {
        Traversal::new(*self)
    }

    /// A traversal of the named nodes under the cursor that does not go
    /// into the function and method declarations below it.
    pub fn traverse_block(&self) -> (t: Traversal<'a>)
        ensures
            t.start() == *self,
            t.file() == self.file(),
            t.bounds() == seq!["method_declaration", "function_definition"],
            !t.concrete(),
            t.step() == Step::Enter(self.index()),
            t.entered() is None,
    {
        let mut bounds: Vec<&'a str> = Vec::new();
        bounds.push("method_declaration");
        bounds.push("function_definition");
        assert(bounds@ =~= seq!["method_declaration", "function_definition"]);
        Traversal::new_block(*self, bounds)
    }

    /// The ancestors of the cursor, nearest first.
    pub fn trace(&self) -> (t: Trace<'a>)
        ensures
            t.position() == *self,
    {
        Trace::new(*self)
    }

    /// The source text of the node.
    pub fn to_str(&self) -> (text: &'a str)
        ensures
            text@ == self.text(),
    {
        let n = self.data();
        slice_text(self.file.get_source(), n.start, n.end)
    }

    /// The source text of the node.
    pub fn to_string(&self) -> (text: String)
        ensures
            text@ == self.text(),
    {
        self.to_str().to_owned()
    }
}

impl<'a> PartialEq for Cursor<'a> {
    fn eq(&self, other: &Self) -> (same: bool) {
        self.same(other)
    }
}

impl<'a> PartialEqSpecImpl for Cursor<'a> {
    open spec fn obeys_eq_spec() -> bool {
        true
    }

    open spec fn eq_spec(&self, other: &Self) -> bool {
        self.key() == other.key()
    }
}

impl<'a> Eq for Cursor<'a> {

}

impl<'a> std::hash::Hash for Cursor<'a> {
    /// Feeds what identifies the cursor to `state`: the name of its file
    /// and the index of its node, each by `std::hash::Hash::hash`.
    #[verifier::external_body]
    fn hash<H: std::hash::Hasher>(&self, state: &mut H) {
        std::hash::Hash::hash(self.file.name_ref(), state);
        std::hash::Hash::hash(&self.node, state);
    }
}

impl<'a> crate::keyed::Keyed for Cursor<'a> {
    type K = (Seq<char>, int);

    open spec fn key_of(&self) -> (Seq<char>, int) {
        self.key()
    }

    fn same_key(&self, other: &Self) -> (same: bool) {
        self.same(other)
    }

    fn duplicate(&self) -> (copy: Self) {
        *self
    }
}

} // verus!
