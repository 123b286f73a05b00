//! Parsing PHP source into syntax trees.
//!
//! The parser itself is tree-sitter with its PHP grammar. What it hands out
//! is walked once and copied into an arena; whether the result is a
//! well-formed tree is checked, not assumed.
use vstd::prelude::*;
use vstd::string::*;
use crate::tree::file::{File, Node, SyntaxTree};

verus! {

/// The parser of tree-sitter.
#[verifier::external_type_specification]
#[verifier::external_body]
pub struct ExParser(tree_sitter::Parser);

/// The syntax tree that tree-sitter hands out.
#[verifier::external_type_specification]
#[verifier::external_body]
pub struct ExTree(tree_sitter::Tree);

/// The cursor with which a tree of tree-sitter is walked.
#[verifier::external_type_specification]
#[verifier::external_body]
pub struct ExTreeCursor<'tree>(tree_sitter::TreeCursor<'tree>);

/// A parser without a grammar: `tree_sitter::Parser::new`.
#[verifier::external_body]
fn new_parser() -> tree_sitter::Parser {
    tree_sitter::Parser::new()
}

/// Gives the parser the grammar `tree_sitter_php::LANGUAGE_PHP` with
/// `tree_sitter::Parser::set_language`, and says whether it took it.
/// Nothing is claimed of the result.
#[verifier::external_body]
fn use_php(parser: &mut tree_sitter::Parser) -> bool {
    parser.set_language(&tree_sitter_php::LANGUAGE_PHP.into()).is_ok()
}

/// Parses `source` from scratch: `tree_sitter::Parser::parse` without an
/// old tree. Nothing is claimed of the result; it is `None` where the
/// parser has no grammar.
#[verifier::external_body]
fn run_parser(parser: &mut tree_sitter::Parser, source: &str) -> Option<tree_sitter::Tree> {
    parser.parse(source, None)
}

/// A cursor on the root of `tree`: `tree_sitter::Tree::walk`.
#[verifier::external_body]
fn walk<'tree>(tree: &'tree tree_sitter::Tree) -> tree_sitter::TreeCursor<'tree> {
    tree.walk()
}

/// Moves to the first child, if there is one:
/// `tree_sitter::TreeCursor::goto_first_child`. Nothing is claimed of the
/// result.
#[verifier::external_body]
fn goto_first_child(cursor: &mut tree_sitter::TreeCursor) -> bool {
    cursor.goto_first_child()
}

/// Moves to the next sibling, if there is one:
/// `tree_sitter::TreeCursor::goto_next_sibling`. Nothing is claimed of the
/// result.
#[verifier::external_body]
fn goto_next_sibling(cursor: &mut tree_sitter::TreeCursor) -> bool {
    cursor.goto_next_sibling()
}

/// Moves to the parent, if there is one:
/// `tree_sitter::TreeCursor::goto_parent`. Nothing is claimed of the
/// result.
#[verifier::external_body]
fn goto_parent(cursor: &mut tree_sitter::TreeCursor) -> bool {
    cursor.goto_parent()
}

/// The field under which the node under the cursor hangs:
/// `tree_sitter::TreeCursor::field_name`.
#[verifier::external_body]
fn field_of(cursor: &tree_sitter::TreeCursor) -> Option<String> {
    cursor.field_name().map(|name| name.to_string())
}

/// The kind of the node under the cursor: `tree_sitter::Node::kind` of
/// `tree_sitter::TreeCursor::node`, which has a kind for every node of a
/// tree.
#[verifier::external_body]
fn kind_of(cursor: &tree_sitter::TreeCursor) -> String {
    cursor.node().kind().to_string()
}

/// Whether the node under the cursor is named:
/// `tree_sitter::Node::is_named` of `tree_sitter::TreeCursor::node`.
#[verifier::external_body]
fn named_of(cursor: &tree_sitter::TreeCursor) -> bool {
    cursor.node().is_named()
}

/// The first byte of the node under the cursor:
/// `tree_sitter::Node::start_byte` of `tree_sitter::TreeCursor::node`.
#[verifier::external_body]
fn start_of(cursor: &tree_sitter::TreeCursor) -> usize {
    cursor.node().start_byte()
}

/// One past the last byte of the node under the cursor:
/// `tree_sitter::Node::end_byte` of `tree_sitter::TreeCursor::node`.
#[verifier::external_body]
fn end_of(cursor: &tree_sitter::TreeCursor) -> usize {
    cursor.node().end_byte()
}

/// Builds the arena of a tree node by node, in preorder.
pub struct TreeBuilder {
    nodes: Vec<Node>,
    open: Vec<usize>,
}

impl TreeBuilder {
    /// Holds of every builder: the open nodes are nodes.
    #[verifier::type_invariant]
    pub closed spec fn inv(self) -> bool {
        forall|i: int| 0 <= i < self.open@.len() ==> #[trigger] self.open@[i] < self.nodes@.len()
    }

    /// The nodes so far.
    pub closed spec fn nodes(&self) -> Seq<Node> {
        self.nodes@
    }

    /// The indices of the nodes that are open, outermost first.
    pub closed spec fn open(&self) -> Seq<usize> {
        self.open@
    }

    /// A builder without nodes.
    pub fn new() -> (b: TreeBuilder)
        ensures
            b.nodes().len() == 0,
            b.open().len() == 0,
    {
        TreeBuilder { nodes: Vec::new(), open: Vec::new() }
    }

    /// The number of nodes so far.
    pub fn len(&self) -> (n: usize)
        ensures
            n == self.nodes().len(),
    {
        self.nodes.len()
    }

    /// The number of open nodes.
    pub fn depth(&self) -> (n: usize)
        ensures
            n == self.open().len(),
    {
        self.open.len()
    }

    /// Opens a node as the next child of the innermost open node; the first
    /// node opened is the root. Its subtree ends when it is closed.
    pub fn enter(&mut self, kind: String, field: Option<String>, named: bool, start: usize, end: usize)
        ensures
            final(self).nodes() == old(self).nodes().push(
                Node {
                    kind,
                    field,
                    named,
                    start,
                    end,
                    parent: if old(self).open().len() > 0 {
                        old(self).open().last()
                    } else {
                        old(self).nodes().len() as usize
                    },
                    stop: 0,
                },
            ),
            final(self).open() == old(self).open().push(old(self).nodes().len() as usize),
    {
        proof {
            use_type_invariant(&*self);
        }
        let index = self.nodes.len();
        let parent = if self.open.len() > 0 {
            self.open[self.open.len() - 1]
        } else {
            index
        };
        let mut nodes: Vec<Node> = Vec::new();
        let mut open: Vec<usize> = Vec::new();
        std::mem::swap(&mut open, &mut self.open);
        std::mem::swap(&mut nodes, &mut self.nodes);
        nodes.push(Node { kind, field, named, start, end, parent, stop: 0 });
        open.push(index);
        self.nodes = nodes;
        self.open = open;
    }

    /// Closes the innermost open node: its subtree is the nodes from itself
    /// up to here. Returns false if no node is open.
    pub fn leave(&mut self) -> (closed: bool)
        ensures
            closed == (old(self).open().len() > 0),
            !closed ==> final(self).nodes() == old(self).nodes() && final(self).open() == old(
                self,
            ).open(),
            closed ==> final(self).open() == old(self).open().drop_last() && final(self).nodes()
                == old(self).nodes().update(
                old(self).open().last() as int,
                Node {
                    stop: old(self).nodes().len() as usize,
                    ..old(self).nodes()[old(self).open().last() as int]
                },
            ),
    {
        proof {
            use_type_invariant(&*self);
        }
        if self.open.len() == 0 {
            return false;
        }
        let mut nodes: Vec<Node> = Vec::new();
        let mut open: Vec<usize> = Vec::new();
        std::mem::swap(&mut open, &mut self.open);
        std::mem::swap(&mut nodes, &mut self.nodes);
        let top = open.pop().unwrap();
        let stop = nodes.len();
        let held = &nodes[top];
        let closed = Node {
            kind: held.kind.clone(),
            field: match &held.field {
                Some(f) => Some(f.clone()),
                None => None,
            },
            named: held.named,
            start: held.start,
            end: held.end,
            parent: held.parent,
            stop,
        };
        nodes.set(top, closed);
        self.nodes = nodes;
        self.open = open;
        true
    }

    /// The tree that was built, if every node was closed and the nodes
    /// make up one tree.
    pub fn finish(self) -> (tree: Option<SyntaxTree>)
        ensures
            tree is Some <==> self.open().len() == 0 && crate::tree::file::well_formed(self.nodes()),
            tree is Some ==> tree->0@ == self.nodes(),
    {
        if self.open.len() > 0 {
            return None;
        }
        SyntaxTree::new(self.nodes)
    }
}

/// Copies the tree that the walk `visits` describes into an arena: each node
/// as it was entered, with the parent and the end of the subtree that the
/// walk gives it. `None` if a node is left open at the end of the walk or
/// the nodes do not make up one well-formed tree.
fn copy_tree(visits: &Vec<Visit>) -> (tree: Option<SyntaxTree>)
    ensures
        nodes_of(tree) == finished(walked(visits@)),
{
    let mut builder = TreeBuilder::new();
    let mut i: usize = 0;
    proof {
        assert(visits@.take(0) =~= Seq::<Visit>::empty());
        assert(builder.nodes() =~= walked(visits@.take(0)).nodes);
        assert(builder.open() =~= walked(visits@.take(0)).open);
    }
    // the builder takes the visits one by one, as the walk made them
    while i < visits.len()
        invariant
            i <= visits.len(),
            builder.nodes() == walked(visits@.take(i as int)).nodes,
            builder.open() == walked(visits@.take(i as int)).open,
        decreases visits.len() - i,
    {
        proof {
            assert(visits@.take(i + 1) =~= visits@.take(i as int).push(visits@[i as int]));
            lemma_walked_push(visits@.take(i as int), visits@[i as int]);
        }
        match &visits[i] {
            Visit::Enter { kind, field, named, start, end } => {
                builder.enter(kind.clone(), copy_field(field), *named, *start, *end);
            },
            Visit::Leave => {
                builder.leave();
            },
        }
        i += 1;
    }
    proof {
        assert(visits@.take(i as int) =~= visits@);
    }
    builder.finish()
}

impl File {
    /// The file `name` with the text `source`, parsed as PHP; `None` if the
    /// parser hands out no tree or the walk of its tree gives no arena.
    pub fn from_source(name: &str, source: String) -> (file: Option<File>)
        ensures
            file is Some ==> file->0.name_spec() == name@ && file->0.source_spec() == source@,
    {
        let mut parser = new_parser();
        if !use_php(&mut parser) {
            return None;
        }
        let parsed = match run_parser(&mut parser, source.as_str()) {
            Some(parsed) => parsed,
            None => {
                return None;
            },
        };
        let mut cursor = walk(&parsed);
        let visits = record(&mut cursor);
        match copy_tree(&visits) {
            Some(tree) => Some(File::from_tree(name, tree, source)),
            None => None,
        }
    }
}

/// One step of a depth-first walk of a tree: a node is entered, with what
/// was read of it, or the innermost open node is left.
pub enum Visit {
    Enter { kind: String, field: Option<String>, named: bool, start: usize, end: usize },
    Leave,
}

/// An arena in the making: the nodes so far, and the indices of those that
/// are open, outermost first.
pub struct Arena {
    pub nodes: Seq<Node>,
    pub open: Seq<usize>,
}

/// The arena `a` after the visit `v`. A node that is entered becomes the
/// next child of the innermost open node, or the root if none is open; a
/// node that is left gets as the end of its subtree the number of nodes so
/// far. A leave with no node open changes nothing.
pub open spec fn visited(a: Arena, v: Visit) -> Arena {
    match v {
        Visit::Enter { kind, field, named, start, end } => Arena {
            nodes: a.nodes.push(
                Node {
                    kind,
                    field,
                    named,
                    start,
                    end,
                    parent: if a.open.len() > 0 {
                        a.open.last()
                    } else {
                        a.nodes.len() as usize
                    },
                    stop: 0,
                },
            ),
            open: a.open.push(a.nodes.len() as usize),
        },
        Visit::Leave => if a.open.len() > 0 {
            Arena {
                nodes: a.nodes.update(
                    a.open.last() as int,
                    Node { stop: a.nodes.len() as usize, ..a.nodes[a.open.last() as int] },
                ),
                open: a.open.drop_last(),
            }
        } else {
            a
        },
    }
}

/// The arena after the visits `visits`, from an arena without nodes.
pub open spec fn walked(visits: Seq<Visit>) -> Arena
    decreases visits.len(),
{
    if visits.len() == 0 {
        Arena { nodes: Seq::empty(), open: Seq::empty() }
    } else {
        visited(walked(visits.drop_last()), visits.last())
    }
}

/// The nodes of the arena `a`, if every node was closed and the nodes make
/// up one well-formed tree.
pub open spec fn finished(a: Arena) -> Option<Seq<Node>> {
    if a.open.len() == 0 && crate::tree::file::well_formed(a.nodes) {
        Some(a.nodes)
    } else {
        None
    }
}

/// Whether `visits` has the shape of a walk: it starts by entering a node,
/// and a node is open after each visit but the last, so that nothing is
/// left that was not entered and nothing is entered beside the root.
pub open spec fn is_walk(visits: Seq<Visit>) -> bool {
    &&& visits.len() >= 1
    &&& visits[0] is Enter
    &&& forall|n: int| 0 < n < visits.len() ==> (#[trigger] walked(visits.take(n))).open.len() > 0
}

/// One visit more is one step of the arena.
pub proof fn lemma_walked_push(visits: Seq<Visit>, v: Visit)
    ensures
        walked(visits.push(v)) == visited(walked(visits), v),
{
    assert(visits.push(v).drop_last() =~= visits);
}

/// What a tree holds, if there is one.
pub open spec fn nodes_of(tree: Option<SyntaxTree>) -> Option<Seq<Node>> {
    match tree {
        Some(t) => Some(t@),
        None => None,
    }
}

/// A copy of an optional text.
fn copy_field(field: &Option<String>) -> (copy: Option<String>)
    ensures
        copy == *field,
{
    match field {
        Some(f) => Some(f.clone()),
        None => None,
    }
}

/// Walks the tree under `cursor` depth first and records each visit with
/// what tree-sitter hands out of the node.
///
/// The walk ends when the node that it began with is left. It is cut short
/// where the cursor finds no way up from an open node, or after as many
/// steps as a machine word counts. What the visits hold is up to
/// tree-sitter; their shape is that of a walk.
fn record(cursor: &mut tree_sitter::TreeCursor) -> (visits: Vec<Visit>)
    ensures
        is_walk(visits@),
{
    let mut visits: Vec<Visit> = Vec::new();
    let mut depth: usize = 0;
    let mut fuel: usize = usize::MAX;
    let mut entering = true;
    loop
        invariant
            depth == walked(visits@).open.len(),
            depth <= visits@.len(),
            visits@.len() + fuel <= usize::MAX,
            visits@.len() == 0 ==> entering && fuel == usize::MAX,
            visits@.len() > 0 ==> depth > 0 && visits@[0] is Enter,
            forall|n: int|
                0 < n < visits@.len() ==> (#[trigger] walked(visits@.take(n))).open.len() > 0,
        decreases fuel,
    {
        if fuel == 0 {
            return visits;
        }
        fuel -= 1;
        let ghost before = visits@;
        if entering {
            let visit = Visit::Enter {
                kind: kind_of(cursor),
                field: field_of(cursor),
                named: named_of(cursor),
                start: start_of(cursor),
                end: end_of(cursor),
            };
            proof {
                lemma_walked_push(before, visit);
            }
            visits.push(visit);
            depth += 1;
            proof {
                assert forall|n: int| 0 < n < visits@.len() implies (#[trigger] walked(
                    visits@.take(n),
                )).open.len() > 0 by {
                    if n < before.len() {
                        assert(visits@.take(n) =~= before.take(n));
                    } else {
                        assert(visits@.take(n) =~= before);
                    }
                }
            }
            if !goto_first_child(cursor) {
                entering = false;
            }
        } else {
            proof {
                lemma_walked_push(before, Visit::Leave);
            }
            visits.push(Visit::Leave);
            depth -= 1;
            proof {
                assert forall|n: int| 0 < n < visits@.len() implies (#[trigger] walked(
                    visits@.take(n),
                )).open.len() > 0 by {
                    if n < before.len() {
                        assert(visits@.take(n) =~= before.take(n));
                    } else {
                        assert(visits@.take(n) =~= before);
                    }
                }
            }
            if depth == 0 {
                return visits;
            }
            if goto_next_sibling(cursor) {
                entering = true;
            } else if !goto_parent(cursor) {
                return visits;
            }
        }
    }
}

} // verus!
