//! The flow graph as text in DOT format.
use vstd::prelude::*;
use vstd::string::*;
use crate::graph::graph::Graph;
use crate::graph::vertex::{PathItem, Vertex};
use crate::text::{decimal, decimal_text, escape_quotes, escaped};
use crate::tree::cursor::Cursor;

verus! {

/// The line of vertex `i` with the label `label`.
pub open spec fn node_line(i: nat, label: Seq<char>) -> Seq<char> {
    "\t"@ + decimal_text(i) + " [ label = \""@ + escaped(label) + "\" ]\n"@
}

/// The line of an edge from vertex `j` to vertex `i`.
pub open spec fn edge_line(j: nat, i: nat) -> Seq<char> {
    "\t"@ + decimal_text(j) + " -> "@ + decimal_text(i) + " []\n"@
}

/// The lines of the edges to vertex `i` from those of the first `n`
/// vertices of `nodes` that stand at the cursor `parent`.
pub open spec fn arrows<'a>(nodes: Seq<(Cursor<'a>, Vertex<'a>)>, parent: Cursor<'a>, i: nat, n: int) -> Seq<
    char,
>
    decreases n,
{
    if n <= 0 {
        Seq::empty()
    } else {
        arrows(nodes, parent, i, n - 1) + (if nodes[n - 1].0.key() == parent.key() {
            edge_line((n - 1) as nat, i)
        } else {
            Seq::empty()
        })
    }
}

/// The lines of the edges to vertex `i` from the first `m` of its parents
/// `parents`.
pub open spec fn edges<'a>(
    nodes: Seq<(Cursor<'a>, Vertex<'a>)>,
    parents: Seq<(Cursor<'a>, PathItem<'a>)>,
    i: nat,
    m: int,
) -> Seq<char>
    decreases m,
{
    if m <= 0 {
        Seq::empty()
    } else {
        edges(nodes, parents, i, m - 1) + arrows(nodes, parents[m - 1].0, i, nodes.len() as int)
    }
}

/// The lines of the first `n` vertices of `nodes`: for each its own line
/// and the lines of the edges to it.
pub open spec fn lines<'a>(nodes: Seq<(Cursor<'a>, Vertex<'a>)>, n: int) -> Seq<char>
    decreases n,
{
    if n <= 0 {
        Seq::empty()
    } else {
        lines(nodes, n - 1) + node_line((n - 1) as nat, nodes[n - 1].0.text()) + edges(
            nodes,
            nodes[n - 1].1.listed_parents(),
            (n - 1) as nat,
            nodes[n - 1].1.listed_parents().len() as int,
        )
    }
}

/// The graph of the vertices `nodes` in DOT format.
pub open spec fn dot<'a>(nodes: Seq<(Cursor<'a>, Vertex<'a>)>) -> Seq<char> {
    "digraph {\n"@ + lines(nodes, nodes.len() as int) + "}"@
}

impl<'a> Graph<'a> {
    /// The graph in DOT format: a line for each vertex, numbered in the
    /// order in which the vertices arose and labelled with the text of its
    /// node, and a line for each edge from a parent.
    #[verifier::loop_isolation(false)]
    pub fn dump(&self) -> (text: String)
        ensures
            text@ == dot(self.listed()),
    {
        let nodes = self.nodes();
        let mut text = String::from_str("digraph {\n");
        let mut i: usize = 0;
        assert(text@ + lines(nodes@, 0) =~= text@);
        while i < nodes.len()
            invariant
                i <= nodes.len(),
                text@ == "digraph {\n"@ + lines(nodes@, i as int),
            decreases nodes.len() - i,
        {
            let ghost before = text@;
            text.append("\t");
            text.append(decimal(i).as_str());
            text.append(" [ label = \"");
            text.append(escape_quotes(nodes[i].0.to_str()).as_str());
            text.append("\" ]\n");
            let ghost head = text@;
            assert(head =~= before + node_line(i as nat, nodes@[i as int].0.text()));
            let parents = nodes[i].1.parents();
            let mut p: usize = 0;
            assert(head + edges(nodes@, parents@, i as nat, 0) =~= head);
            while p < parents.len()
                invariant
                    p <= parents.len(),
                    i < nodes.len(),
                    text@ == head + edges(nodes@, parents@, i as nat, p as int),
                decreases parents.len() - p,
            {
                let ghost row = text@;
                let mut j: usize = 0;
                assert(row + arrows(nodes@, parents@[p as int].0, i as nat, 0) =~= row);
                while j < nodes.len()
                    invariant
                        j <= nodes.len(),
                        i < nodes.len(),
                        p < parents.len(),
                        text@ == row + arrows(nodes@, parents@[p as int].0, i as nat, j as int),
                    decreases nodes.len() - j,
                {
                    let ghost cell = text@;
                    if parents[p].0.same(&nodes[j].0) {
                        text.append("\t");
                        text.append(decimal(j).as_str());
                        text.append(" -> ");
                        text.append(decimal(i).as_str());
                        text.append(" []\n");
                        assert(text@ =~= cell + edge_line(j as nat, i as nat));
                    }
                    assert(text@ =~= row + arrows(nodes@, parents@[p as int].0, i as nat, j + 1));
                    j += 1;
                }
                assert(text@ =~= head + edges(nodes@, parents@, i as nat, p + 1));
                p += 1;
            }
            assert(text@ =~= "digraph {\n"@ + lines(nodes@, i + 1));
            i += 1;
        }
        text.append("}");
        text
    }
}

} // verus!
