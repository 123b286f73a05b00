//! What holds of the flow graph in every state, and of what the search
//! finds in it.
use vstd::prelude::*;
use crate::analyzer::taint::TaintView;
use crate::graph::graph::{GraphView, emptied, link, push_spec, survives};
use crate::graph::rules::Vuln;
use crate::graph::vertex::{Edges, Key, PathView, VertexView, keys_of};
use crate::graph::witness::{is_witness, passes, reaches_source, sanitized, sourced};
use crate::tree::cursor::Cursor;

verus! {

/// Every leaf of a taint is the cursor of a vertex that assigns that taint.
pub open spec fn leaves_consistent(g: GraphView) -> bool {
    forall|t: TaintView, i: int|
        g.leaves.dom().contains(t) && 0 <= i < g.leaves[t].len() ==> {
            let leaf = #[trigger] g.leaves[t][i];
            g.nodes.dom().contains(leaf.key()) && g.nodes[leaf.key()].assign == Some(t)
        }
}

/// Every leaf of a taint is the cursor of a vertex.
pub open spec fn leaves_are_vertices(g: GraphView) -> bool {
    forall|t: TaintView, i: int|
        g.leaves.dom().contains(t) && 0 <= i < g.leaves[t].len() ==> g.nodes.dom().contains(
            (#[trigger] g.leaves[t][i]).key(),
        )
}

/// Every parent of a vertex is a vertex.
pub open spec fn edges_closed(g: GraphView) -> bool {
    forall|k: Key, p: Key|
        g.nodes.dom().contains(k) && #[trigger] g.nodes[k].parents.dom().contains(p)
            ==> g.nodes.dom().contains(p)
}

/// Every parent of a vertex and every leaf of a taint is a vertex.
pub open spec fn graph_closed(g: GraphView) -> bool {
    edges_closed(g) && leaves_are_vertices(g)
}

/// The graph without vertices is consistent and closed.
pub proof fn lemma_empty_graph()
    ensures
        leaves_consistent(GraphView { nodes: Map::empty(), leaves: Map::empty() }),
        graph_closed(GraphView { nodes: Map::empty(), leaves: Map::empty() }),
{
}

/// Consistent leaves are vertices.
pub proof fn lemma_consistent_leaves_are_vertices(g: GraphView)
    requires
        leaves_consistent(g),
    ensures
        leaves_are_vertices(g),
{
    assert forall|t: TaintView, i: int|
        g.leaves.dom().contains(t) && 0 <= i < g.leaves[t].len() implies g.nodes.dom().contains(
        (#[trigger] g.leaves[t][i]).key(),
    ) by {
        let leaf = g.leaves[t][i];
    }
}

/// Pushing a vertex keeps every leaf a vertex.
pub proof fn lemma_push_keeps_leaves_vertices<'a>(
    g: GraphView<'a>,
    path: PathView<'a>,
    cursor: Cursor<'a>,
    vertex: VertexView<'a>,
)
    requires
        leaves_are_vertices(g),
    ensures
        leaves_are_vertices(push_spec(g, path, cursor, vertex)),
{
    broadcast use vstd::seq_lib::group_filter_ensures;

    let after = push_spec(g, path, cursor, vertex);
    assert forall|t: TaintView, i: int|
        after.leaves.dom().contains(t) && 0 <= i < after.leaves[t].len() implies after.nodes.dom().contains(
        (#[trigger] after.leaves[t][i]).key(),
    ) by {
        let leaf = after.leaves[t][i];
        if vertex.assign == Some(t) {
            let held = if g.leaves.dom().contains(t) {
                g.leaves[t]
            } else {
                Seq::empty()
            };
            let kept = held.filter(|l: Cursor<'a>| survives(after.nodes, vertex.context, l));
            if i > 0 {
                assert(leaf == kept[i - 1]);
                held.lemma_filter_contains_rev(
                    |l: Cursor<'a>| survives(after.nodes, vertex.context, l),
                    leaf,
                );
                let j = choose|j: int| 0 <= j < held.len() && held[j] == leaf;
                assert(g.leaves[t][j] == leaf);
            }
        } else {
            assert(g.leaves[t][i] == leaf);
        }
    }
}

/// Pushing a vertex keeps the leaves consistent, unless it assigns a taint
/// at a cursor whose vertex assigns another or none.
pub proof fn lemma_push_keeps_leaves_consistent<'a>(
    g: GraphView<'a>,
    path: PathView<'a>,
    cursor: Cursor<'a>,
    vertex: VertexView<'a>,
)
    requires
        leaves_consistent(g),
        g.nodes.dom().contains(cursor.key()) && vertex.assign is Some ==> g.nodes[cursor.key()].assign
            == vertex.assign,
    ensures
        leaves_consistent(push_spec(g, path, cursor, vertex)),
{
    broadcast use vstd::seq_lib::group_filter_ensures;

    let after = push_spec(g, path, cursor, vertex);
    assert forall|t: TaintView, i: int|
        after.leaves.dom().contains(t) && 0 <= i < after.leaves[t].len() implies {
        let leaf = #[trigger] after.leaves[t][i];
        after.nodes.dom().contains(leaf.key()) && after.nodes[leaf.key()].assign == Some(t)
    } by {
        let leaf = after.leaves[t][i];
        if vertex.assign == Some(t) {
            let held = if g.leaves.dom().contains(t) {
                g.leaves[t]
            } else {
                Seq::empty()
            };
            let kept = held.filter(|l: Cursor<'a>| survives(after.nodes, vertex.context, l));
            if i > 0 {
                assert(leaf == kept[i - 1]);
                held.lemma_filter_contains_rev(
                    |l: Cursor<'a>| survives(after.nodes, vertex.context, l),
                    leaf,
                );
                let j = choose|j: int| 0 <= j < held.len() && held[j] == leaf;
                assert(g.leaves[t][j] == leaf);
            }
        } else {
            assert(g.leaves[t][i] == leaf);
        }
    }
}

/// Pushing a vertex whose parents, if it has any yet, are vertices or the
/// vertex itself keeps the edges closed in a graph whose leaves are
/// vertices.
pub proof fn lemma_push_keeps_edges_closed<'a>(
    g: GraphView<'a>,
    path: PathView<'a>,
    cursor: Cursor<'a>,
    vertex: VertexView<'a>,
)
    requires
        edges_closed(g),
        leaves_are_vertices(g),
        forall|p: Key|
            vertex.parents.dom().contains(p) ==> g.nodes.dom().contains(p) || p == cursor.key(),
    ensures
        edges_closed(push_spec(g, path, cursor, vertex)),
{
    let after = push_spec(g, path, cursor, vertex);
    let linked = link(g, path, vertex);
    assert forall|p: Key| linked.parents.dom().contains(p) implies g.nodes.dom().contains(p) || p
        == cursor.key() by {
        if !vertex.parents.dom().contains(p) {
            let leaves = g.leaves[path.source];
            let i = choose|i: int| 0 <= i < keys_of(leaves).len() && keys_of(leaves)[i] == p;
            assert(g.leaves[path.source][i].key() == p);
        }
    }
    assert forall|k: Key, p: Key|
        after.nodes.dom().contains(k) && #[trigger] after.nodes[k].parents.dom().contains(
            p,
        ) implies after.nodes.dom().contains(p) by {
        if k == cursor.key() {
            if g.nodes.dom().contains(k) && g.nodes[k].parents.dom().contains(p) {
            }
        } else {
            assert(g.nodes[k].parents.dom().contains(p));
        }
    }
}

/// Emptying lists of leaves keeps the leaves consistent and the edges
/// closed.
pub proof fn lemma_clearing_keeps_graph_sound<'a>(
    g: GraphView<'a>,
    cleared: spec_fn(TaintView) -> bool,
)
    ensures
        leaves_consistent(g) ==> leaves_consistent(GraphView { leaves: emptied(g.leaves, cleared), ..g }),
        graph_closed(g) ==> graph_closed(GraphView { leaves: emptied(g.leaves, cleared), ..g }),
{
    let after = GraphView { leaves: emptied(g.leaves, cleared), ..g };
    if leaves_are_vertices(g) {
        assert forall|t: TaintView, i: int|
            after.leaves.dom().contains(t) && 0 <= i < after.leaves[t].len() implies after.nodes.dom().contains(
            (#[trigger] after.leaves[t][i]).key(),
        ) by {
            assert(g.leaves[t][i] == after.leaves[t][i]);
        }
    }
    if leaves_consistent(g) {
        lemma_clearing_keeps_leaves_consistent(g, cleared);
    }
}

/// Emptying lists of leaves keeps the leaves consistent.
pub proof fn lemma_clearing_keeps_leaves_consistent<'a>(
    g: GraphView<'a>,
    cleared: spec_fn(TaintView) -> bool,
)
    requires
        leaves_consistent(g),
    ensures
        leaves_consistent(GraphView { leaves: emptied(g.leaves, cleared), ..g }),
{
    let after = GraphView { leaves: emptied(g.leaves, cleared), ..g };
    assert forall|t: TaintView, i: int|
        after.leaves.dom().contains(t) && 0 <= i < after.leaves[t].len() implies {
        let leaf = #[trigger] after.leaves[t][i];
        after.nodes.dom().contains(leaf.key()) && after.nodes[leaf.key()].assign == Some(t)
    } by {
        assert(g.leaves[t][i] == after.leaves[t][i]);
    }
}

/// After the leaves of a scope were cleared no taint of that scope has a
/// leaf.
pub proof fn lemma_cleared_scope_has_no_leaf<'a>(
    g: GraphView<'a>,
    scope: crate::analyzer::taint::ScopeView,
    t: TaintView,
)
    requires
        t.scope == scope,
    ensures
        emptied(g.leaves, crate::analyzer::taint::of_scope(scope)).dom().contains(t) ==> emptied(
            g.leaves,
            crate::analyzer::taint::of_scope(scope),
        )[t].len() == 0,
{
}

/// Whether `s` is a chain of vertices from the vertex at `v`, each the
/// parent of the one before, to which a segment under `last` leads from a
/// source: among the segments from parents if `from_parent`, else among
/// those from sources without a vertex.
pub open spec fn is_route(g: GraphView, vuln: &Vuln, v: Key, s: Seq<Key>, last: Key, from_parent: bool) -> bool {
    &&& s.len() >= 1
    &&& s[0] == v
    &&& forall|i: int|
        0 <= i < s.len() - 1 ==> g.nodes.dom().contains(#[trigger] s[i]) && g.nodes[s[i]].parents.dom().contains(
            s[i + 1],
        )
    &&& g.nodes.dom().contains(s.last())
    &&& final_edges(g, s.last(), from_parent).dom().contains(last)
    &&& sourced(vuln, final_edges(g, s.last(), from_parent)[last])
}

/// The segments that lead to the vertex at `at` from its parents, or those
/// from sources without a vertex.
pub open spec fn final_edges<'a>(g: GraphView<'a>, at: Key, from_parent: bool) -> Edges<'a> {
    if from_parent {
        g.nodes[at].parents
    } else {
        g.nodes[at].sources
    }
}

/// Whether a segment of the route has a sanitizer on it.
pub open spec fn route_sanitized(g: GraphView, vuln: &Vuln, s: Seq<Key>, last: Key, from_parent: bool) -> bool {
    (exists|i: int| 0 <= i < s.len() - 1 && sanitized(vuln, g.nodes[#[trigger] s[i]].parents[s[i + 1]]))
        || sanitized(vuln, final_edges(g, s.last(), from_parent)[last])
}

/// If every route from a vertex to a source has a sanitizer on it, the
/// search from that vertex finds no witness.
pub proof fn lemma_sanitized_routes_leave_no_witness(g: GraphView, vuln: &Vuln, v: Key)
    requires
        forall|s: Seq<Key>, last: Key, from_parent: bool| #[trigger]
            is_route(g, vuln, v, s, last, from_parent) ==> route_sanitized(
                g,
                vuln,
                s,
                last,
                from_parent,
            ),
    ensures
        forall|s: Seq<Key>| !is_witness(g, vuln, seq![v], s),
{
    assert forall|s: Seq<Key>| !is_witness(g, vuln, seq![v], s) by {
        if is_witness(g, vuln, seq![v], s) {
            assert(s[0] == seq![v][0]);
            assert forall|i: int| 0 <= i < s.len() - 1 implies g.nodes.dom().contains(
                #[trigger] s[i],
            ) && g.nodes[s[i]].parents.dom().contains(s[i + 1]) && !sanitized(
                vuln,
                g.nodes[s[i]].parents[s[i + 1]],
            ) by {
                assert(passes(g, vuln, s[i], s[i + 1]));
            }
            let at = s.last();
            if reaches_source(g.nodes[at].parents, vuln) {
                let k = choose|k: Key| #[trigger]
                    g.nodes[at].parents.dom().contains(k) && !sanitized(vuln, g.nodes[at].parents[k])
                        && sourced(vuln, g.nodes[at].parents[k]);
                assert(is_route(g, vuln, v, s, k, true));
                assert(route_sanitized(g, vuln, s, k, true));
            } else {
                let k = choose|k: Key| #[trigger]
                    g.nodes[at].sources.dom().contains(k) && !sanitized(vuln, g.nodes[at].sources[k])
                        && sourced(vuln, g.nodes[at].sources[k]);
                assert(is_route(g, vuln, v, s, k, false));
                assert(route_sanitized(g, vuln, s, k, false));
            }
        }
    }
}

} // verus!
