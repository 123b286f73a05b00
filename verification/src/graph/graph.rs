//! The flow graph: how taints are created, assigned, passed and consumed.
use vstd::prelude::*;
use crate::analyzer::taint::{
    ContextStack, ContextView, Scope, Taint, TaintKind, TaintView, comparable, is_return, of_scope,
};
use crate::graph::vertex::{Edges, Key, PathItem, PathView, Vertex, VertexView, keys_of};
use crate::keyed::{
    Keyed, entry_index, entry_map, find_entry, has_entry, keys_distinct, lemma_entry_map_at,
    lemma_entry_map_empty, lemma_entry_map_put, lemma_entry_map_take, lemma_entry_unique,
    put_entry, with_entry,
};
use crate::seqs::lemma_filter_step;
use crate::tree::cursor::Cursor;

verus! {

/// What a graph holds.
pub struct GraphView<'a> {
    /// The vertices, each under the key of its cursor.
    pub nodes: Map<Key, VertexView<'a>>,
    /// For each taint, the cursors of the vertices that produced it last.
    pub leaves: Map<TaintView, Seq<Cursor<'a>>>,
}

/// `parents` with the segment `path` from each of `leaves`.
pub open spec fn add_parents<'a>(parents: Edges<'a>, leaves: Seq<Cursor<'a>>, path: PathView<'a>) -> Edges<
    'a,
> {
    Map::new(
        |k: Key| parents.dom().contains(k) || keys_of(leaves).contains(k),
        |k: Key|
            if keys_of(leaves).contains(k) {
                path
            } else {
                parents[k]
            },
    )
}

/// The vertex `vertex` joined to the graph by the segment `path`: to the
/// leaves of the taint that flows, where the graph knows that taint; else to
/// a source that the last node of the segment stands for.
pub open spec fn link<'a>(g: GraphView<'a>, path: PathView<'a>, vertex: VertexView<'a>) -> VertexView<
    'a,
> {
    if g.leaves.dom().contains(path.source) {
        VertexView { parents: add_parents(vertex.parents, g.leaves[path.source], path), ..vertex }
    } else if path.path.len() > 0 {
        VertexView { sources: vertex.sources.insert(path.path.last().key(), path), ..vertex }
    } else {
        vertex
    }
}

/// The vertex `held` with the segments of `new` added to its own.
pub open spec fn merge<'a>(held: VertexView<'a>, new: VertexView<'a>) -> VertexView<'a> {
    VertexView {
        parents: held.parents.union_prefer_right(new.parents),
        sources: held.sources.union_prefer_right(new.sources),
        ..held
    }
}

/// Whether a leaf stays a leaf when a vertex in the context `context`
/// assigns its taint again: it has a vertex, and that arose in a context
/// that parts from `context` at some depth.
pub open spec fn survives<'a>(nodes: Map<Key, VertexView<'a>>, context: Seq<ContextView>, leaf: Cursor<'a>) -> bool {
    nodes.dom().contains(leaf.key()) && !comparable(context, nodes[leaf.key()].context)
}

/// The leaves of a taint after the vertex at `cursor` assigned it in the
/// context `context`: that vertex, and the leaves `held` that survive.
pub open spec fn new_leaves<'a>(
    nodes: Map<Key, VertexView<'a>>,
    held: Seq<Cursor<'a>>,
    cursor: Cursor<'a>,
    context: Seq<ContextView>,
) -> Seq<Cursor<'a>> {
    seq![cursor] + held.filter(|leaf: Cursor<'a>| survives(nodes, context, leaf))
}

/// The graph after `vertex` was pushed at `cursor` with the segment `path`.
pub open spec fn push_spec<'a>(
    g: GraphView<'a>,
    path: PathView<'a>,
    cursor: Cursor<'a>,
    vertex: VertexView<'a>,
) -> GraphView<'a> {
    let linked = link(g, path, vertex);
    let stored = if g.nodes.dom().contains(cursor.key()) {
        merge(g.nodes[cursor.key()], linked)
    } else {
        linked
    };
    let nodes = g.nodes.insert(cursor.key(), stored);
    let leaves = match vertex.assign {
        Some(taint) => g.leaves.insert(
            taint,
            new_leaves(
                nodes,
                if g.leaves.dom().contains(taint) {
                    g.leaves[taint]
                } else {
                    Seq::empty()
                },
                cursor,
                vertex.context,
            ),
        ),
        None => g.leaves,
    };
    GraphView { nodes, leaves }
}

/// The leaves `leaves` with the lists emptied of the taints that `cleared`
/// holds of.
pub open spec fn emptied<'a>(
    leaves: Map<TaintView, Seq<Cursor<'a>>>,
    cleared: spec_fn(TaintView) -> bool,
) -> Map<TaintView, Seq<Cursor<'a>>> {
    Map::new(
        |t: TaintView| leaves.dom().contains(t),
        |t: TaintView|
            if cleared(t) {
                Seq::empty()
            } else {
                leaves[t]
            },
    )
}

/// The flow graph.
pub struct Graph<'a> {
    nodes: Vec<(Cursor<'a>, Vertex<'a>)>,
    leaves: Vec<(Taint, Vec<Cursor<'a>>)>,
}

impl<'a> View for Graph<'a> {
    type V = GraphView<'a>;

    closed spec fn view(&self) -> GraphView<'a> {
        GraphView { nodes: entry_map(self.nodes@), leaves: entry_map(self.leaves@) }
    }
}

impl<'a> Graph<'a> {
    /// Holds of every graph: it has one vertex at most at each cursor, and
    /// one list of leaves at most for each taint.
    #[verifier::type_invariant]
    pub closed spec fn inv(self) -> bool {
        keys_distinct(self.nodes@) && keys_distinct(self.leaves@)
    }

    /// The keys of the cursors that have a vertex, in the order in which
    /// the vertices arose.
    pub closed spec fn keys(&self) -> Seq<Key> {
        self.nodes@.map_values(|e: (Cursor<'a>, Vertex<'a>)| e.0.key())
    }

    /// A graph without vertices.
    pub fn new() -> (g: Graph<'a>)
        ensures
            g@ == (GraphView { nodes: Map::empty(), leaves: Map::empty() }),
    {
        let g = Graph { nodes: Vec::new(), leaves: Vec::new() };
        proof {
            lemma_entry_map_empty(g.nodes@);
            lemma_entry_map_empty(g.leaves@);
        }
        g
    }

    /// The vertices in the order in which they arose, each with its
    /// cursor.
    pub closed spec fn listed(&self) -> Seq<(Cursor<'a>, Vertex<'a>)> {
        self.nodes@
    }

    /// The vertices, each with its cursor.
    pub fn nodes(&self) -> (nodes: &Vec<(Cursor<'a>, Vertex<'a>)>)
        ensures
            nodes@ == self.listed(),
            entry_map(nodes@) == self@.nodes,
            keys_distinct(nodes@),
            nodes@.map_values(|e: (Cursor<'a>, Vertex<'a>)| e.0.key()) == self.keys(),
            forall|k: Key| self.keys().contains(k) <==> self@.nodes.dom().contains(k),
    {
        proof {
            use_type_invariant(self);
            assert forall|k: Key| self.keys().contains(k) <==> self@.nodes.dom().contains(k) by {
                if self.keys().contains(k) {
                    let i = choose|i: int| 0 <= i < self.keys().len() && self.keys()[i] == k;
                    assert(self.nodes@[i].0.key_of() == k);
                }
                if self@.nodes.dom().contains(k) {
                    let i = entry_index(self.nodes@, k);
                    assert(self.keys()[i] == k);
                }
            }
        }
        &self.nodes
    }

    /// The vertex at `cursor`, if there is one.
    pub fn get(&self, cursor: &Cursor<'a>) -> (vertex: Option<&Vertex<'a>>)
        ensures
            vertex is Some <==> self@.nodes.dom().contains(cursor.key()),
            vertex is Some ==> vertex->0@ == self@.nodes[cursor.key()],
    {
        proof {
            use_type_invariant(self);
        }
        match find_entry(&self.nodes, cursor) {
            Some(i) => Some(&self.nodes[i].1),
            None => None,
        }
    }

    /// The leaves of `taint`, if the graph knows the taint.
    pub fn leaves(&self, taint: &Taint) -> (leaves: Option<&Vec<Cursor<'a>>>)
        ensures
            leaves is Some <==> self@.leaves.dom().contains(taint@),
            leaves is Some ==> leaves->0@ == self@.leaves[taint@],
    {
        proof {
            use_type_invariant(self);
        }
        match find_entry(&self.leaves, taint) {
            Some(i) => Some(&self.leaves[i].1),
            None => None,
        }
    }

    /// Joins `vertex` to the graph by the segment `path`.
    #[verifier::loop_isolation(false)]
    fn add_edges(&self, path: PathItem<'a>, vertex: &mut Vertex<'a>)
        ensures
            final(vertex)@ == link(self@, path@, old(vertex)@),
    {
        match self.leaves(path.source()) {
            Some(leaves) => {
                let mut i: usize = 0;
                proof {
                    assert(keys_of(leaves@.take(0)) =~= Seq::<Key>::empty());
                    assert(add_parents(vertex@.parents, leaves@.take(0), path@) =~= vertex@.parents);
                }
                while i < leaves.len()
                    invariant
                        i <= leaves.len(),
                        vertex@ == (VertexView {
                            parents: add_parents(old(vertex)@.parents, leaves@.take(i as int), path@),
                            ..old(vertex)@
                        }),
                    decreases leaves.len() - i,
                {
                    proof {
                        let before = keys_of(leaves@.take(i as int));
                        let after = keys_of(leaves@.take(i + 1));
                        assert(leaves@.take(i + 1) =~= leaves@.take(i as int).push(leaves@[i as int]));
                        assert(after =~= before.push(leaves@[i as int].key()));
                        assert forall|k: Key| after.contains(k) <==> (before.contains(k) || k
                            == leaves@[i as int].key()) by {
                            if before.contains(k) {
                                let j = choose|j: int| 0 <= j < before.len() && before[j] == k;
                                assert(after[j] == k);
                            }
                            if k == leaves@[i as int].key() {
                                assert(after[i as int] == k);
                            }
                        }
                        assert(add_parents(old(vertex)@.parents, leaves@.take(i + 1), path@)
                            =~= add_parents(old(vertex)@.parents, leaves@.take(i as int), path@).insert(
                            leaves@[i as int].key(),
                            path@,
                        ));
                    }
                    vertex.add_parent(leaves[i], path.clone());
                    i += 1;
                }
                proof {
                    assert(leaves@.take(i as int) =~= leaves@);
                    assert(keys_of(Seq::<Cursor<'a>>::empty()) =~= Seq::<Key>::empty());
                }
            },
            None => {
                let n = path.segments().len();
                if n > 0 {
                    let last = path.segments()[n - 1];
                    vertex.add_source(last, path);
                }
            },
        }
    }

    /// Adds the segments of `new` to those of `held`.
    #[verifier::loop_isolation(false)]
    fn absorb(held: &mut Vertex<'a>, new: &Vertex<'a>)
        ensures
            final(held)@ == merge(old(held)@, new@),
    {
        let parents = new.parents();
        let mut i: usize = 0;
        proof {
            lemma_entry_map_empty(parents@.take(0));
            assert(held@.parents.union_prefer_right(entry_map(parents@.take(0))) =~= held@.parents);
        }
        while i < parents.len()
            invariant
                i <= parents.len(),
                keys_distinct(parents@.take(i as int)),
                held@ == (VertexView {
                    parents: old(held)@.parents.union_prefer_right(entry_map(parents@.take(i as int))),
                    ..old(held)@
                }),
            decreases parents.len() - i,
        {
            proof {
                lemma_entry_map_take(parents@, i as int);
                assert(old(held)@.parents.union_prefer_right(entry_map(parents@.take(i + 1)))
                    =~= old(held)@.parents.union_prefer_right(
                    entry_map(parents@.take(i as int)),
                ).insert(parents@[i as int].0.key(), parents@[i as int].1@));
            }
            held.add_parent(parents[i].0, parents[i].1.clone());
            i += 1;
        }
        proof {
            assert(parents@.take(i as int) =~= parents@);
        }
        let ghost mid = held@;
        let sources = new.sources();
        let mut i: usize = 0;
        proof {
            lemma_entry_map_empty(sources@.take(0));
            assert(mid.sources.union_prefer_right(entry_map(sources@.take(0))) =~= mid.sources);
        }
        while i < sources.len()
            invariant
                i <= sources.len(),
                keys_distinct(sources@.take(i as int)),
                held@ == (VertexView {
                    sources: mid.sources.union_prefer_right(entry_map(sources@.take(i as int))),
                    ..mid
                }),
            decreases sources.len() - i,
        {
            proof {
                lemma_entry_map_take(sources@, i as int);
                assert(mid.sources.union_prefer_right(entry_map(sources@.take(i + 1)))
                    =~= mid.sources.union_prefer_right(entry_map(sources@.take(i as int))).insert(
                    sources@[i as int].0.key(),
                    sources@[i as int].1@,
                ));
            }
            held.add_source(sources[i].0, sources[i].1.clone());
            i += 1;
        }
        proof {
            assert(sources@.take(i as int) =~= sources@);
        }
    }

    /// The leaves of a taint after the vertex at `cursor` assigned it in
    /// the context `context`.
    #[verifier::loop_isolation(false)]
    fn prune(&self, held: Option<&Vec<Cursor<'a>>>, cursor: Cursor<'a>, context: &ContextStack) -> (kept: Vec<
        Cursor<'a>,
    >)
        ensures
            kept@ == new_leaves(
                self@.nodes,
                match held {
                    Some(h) => h@,
                    None => Seq::empty(),
                },
                cursor,
                context@,
            ),
    {
        let mut kept: Vec<Cursor<'a>> = Vec::new();
        kept.push(cursor);
        let ghost pred = |leaf: Cursor<'a>| survives(self@.nodes, context@, leaf);
        match held {
            Some(h) => {
                let mut i: usize = 0;
                while i < h.len()
                    invariant
                        i <= h.len(),
                        kept@ == seq![cursor] + h@.take(i as int).filter(pred),
                    decreases h.len() - i,
                {
                    proof {
                        lemma_filter_step(h@, i as int, pred);
                    }
                    let stays = match self.get(&h[i]) {
                        Some(v) => !context.contains(v.context()),
                        None => false,
                    };
                    if stays {
                        kept.push(h[i]);
                    }
                    i += 1;
                }
                proof {
                    assert(h@.take(i as int) =~= h@);
                }
            },
            None => {
                proof {
                    assert(Seq::<Cursor<'a>>::empty().filter(pred) =~= Seq::<Cursor<'a>>::empty());
                }
            },
        }
        kept
    }

    /// Records the vertex `vertex` at `cursor`, reached by the segment
    /// `path`, and returns whether no vertex was at that cursor before.
    ///
    /// The vertex is joined to the leaves of the taint that flows along the
    /// segment. Where a vertex is at `cursor` already, the segments of the
    /// new one are added to it. Where the vertex assigns a taint, it
    /// becomes a leaf of that taint, in the place of the leaves that arose
    /// in its context, in one inside it or in one around it.
    pub fn push(&mut self, path: PathItem<'a>, cursor: Cursor<'a>, vertex: Vertex<'a>) -> (fresh: bool)
        ensures
            fresh == !old(self)@.nodes.dom().contains(cursor.key()),
            final(self)@ == push_spec(old(self)@, path@, cursor, vertex@),
            final(self).keys() == if fresh {
                old(self).keys().push(cursor.key())
            } else {
                old(self).keys()
            },
    {
        proof {
            use_type_invariant(&*self);
        }
        let mut vertex = vertex;
        self.add_edges(path, &mut vertex);
        let assign = match vertex.assign() {
            Some(t) => Some(t.clone()),
            None => None,
        };
        let context = vertex.context().clone();
        let found = find_entry(&self.nodes, &cursor);
        let mut nodes: Vec<(Cursor<'a>, Vertex<'a>)> = Vec::new();
        std::mem::swap(&mut nodes, &mut self.nodes);
        let ghost before = nodes@;
        match found {
            Some(i) => {
                let (at, mut held) = nodes.remove(i);
                Graph::absorb(&mut held, &vertex);
                nodes.insert(i, (at, held));
                proof {
                    assert(nodes@.map_values(|e: (Cursor<'a>, Vertex<'a>)| e.0.key()) =~= before.map_values(
                        |e: (Cursor<'a>, Vertex<'a>)| e.0.key(),
                    ));
                    assert(nodes@ =~= with_entry(before, cursor, held));
                    lemma_entry_map_put(before, cursor, held);
                    lemma_entry_map_at(before, i as int);
                }
            },
            None => {
                proof {
                    lemma_entry_map_put(before, cursor, vertex);
                }
                nodes.push((cursor, vertex));
                proof {
                    assert(nodes@.map_values(|e: (Cursor<'a>, Vertex<'a>)| e.0.key()) =~= before.map_values(
                        |e: (Cursor<'a>, Vertex<'a>)| e.0.key(),
                    ).push(cursor.key()));
                }
            },
        }
        self.nodes = nodes;
        match assign {
            Some(taint) => {
                let kept = self.prune(self.leaves(&taint), cursor, &context);
                let mut leaves: Vec<(Taint, Vec<Cursor<'a>>)> = Vec::new();
                std::mem::swap(&mut leaves, &mut self.leaves);
                proof {
                    lemma_entry_map_put(leaves@, taint, kept);
                }
                put_entry(&mut leaves, taint, kept);
                self.leaves = leaves;
            },
            None => {},
        }
        found.is_none()
    }

    /// Empties the lists of leaves of the taints that `cleared` holds of;
    /// `scope` or `returns` says which these are.
    #[verifier::loop_isolation(false)]
    fn clear_where(
        &mut self,
        scope: Option<&Scope>,
        returns: bool,
        Ghost(cleared): Ghost<spec_fn(TaintView) -> bool>,
    )
        requires
            forall|t: TaintView|
                #[trigger] cleared(t) == ((scope is Some && t.scope == scope->0@) || (returns && t.kind
                    == TaintKind::Return)),
        ensures
            final(self)@ == (GraphView { leaves: emptied(old(self)@.leaves, cleared), ..old(self)@ }),
            final(self).keys() == old(self).keys(),
    {
        proof {
            use_type_invariant(&*self);
        }
        let mut leaves: Vec<(Taint, Vec<Cursor<'a>>)> = Vec::new();
        std::mem::swap(&mut leaves, &mut self.leaves);
        let ghost before = leaves@;
        let mut i: usize = 0;
        while i < leaves.len()
            invariant
                i <= leaves.len(),
                leaves@.len() == before.len(),
                forall|k: int| 0 <= k < leaves@.len() ==> (#[trigger] leaves@[k]).0 == before[k].0,
                forall|k: int|
                    0 <= k < i ==> (#[trigger] leaves@[k]).1@ == if cleared(before[k].0@) {
                        Seq::<Cursor<'a>>::empty()
                    } else {
                        before[k].1@
                    },
                forall|k: int| i <= k < leaves@.len() ==> (#[trigger] leaves@[k]).1@ == before[k].1@,
            decreases leaves.len() - i,
        {
            let hit = (match scope {
                Some(s) => leaves[i].0.scope.same(s),
                None => false,
            }) || (returns && leaves[i].0.kind == TaintKind::Return);
            if hit {
                let taint = leaves[i].0.clone();
                leaves.set(i, (taint, Vec::new()));
            }
            i += 1;
        }
        proof {
            let target = emptied(entry_map(before), cleared);
            assert forall|x: int, y: int| 0 <= x < y < leaves@.len() implies (
            #[trigger] leaves@[x]).0.key_of() != (#[trigger] leaves@[y]).0.key_of() by {
                assert(before[x].0.key_of() != before[y].0.key_of());
            }
            assert forall|t: TaintView| has_entry(leaves@, t) <==> has_entry(before, t) by {
                if has_entry(leaves@, t) {
                    let i = entry_index(leaves@, t);
                    assert(before[i].0.key_of() == t);
                }
                if has_entry(before, t) {
                    let i = entry_index(before, t);
                    assert(leaves@[i].0.key_of() == t);
                }
            }
            assert forall|t: TaintView| has_entry(before, t) implies #[trigger] entry_map(leaves@)[t]
                == target[t] by {
                let i = entry_index(before, t);
                assert(leaves@[i].0.key_of() == t);
                lemma_entry_unique(leaves@, i, t);
            }
            assert(entry_map(leaves@) =~= target);
        }
        self.leaves = leaves;
    }

    /// Empties the lists of leaves of the taints of the scope `scope`, so
    /// that what a call left behind is not joined to the next.
    pub fn clear_scope(&mut self, scope: &Scope)
        ensures
            final(self)@ == (GraphView {
                leaves: emptied(old(self)@.leaves, of_scope(scope@)),
                ..old(self)@
            }),
            forall|t: TaintView|
                final(self)@.leaves.dom().contains(t) && t.scope == scope@
                    ==> #[trigger] final(self)@.leaves[t].len() == 0,
            final(self).keys() == old(self).keys(),
    {
        self.clear_where(Some(scope), false, Ghost(of_scope(scope@)));
    }

    /// Empties the lists of leaves of the return taints.
    pub fn clear_returns(&mut self)
        ensures
            final(self)@ == (GraphView {
                leaves: emptied(old(self)@.leaves, is_return()),
                ..old(self)@
            }),
            forall|t: TaintView|
                final(self)@.leaves.dom().contains(t) && t.kind == TaintKind::Return
                    ==> #[trigger] final(self)@.leaves[t].len() == 0,
            final(self).keys() == old(self).keys(),
    {
        self.clear_where(None, true, Ghost(is_return()));
    }
}

} // verus!
