//! The vertices of the flow graph and the path segments that join them.
use vstd::prelude::*;
use vstd::string::*;
use crate::analyzer::taint::{ContextStack, ContextView, Taint, TaintView};
use crate::tree::cursor::Cursor;
use crate::keyed::{
    Keyed, keys_distinct, has_entry, entry_index, put_entry, entry_map, lemma_entry_map_put,
    lemma_entry_map_empty, lemma_entry_unique,
};

verus! {

/// What identifies a cursor: the name of its file and the index of its node.
pub type Key = (Seq<char>, int);

/// The keys of the cursors of `s`.
pub open spec fn keys_of(s: Seq<Cursor>) -> Seq<Key> {
    s.map_values(|c: Cursor| c.key())
}

/// Whether `v` holds a cursor with the key of `cursor`.
pub fn on_stack<'a>(v: &Vec<Cursor<'a>>, cursor: &Cursor<'a>) -> (found: bool)
    ensures
        found == keys_of(v@).contains(cursor.key()),
{
    let mut i: usize = 0;
    while i < v.len()
        invariant
            i <= v.len(),
            forall|k: int| 0 <= k < i ==> keys_of(v@)[k] != cursor.key(),
        decreases v.len() - i,
    {
        if v[i].same(cursor) {
            assert(keys_of(v@)[i as int] == cursor.key());
            return true;
        }
        i += 1;
    }
    false
}

/// A copy of the list of cursors `v`.
pub fn copy_cursors<'a>(v: &Vec<Cursor<'a>>) -> (w: Vec<Cursor<'a>>)
    ensures
        w@ == v@,
{
    let mut w: Vec<Cursor<'a>> = Vec::new();
    let mut i: usize = 0;
    while i < v.len()
        invariant
            i <= v.len(),
            w@ == v@.take(i as int),
        decreases v.len() - i,
    {
        w.push(v[i]);
        assert(v@.take(i + 1) =~= v@.take(i as int).push(v@[i as int]));
        i += 1;
    }
    assert(v@.take(i as int) =~= v@);
    w
}

/// What a segment holds.
pub struct PathView<'a> {
    /// The taint that flows along the segment.
    pub source: TaintView,
    /// The nodes that the segment passes, in order.
    pub path: Seq<Cursor<'a>>,
}

/// One segment of a flow: the taint that flows, and the nodes it passes
/// between two vertices of the graph.
pub struct PathItem<'a> {
    source: Taint,
    path: Vec<Cursor<'a>>,
}

impl<'a> View for PathItem<'a> {
    type V = PathView<'a>;

    closed spec fn view(&self) -> PathView<'a> {
        PathView { source: self.source@, path: self.path@ }
    }
}

impl<'a> Clone for PathItem<'a> {
    fn clone(&self) -> (p: Self)
        ensures
            p@ == self@,
    {
        PathItem { source: self.source.clone(), path: copy_cursors(&self.path) }
    }
}

impl<'a> PathItem<'a> {
    /// The segment along which `source` flows past the nodes `path`.
    pub fn new(source: Taint, path: Vec<Cursor<'a>>) -> (p: PathItem<'a>)
        ensures
            p@ == (PathView { source: source@, path: path@ }),
    {
        PathItem { source, path }
    }

    /// Whether the segment passes the node of `cursor`.
    pub fn contains(&self, cursor: &Cursor<'a>) -> (found: bool)
        ensures
            found == keys_of(self@.path).contains(cursor.key()),
    {
        on_stack(&self.path, cursor)
    }

    /// The nodes that the segment passes, in order.
    pub fn segments(&self) -> (path: &Vec<Cursor<'a>>)
        ensures
            path@ == self@.path,
    {
        &self.path
    }

    /// The nodes that the segment passes, in order.
    pub fn path_vec(&self) -> (path: &Vec<Cursor<'a>>)
        ensures
            path@ == self@.path,
    {
        &self.path
    }

    /// The taint that flows along the segment.
    pub fn source(&self) -> (source: &Taint)
        ensures
            source@ == self@.source,
    {
        &self.source
    }

    /// The text of the first node of the segment; empty if it has none.
    pub fn to_str(&self) -> (text: &'a str)
        ensures
            text@ == if self@.path.len() > 0 {
                self@.path[0].text()
            } else {
                Seq::<char>::empty()
            },
    {
        if self.path.len() > 0 {
            self.path[0].to_str()
        } else {
            proof {
                reveal_strlit("");
                assert(""@ =~= Seq::<char>::empty());
            }
            ""
        }
    }
}

/// The segments that lead to a vertex, each under the key of the cursor it
/// comes from.
pub type Edges<'a> = Map<Key, PathView<'a>>;

/// What a vertex holds.
pub struct VertexView<'a> {
    /// The taint that the vertex assigns, if any.
    pub assign: Option<TaintView>,
    /// The context in which the vertex arose.
    pub context: Seq<ContextView>,
    /// The segments that lead to the vertex from other vertices.
    pub parents: Edges<'a>,
    /// The segments that lead to the vertex from sources that have no
    /// vertex.
    pub sources: Edges<'a>,
}

/// A program point of the flow graph.
pub struct Vertex<'a> {
    assign: Option<Taint>,
    context: ContextStack,
    parents: Vec<(Cursor<'a>, PathItem<'a>)>,
    global_sources: Vec<(Cursor<'a>, PathItem<'a>)>,
}

/// What an optional taint holds.
pub open spec fn opt_taint(t: Option<Taint>) -> Option<TaintView> {
    match t {
        Some(t) => Some(t@),
        None => None,
    }
}

impl<'a> View for Vertex<'a> {
    type V = VertexView<'a>;

    closed spec fn view(&self) -> VertexView<'a> {
        VertexView {
            assign: opt_taint(self.assign),
            context: self.context@,
            parents: entry_map(self.parents@),
            sources: entry_map(self.global_sources@),
        }
    }
}

impl<'a> Clone for Vertex<'a> {
    fn clone(&self) -> (v: Self)
        ensures
            v@ == self@,
    {
        proof {
            use_type_invariant(self);
        }
        let assign = match &self.assign {
            Some(t) => Some(t.clone()),
            None => None,
        };
        Vertex {
            assign,
            context: self.context.clone(),
            parents: copy_edges(&self.parents),
            global_sources: copy_edges(&self.global_sources),
        }
    }
}

/// A copy of a list of segments.
pub(crate) fn copy_edges<'a>(v: &Vec<(Cursor<'a>, PathItem<'a>)>) -> (w: Vec<(Cursor<'a>, PathItem<'a>)>)
    requires
        keys_distinct(v@),
    ensures
        keys_distinct(w@),
        entry_map(w@) == entry_map(v@),
        w@.len() == v@.len(),
        forall|i: int| 0 <= i < w@.len() ==> (#[trigger] w@[i]).0 == v@[i].0 && w@[i].1@ == v@[i].1@,
{
    let mut w: Vec<(Cursor<'a>, PathItem<'a>)> = Vec::new();
    let mut i: usize = 0;
    while i < v.len()
        invariant
            i <= v.len(),
            w@.len() == i,
            forall|k: int| 0 <= k < i ==> (#[trigger] w@[k]).0 == v@[k].0 && w@[k].1@ == v@[k].1@,
        decreases v.len() - i,
    {
        w.push((v[i].0, v[i].1.clone()));
        i += 1;
    }
    proof {
        assert forall|a: int, b: int| 0 <= a < b < w@.len() implies (#[trigger] w@[a]).0.key_of() != (
        #[trigger] w@[b]).0.key_of() by {
            assert(v@[a].0.key_of() != v@[b].0.key_of());
        }
        assert forall|k: Key| has_entry(w@, k) <==> has_entry(v@, k) by {
            if has_entry(w@, k) {
                let i = entry_index(w@, k);
                assert(v@[i].0.key_of() == k);
            }
            if has_entry(v@, k) {
                let i = entry_index(v@, k);
                assert(w@[i].0.key_of() == k);
            }
        }
        assert forall|k: Key| has_entry(v@, k) implies w@[entry_index(w@, k)].1@ == v@[entry_index(
            v@,
            k,
        )].1@ by {
            let i = entry_index(v@, k);
            assert(w@[i].0.key_of() == k);
            lemma_entry_unique(w@, i, k);
        }
        assert(entry_map(w@) =~= entry_map(v@));
    }
    w
}

impl<'a> Vertex<'a> {
    /// Holds of every vertex: it has one segment at most from each parent
    /// and from each source.
    #[verifier::type_invariant]
    pub closed spec fn inv(self) -> bool {
        keys_distinct(self.parents@) && keys_distinct(self.global_sources@)
    }

    /// A vertex without segments that assigns `assign` in the context
    /// `context`.
    pub fn new(assign: Option<Taint>, context: ContextStack) -> (v: Vertex<'a>)
        ensures
            v@ == (VertexView {
                assign: opt_taint(assign),
                context: context@,
                parents: Map::empty(),
                sources: Map::empty(),
            }),
    {
        let v = Vertex { assign, context, parents: Vec::new(), global_sources: Vec::new() };
        proof {
            lemma_entry_map_empty(v.parents@);
            lemma_entry_map_empty(v.global_sources@);
        }
        v
    }

    /// The segments from other vertices in the order in which they were
    /// first recorded, each with the cursor of the vertex it comes from.
    pub closed spec fn listed_parents(&self) -> Seq<(Cursor<'a>, PathItem<'a>)> {
        self.parents@
    }

    /// The segments from other vertices, each with the cursor of the vertex
    /// it comes from.
    pub fn parents(&self) -> (parents: &Vec<(Cursor<'a>, PathItem<'a>)>)
        ensures
            parents@ == self.listed_parents(),
            entry_map(parents@) == self@.parents,
            keys_distinct(parents@),
    {
        proof {
            use_type_invariant(self);
        }
        &self.parents
    }

    /// Records that `path` leads here from the vertex at `parent`, in the
    /// place of any segment recorded from there before.
    pub fn add_parent(&mut self, parent: Cursor<'a>, path: PathItem<'a>)
        ensures
            final(self)@ == (VertexView {
                parents: old(self)@.parents.insert(parent.key(), path@),
                ..old(self)@
            }),
    {
        proof {
            use_type_invariant(&*self);
            lemma_entry_map_put(self.parents@, parent, path);
        }
        let mut parents: Vec<(Cursor<'a>, PathItem<'a>)> = Vec::new();
        std::mem::swap(&mut parents, &mut self.parents);
        put_entry(&mut parents, parent, path);
        self.parents = parents;
    }

    /// The segments from sources that have no vertex, each with the cursor
    /// that stands for the source.
    pub fn sources(&self) -> (sources: &Vec<(Cursor<'a>, PathItem<'a>)>)
        ensures
            entry_map(sources@) == self@.sources,
            keys_distinct(sources@),
    {
        proof {
            use_type_invariant(self);
        }
        &self.global_sources
    }

    /// Records that `path` leads here from the source that `source` stands
    /// for, in the place of any segment recorded from there before.
    pub fn add_source(&mut self, source: Cursor<'a>, path: PathItem<'a>)
        ensures
            final(self)@ == (VertexView {
                sources: old(self)@.sources.insert(source.key(), path@),
                ..old(self)@
            }),
    {
        proof {
            use_type_invariant(&*self);
            lemma_entry_map_put(self.global_sources@, source, path);
        }
        let mut sources: Vec<(Cursor<'a>, PathItem<'a>)> = Vec::new();
        std::mem::swap(&mut sources, &mut self.global_sources);
        put_entry(&mut sources, source, path);
        self.global_sources = sources;
    }

    /// The context in which the vertex arose.
    pub fn context(&self) -> (context: &ContextStack)
        ensures
            context@ == self@.context,
    {
        &self.context
    }

    /// The taint that the vertex assigns, if any.
    pub fn assign(&self) -> (assign: &Option<Taint>)
        ensures
            opt_taint(*assign) == self@.assign,
    {
        &self.assign
    }
}

} // verus!
