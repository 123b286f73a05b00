//! The search of the flow graph for flows from a source to a sink.
use vstd::prelude::*;
use vstd::string::*;
use crate::graph::graph::{Graph, GraphView};
use crate::graph::rules::{Rules, VertKind, Vuln};
use crate::graph::vertex::{
    Edges, Key, PathItem, PathView, Vertex, VertexView, copy_cursors, keys_of, on_stack,
};
use crate::graph::witness::{
    add_stack, add_stacks, is_witness, lemma_witness_from_parent, lemma_witness_is_base,
    lemma_witness_to_parent, passes, reaches_source, sanitized, sourced, stack_set,
    stacks_distinct,
};
use crate::keyed::{Keyed, entry_index, entry_map, keys_distinct, lemma_entry_map_at};
use crate::seqs::{lemma_missing_shrinks, missing};
use crate::tree::cursor::Cursor;

verus! {

/// Whether the node under `cursor` is a sink of the class, by its name or
/// by its kind.
pub open spec fn is_sink(vuln: &Vuln, cursor: Cursor) -> bool {
    vuln.sink_names().contains(
        match cursor.name_spec() {
            Some(name) => name,
            None => Seq::<char>::empty(),
        },
    ) || vuln.sink_names().contains(cursor.node().kind@)
}

/// Whether the segment passes a sink of the class.
pub open spec fn hits_sink(vuln: &Vuln, path: PathView) -> bool {
    exists|k: int| 0 <= k < path.path.len() && is_sink(vuln, #[trigger] path.path[k])
}

/// Whether one of `edges` passes a sink of the class.
pub open spec fn some_hits_sink(vuln: &Vuln, edges: Edges) -> bool {
    exists|k: Key| #[trigger] edges.dom().contains(k) && hits_sink(vuln, edges[k])
}

/// Whether a segment that leads to the vertex passes a sink of the class.
pub open spec fn touches_sink(vuln: &Vuln, vertex: VertexView) -> bool {
    some_hits_sink(vuln, vertex.parents) || some_hits_sink(vuln, vertex.sources)
}

/// Whether `s` is a witness of a class of `vulns` found from one of the
/// vertices of `g` that a sink of that class leads to.
pub open spec fn is_finding(g: GraphView, vulns: Seq<(String, Vuln)>, s: Seq<Key>) -> bool {
    exists|key: Key, j: int|
        g.nodes.dom().contains(key) && 0 <= j < vulns.len() && #[trigger] finding_at(
            g,
            vulns,
            key,
            j,
            s,
        )
}

/// Whether `s` is a witness of the class `j` of `vulns` found from the
/// vertex at `key`, which a sink of that class leads to.
pub open spec fn finding_at(g: GraphView, vulns: Seq<(String, Vuln)>, key: Key, j: int, s: Seq<Key>) -> bool {
    touches_sink(&vulns[j].1, g.nodes[key]) && is_witness(g, &vulns[j].1, seq![key], s)
}

/// Whether `s` is a finding at the vertex at `key` for one of the first `n`
/// classes of `vulns`.
pub open spec fn some_class(g: GraphView, vulns: Seq<(String, Vuln)>, key: Key, n: int, s: Seq<Key>) -> bool {
    exists|b: int| 0 <= b < n && #[trigger] finding_at(g, vulns, key, b, s)
}

/// Whether `s` is a finding at one of the first `n` vertices of `nodes`.
pub open spec fn some_vertex(
    g: GraphView,
    vulns: Seq<(String, Vuln)>,
    nodes: Seq<(Cursor, Vertex)>,
    n: int,
    s: Seq<Key>,
) -> bool {
    exists|a: int| 0 <= a < n && #[trigger] some_class(g, vulns, nodes[a].0.key(), vulns.len() as int, s)
}

/// Whether the search from `base` goes on along segment `j` of `edges` and
/// finds the witness `s` there.
pub open spec fn branch(
    g: GraphView,
    vuln: &Vuln,
    base: Seq<Key>,
    edges: Seq<(Cursor, PathItem)>,
    j: int,
    s: Seq<Key>,
) -> bool {
    &&& !sanitized(vuln, edges[j].1@)
    &&& !sourced(vuln, edges[j].1@)
    &&& !base.contains(edges[j].0.key())
    &&& g.nodes.dom().contains(edges[j].0.key())
    &&& is_witness(g, vuln, base.push(edges[j].0.key()), s)
}

/// Whether segment `j` of `edges` comes unsanitized from a source.
pub open spec fn ends(vuln: &Vuln, edges: Seq<(Cursor, PathItem)>, j: int) -> bool {
    !sanitized(vuln, edges[j].1@) && sourced(vuln, edges[j].1@)
}

/// Whether one of the first `n` of `edges` comes unsanitized from a source.
pub open spec fn some_ends(vuln: &Vuln, edges: Seq<(Cursor, PathItem)>, n: int) -> bool {
    exists|j: int| 0 <= j < n && #[trigger] ends(vuln, edges, j)
}

/// Whether the search from `base` finds `s` along one of the first `n` of
/// `edges`.
pub open spec fn some_branch(
    g: GraphView,
    vuln: &Vuln,
    base: Seq<Key>,
    edges: Seq<(Cursor, PathItem)>,
    n: int,
    s: Seq<Key>,
) -> bool {
    exists|j: int| 0 <= j < n && #[trigger] branch(g, vuln, base, edges, j, s)
}

/// What a search from `base` finds, by the segments that lead to the last
/// vertex of `base`: the witnesses along the segments from its parents, and
/// `base` itself if a segment comes unsanitized from a source.
proof fn lemma_search<'a>(
    g: GraphView<'a>,
    vuln: &Vuln,
    base: Seq<Key>,
    parents: Seq<(Cursor<'a>, PathItem<'a>)>,
    sources: Seq<(Cursor<'a>, PathItem<'a>)>,
    s: Seq<Key>,
)
    requires
        base.len() >= 1,
        g.nodes.dom().contains(base.last()),
        keys_distinct(parents),
        keys_distinct(sources),
        entry_map(parents) == g.nodes[base.last()].parents,
        entry_map(sources) == g.nodes[base.last()].sources,
    ensures
        is_witness(g, vuln, base, s) <==> (some_branch(g, vuln, base, parents, parents.len() as int, s)
            || (s == base && (some_ends(vuln, parents, parents.len() as int) || some_ends(
            vuln,
            sources,
            sources.len() as int,
        )))),
{
    let at = base.last();
    if is_witness(g, vuln, base, s) {
        if s.len() > base.len() {
            lemma_witness_to_parent(g, vuln, base, s);
            let to = s[base.len() as int];
            let j = entry_index(parents, to);
            lemma_entry_map_at(parents, j);
            assert(branch(g, vuln, base, parents, j, s));
        } else {
            lemma_witness_is_base(g, vuln, base, s);
            if reaches_source(g.nodes[at].parents, vuln) {
                let k = choose|k: Key| #[trigger]
                    g.nodes[at].parents.dom().contains(k) && !sanitized(vuln, g.nodes[at].parents[k])
                        && sourced(vuln, g.nodes[at].parents[k]);
                let j = entry_index(parents, k);
                lemma_entry_map_at(parents, j);
                assert(ends(vuln, parents, j));
            } else {
                let k = choose|k: Key| #[trigger]
                    g.nodes[at].sources.dom().contains(k) && !sanitized(vuln, g.nodes[at].sources[k])
                        && sourced(vuln, g.nodes[at].sources[k]);
                let j = entry_index(sources, k);
                lemma_entry_map_at(sources, j);
                assert(ends(vuln, sources, j));
            }
        }
    }
    if some_branch(g, vuln, base, parents, parents.len() as int, s) {
        let j = choose|j: int| 0 <= j < parents.len() && #[trigger] branch(g, vuln, base, parents, j, s);
        lemma_entry_map_at(parents, j);
        lemma_witness_from_parent(g, vuln, base, parents[j].0.key(), s);
    }
    if s == base && some_ends(vuln, parents, parents.len() as int) {
        let j = choose|j: int| 0 <= j < parents.len() && #[trigger] ends(vuln, parents, j);
        lemma_entry_map_at(parents, j);
        assert(g.nodes[at].parents.dom().contains(parents[j].0.key()));
        assert(reaches_source(g.nodes[at].parents, vuln));
        assert(s.take(s.len() as int) =~= s);
    }
    if s == base && some_ends(vuln, sources, sources.len() as int) {
        let j = choose|j: int| 0 <= j < sources.len() && #[trigger] ends(vuln, sources, j);
        lemma_entry_map_at(sources, j);
        assert(g.nodes[at].sources.dom().contains(sources[j].0.key()));
        assert(reaches_source(g.nodes[at].sources, vuln));
    }
}

impl<'a> Graph<'a> {
    /// Whether the segment is sanitized, and whether it starts at a source.
    pub fn scan(vuln: &Vuln, path: &PathItem<'a>) -> (found: (bool, bool))
        ensures
            found.0 == sanitized(vuln, path@),
            found.1 == sourced(vuln, path@),
    {
        let segments = path.segments();
        let named = vuln.has_source(path.source().name.as_str());
        let mut clean = false;
        let mut from_source = false;
        let mut i: usize = 0;
        while i < segments.len()
            invariant
                i <= segments.len(),
                segments@ == path@.path,
                clean == (exists|k: int|
                    0 <= k < i && vuln.identify_spec(#[trigger] segments@[k]) == Some(
                        VertKind::Sanitizer,
                    )),
                from_source == (exists|k: int|
                    0 <= k < i && vuln.identify_spec(#[trigger] segments@[k]) == Some(VertKind::Source)),
            decreases segments.len() - i,
        {
            match vuln.identify(segments[i]) {
                Some(VertKind::Sanitizer) => {
                    clean = true;
                },
                Some(VertKind::Source) => {
                    from_source = true;
                },
                _ => {},
            }
            i += 1;
        }
        (clean, from_source || named)
    }

    /// The witnesses of the class `vuln` that a search backward from the
    /// last cursor of `stack` finds.
    ///
    /// A segment with a sanitizer on it is not followed. A segment that
    /// comes from a source makes the stack a witness. Any other segment
    /// from a parent is followed to that parent, unless the parent is on
    /// the stack already.
    #[verifier::loop_isolation(false)]
    pub fn crawl(&self, vuln: &Vuln, stack: Vec<Cursor<'a>>) -> (found: Vec<Vec<Cursor<'a>>>)
        ensures
            stacks_distinct(found@),
            forall|s: Seq<Key>|
                stack_set(found@).contains(s) <==> is_witness(self@, vuln, keys_of(stack@), s),
        decreases missing(self.keys(), keys_of(stack@)),
    {
        let mut found: Vec<Vec<Cursor<'a>>> = Vec::new();
        let ghost base = keys_of(stack@);
        let ghost g = self@;
        if stack.len() == 0 {
            assert(stack_set(found@) =~= Set::<Seq<Key>>::empty());
            return found;
        }
        let last = stack[stack.len() - 1];
        assert(base.last() == last.key());
        let all = self.nodes();
        match self.get(&last) {
            None => {
                assert(stack_set(found@) =~= Set::<Seq<Key>>::empty());
                found
            },
            Some(vertex) => {
                let parents = vertex.parents();
                let sources = vertex.sources();
                let mut recorded = false;
                let mut i: usize = 0;
                assert(stack_set(found@) =~= Set::<Seq<Key>>::empty());
                while i < parents.len()
                    invariant
                        i <= parents.len(),
                        stacks_distinct(found@),
                        recorded == some_ends(vuln, parents@, i as int),
                        forall|s: Seq<Key>|
                            stack_set(found@).contains(s) <==> some_branch(
                                g,
                                vuln,
                                base,
                                parents@,
                                i as int,
                                s,
                            ),
                    decreases parents.len() - i,
                {
                    let parent = parents[i].0;
                    let (clean, from_source) = Graph::scan(vuln, &parents[i].1);
                    let ghost before = stack_set(found@);
                    let ghost mut added = Set::<Seq<Key>>::empty();
                    if !clean {
                        if from_source {
                            recorded = true;
                        } else if !on_stack(&stack, &parent) && self.get(&parent).is_some() {
                            let mut next = copy_cursors(&stack);
                            next.push(parent);
                            proof {
                                assert(keys_of(next@) =~= base.push(parent.key()));
                                assert forall|y: Key| base.contains(y) implies keys_of(
                                    next@,
                                ).contains(y) by {
                                    let k = choose|k: int| 0 <= k < base.len() && base[k] == y;
                                    assert(keys_of(next@)[k] == y);
                                }
                                assert(keys_of(next@)[base.len() as int] == parent.key());
                                lemma_missing_shrinks(self.keys(), base, keys_of(next@), parent.key());
                            }
                            let more = self.crawl(vuln, next);
                            proof {
                                added = stack_set(more@);
                            }
                            add_stacks(&mut found, more);
                        }
                    }
                    proof {
                        assert(stack_set(found@) =~= before.union(added));
                        assert forall|s: Seq<Key>| added.contains(s) <==> branch(
                            g,
                            vuln,
                            base,
                            parents@,
                            i as int,
                            s,
                        ) by {}
                        assert forall|s: Seq<Key>| stack_set(found@).contains(s) <==> some_branch(
                            g,
                            vuln,
                            base,
                            parents@,
                            i + 1,
                            s,
                        ) by {
                            if some_branch(g, vuln, base, parents@, i + 1, s) {
                                let j = choose|j: int|
                                    0 <= j < i + 1 && #[trigger] branch(g, vuln, base, parents@, j, s);
                                if j < i {
                                    assert(some_branch(g, vuln, base, parents@, i as int, s));
                                }
                            }
                            if some_branch(g, vuln, base, parents@, i as int, s) {
                                let j = choose|j: int|
                                    0 <= j < i && #[trigger] branch(g, vuln, base, parents@, j, s);
                                assert(branch(g, vuln, base, parents@, j, s));
                            }
                            if added.contains(s) {
                                assert(branch(g, vuln, base, parents@, i as int, s));
                            }
                        }
                        if some_ends(vuln, parents@, i + 1) {
                            let j = choose|j: int| 0 <= j < i + 1 && #[trigger] ends(vuln, parents@, j);
                            if j < i {
                                assert(some_ends(vuln, parents@, i as int));
                            }
                        }
                        if some_ends(vuln, parents@, i as int) {
                            let j = choose|j: int| 0 <= j < i && #[trigger] ends(vuln, parents@, j);
                            assert(ends(vuln, parents@, j));
                        }
                        if !clean && from_source {
                            assert(ends(vuln, parents@, i as int));
                        }
                    }
                    i += 1;
                }
                let mut sourced_here = false;
                let mut k: usize = 0;
                while k < sources.len()
                    invariant
                        k <= sources.len(),
                        sourced_here == some_ends(vuln, sources@, k as int),
                    decreases sources.len() - k,
                {
                    let (clean, from_source) = Graph::scan(vuln, &sources[k].1);
                    proof {
                        if some_ends(vuln, sources@, k + 1) {
                            let j = choose|j: int| 0 <= j < k + 1 && #[trigger] ends(vuln, sources@, j);
                            if j < k {
                                assert(some_ends(vuln, sources@, k as int));
                            }
                        }
                        if some_ends(vuln, sources@, k as int) {
                            let j = choose|j: int| 0 <= j < k && #[trigger] ends(vuln, sources@, j);
                            assert(ends(vuln, sources@, j));
                        }
                        if !clean && from_source {
                            assert(ends(vuln, sources@, k as int));
                        }
                    }
                    if !clean && from_source {
                        sourced_here = true;
                    }
                    k += 1;
                }
                let ghost before = stack_set(found@);
                if recorded || sourced_here {
                    add_stack(&mut found, stack);
                }
                proof {
                    assert forall|s: Seq<Key>| stack_set(found@).contains(s) <==> is_witness(
                        g,
                        vuln,
                        base,
                        s,
                    ) by {
                        lemma_search(g, vuln, base, parents@, sources@, s);
                    }
                }
                found
            },
        }
    }

    /// Whether a segment of `edges` passes a sink of the class.
    fn edges_hit(vuln: &Vuln, edges: &Vec<(Cursor<'a>, PathItem<'a>)>) -> (hit: bool)
        requires
            keys_distinct(edges@),
        ensures
            hit == some_hits_sink(vuln, entry_map(edges@)),
    {
        let mut i: usize = 0;
        while i < edges.len()
            invariant
                i <= edges.len(),
                keys_distinct(edges@),
                forall|j: int| 0 <= j < i ==> !hits_sink(vuln, (#[trigger] edges@[j]).1@),
            decreases edges.len() - i,
        {
            let segments = edges[i].1.segments();
            let mut k: usize = 0;
            while k < segments.len()
                invariant
                    k <= segments.len(),
                    i < edges.len(),
                    keys_distinct(edges@),
                    segments@ == edges@[i as int].1@.path,
                    forall|n: int| 0 <= n < k ==> !is_sink(vuln, #[trigger] segments@[n]),
                decreases segments.len() - k,
            {
                let name = match segments[k].name() {
                    Some(name) => name,
                    None => String::new(),
                };
                if vuln.has_sink(name.as_str()) || vuln.has_sink(segments[k].kind()) {
                    proof {
                        assert(is_sink(vuln, segments@[k as int]));
                        lemma_entry_map_at(edges@, i as int);
                    }
                    return true;
                }
                k += 1;
            }
            i += 1;
        }
        proof {
            let m = entry_map(edges@);
            if some_hits_sink(vuln, m) {
                let key = choose|key: Key| #[trigger] m.dom().contains(key) && hits_sink(vuln, m[key]);
                let j = entry_index(edges@, key);
                assert(!hits_sink(vuln, edges@[j].1@));
            }
        }
        false
    }

    /// The witnesses of every class of `rules`: for each vertex that a
    /// segment with a sink of a class leads to, what a search backward from
    /// that vertex finds for the class.
    #[verifier::loop_isolation(false)]
    pub fn match_rules(&self, rules: &Rules) -> (found: Vec<Vec<Cursor<'a>>>)
        ensures
            stacks_distinct(found@),
            forall|s: Seq<Key>|
                stack_set(found@).contains(s) <==> is_finding(self@, rules.vulns_spec(), s),
    {
        let mut found: Vec<Vec<Cursor<'a>>> = Vec::new();
        let nodes = self.nodes();
        let vulns = rules.vulns();
        let ghost g = self@;
        let mut n: usize = 0;
        assert(stack_set(found@) =~= Set::<Seq<Key>>::empty());
        while n < nodes.len()
            invariant
                n <= nodes.len(),
                stacks_distinct(found@),
                forall|s: Seq<Key>|
                    #![trigger stack_set(found@).contains(s)]
                    #![trigger some_vertex(g, vulns@, nodes@, n as int, s)]
                    stack_set(found@).contains(s) <==> some_vertex(g, vulns@, nodes@, n as int, s),
            decreases nodes.len() - n,
        {
            let ghost key = nodes@[n as int].0.key();
            proof {
                lemma_entry_map_at(nodes@, n as int);
            }
            let ghost done = stack_set(found@);
            let mut j: usize = 0;
            while j < vulns.len()
                invariant
                    j <= vulns.len(),
                    n < nodes.len(),
                    stacks_distinct(found@),
                    forall|s: Seq<Key>|
                        #![trigger stack_set(found@).contains(s)]
                        #![trigger some_class(g, vulns@, key, j as int, s)]
                        stack_set(found@).contains(s) <==> (done.contains(s) || some_class(
                            g,
                            vulns@,
                            key,
                            j as int,
                            s,
                        )),
                decreases vulns.len() - j,
            {
                let vuln = &vulns[j].1;
                let vertex = &nodes[n].1;
                let ghost before = stack_set(found@);
                let ghost mut added = Set::<Seq<Key>>::empty();
                let hit = Graph::edges_hit(vuln, vertex.parents()) || Graph::edges_hit(
                    vuln,
                    vertex.sources(),
                );
                assert(hit == touches_sink(vuln, g.nodes[key]));
                if hit {
                    let mut stack: Vec<Cursor<'a>> = Vec::new();
                    stack.push(nodes[n].0);
                    assert(keys_of(stack@) =~= seq![key]);
                    let more = self.crawl(vuln, stack);
                    proof {
                        added = stack_set(more@);
                    }
                    add_stacks(&mut found, more);
                }
                proof {
                    assert(stack_set(found@) =~= before.union(added));
                    assert forall|s: Seq<Key>| #[trigger] added.contains(s) <==> finding_at(
                        g,
                        vulns@,
                        key,
                        j as int,
                        s,
                    ) by {}
                    assert forall|s: Seq<Key>| stack_set(found@).contains(s) <==> (done.contains(s)
                        || some_class(g, vulns@, key, j + 1, s)) by {
                        assert(before.contains(s) <==> (done.contains(s) || some_class(
                            g,
                            vulns@,
                            key,
                            j as int,
                            s,
                        )));
                        assert(stack_set(found@).contains(s) <==> (before.contains(s)
                            || added.contains(s)));
                        if some_class(g, vulns@, key, j + 1, s) {
                            let b = choose|b: int|
                                0 <= b < j + 1 && #[trigger] finding_at(g, vulns@, key, b, s);
                            if b < j {
                                assert(some_class(g, vulns@, key, j as int, s));
                            }
                        }
                        if some_class(g, vulns@, key, j as int, s) {
                            let b = choose|b: int|
                                0 <= b < j && #[trigger] finding_at(g, vulns@, key, b, s);
                            assert(finding_at(g, vulns@, key, b, s));
                        }
                        if added.contains(s) {
                            assert(finding_at(g, vulns@, key, j as int, s));
                        }
                    }
                }
                j += 1;
            }
            proof {
                assert forall|s: Seq<Key>| stack_set(found@).contains(s) <==> some_vertex(
                    g,
                    vulns@,
                    nodes@,
                    n + 1,
                    s,
                ) by {
                    assert(done.contains(s) <==> some_vertex(g, vulns@, nodes@, n as int, s));
                    assert(stack_set(found@).contains(s) <==> (done.contains(s) || some_class(
                        g,
                        vulns@,
                        key,
                        vulns@.len() as int,
                        s,
                    )));
                    if some_vertex(g, vulns@, nodes@, n + 1, s) {
                        let a = choose|a: int|
                            0 <= a < n + 1 && #[trigger] some_class(
                                g,
                                vulns@,
                                nodes@[a].0.key(),
                                vulns@.len() as int,
                                s,
                            );
                        if a < n {
                            assert(some_vertex(g, vulns@, nodes@, n as int, s));
                        }
                    }
                    if some_vertex(g, vulns@, nodes@, n as int, s) {
                        let a = choose|a: int|
                            0 <= a < n && #[trigger] some_class(
                                g,
                                vulns@,
                                nodes@[a].0.key(),
                                vulns@.len() as int,
                                s,
                            );
                        assert(some_class(g, vulns@, nodes@[a].0.key(), vulns@.len() as int, s));
                    }
                    if some_class(g, vulns@, key, vulns@.len() as int, s) {
                        assert(some_class(g, vulns@, nodes@[n as int].0.key(), vulns@.len() as int, s));
                    }
                }
            }
            n += 1;
        }
        proof {
            assert forall|s: Seq<Key>| stack_set(found@).contains(s) <==> is_finding(
                g,
                vulns@,
                s,
            ) by {
                if some_vertex(g, vulns@, nodes@, nodes@.len() as int, s) {
                    let a = choose|a: int|
                        0 <= a < nodes@.len() && #[trigger] some_class(
                            g,
                            vulns@,
                            nodes@[a].0.key(),
                            vulns@.len() as int,
                            s,
                        );
                    let b = choose|b: int|
                        0 <= b < vulns@.len() && #[trigger] finding_at(g, vulns@, nodes@[a].0.key(), b, s);
                    lemma_entry_map_at(nodes@, a);
                    assert(finding_at(g, vulns@, nodes@[a].0.key(), b, s));
                }
                if is_finding(g, vulns@, s) {
                    let (key, b) = choose|key: Key, b: int|
                        g.nodes.dom().contains(key) && 0 <= b < vulns.len() && #[trigger] finding_at(
                            g,
                            vulns@,
                            key,
                            b,
                            s,
                        );
                    let a = entry_index(nodes@, key);
                    assert(finding_at(g, vulns@, nodes@[a].0.key(), b, s));
                    assert(some_class(g, vulns@, nodes@[a].0.key(), vulns@.len() as int, s));
                    assert(some_vertex(g, vulns@, nodes@, nodes@.len() as int, s));
                }
            }
        }
        found
    }
}

} // verus!
