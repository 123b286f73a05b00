//! What the rule matcher looks for in the flow graph: chains of vertices
//! from a sink back to a source with no sanitizer on the way.
use vstd::prelude::*;
use crate::graph::graph::GraphView;
use crate::graph::rules::{VertKind, Vuln};
use crate::graph::vertex::{Edges, Key, PathView, keys_of, copy_cursors};
use crate::tree::cursor::Cursor;

verus! {

/// Whether a node on the segment is a sanitizer of the class.
pub open spec fn sanitized(vuln: &Vuln, path: PathView) -> bool {
    exists|k: int|
        0 <= k < path.path.len() && vuln.identify_spec(#[trigger] path.path[k]) == Some(
            VertKind::Sanitizer,
        )
}

/// Whether the segment starts at a source of the class: a node on it is a
/// source, or the taint that flows along it goes by the name of one.
pub open spec fn sourced(vuln: &Vuln, path: PathView) -> bool {
    (exists|k: int|
        0 <= k < path.path.len() && vuln.identify_spec(#[trigger] path.path[k]) == Some(
            VertKind::Source,
        )) || vuln.source_names().contains(path.source.name)
}

/// Whether one of `edges` comes unsanitized from a source.
pub open spec fn reaches_source(edges: Edges, vuln: &Vuln) -> bool {
    exists|k: Key| #[trigger]
        edges.dom().contains(k) && !sanitized(vuln, edges[k]) && sourced(vuln, edges[k])
}

/// Whether the search goes on from the vertex at `from` to its parent at
/// `to`: the segment between them is neither sanitized nor from a source.
pub open spec fn passes(g: GraphView, vuln: &Vuln, from: Key, to: Key) -> bool {
    &&& g.nodes.dom().contains(from)
    &&& g.nodes.dom().contains(to)
    &&& g.nodes[from].parents.dom().contains(to)
    &&& !sanitized(vuln, g.nodes[from].parents[to])
    &&& !sourced(vuln, g.nodes[from].parents[to])
}

/// Whether the search ends at the vertex at `at`: a segment leads to it
/// unsanitized from a source.
pub open spec fn records(g: GraphView, vuln: &Vuln, at: Key) -> bool {
    &&& g.nodes.dom().contains(at)
    &&& (reaches_source(g.nodes[at].parents, vuln) || reaches_source(g.nodes[at].sources, vuln))
}

/// Whether the stack `s` is a witness of the class `vuln` that a search
/// from the stack `base` finds: `s` goes on from `base` parent by parent
/// along segments that are neither sanitized nor from a source, never to a
/// vertex that is on the stack already, and ends at a vertex that a segment
/// reaches unsanitized from a source.
pub open spec fn is_witness(g: GraphView, vuln: &Vuln, base: Seq<Key>, s: Seq<Key>) -> bool {
    &&& base.len() >= 1
    &&& base.is_prefix_of(s)
    &&& forall|i: int| base.len() <= i < s.len() ==> !s.take(i).contains(#[trigger] s[i])
    &&& forall|i: int| base.len() - 1 <= i < s.len() - 1 ==> passes(g, vuln, #[trigger] s[i], s[i + 1])
    &&& records(g, vuln, s.last())
}

/// A witness found from a stack with one vertex more is a witness found
/// from the stack, if the search goes on to that vertex.
pub proof fn lemma_witness_from_parent(g: GraphView, vuln: &Vuln, base: Seq<Key>, to: Key, s: Seq<Key>)
    requires
        base.len() >= 1,
        passes(g, vuln, base.last(), to),
        !base.contains(to),
        is_witness(g, vuln, base.push(to), s),
    ensures
        is_witness(g, vuln, base, s),
{
    let longer = base.push(to);
    assert forall|i: int| 0 <= i < base.len() implies base[i] == s[i] by {
        assert(longer[i] == s[i]);
    }
    assert(s[base.len() as int] == longer[base.len() as int]);
    assert(s[base.len() - 1] == longer[base.len() - 1]);
    assert(s.take(base.len() as int) =~= base);
    assert forall|i: int| base.len() - 1 <= i < s.len() - 1 implies passes(
        g,
        vuln,
        #[trigger] s[i],
        s[i + 1],
    ) by {
        if i == base.len() - 1 {
        }
    }
}

/// A witness found from a stack is the stack itself, or a witness found
/// from the stack with the parent that the search goes on to.
pub proof fn lemma_witness_to_parent(g: GraphView, vuln: &Vuln, base: Seq<Key>, s: Seq<Key>)
    requires
        is_witness(g, vuln, base, s),
        s.len() > base.len(),
    ensures
        passes(g, vuln, base.last(), s[base.len() as int]),
        !base.contains(s[base.len() as int]),
        is_witness(g, vuln, base.push(s[base.len() as int]), s),
{
    let n = base.len() as int;
    assert(s.take(n) =~= base);
    assert(s[n - 1] == base[n - 1]);
    assert(passes(g, vuln, s[n - 1], s[n]));
    let longer = base.push(s[n]);
    assert forall|i: int| 0 <= i < longer.len() implies longer[i] == s[i] by {
        if i < n {
            assert(base[i] == s[i]);
        }
    }
}

/// A witness found from a stack that is no longer than the stack is the
/// stack.
pub proof fn lemma_witness_is_base(g: GraphView, vuln: &Vuln, base: Seq<Key>, s: Seq<Key>)
    requires
        is_witness(g, vuln, base, s),
        s.len() <= base.len(),
    ensures
        s == base,
        records(g, vuln, base.last()),
{
    assert(s =~= base);
}

/// The stacks of `v`, each as the keys of its cursors.
pub open spec fn stack_set(v: Seq<Vec<Cursor>>) -> Set<Seq<Key>> {
    Set::new(|s: Seq<Key>| exists|i: int| 0 <= i < v.len() && keys_of((#[trigger] v[i])@) == s)
}

/// No two stacks of `v` hold the same keys.
pub open spec fn stacks_distinct(v: Seq<Vec<Cursor>>) -> bool {
    forall|i: int, j: int|
        0 <= i < j < v.len() ==> keys_of((#[trigger] v[i])@) != keys_of((#[trigger] v[j])@)
}

/// Whether the two stacks hold the same keys.
pub fn same_stack<'a>(a: &Vec<Cursor<'a>>, b: &Vec<Cursor<'a>>) -> (same: bool)
    ensures
        same == (keys_of(a@) == keys_of(b@)),
{
    if a.len() != b.len() {
        assert(keys_of(a@).len() != keys_of(b@).len());
        return false;
    }
    let mut i: usize = 0;
    while i < a.len()
        invariant
            i <= a.len(),
            a.len() == b.len(),
            forall|k: int| 0 <= k < i ==> a@[k].key() == b@[k].key(),
        decreases a.len() - i,
    {
        if !a[i].same(&b[i]) {
            assert(keys_of(a@)[i as int] != keys_of(b@)[i as int]);
            return false;
        }
        i += 1;
    }
    assert(keys_of(a@) =~= keys_of(b@));
    true
}

/// Adds the stack `s` to `out` unless `out` has a stack of the same keys.
pub(crate) fn add_stack<'a>(out: &mut Vec<Vec<Cursor<'a>>>, s: Vec<Cursor<'a>>)
    requires
        stacks_distinct(old(out)@),
    ensures
        stacks_distinct(final(out)@),
        stack_set(final(out)@) == stack_set(old(out)@).insert(keys_of(s@)),
{
    let mut i: usize = 0;
    while i < out.len()
        invariant
            i <= out.len(),
            *out == *old(out),
            stacks_distinct(out@),
            forall|k: int| 0 <= k < i ==> keys_of((#[trigger] out@[k])@) != keys_of(s@),
        decreases out.len() - i,
    {
        if same_stack(&out[i], &s) {
            assert(stack_set(out@).contains(keys_of(s@)));
            assert(stack_set(out@) =~= stack_set(old(out)@).insert(keys_of(s@)));
            return ;
        }
        i += 1;
    }
    out.push(s);
    proof {
        let new = out@;
        let old_ = old(out)@;
        assert forall|t: Seq<Key>| stack_set(new).contains(t) <==> stack_set(old_).insert(
            keys_of(s@),
        ).contains(t) by {
            if stack_set(new).contains(t) {
                let i = choose|i: int| 0 <= i < new.len() && keys_of((#[trigger] new[i])@) == t;
                if i < old_.len() {
                    assert(keys_of(old_[i]@) == t);
                }
            }
            if stack_set(old_).contains(t) {
                let i = choose|i: int| 0 <= i < old_.len() && keys_of((#[trigger] old_[i])@) == t;
                assert(keys_of(new[i]@) == t);
            }
            if t == keys_of(s@) {
                assert(keys_of(new[old_.len() as int]@) == t);
            }
        }
        assert(stack_set(new) =~= stack_set(old_).insert(keys_of(s@)));
        assert forall|a: int, b: int| 0 <= a < b < new.len() implies keys_of((#[trigger] new[a])@)
            != keys_of((#[trigger] new[b])@) by {
            if b < old_.len() {
                assert(keys_of(old_[a]@) != keys_of(old_[b]@));
            } else {
                assert(keys_of(old_[a]@) != keys_of(s@));
            }
        }
    }
}

/// Adds the stacks of `more` to `out`, each unless `out` has a stack of the
/// same keys.
pub(crate) fn add_stacks<'a>(out: &mut Vec<Vec<Cursor<'a>>>, more: Vec<Vec<Cursor<'a>>>)
    requires
        stacks_distinct(old(out)@),
    ensures
        stacks_distinct(final(out)@),
        stack_set(final(out)@) == stack_set(old(out)@).union(stack_set(more@)),
{
    let mut i: usize = 0;
    proof {
        assert(stack_set(more@.take(0)) =~= Set::<Seq<Key>>::empty());
        assert(stack_set(out@) =~= stack_set(old(out)@).union(stack_set(more@.take(0))));
    }
    while i < more.len()
        invariant
            i <= more.len(),
            stacks_distinct(out@),
            stack_set(out@) == stack_set(old(out)@).union(stack_set(more@.take(i as int))),
        decreases more.len() - i,
    {
        proof {
            let a = more@.take(i as int);
            let b = more@.take(i + 1);
            assert forall|t: Seq<Key>| stack_set(b).contains(t) <==> stack_set(a).insert(
                keys_of(more@[i as int]@),
            ).contains(t) by {
                if stack_set(b).contains(t) {
                    let k = choose|k: int| 0 <= k < b.len() && keys_of((#[trigger] b[k])@) == t;
                    if k < i {
                        assert(keys_of(a[k]@) == t);
                    }
                }
                if stack_set(a).contains(t) {
                    let k = choose|k: int| 0 <= k < a.len() && keys_of((#[trigger] a[k])@) == t;
                    assert(keys_of(b[k]@) == t);
                }
                if t == keys_of(more@[i as int]@) {
                    assert(keys_of(b[i as int]@) == t);
                }
            }
            assert(stack_set(b) =~= stack_set(a).insert(keys_of(more@[i as int]@)));
            assert(stack_set(old(out)@).union(stack_set(a)).insert(keys_of(more@[i as int]@))
                =~= stack_set(old(out)@).union(stack_set(b)));
        }
        add_stack(out, copy_cursors(&more[i]));
        i += 1;
    }
    assert(more@.take(i as int) =~= more@);
}

} // verus!
