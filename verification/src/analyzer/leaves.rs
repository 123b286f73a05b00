//! Leaf consistency of the graph that an analysis builds: every leaf of a
//! taint is a vertex that assigns that taint, for files that are told
//! apart by their names and whose casts have a type that passes no taint
//! on.
use vstd::prelude::*;
use vstd::utf8::encode_utf8;
use crate::analyzer::model::{
    Env, World, analysis, assigned, block_bounds, block_from, block_spec, bound, call_spec,
    callee_name, context_in, ended, field_or_self, files_from, frame_of, frames_of, fresh_world,
    held_after_enter, held_after_leave, hook_from, idle, in_context, is_call, lemma_deeper,
    lemma_entered, named_taint, read_taint, resolve_from, resolve_node, resolve_nodes,
    return_taint, returns_from, swept_returns, swept_scope, trace_from,
};
use crate::analyzer::taint::{
    ContextView, ScopeView, TaintKind, TaintView, is_return, of_scope, scope_of,
};
use crate::graph::graph::{GraphView, push_spec};
use crate::graph::laws::{
    leaves_consistent, lemma_clearing_keeps_leaves_consistent, lemma_push_keeps_leaves_consistent,
};
use crate::graph::rules::Rules;
use crate::graph::vertex::{PathView, VertexView};
use crate::text::{lemma_name_index, name_index};
use crate::tree::cursor::{
    Cursor, chain_find, child_find, index_of, range_find_kind, sound,
};
use crate::tree::file::{File, Node, node_ok, well_formed};
use crate::tree::resolved::{Resolved, parameters_of, range_collect};
use crate::tree::traverser::{
    Step, lemma_next_emitting, lemma_succ, next_emitting, rank_major, rank_minor, succ, valid_step,
};

verus! {

/// Whether a node of kind `kind` assigns no taint when a trace passes it.
pub open spec fn plain_kind(kind: Seq<char>) -> bool {
    kind != "return_statement"@ && kind != "assignment_expression"@ && kind != "variable_name"@
}

/// The child of node `p` that hangs under the field `type`.
pub open spec fn type_of(nodes: Seq<Node>, p: int) -> Option<int> {
    child_find(nodes, p, |n: Node| n.field is Some && n.field->0@ == "type"@)
}

/// Whether the files are fit for telling each vertex by its node: their
/// arenas are well formed, no two of them go by the same name, and the
/// type of a cast is no return statement, assignment or variable.
pub open spec fn fit(files: Seq<&File>) -> bool {
    &&& forall|i: int|
        0 <= i < files.len() ==> well_formed((#[trigger] files[i]).nodes()) && files[i].nodes().len()
            <= usize::MAX
    &&& forall|i: int, j: int|
        0 <= i < files.len() && 0 <= j < files.len() && i != j ==> (#[trigger] files[i]).name_spec()
            != (#[trigger] files[j]).name_spec()
    &&& forall|i: int, p: int|
        0 <= i < files.len() && 0 <= p < files[i].nodes().len() ==> #[trigger] cast_typed(
            files[i].nodes(),
            p,
        )
}

/// Whether node `p`, where it is a cast with a type, has a type that
/// assigns no taint.
pub open spec fn cast_typed(nodes: Seq<Node>, p: int) -> bool {
    nodes[p].kind@ == "cast_expression"@ && type_of(nodes, p) is Some ==> plain_kind(
        nodes[type_of(nodes, p)->0].kind@,
    )
}

/// Whether `c` stands on a node of one of `files`.
pub open spec fn member(files: Seq<&File>, c: Cursor) -> bool {
    exists|i: int| within(files, c, i)
}

/// Whether `c` stands on a node of the `i`-th of `files`.
pub open spec fn within(files: Seq<&File>, c: Cursor, i: int) -> bool {
    0 <= i < files.len() && c.file() == *files[i] && 0 <= c.index() < c.file().nodes().len()
}

/// The taint that a vertex at the node under `c` assigns, by the kind of
/// the node: what a return or an assignment passes on, the parameter that
/// a variable is, and nothing at any other node.
pub open spec fn expect(c: Cursor) -> Option<TaintView> {
    let kind = c.node().kind@;
    if kind == "return_statement"@ {
        Some(return_taint(c))
    } else if kind == "assignment_expression"@ {
        Some(named_taint(c, TaintKind::Variable))
    } else if kind == "variable_name"@ {
        Some(named_taint(c, TaintKind::Param))
    } else {
        None
    }
}

/// Every vertex at a node of `files` assigns what the kind of the node
/// gives.
pub open spec fn assigns_by_node(files: Seq<&File>, g: GraphView) -> bool {
    forall|c: Cursor| #[trigger]
        member(files, c) && g.nodes.dom().contains(c.key()) ==> g.nodes[c.key()].assign == expect(c)
}

/// The leaves are consistent, and every vertex assigns what the kind of
/// its node gives.
pub open spec fn good(files: Seq<&File>, g: GraphView) -> bool {
    leaves_consistent(g) && assigns_by_node(files, g)
}

/// Every node of `path` is a node of `files` at which a vertex assigns
/// nothing.
pub open spec fn plain_path(files: Seq<&File>, path: Seq<Cursor>) -> bool {
    forall|k: int| 0 <= k < path.len() ==> member(files, #[trigger] path[k]) && expect(path[k]) is None
}

/// Every callable stands on a node of `files`.
pub open spec fn resolved_within(files: Seq<&File>, resolved: Seq<(Seq<char>, Resolved)>) -> bool {
    forall|i: int| 0 <= i < resolved.len() ==> member(files, (#[trigger] resolved[i]).1.cursor_spec())
}

/// The kinds of node at which vertices arise are told apart by their
/// names.
pub proof fn lemma_kinds()
    ensures
        "return_statement"@ != "assignment_expression"@,
        "return_statement"@ != "variable_name"@,
        "assignment_expression"@ != "variable_name"@,
        plain_kind("echo_statement"@),
        forall|kind: Seq<char>| is_call(kind) ==> plain_kind(kind),
{
    reveal_strlit("return_statement");
    reveal_strlit("assignment_expression");
    reveal_strlit("variable_name");
    reveal_strlit("echo_statement");
    reveal_strlit("function_call_expression");
    reveal_strlit("member_call_expression");
    reveal_strlit("scoped_call_expression");
    assert("return_statement"@.len() == 16);
    assert("assignment_expression"@.len() == 21);
    assert("variable_name"@.len() == 13);
    assert("echo_statement"@.len() == 14);
    assert("function_call_expression"@.len() == 24);
    assert("member_call_expression"@.len() == 22);
    assert("scoped_call_expression"@.len() == 22);
}

/// Two cursors on nodes of fit files that have the same key are the same.
pub proof fn lemma_member_unique(files: Seq<&File>, c: Cursor, d: Cursor)
    requires
        fit(files),
        member(files, c),
        member(files, d),
        c.key() == d.key(),
    ensures
        c == d,
{
    let i = choose|i: int| within(files, c, i);
    let j = choose|j: int| within(files, d, j);
    assert(files[i].name_spec() == files[j].name_spec());
    c.lemma_jump(d, d.index());
    c.lemma_jump(c, c.index());
}

/// A cursor of the same file on a node of it is on a node of `files`.
pub proof fn lemma_member_jump(files: Seq<&File>, c: Cursor, j: int)
    requires
        fit(files),
        member(files, c),
        0 <= j < c.file().nodes().len(),
    ensures
        member(files, c.jump(j)),
        c.jump(j).file() == c.file(),
        c.jump(j).index() == j,
        sound(c),
{
    let i = choose|i: int| within(files, c, i);
    c.lemma_jump_lands(j);
    assert(within(files, c.jump(j), i));
}

/// Where a sibling is found, it is a node.
pub proof fn lemma_chain_find(nodes: Seq<Node>, c: int)
    ensures
        forall|pred: spec_fn(Node) -> bool|
            (#[trigger] chain_find(nodes, c, pred)) is Some ==> 0 < chain_find(nodes, c, pred)->0
                < nodes.len(),
    decreases nodes.len() - c,
{
    if 0 < c < nodes.len() && c < nodes[c].stop <= nodes.len() {
        lemma_chain_find(nodes, nodes[c].stop as int);
        assert forall|pred: spec_fn(Node) -> bool|
            (#[trigger] chain_find(nodes, c, pred)) is Some implies 0 < chain_find(nodes, c, pred)->0
            < nodes.len() by {
            if !pred(nodes[c]) {
                assert(chain_find(nodes, c, pred) == chain_find(nodes, nodes[c].stop as int, pred));
            }
        }
    }
}

/// The child under a field, or the node itself, is a node of `files`.
pub proof fn lemma_field_or_self(files: Seq<&File>, c: Cursor, field: Seq<char>)
    requires
        fit(files),
        member(files, c),
    ensures
        member(files, field_or_self(c, field)),
        field_or_self(c, field).file() == c.file(),
{
    let to = field_or_self(c, field);
    lemma_chain_find(c.file().nodes(), c.index() + 1);
    if to != c {
        let j = choose|j: int| 0 < j < c.file().nodes().len() && to == c.jump(j);
        lemma_member_jump(files, c, j);
    }
}

/// Where a node of a kind is found in a range, it lies in the range.
pub proof fn lemma_range_find(nodes: Seq<Node>, lo: int, hi: int, kind: Seq<char>)
    ensures
        range_find_kind(nodes, lo, hi, kind) is Some ==> lo <= range_find_kind(nodes, lo, hi, kind)->0
            < hi,
    decreases hi - lo,
{
    if lo < hi && !(nodes[lo].named && nodes[lo].kind@ == kind) {
        lemma_range_find(nodes, lo + 1, hi, kind);
    }
}

/// The nodes of a kind that are collected from a range lie in the range
/// and are of the kind.
pub proof fn lemma_range_collect(nodes: Seq<Node>, lo: int, hi: int, kind: Seq<char>, k: int)
    requires
        0 <= k < range_collect(nodes, lo, hi, kind).len(),
    ensures
        lo <= range_collect(nodes, lo, hi, kind)[k] < hi,
        nodes[range_collect(nodes, lo, hi, kind)[k]].kind@ == kind,
    decreases hi - lo,
{
    if lo < hi {
        if nodes[hi - 1].named && nodes[hi - 1].kind@ == kind {
            if k < range_collect(nodes, lo, hi - 1, kind).len() {
                lemma_range_collect(nodes, lo, hi - 1, kind, k);
            }
        } else {
            lemma_range_collect(nodes, lo, hi - 1, kind, k);
        }
    }
}

/// A parameter of a callable on a node of `files` is a variable on a node
/// of `files`.
pub proof fn lemma_parameter(files: Seq<&File>, own: Cursor, k: int)
    requires
        fit(files),
        member(files, own),
        0 <= k < parameters_of(own.file().nodes(), own.index()).len(),
    ensures
        member(files, own.jump(parameters_of(own.file().nodes(), own.index())[k])),
        own.jump(parameters_of(own.file().nodes(), own.index())[k]).node().kind@ == "variable_name"@,
{
    let nodes = own.file().nodes();
    let i = own.index();
    lemma_member_jump(files, own, i);
    assert(node_ok(nodes, i));
    lemma_range_find(nodes, i + 1, nodes[i].stop as int, "formal_parameters"@);
    let list = range_find_kind(nodes, i + 1, nodes[i].stop as int, "formal_parameters"@)->0;
    assert(node_ok(nodes, list));
    lemma_range_collect(nodes, list + 1, nodes[list].stop as int, "variable_name"@, k);
    lemma_member_jump(files, own, parameters_of(nodes, i)[k]);
}

/// Pushing at a node of fit files a vertex that assigns what the kind of
/// the node gives keeps the graph good.
pub proof fn lemma_push_good<'a>(
    files: Seq<&'a File>,
    g: GraphView<'a>,
    path: PathView<'a>,
    cursor: Cursor<'a>,
    vertex: VertexView<'a>,
)
    requires
        fit(files),
        good(files, g),
        member(files, cursor),
        vertex.assign == expect(cursor),
    ensures
        good(files, push_spec(g, path, cursor, vertex)),
{
    let after = push_spec(g, path, cursor, vertex);
    lemma_push_keeps_leaves_consistent(g, path, cursor, vertex);
    assert forall|c: Cursor| #[trigger]
        member(files, c) && after.nodes.dom().contains(c.key()) implies after.nodes[c.key()].assign
        == expect(c) by {
        if c.key() == cursor.key() {
            lemma_member_unique(files, c, cursor);
        }
    }
}

/// Assigning at a node of fit files the taint that the kind of the node
/// gives keeps the graph good.
pub proof fn lemma_assigned_good<'a>(
    files: Seq<&'a File>,
    w: World<'a>,
    cursor: Cursor<'a>,
    source: TaintView,
    assign: TaintView,
    path: Seq<Cursor<'a>>,
)
    requires
        fit(files),
        member(files, cursor),
        expect(cursor) == Some(assign),
    ensures
        good(files, w.graph) ==> good(files, assigned(w, cursor, source, assign, path).graph),
{
    if good(files, w.graph) {
        lemma_push_good(
            files,
            w.graph,
            PathView { source, path },
            cursor,
            VertexView {
                assign: Some(assign),
                context: w.context,
                parents: Map::empty(),
                sources: Map::empty(),
            },
        );
    }
}

/// Ending a trace whose segment is plain keeps the graph good.
pub proof fn lemma_ended_good<'a>(files: Seq<&'a File>, w: World<'a>, source: TaintView, path: Seq<Cursor<'a>>)
    requires
        fit(files),
        plain_path(files, path),
    ensures
        good(files, w.graph) ==> good(files, ended(w, source, path).graph),
{
    if good(files, w.graph) && path.len() > 0 {
        lemma_push_good(
            files,
            w.graph,
            PathView { source, path },
            path.last(),
            VertexView {
                assign: None,
                context: w.context,
                parents: Map::empty(),
                sources: Map::empty(),
            },
        );
    }
}

/// Clearing what belongs to a call keeps the graph good.
pub proof fn lemma_swept_good<'a>(files: Seq<&'a File>, w: World<'a>, scope: ScopeView)
    ensures
        good(files, w.graph) ==> good(files, swept_scope(w, scope).graph) && good(
            files,
            swept_returns(w).graph,
        ),
{
    if good(files, w.graph) {
        lemma_clearing_keeps_leaves_consistent(w.graph, of_scope(scope));
        lemma_clearing_keeps_leaves_consistent(w.graph, is_return());
    }
}

/// A plain segment with one plain node more is plain.
pub proof fn lemma_plain_push(files: Seq<&File>, path: Seq<Cursor>, c: Cursor)
    requires
        plain_path(files, path),
        member(files, c),
        expect(c) is None,
    ensures
        plain_path(files, path.push(c)),
{
    assert forall|k: int| 0 <= k < path.push(c).len() implies member(files, #[trigger] path.push(c)[k])
        && expect(path.push(c)[k]) is None by {
        if k < path.len() {
            assert(path.push(c)[k] == path[k]);
        }
    }
}

/// A trace keeps the graph good.
pub proof fn lemma_trace_good<'a>(
    files: Seq<&'a File>,
    env: Env<'a>,
    w: World<'a>,
    cursor: Cursor<'a>,
    at: int,
    path: Seq<Cursor<'a>>,
    index: nat,
    source: TaintView,
)
    requires
        fit(files),
        resolved_within(files, env.resolved),
        member(files, cursor),
        plain_path(files, path),
    ensures
        good(files, w.graph) ==> good(files, trace_from(env, w, cursor, at, path, index, source).0.graph),
    decreases idle(env, w.context), 0nat, 3 * at, 0nat,
{
    let nodes = cursor.file().nodes();
    lemma_ended_good(files, w, source, path);
    lemma_kinds();
    if sound(cursor) && 0 < at < nodes.len() {
        let p = nodes[at].parent as int;
        let cur = cursor.jump(p);
        let node = nodes[p];
        assert(node_ok(nodes, at));
        lemma_member_jump(files, cursor, p);
        if node.field is Some && node.field->0@ == "condition"@ {
        } else if node.kind@ == "return_statement"@ {
            lemma_assigned_good(files, w, cur, source, return_taint(cur), path.push(cur));
        } else if node.kind@ == "assignment_expression"@ {
            if cur.name_spec() is None {
                lemma_trace_good(files, env, w, cursor, p, path, index, source);
            } else {
                lemma_assigned_good(
                    files,
                    w,
                    cur,
                    source,
                    named_taint(cur, TaintKind::Variable),
                    path.push(cur),
                );
            }
        } else if node.kind@ == "cast_expression"@ {
            let longer = match type_of(nodes, p) {
                Some(t) => path.push(cursor.jump(t)),
                None => path,
            };
            if type_of(nodes, p) is Some {
                let t = type_of(nodes, p)->0;
                lemma_chain_find(nodes, p + 1);
                lemma_member_jump(files, cursor, t);
                let i = choose|i: int| within(files, cursor, i);
                assert(cast_typed(files[i].nodes(), p));
                lemma_plain_push(files, path, cursor.jump(t));
            }
            lemma_trace_good(files, env, w, cursor, p, longer, index, source);
        } else if is_call(node.kind@) {
            lemma_plain_push(files, path, cur);
            let called = call_spec(env, w, cur, Some((index, source, path.push(cur))));
            lemma_call_good(files, env, w, cur, Some((index, source, path.push(cur))));
            lemma_ended_good(files, called.0, source, path.push(cur));
            if called.1 {
                lemma_trace_good(files, env, w, cursor, p, path.push(cur), index, source);
            }
        } else if node.kind@ == "echo_statement"@ {
            lemma_plain_push(files, path, cur);
            lemma_trace_good(files, env, w, cursor, p, path.push(cur), index, source);
        } else if node.kind@ == "argument"@ {
            lemma_trace_good(files, env, w, cursor, p, path, index_of(nodes, p), source);
        } else if node.kind@ == "expression_statement"@ {
        } else {
            lemma_trace_good(files, env, w, cursor, p, path, index, source);
        }
    }
}

/// A call keeps the graph good.
pub proof fn lemma_call_good<'a>(
    files: Seq<&'a File>,
    env: Env<'a>,
    w: World<'a>,
    cursor: Cursor<'a>,
    binding: Option<(nat, TaintView, Seq<Cursor<'a>>)>,
)
    requires
        fit(files),
        resolved_within(files, env.resolved),
        member(files, cursor),
    ensures
        good(files, w.graph) ==> good(files, call_spec(env, w, cursor, binding).0.graph),
    decreases
        idle(env, w.context),
        (if binding is Some {
            0nat
        } else {
            1nat
        }),
        (if binding is Some {
            3 * cursor.index() + 2
        } else {
            0
        }),
        0nat,
{
    match name_index(env.resolved, callee_name(cursor)) {
        None => {},
        Some(i) => {
            let callable = env.resolved[i].1;
            let frame = frame_of(callable);
            let entered = in_context(w, w.context.push(frame));
            let own = callable.cursor_spec();
            let body = field_or_self(own, "body"@);
            cursor.lemma_index_bounds();
            lemma_name_index(env.resolved, callee_name(cursor));
            assert(member(files, env.resolved[i].1.cursor_spec()));
            lemma_field_or_self(files, own, "body"@);
            lemma_kinds();
            if !w.context.contains(frame) {
                assert(frames_of(env.resolved)[i] == frame);
                lemma_entered(frames_of(env.resolved), w.context, frame);
                match binding {
                    Some((index, source, path)) => {
                        let params = if callable is Function {
                            parameters_of(own.file().nodes(), own.index())
                        } else {
                            Seq::<int>::empty()
                        };
                        if index < params.len() && own.jump(params[index as int]).name_spec() is Some {
                            let param = own.jump(params[index as int]);
                            lemma_parameter(files, own, index as int);
                            let bound = assigned(
                                entered,
                                param,
                                source,
                                named_taint(param, TaintKind::Param),
                                path,
                            );
                            lemma_assigned_good(
                                files,
                                entered,
                                param,
                                source,
                                named_taint(param, TaintKind::Param),
                                path,
                            );
                            lemma_block_good(
                                files,
                                env,
                                entered.context,
                                bound,
                                body,
                                Step::Enter(body.index()),
                                None,
                                false,
                            );
                            let done = block_from(
                                env,
                                entered.context,
                                bound,
                                body,
                                Step::Enter(body.index()),
                                None,
                                false,
                            );
                            let left = swept_scope(in_context(done.0, w.context), scope_of(param));
                            lemma_swept_good(files, in_context(done.0, w.context), scope_of(param));
                            if done.1 {
                                lemma_returns_good(
                                    files,
                                    env,
                                    left,
                                    cursor,
                                    left.taints.filter(is_return()),
                                    0,
                                );
                                lemma_swept_good(
                                    files,
                                    returns_from(env, left, cursor, left.taints.filter(is_return()), 0),
                                    scope_of(param),
                                );
                            } else {
                                lemma_swept_good(files, left, scope_of(param));
                            }
                        }
                    },
                    None => {
                        lemma_block_good(
                            files,
                            env,
                            entered.context,
                            entered,
                            body,
                            Step::Enter(body.index()),
                            None,
                            false,
                        );
                    },
                }
            }
        },
    }
}

/// Tracing the taints that a call returned keeps the graph good.
pub proof fn lemma_returns_good<'a>(
    files: Seq<&'a File>,
    env: Env<'a>,
    w: World<'a>,
    cursor: Cursor<'a>,
    pending: Seq<TaintView>,
    i: nat,
)
    requires
        fit(files),
        resolved_within(files, env.resolved),
        member(files, cursor),
    ensures
        good(files, w.graph) ==> good(files, returns_from(env, w, cursor, pending, i).graph),
    decreases idle(env, w.context), 0nat, 3 * cursor.index() + 1, pending.len() - i,
{
    if i < pending.len() && cursor.index() >= 0 {
        lemma_trace_good(files, env, w, cursor, cursor.index(), Seq::empty(), 0, pending[i as int]);
        let traced = in_context(
            trace_from(env, w, cursor, cursor.index(), Seq::empty(), 0, pending[i as int]).0,
            w.context,
        );
        lemma_returns_good(files, env, traced, cursor, pending, i + 1);
    }
}

/// Following the callbacks of a hook keeps the graph good.
pub proof fn lemma_hook_good<'a>(
    files: Seq<&'a File>,
    env: Env<'a>,
    w: World<'a>,
    cursor: Cursor<'a>,
    j: int,
    stop: int,
)
    requires
        fit(files),
        resolved_within(files, env.resolved),
        member(files, cursor),
    ensures
        good(files, w.graph) ==> good(files, hook_from(env, w, cursor, j, stop).graph),
    decreases idle(env, w.context), 2nat, stop - j, 0nat,
{
    let nodes = cursor.file().nodes();
    if j < stop && 0 <= j < nodes.len() {
        let cur = cursor.jump(j);
        lemma_member_jump(files, cursor, j);
        if nodes[j].named && nodes[j].kind@ == "argument"@ && encode_utf8(cur.text()).len() > 2 {
            lemma_call_good(files, env, w, cur, None);
            let called = in_context(call_spec(env, w, cur, None).0, w.context);
            lemma_hook_good(files, env, called, cursor, j + 1, stop);
        } else {
            lemma_hook_good(files, env, w, cursor, j + 1, stop);
        }
    }
}

/// The analysis of a block keeps the graph good.
pub proof fn lemma_block_good<'a>(
    files: Seq<&'a File>,
    env: Env<'a>,
    base: Seq<ContextView>,
    w: World<'a>,
    cursor: Cursor<'a>,
    st: Step,
    held: Option<int>,
    passed: bool,
)
    requires
        fit(files),
        resolved_within(files, env.resolved),
        member(files, cursor),
    ensures
        good(files, w.graph) ==> good(
            files,
            block_from(env, base, w, cursor, st, held, passed).0.graph,
        ),
    decreases idle(env, base), 3nat, rank_major(cursor.file().nodes(), st), rank_minor(st),
{
    let nodes = cursor.file().nodes();
    let start = cursor.index();
    if valid_step(nodes, start, st) && sound(cursor) {
        let e = next_emitting(nodes, start, block_bounds(), false, st);
        let next = succ(nodes, start, block_bounds(), e);
        let here = in_context(w, context_in(base, held));
        lemma_next_emitting(nodes, start, block_bounds(), false, st);
        assert(node_ok(nodes, start));
        lemma_deeper(frames_of(env.resolved), base, context_in(base, held));
        match e {
            Step::Done => {},
            Step::Enter(c) => {
                lemma_succ(nodes, start, block_bounds(), false, e);
                let held_then = held_after_enter(base, held, nodes[c].kind@, c);
                lemma_block_good(
                    files,
                    env,
                    base,
                    in_context(w, context_in(base, held_then)),
                    cursor,
                    next,
                    held_then,
                    passed,
                );
            },
            Step::Leave(c) => {
                lemma_succ(nodes, start, block_bounds(), false, e);
                let cur = cursor.jump(c);
                let kind = nodes[c].kind@;
                lemma_member_jump(files, cursor, c);
                if kind == "variable_name"@ {
                    match read_taint(w.taints, cur) {
                        Some(taint) => {
                            assert(plain_path(files, Seq::<Cursor<'a>>::empty()));
                            lemma_trace_good(files, env, here, cur, c, Seq::empty(), 0, taint);
                            let traced = trace_from(env, here, cur, c, Seq::empty(), 0, taint);
                            lemma_block_good(
                                files,
                                env,
                                base,
                                in_context(traced.0, here.context),
                                cursor,
                                next,
                                held,
                                passed || traced.1,
                            );
                        },
                        None => {
                            lemma_block_good(files, env, base, here, cursor, next, held, passed);
                        },
                    }
                } else if is_call(kind) {
                    match cur.name_spec() {
                        Some(name) => {
                            lemma_call_good(files, env, here, cur, None);
                            let called = in_context(call_spec(env, here, cur, None).0, here.context);
                            if env.hooks.contains(name) {
                                let arguments = field_or_self(cur, "arguments"@);
                                lemma_field_or_self(files, cur, "arguments"@);
                                lemma_hook_good(
                                    files,
                                    env,
                                    called,
                                    arguments,
                                    arguments.index(),
                                    arguments.node().stop as int,
                                );
                                lemma_block_good(
                                    files,
                                    env,
                                    base,
                                    in_context(
                                        hook_from(
                                            env,
                                            called,
                                            arguments,
                                            arguments.index(),
                                            arguments.node().stop as int,
                                        ),
                                        here.context,
                                    ),
                                    cursor,
                                    next,
                                    held,
                                    passed,
                                );
                            } else {
                                lemma_block_good(files, env, base, called, cursor, next, held, passed);
                            }
                        },
                        None => {
                            lemma_block_good(files, env, base, here, cursor, next, held, passed);
                        },
                    }
                } else if kind == "if_statement"@ {
                    let held_then = held_after_leave(held, c);
                    lemma_block_good(
                        files,
                        env,
                        base,
                        in_context(w, context_in(base, held_then)),
                        cursor,
                        next,
                        held_then,
                        passed,
                    );
                } else {
                    lemma_block_good(files, env, base, here, cursor, next, held, passed);
                }
            },
        }
    }
}

/// The root of one of fit files is a node of them.
pub proof fn lemma_root_member<'a>(files: Seq<&'a File>, f: int)
    requires
        fit(files),
        0 <= f < files.len(),
    ensures
        member(files, Cursor::root(files[f])),
        Cursor::root(files[f]).file() == *files[f],
        Cursor::root(files[f]).index() == 0,
{
    Cursor::lemma_root(files[f], Cursor::root(files[f]));
    assert(within(files, Cursor::root(files[f]), f));
}

/// The analysis of fit files keeps the graph good.
pub proof fn lemma_files_good<'a>(files: Seq<&'a File>, env: Env<'a>, w: World<'a>, all: Seq<&'a File>, f: nat)
    requires
        fit(files),
        resolved_within(files, env.resolved),
        all == files,
    ensures
        good(files, w.graph) ==> good(files, files_from(env, w, all, f).graph),
    decreases all.len() - f,
{
    if f < all.len() {
        let root = Cursor::root(all[f as int]);
        lemma_root_member(files, f as int);
        lemma_block_good(files, env, w.context, w, root, Step::Enter(root.index()), None, false);
        lemma_files_good(files, env, block_spec(env, w, root).0, all, f + 1);
    }
}

/// Binding a callable on a node of `files` keeps every callable on one.
pub proof fn lemma_bound_within<'a>(
    files: Seq<&'a File>,
    resolved: Seq<(Seq<char>, Resolved<'a>)>,
    name: Seq<char>,
    callable: Resolved<'a>,
)
    requires
        resolved_within(files, resolved),
        member(files, callable.cursor_spec()),
    ensures
        resolved_within(files, bound(resolved, name, callable)),
{
    lemma_name_index(resolved, name);
    let after = bound(resolved, name, callable);
    assert forall|i: int| 0 <= i < after.len() implies member(
        files,
        (#[trigger] after[i]).1.cursor_spec(),
    ) by {
        match name_index(resolved, name) {
            Some(k) => {
                if i != k {
                    assert(after[i] == resolved[i]);
                }
            },
            None => {
                if i < resolved.len() {
                    assert(after[i] == resolved[i]);
                }
            },
        }
    }
}

/// Looking at the nodes of one of fit files binds callables on nodes of
/// the files only.
pub proof fn lemma_nodes_within<'a>(
    files: Seq<&'a File>,
    resolved: Seq<(Seq<char>, Resolved<'a>)>,
    root: Cursor<'a>,
    j: int,
    n: int,
)
    requires
        fit(files),
        resolved_within(files, resolved),
        member(files, root),
        0 <= j,
        n <= root.file().nodes().len(),
    ensures
        resolved_within(files, resolve_nodes(resolved, root, j, n)),
    decreases n - j,
{
    if j < n {
        let next = resolve_node(resolved, root, j);
        lemma_member_jump(files, root, j);
        let node = root.file().nodes()[j];
        let cur = root.jump(j);
        assert(resolved_within(files, next)) by {
            if node.named {
                if node.kind@ == "function_definition"@ || node.kind@ == "method_declaration"@ {
                    if cur.name_spec() is Some {
                        lemma_bound_within(
                            files,
                            resolved,
                            cur.name_spec()->0,
                            Resolved::Function { cursor: cur },
                        );
                    }
                } else if node.kind@ == "program"@ {
                    lemma_bound_within(files, resolved, "ROOT"@, Resolved::Root { cursor: cur });
                }
            }
        }
        lemma_nodes_within(files, next, root, j + 1, n);
    }
}

/// Every callable that fit files resolve to stands on a node of them.
pub proof fn lemma_resolved_within<'a>(
    files: Seq<&'a File>,
    resolved: Seq<(Seq<char>, Resolved<'a>)>,
    all: Seq<&'a File>,
    f: nat,
)
    requires
        fit(files),
        resolved_within(files, resolved),
        all == files,
    ensures
        resolved_within(files, resolve_from(resolved, all, f)),
    decreases all.len() - f,
{
    if f < all.len() {
        let file = all[f as int];
        let root = Cursor::root(file);
        lemma_root_member(files, f as int);
        lemma_nodes_within(files, resolved, root, 0, file.nodes().len() as int);
        lemma_resolved_within(
            files,
            resolve_nodes(resolved, root, 0, file.nodes().len() as int),
            all,
            f + 1,
        );
    }
}

/// In the graph of an analysis of files that are told apart by their names
/// and whose casts have a plain type, every leaf of a taint is a vertex
/// that assigns that taint.
pub proof fn lemma_analysis_leaves_consistent<'a>(rules: &Rules, files: Seq<&'a File>)
    requires
        fit(files),
    ensures
        leaves_consistent(analysis(rules, files)),
{
    let env = Env { resolved: resolve_from(Seq::empty(), files, 0), hooks: rules.hook_names() };
    lemma_resolved_within(files, Seq::empty(), files, 0);
    lemma_files_good(files, env, fresh_world(rules.merged_sources()), files, 0);
}

} // verus!
