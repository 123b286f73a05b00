//! What holds of every analysis: each step leaves the context stack as it
//! found it, and every parent of a vertex and every leaf of a taint stays a
//! vertex of the graph.
use vstd::prelude::*;
use vstd::utf8::encode_utf8;
use crate::analyzer::model::{
    Env, World, analysis, assigned, block_bounds, block_from, block_spec, call_spec, callee_name,
    context_in, ended, field_or_self, files_from, frame_of, frames_of, fresh_world,
    held_after_enter, held_after_leave, hook_from, idle, in_context, is_call,
    lemma_deeper, lemma_entered, named_taint, read_taint, resolve_from, return_taint, returns_from,
    swept_returns, swept_scope, trace_from,
};
use crate::analyzer::taint::{
    ContextView, ScopeView, TaintKind, TaintView, is_return, of_scope, scope_of,
};
use crate::graph::laws::{
    graph_closed, lemma_clearing_keeps_graph_sound, lemma_empty_graph,
    lemma_push_keeps_edges_closed, lemma_push_keeps_leaves_vertices,
};
use crate::graph::rules::Rules;
use crate::graph::vertex::{PathView, VertexView};
use crate::text::{lemma_name_index, name_index};
use crate::tree::cursor::{Cursor, child_find, index_of, sound};
use crate::tree::file::{File, Node, node_ok};
use crate::tree::resolved::parameters_of;
use crate::tree::traverser::{
    Step, lemma_next_emitting, lemma_succ, next_emitting, rank_major, rank_minor, succ, valid_step,
};

verus! {

/// Assigning a taint keeps the context and keeps the graph closed.
pub proof fn lemma_assigned_keeps<'a>(
    w: World<'a>,
    cursor: Cursor<'a>,
    source: TaintView,
    assign: TaintView,
    path: Seq<Cursor<'a>>,
)
    ensures
        graph_closed(w.graph) ==> graph_closed(assigned(w, cursor, source, assign, path).graph),
        assigned(w, cursor, source, assign, path).context == w.context,
{
    if graph_closed(w.graph) {
        let vertex = VertexView {
            assign: Some(assign),
            context: w.context,
            parents: Map::empty(),
            sources: Map::empty(),
        };
        lemma_push_keeps_leaves_vertices(w.graph, PathView { source, path }, cursor, vertex);
        lemma_push_keeps_edges_closed(w.graph, PathView { source, path }, cursor, vertex);
    }
}

/// Ending a trace keeps the context and keeps the graph closed.
pub proof fn lemma_ended_keeps<'a>(w: World<'a>, source: TaintView, path: Seq<Cursor<'a>>)
    ensures
        graph_closed(w.graph) ==> graph_closed(ended(w, source, path).graph),
        ended(w, source, path).context == w.context,
{
    if graph_closed(w.graph) && path.len() > 0 {
        let vertex = VertexView {
            assign: None,
            context: w.context,
            parents: Map::empty(),
            sources: Map::empty(),
        };
        lemma_push_keeps_leaves_vertices(w.graph, PathView { source, path }, path.last(), vertex);
        lemma_push_keeps_edges_closed(w.graph, PathView { source, path }, path.last(), vertex);
    }
}

/// Clearing what belongs to a call keeps the context and keeps the graph
/// closed.
pub proof fn lemma_swept_keeps<'a>(w: World<'a>, scope: ScopeView)
    ensures
        graph_closed(w.graph) ==> graph_closed(swept_scope(w, scope).graph) && graph_closed(
            swept_returns(w).graph,
        ),
        swept_scope(w, scope).context == w.context,
        swept_returns(w).context == w.context,
{
    lemma_clearing_keeps_graph_sound(w.graph, of_scope(scope));
    lemma_clearing_keeps_graph_sound(w.graph, is_return());
}

/// A trace leaves the context stack as it found it, and keeps the graph
/// closed.
pub proof fn lemma_trace_keeps<'a>(
    env: Env<'a>,
    w: World<'a>,
    cursor: Cursor<'a>,
    at: int,
    path: Seq<Cursor<'a>>,
    index: nat,
    source: TaintView,
)
    ensures
        trace_from(env, w, cursor, at, path, index, source).0.context == w.context,
        graph_closed(w.graph) ==> graph_closed(
            trace_from(env, w, cursor, at, path, index, source).0.graph,
        ),
    decreases idle(env, w.context), 0nat, 3 * at, 0nat,
{
    let nodes = cursor.file().nodes();
    lemma_ended_keeps(w, source, path);
    if sound(cursor) && 0 < at < nodes.len() {
        let p = nodes[at].parent as int;
        let cur = cursor.jump(p);
        let node = nodes[p];
        assert(node_ok(nodes, at));
        cursor.lemma_jump_lands(p);
        lemma_assigned_keeps(w, cur, source, return_taint(cur), path.push(cur));
        lemma_assigned_keeps(w, cur, source, named_taint(cur, TaintKind::Variable), path.push(cur));
        if node.field is Some && node.field->0@ == "condition"@ {
        } else if node.kind@ == "return_statement"@ {
        } else if node.kind@ == "assignment_expression"@ {
            if cur.name_spec() is None {
                lemma_trace_keeps(env, w, cursor, p, path, index, source);
            }
        } else if node.kind@ == "cast_expression"@ {
            lemma_trace_keeps(
                env,
                w,
                cursor,
                p,
                match child_find(nodes, p, |n: Node| n.field is Some && n.field->0@ == "type"@) {
                    Some(t) => path.push(cursor.jump(t)),
                    None => path,
                },
                index,
                source,
            );
        } else if is_call(node.kind@) {
            let called = call_spec(env, w, cur, Some((index, source, path.push(cur))));
            lemma_call_keeps(env, w, cur, Some((index, source, path.push(cur))));
            lemma_ended_keeps(called.0, source, path.push(cur));
            if called.1 {
                lemma_trace_keeps(env, w, cursor, p, path.push(cur), index, source);
            }
        } else if node.kind@ == "echo_statement"@ {
            lemma_trace_keeps(env, w, cursor, p, path.push(cur), index, source);
        } else if node.kind@ == "argument"@ {
            lemma_trace_keeps(env, w, cursor, p, path, index_of(nodes, p), source);
        } else if node.kind@ == "expression_statement"@ {
        } else {
            lemma_trace_keeps(env, w, cursor, p, path, index, source);
        }
    }
}

/// A call leaves the context stack as it found it, returns false whenever
/// it resolves to a callable, and keeps the graph closed.
pub proof fn lemma_call_keeps<'a>(
    env: Env<'a>,
    w: World<'a>,
    cursor: Cursor<'a>,
    binding: Option<(nat, TaintView, Seq<Cursor<'a>>)>,
)
    ensures
        call_spec(env, w, cursor, binding).0.context == w.context,
        call_spec(env, w, cursor, binding).1 == (name_index(env.resolved, callee_name(cursor)) is None),
        call_spec(env, w, cursor, binding).1 ==> call_spec(env, w, cursor, binding).0 == w,
        graph_closed(w.graph) ==> graph_closed(call_spec(env, w, cursor, binding).0.graph),
    decreases
        idle(env, w.context),
        (if binding is Some {
            0nat
        } else {
            1nat
        }),
        (if binding is Some {
            3 * cursor.index() + 2
        } else {
            0
        }),
        0nat,
{
    match name_index(env.resolved, callee_name(cursor)) {
        None => {},
        Some(i) => {
            let callable = env.resolved[i].1;
            let frame = frame_of(callable);
            let entered = in_context(w, w.context.push(frame));
            let body = field_or_self(callable.cursor_spec(), "body"@);
            cursor.lemma_index_bounds();
            lemma_name_index(env.resolved, callee_name(cursor));
            if !w.context.contains(frame) {
                assert(frames_of(env.resolved)[i] == frame);
                lemma_entered(frames_of(env.resolved), w.context, frame);
                match binding {
                    Some((index, source, path)) => {
                        let own = callable.cursor_spec();
                        let params = if callable is Function {
                            parameters_of(own.file().nodes(), own.index())
                        } else {
                            Seq::<int>::empty()
                        };
                        if index < params.len() && own.jump(params[index as int]).name_spec() is Some {
                            let param = own.jump(params[index as int]);
                            let bound = assigned(
                                entered,
                                param,
                                source,
                                named_taint(param, TaintKind::Param),
                                path,
                            );
                            lemma_assigned_keeps(
                                entered,
                                param,
                                source,
                                named_taint(param, TaintKind::Param),
                                path,
                            );
                            lemma_block_keeps(
                                env,
                                entered.context,
                                bound,
                                body,
                                Step::Enter(body.index()),
                                None,
                                false,
                            );
                            let done = block_from(
                                env,
                                entered.context,
                                bound,
                                body,
                                Step::Enter(body.index()),
                                None,
                                false,
                            );
                            let left = swept_scope(in_context(done.0, w.context), scope_of(param));
                            lemma_swept_keeps(in_context(done.0, w.context), scope_of(param));
                            if done.1 {
                                lemma_returns_keeps(
                                    env,
                                    left,
                                    cursor,
                                    left.taints.filter(is_return()),
                                    0,
                                );
                                lemma_swept_keeps(
                                    returns_from(env, left, cursor, left.taints.filter(is_return()), 0),
                                    scope_of(param),
                                );
                            } else {
                                lemma_swept_keeps(left, scope_of(param));
                            }
                        }
                    },
                    None => {
                        lemma_block_keeps(
                            env,
                            entered.context,
                            entered,
                            body,
                            Step::Enter(body.index()),
                            None,
                            false,
                        );
                    },
                }
            }
        },
    }
}

/// Tracing the taints that a call returned leaves the context stack as it
/// was, and keeps the graph closed.
pub proof fn lemma_returns_keeps<'a>(
    env: Env<'a>,
    w: World<'a>,
    cursor: Cursor<'a>,
    pending: Seq<TaintView>,
    i: nat,
)
    ensures
        returns_from(env, w, cursor, pending, i).context == w.context,
        graph_closed(w.graph) ==> graph_closed(returns_from(env, w, cursor, pending, i).graph),
    decreases idle(env, w.context), 0nat, 3 * cursor.index() + 1, pending.len() - i,
{
    if i < pending.len() && cursor.index() >= 0 {
        lemma_trace_keeps(env, w, cursor, cursor.index(), Seq::empty(), 0, pending[i as int]);
        let traced = in_context(
            trace_from(env, w, cursor, cursor.index(), Seq::empty(), 0, pending[i as int]).0,
            w.context,
        );
        lemma_returns_keeps(env, traced, cursor, pending, i + 1);
    }
}

/// Following the callbacks of a hook leaves the context stack as it was,
/// and keeps the graph closed.
pub proof fn lemma_hook_keeps<'a>(env: Env<'a>, w: World<'a>, cursor: Cursor<'a>, j: int, stop: int)
    ensures
        hook_from(env, w, cursor, j, stop).context == w.context,
        graph_closed(w.graph) ==> graph_closed(hook_from(env, w, cursor, j, stop).graph),
    decreases idle(env, w.context), 2nat, stop - j, 0nat,
{
    let nodes = cursor.file().nodes();
    if j < stop && 0 <= j < nodes.len() {
        let cur = cursor.jump(j);
        if nodes[j].named && nodes[j].kind@ == "argument"@ && encode_utf8(cur.text()).len() > 2 {
            lemma_call_keeps(env, w, cur, None);
            let called = in_context(call_spec(env, w, cur, None).0, w.context);
            lemma_hook_keeps(env, called, cursor, j + 1, stop);
        } else {
            lemma_hook_keeps(env, w, cursor, j + 1, stop);
        }
    }
}

/// The analysis of a block ends in the context in which the block was
/// entered, and keeps the graph closed.
pub proof fn lemma_block_keeps<'a>(
    env: Env<'a>,
    base: Seq<ContextView>,
    w: World<'a>,
    cursor: Cursor<'a>,
    st: Step,
    held: Option<int>,
    passed: bool,
)
    ensures
        block_from(env, base, w, cursor, st, held, passed).0.context == base,
        graph_closed(w.graph) ==> graph_closed(
            block_from(env, base, w, cursor, st, held, passed).0.graph,
        ),
    decreases idle(env, base), 3nat, rank_major(cursor.file().nodes(), st), rank_minor(st),
{
    let nodes = cursor.file().nodes();
    let start = cursor.index();
    if valid_step(nodes, start, st) && sound(cursor) {
        let e = next_emitting(nodes, start, block_bounds(), false, st);
        let next = succ(nodes, start, block_bounds(), e);
        let here = in_context(w, context_in(base, held));
        lemma_next_emitting(nodes, start, block_bounds(), false, st);
        assert(node_ok(nodes, start));
        lemma_deeper(frames_of(env.resolved), base, context_in(base, held));
        match e {
            Step::Done => {},
            Step::Enter(c) => {
                lemma_succ(nodes, start, block_bounds(), false, e);
                let held_then = held_after_enter(base, held, nodes[c].kind@, c);
                lemma_block_keeps(
                    env,
                    base,
                    in_context(w, context_in(base, held_then)),
                    cursor,
                    next,
                    held_then,
                    passed,
                );
            },
            Step::Leave(c) => {
                lemma_succ(nodes, start, block_bounds(), false, e);
                let cur = cursor.jump(c);
                let kind = nodes[c].kind@;
                cursor.lemma_jump_lands(c);
                if kind == "variable_name"@ {
                    match read_taint(w.taints, cur) {
                        Some(taint) => {
                            lemma_trace_keeps(env, here, cur, c, Seq::empty(), 0, taint);
                            let traced = trace_from(env, here, cur, c, Seq::empty(), 0, taint);
                            lemma_block_keeps(
                                env,
                                base,
                                in_context(traced.0, here.context),
                                cursor,
                                next,
                                held,
                                passed || traced.1,
                            );
                        },
                        None => {
                            lemma_block_keeps(env, base, here, cursor, next, held, passed);
                        },
                    }
                } else if is_call(kind) {
                    match cur.name_spec() {
                        Some(name) => {
                            lemma_call_keeps(env, here, cur, None);
                            let called = in_context(call_spec(env, here, cur, None).0, here.context);
                            if env.hooks.contains(name) {
                                let arguments = field_or_self(cur, "arguments"@);
                                lemma_hook_keeps(
                                    env,
                                    called,
                                    arguments,
                                    arguments.index(),
                                    arguments.node().stop as int,
                                );
                                lemma_block_keeps(
                                    env,
                                    base,
                                    in_context(
                                        hook_from(
                                            env,
                                            called,
                                            arguments,
                                            arguments.index(),
                                            arguments.node().stop as int,
                                        ),
                                        here.context,
                                    ),
                                    cursor,
                                    next,
                                    held,
                                    passed,
                                );
                            } else {
                                lemma_block_keeps(env, base, called, cursor, next, held, passed);
                            }
                        },
                        None => {
                            lemma_block_keeps(env, base, here, cursor, next, held, passed);
                        },
                    }
                } else if kind == "if_statement"@ {
                    let held_then = held_after_leave(held, c);
                    lemma_block_keeps(
                        env,
                        base,
                        in_context(w, context_in(base, held_then)),
                        cursor,
                        next,
                        held_then,
                        passed,
                    );
                } else {
                    lemma_block_keeps(env, base, here, cursor, next, held, passed);
                }
            },
        }
    }
}

/// The analysis of files leaves the context stack as it found it, and
/// keeps the graph closed.
pub proof fn lemma_files_keep<'a>(env: Env<'a>, w: World<'a>, files: Seq<&'a File>, f: nat)
    ensures
        files_from(env, w, files, f).context == w.context,
        graph_closed(w.graph) ==> graph_closed(files_from(env, w, files, f).graph),
    decreases files.len() - f,
{
    if f < files.len() {
        let root = Cursor::root(files[f as int]);
        lemma_block_keeps(env, w.context, w, root, Step::Enter(root.index()), None, false);
        lemma_files_keep(env, block_spec(env, w, root).0, files, f + 1);
    }
}

/// In the graph of an analysis every parent of a vertex and every leaf of
/// a taint is a vertex.
pub proof fn lemma_analysis_closed<'a>(rules: &Rules, files: Seq<&'a File>)
    ensures
        graph_closed(analysis(rules, files)),
{
    lemma_empty_graph();
    lemma_files_keep(
        Env { resolved: resolve_from(Seq::empty(), files, 0), hooks: rules.hook_names() },
        fresh_world(rules.merged_sources()),
        files,
        0,
    );
}

} // verus!
