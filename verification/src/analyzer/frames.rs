//! No frame stands twice in the context of a vertex of an analysis: a
//! cycle of calls enters each callable once.
use vstd::prelude::*;
use vstd::utf8::encode_utf8;
use crate::analyzer::laws::{lemma_block_keeps, lemma_call_keeps};
use crate::analyzer::model::{
    Env, World, analysis, assigned, block_bounds, block_from, block_spec, call_spec, callee_name,
    context_in, ended, field_or_self, files_from, frame_of, frames_of, fresh_world,
    held_after_enter, held_after_leave, hook_from, idle, if_frame, in_context, is_call,
    lemma_deeper, lemma_entered, named_taint, read_taint, resolve_from, return_taint,
    returns_from, swept_scope, trace_from,
};
use crate::analyzer::taint::{
    ContextView, TaintKind, TaintView, is_return, lemma_push_keeps_frames_distinct, pushed,
    scope_of,
};
use crate::graph::graph::{GraphView, push_spec};
use crate::graph::rules::Rules;
use crate::graph::vertex::{PathView, VertexView};
use crate::text::{lemma_name_index, name_index};
use crate::tree::cursor::{Cursor, child_find, index_of, sound};
use crate::tree::file::{File, Node, node_ok};
use crate::tree::resolved::parameters_of;
use crate::tree::traverser::{
    Step, lemma_next_emitting, lemma_succ, next_emitting, rank_major, rank_minor, succ, valid_step,
};

verus! {

/// Every vertex of `g` arose in a context that holds no frame twice.
pub open spec fn frames_distinct(g: GraphView) -> bool {
    forall|k: (Seq<char>, int)| #[trigger]
        g.nodes.dom().contains(k) ==> g.nodes[k].context.no_duplicates()
}

/// The world `w` is in a context that holds no frame twice, and so arose
/// every vertex of its graph.
pub open spec fn once(w: World) -> bool {
    w.context.no_duplicates() && frames_distinct(w.graph)
}

/// A context with a frame more that it does not hold has no frame twice.
pub proof fn lemma_entered_once(stack: Seq<ContextView>, frame: ContextView)
    requires
        stack.no_duplicates(),
        !stack.contains(frame),
    ensures
        stack.push(frame).no_duplicates(),
{
    lemma_push_keeps_frames_distinct(stack, frame);
    assert(pushed(stack, frame) == stack.push(frame));
}

/// A vertex that is pushed in a context without a frame twice leaves every
/// vertex in such a context.
pub proof fn lemma_push_keeps_frames<'a>(
    g: GraphView<'a>,
    path: PathView<'a>,
    cursor: Cursor<'a>,
    vertex: VertexView<'a>,
)
    requires
        frames_distinct(g),
        vertex.context.no_duplicates(),
    ensures
        frames_distinct(push_spec(g, path, cursor, vertex)),
{
    let after = push_spec(g, path, cursor, vertex);
    assert forall|k: (Seq<char>, int)| #[trigger] after.nodes.dom().contains(k) implies after.nodes[k].context.no_duplicates() by {
        if k != cursor.key() {
            assert(g.nodes.dom().contains(k));
        }
    }
}

/// An assignment and the end of a trace keep every vertex in a context
/// without a frame twice.
pub proof fn lemma_steps_keep_frames<'a>(
    w: World<'a>,
    cursor: Cursor<'a>,
    source: TaintView,
    assign: TaintView,
    path: Seq<Cursor<'a>>,
)
    requires
        once(w),
    ensures
        once(assigned(w, cursor, source, assign, path)),
        once(ended(w, source, path)),
{
    lemma_push_keeps_frames(
        w.graph,
        PathView { source, path },
        cursor,
        VertexView {
            assign: Some(assign),
            context: w.context,
            parents: Map::empty(),
            sources: Map::empty(),
        },
    );
    if path.len() > 0 {
        lemma_push_keeps_frames(
            w.graph,
            PathView { source, path },
            path.last(),
            VertexView {
                assign: None,
                context: w.context,
                parents: Map::empty(),
                sources: Map::empty(),
            },
        );
    }
}

/// A trace keeps every vertex in a context without a frame twice.
pub proof fn lemma_trace_frames<'a>(
    env: Env<'a>,
    w: World<'a>,
    cursor: Cursor<'a>,
    at: int,
    path: Seq<Cursor<'a>>,
    index: nat,
    source: TaintView,
)
    requires
        once(w),
    ensures
        frames_distinct(trace_from(env, w, cursor, at, path, index, source).0.graph),
    decreases idle(env, w.context), 0nat, 3 * at, 0nat,
{
    let nodes = cursor.file().nodes();
    if sound(cursor) && 0 < at < nodes.len() {
        let p = nodes[at].parent as int;
        let cur = cursor.jump(p);
        let node = nodes[p];
        assert(node_ok(nodes, at));
        cursor.lemma_jump_lands(p);
        lemma_steps_keep_frames(w, cur, source, return_taint(cur), path.push(cur));
        lemma_steps_keep_frames(w, cur, source, named_taint(cur, TaintKind::Variable), path.push(cur));
        lemma_steps_keep_frames(w, cur, source, source, path);
        if node.field is Some && node.field->0@ == "condition"@ {
        } else if node.kind@ == "return_statement"@ {
        } else if node.kind@ == "assignment_expression"@ {
            if cur.name_spec() is None {
                lemma_trace_frames(env, w, cursor, p, path, index, source);
            }
        } else if node.kind@ == "cast_expression"@ {
            let longer = match child_find(nodes, p, |n: Node| n.field is Some && n.field->0@ == "type"@) {
                Some(t) => path.push(cursor.jump(t)),
                None => path,
            };
            lemma_trace_frames(env, w, cursor, p, longer, index, source);
        } else if is_call(node.kind@) {
            let called = call_spec(env, w, cur, Some((index, source, path.push(cur))));
            lemma_call_frames(env, w, cur, Some((index, source, path.push(cur))));
            lemma_call_keeps(env, w, cur, Some((index, source, path.push(cur))));
            lemma_steps_keep_frames(called.0, cur, source, source, path.push(cur));
            if called.1 {
                lemma_trace_frames(env, w, cursor, p, path.push(cur), index, source);
            }
        } else if node.kind@ == "echo_statement"@ {
            lemma_trace_frames(env, w, cursor, p, path.push(cur), index, source);
        } else if node.kind@ == "argument"@ {
            lemma_trace_frames(env, w, cursor, p, path, index_of(nodes, p), source);
        } else if node.kind@ == "expression_statement"@ {
        } else {
            lemma_trace_frames(env, w, cursor, p, path, index, source);
        }
    } else {
        lemma_steps_keep_frames(w, cursor, source, source, path);
    }
}

/// A call keeps every vertex in a context without a frame twice.
pub proof fn lemma_call_frames<'a>(
    env: Env<'a>,
    w: World<'a>,
    cursor: Cursor<'a>,
    binding: Option<(nat, TaintView, Seq<Cursor<'a>>)>,
)
    requires
        once(w),
    ensures
        frames_distinct(call_spec(env, w, cursor, binding).0.graph),
    decreases
        idle(env, w.context),
        (if binding is Some {
            0nat
        } else {
            1nat
        }),
        (if binding is Some {
            3 * cursor.index() + 2
        } else {
            0
        }),
        0nat,
{
    match name_index(env.resolved, callee_name(cursor)) {
        None => {},
        Some(i) => {
            let callable = env.resolved[i].1;
            let frame = frame_of(callable);
            let entered = in_context(w, w.context.push(frame));
            let own = callable.cursor_spec();
            let body = field_or_self(own, "body"@);
            cursor.lemma_index_bounds();
            lemma_name_index(env.resolved, callee_name(cursor));
            if !w.context.contains(frame) {
                assert(frames_of(env.resolved)[i] == frame);
                lemma_entered(frames_of(env.resolved), w.context, frame);
                lemma_entered_once(w.context, frame);
                match binding {
                    Some((index, source, path)) => {
                        let params = if callable is Function {
                            parameters_of(own.file().nodes(), own.index())
                        } else {
                            Seq::<int>::empty()
                        };
                        if index < params.len() && own.jump(params[index as int]).name_spec() is Some {
                            let param = own.jump(params[index as int]);
                            let bound = assigned(
                                entered,
                                param,
                                source,
                                named_taint(param, TaintKind::Param),
                                path,
                            );
                            lemma_steps_keep_frames(
                                entered,
                                param,
                                source,
                                named_taint(param, TaintKind::Param),
                                path,
                            );
                            lemma_block_frames(
                                env,
                                entered.context,
                                bound,
                                body,
                                Step::Enter(body.index()),
                                None,
                                false,
                            );
                            let done = block_from(
                                env,
                                entered.context,
                                bound,
                                body,
                                Step::Enter(body.index()),
                                None,
                                false,
                            );
                            let left = swept_scope(in_context(done.0, w.context), scope_of(param));
                            if done.1 {
                                lemma_returns_frames(
                                    env,
                                    left,
                                    cursor,
                                    left.taints.filter(is_return()),
                                    0,
                                );
                            }
                        }
                    },
                    None => {
                        lemma_block_frames(
                            env,
                            entered.context,
                            entered,
                            body,
                            Step::Enter(body.index()),
                            None,
                            false,
                        );
                    },
                }
            }
        },
    }
}

/// Tracing the taints that a call returned keeps every vertex in a context
/// without a frame twice.
pub proof fn lemma_returns_frames<'a>(
    env: Env<'a>,
    w: World<'a>,
    cursor: Cursor<'a>,
    pending: Seq<TaintView>,
    i: nat,
)
    requires
        once(w),
    ensures
        frames_distinct(returns_from(env, w, cursor, pending, i).graph),
    decreases idle(env, w.context), 0nat, 3 * cursor.index() + 1, pending.len() - i,
{
    if i < pending.len() && cursor.index() >= 0 {
        lemma_trace_frames(env, w, cursor, cursor.index(), Seq::empty(), 0, pending[i as int]);
        let traced = in_context(
            trace_from(env, w, cursor, cursor.index(), Seq::empty(), 0, pending[i as int]).0,
            w.context,
        );
        lemma_returns_frames(env, traced, cursor, pending, i + 1);
    }
}

/// Following the callbacks of a hook keeps every vertex in a context
/// without a frame twice.
pub proof fn lemma_hook_frames<'a>(env: Env<'a>, w: World<'a>, cursor: Cursor<'a>, j: int, stop: int)
    requires
        once(w),
    ensures
        frames_distinct(hook_from(env, w, cursor, j, stop).graph),
    decreases idle(env, w.context), 2nat, stop - j, 0nat,
{
    let nodes = cursor.file().nodes();
    if j < stop && 0 <= j < nodes.len() {
        let cur = cursor.jump(j);
        if nodes[j].named && nodes[j].kind@ == "argument"@ && encode_utf8(cur.text()).len() > 2 {
            lemma_call_frames(env, w, cur, None);
            let called = in_context(call_spec(env, w, cur, None).0, w.context);
            lemma_hook_frames(env, called, cursor, j + 1, stop);
        } else {
            lemma_hook_frames(env, w, cursor, j + 1, stop);
        }
    }
}

/// The analysis of a block keeps every vertex in a context without a frame
/// twice.
pub proof fn lemma_block_frames<'a>(
    env: Env<'a>,
    base: Seq<ContextView>,
    w: World<'a>,
    cursor: Cursor<'a>,
    st: Step,
    held: Option<int>,
    passed: bool,
)
    requires
        base.no_duplicates(),
        held is Some ==> !base.contains(if_frame()),
        frames_distinct(w.graph),
    ensures
        frames_distinct(block_from(env, base, w, cursor, st, held, passed).0.graph),
    decreases idle(env, base), 3nat, rank_major(cursor.file().nodes(), st), rank_minor(st),
{
    let nodes = cursor.file().nodes();
    let start = cursor.index();
    if valid_step(nodes, start, st) && sound(cursor) {
        let e = next_emitting(nodes, start, block_bounds(), false, st);
        let next = succ(nodes, start, block_bounds(), e);
        let here = in_context(w, context_in(base, held));
        lemma_next_emitting(nodes, start, block_bounds(), false, st);
        assert(node_ok(nodes, start));
        lemma_deeper(frames_of(env.resolved), base, context_in(base, held));
        if held is Some {
            lemma_entered_once(base, if_frame());
        }
        match e {
            Step::Done => {},
            Step::Enter(c) => {
                lemma_succ(nodes, start, block_bounds(), false, e);
                let held_then = held_after_enter(base, held, nodes[c].kind@, c);
                lemma_block_frames(
                    env,
                    base,
                    in_context(w, context_in(base, held_then)),
                    cursor,
                    next,
                    held_then,
                    passed,
                );
            },
            Step::Leave(c) => {
                lemma_succ(nodes, start, block_bounds(), false, e);
                let cur = cursor.jump(c);
                let kind = nodes[c].kind@;
                if kind == "variable_name"@ {
                    match read_taint(w.taints, cur) {
                        Some(taint) => {
                            lemma_trace_frames(env, here, cur, c, Seq::empty(), 0, taint);
                            let traced = trace_from(env, here, cur, c, Seq::empty(), 0, taint);
                            lemma_block_frames(
                                env,
                                base,
                                in_context(traced.0, here.context),
                                cursor,
                                next,
                                held,
                                passed || traced.1,
                            );
                        },
                        None => {
                            lemma_block_frames(env, base, here, cursor, next, held, passed);
                        },
                    }
                } else if is_call(kind) {
                    match cur.name_spec() {
                        Some(name) => {
                            lemma_call_frames(env, here, cur, None);
                            let called = in_context(call_spec(env, here, cur, None).0, here.context);
                            if env.hooks.contains(name) {
                                let arguments = field_or_self(cur, "arguments"@);
                                lemma_hook_frames(
                                    env,
                                    called,
                                    arguments,
                                    arguments.index(),
                                    arguments.node().stop as int,
                                );
                                lemma_block_frames(
                                    env,
                                    base,
                                    in_context(
                                        hook_from(
                                            env,
                                            called,
                                            arguments,
                                            arguments.index(),
                                            arguments.node().stop as int,
                                        ),
                                        here.context,
                                    ),
                                    cursor,
                                    next,
                                    held,
                                    passed,
                                );
                            } else {
                                lemma_block_frames(env, base, called, cursor, next, held, passed);
                            }
                        },
                        None => {
                            lemma_block_frames(env, base, here, cursor, next, held, passed);
                        },
                    }
                } else if kind == "if_statement"@ {
                    let held_then = held_after_leave(held, c);
                    lemma_block_frames(
                        env,
                        base,
                        in_context(w, context_in(base, held_then)),
                        cursor,
                        next,
                        held_then,
                        passed,
                    );
                } else {
                    lemma_block_frames(env, base, here, cursor, next, held, passed);
                }
            },
        }
    }
}

/// The analysis of files keeps every vertex in a context without a frame
/// twice.
pub proof fn lemma_files_frames<'a>(env: Env<'a>, w: World<'a>, files: Seq<&'a File>, f: nat)
    requires
        once(w),
    ensures
        frames_distinct(files_from(env, w, files, f).graph),
    decreases files.len() - f,
{
    if f < files.len() {
        let root = Cursor::root(files[f as int]);
        lemma_block_frames(env, w.context, w, root, Step::Enter(root.index()), None, false);
        lemma_block_keeps(env, w.context, w, root, Step::Enter(root.index()), None, false);
        lemma_files_frames(env, block_spec(env, w, root).0, files, f + 1);
    }
}

/// In the graph of an analysis no vertex arose in a context that holds a
/// frame twice: however the calls of a program lead back to a callable,
/// it is entered once on the way to any node.
pub proof fn lemma_analysis_enters_once<'a>(rules: &Rules, files: Seq<&'a File>)
    ensures
        frames_distinct(analysis(rules, files)),
{
    lemma_files_frames(
        Env { resolved: resolve_from(Seq::empty(), files, 0), hooks: rules.hook_names() },
        fresh_world(rules.merged_sources()),
        files,
        0,
    );
}

} // verus!
