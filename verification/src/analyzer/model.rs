//! What the analyzer computes, as functions from the state before a step
//! to the state after it.
use vstd::prelude::*;
use vstd::utf8::encode_utf8;
use crate::analyzer::taint::{
    ContextView, ScopeView, TaintKind, TaintView, first_named, global_scope, is_return,
    not_of_scope, not_return, of_scope, return_name, scope_contains, scope_of,
};
use crate::graph::graph::{GraphView, emptied, push_spec};
use crate::graph::rules::Rules;
use crate::graph::vertex::{PathView, VertexView};
use crate::seqs::{lemma_missing_grows, lemma_missing_shrinks, missing};
use crate::text::{lemma_name_index, name_index, unquoted};
use crate::tree::cursor::{Cursor, child_find, index_of, sound};
use crate::tree::file::{File, Node, node_ok};
use crate::tree::resolved::{Resolved, parameters_of};
use crate::tree::traverser::{
    Step, lemma_next_emitting, lemma_succ, next_emitting, rank_major, rank_minor, succ, valid_step,
};

verus! {

/// What an analysis changes as it goes: the taints it knows of, the frames
/// that enclose the point where it stands, and the flow graph.
pub struct World<'a> {
    pub taints: Seq<TaintView>,
    pub context: Seq<ContextView>,
    pub graph: GraphView<'a>,
}

/// What an analysis goes by and leaves as it is: the callables that calls
/// resolve to, and the names of the functions that register callbacks.
pub struct Env<'a> {
    /// The callables, each under its name.
    pub resolved: Seq<(Seq<char>, Resolved<'a>)>,
    /// The names of the hooks.
    pub hooks: Set<Seq<char>>,
}

/// Whether a node of kind `kind` is a call.
pub open spec fn is_call(kind: Seq<char>) -> bool {
    kind == "function_call_expression"@ || kind == "member_call_expression"@ || kind
        == "scoped_call_expression"@
}

/// The name that a call or a callback argument under `cursor` goes by: the
/// name of the node, else its text without quotes.
pub open spec fn callee_name(cursor: Cursor) -> Seq<char> {
    match cursor.name_spec() {
        Some(name) => name,
        None => unquoted(cursor.text()),
    }
}

/// The frame that stands on the context stack while a callable is
/// analyzed: the kind of its declaration and its name.
pub open spec fn frame_of(callable: Resolved) -> ContextView {
    (callable.cursor_spec().node().kind@, callable.name_spec())
}

/// The frames of the callables of `resolved`.
pub open spec fn frames_of(resolved: Seq<(Seq<char>, Resolved)>) -> Seq<ContextView> {
    resolved.map_values(|e: (Seq<char>, Resolved)| frame_of(e.1))
}

/// The number of callables that are not being analyzed in the context
/// `context`: what bounds the depth of the calls that are followed.
pub open spec fn idle(env: Env, context: Seq<ContextView>) -> nat {
    missing(frames_of(env.resolved), context)
}

/// The frame of a conditional.
pub open spec fn if_frame() -> ContextView {
    ("if_statement"@, "if_statement"@)
}

/// The kinds of node that the analysis of a block does not go below.
pub open spec fn block_bounds() -> Seq<&'static str> {
    seq!["method_declaration", "function_definition"]
}

/// The taints with `taint` among them.
pub open spec fn with_taint(taints: Seq<TaintView>, taint: TaintView) -> Seq<TaintView> {
    if taints.contains(taint) {
        taints
    } else {
        taints.push(taint)
    }
}

/// The taint that a read of the variable under `cursor` carries, given the
/// taints `taints`: none for the target of an assignment and for the
/// receiver of a member access; else the first taint by the name of the
/// variable, if its scope is visible from the variable.
pub open spec fn read_taint(taints: Seq<TaintView>, cursor: Cursor) -> Option<TaintView> {
    let node = cursor.node();
    let nodes = cursor.file().nodes();
    if node.kind@ != "variable_name"@ {
        None
    } else if node.field is Some && node.field->0@ == "left"@ && cursor.index() > 0
        && nodes[node.parent as int].kind@ == "assignment_expression"@ {
        None
    } else if node.field is Some && node.field->0@ == "object"@ {
        None
    } else {
        match cursor.name_spec() {
            Some(name) => match first_named(taints, name) {
                Some(i) => if scope_contains(scope_of(cursor), taints[i].scope) {
                    Some(taints[i])
                } else {
                    None
                },
                None => None,
            },
            None => None,
        }
    }
}

/// The taint that a return statement under `cursor` passes on.
pub open spec fn return_taint(cursor: Cursor) -> TaintView {
    TaintView {
        kind: TaintKind::Return,
        name: return_name(scope_of(cursor).function),
        scope: global_scope(),
    }
}

/// The taint of kind `kind` that goes by the name of the node under
/// `cursor`, in the scope of that node.
pub open spec fn named_taint(cursor: Cursor, kind: TaintKind) -> TaintView {
    TaintView { kind, name: cursor.name_spec()->0, scope: scope_of(cursor) }
}

/// The world after `assign` became a taint and a vertex that assigns it
/// was pushed at `cursor`, reached by `path` from `source`.
pub open spec fn assigned<'a>(
    w: World<'a>,
    cursor: Cursor<'a>,
    source: TaintView,
    assign: TaintView,
    path: Seq<Cursor<'a>>,
) -> World<'a> {
    World {
        taints: with_taint(w.taints, assign),
        graph: push_spec(
            w.graph,
            PathView { source, path },
            cursor,
            VertexView {
                assign: Some(assign),
                context: w.context,
                parents: Map::empty(),
                sources: Map::empty(),
            },
        ),
        ..w
    }
}

/// The world after a trace ended without a return or an assignment: a
/// vertex that assigns nothing was pushed at the last node of `path`, if
/// it has one.
pub open spec fn ended<'a>(w: World<'a>, source: TaintView, path: Seq<Cursor<'a>>) -> World<'a> {
    if path.len() > 0 {
        World {
            graph: push_spec(
                w.graph,
                PathView { source, path },
                path.last(),
                VertexView {
                    assign: None,
                    context: w.context,
                    parents: Map::empty(),
                    sources: Map::empty(),
                },
            ),
            ..w
        }
    } else {
        w
    }
}

/// The world after what belongs to the scope `scope` was cleared: the
/// taints of that scope are gone, and their lists of leaves are empty.
pub open spec fn swept_scope<'a>(w: World<'a>, scope: ScopeView) -> World<'a> {
    World {
        taints: w.taints.filter(not_of_scope(scope)),
        graph: GraphView { leaves: emptied(w.graph.leaves, of_scope(scope)), ..w.graph },
        ..w
    }
}

/// The world after the return taints were cleared: they are gone, and
/// their lists of leaves are empty.
pub open spec fn swept_returns<'a>(w: World<'a>) -> World<'a> {
    World {
        taints: w.taints.filter(not_return()),
        graph: GraphView { leaves: emptied(w.graph.leaves, is_return()), ..w.graph },
        ..w
    }
}

/// The cursor on the child of the node under `cursor` that hangs under the
/// field `field`; `cursor` itself if there is none.
pub open spec fn field_or_self<'a>(cursor: Cursor<'a>, field: Seq<char>) -> Cursor<'a> {
    match child_find(
        cursor.file().nodes(),
        cursor.index(),
        |n: Node| n.field is Some && n.field->0@ == field,
    ) {
        Some(child) => cursor.jump(child),
        None => cursor,
    }
}

/// The world `w` in the context `context`.
pub open spec fn in_context<'a>(w: World<'a>, context: Seq<ContextView>) -> World<'a> {
    World { context, ..w }
}

/// What a trace of the taint `source` does from node `at` of the file of
/// `cursor` upward, with the segment `path` and the argument position
/// `index` so far: the world after it, and whether it ended at a return
/// statement.
///
/// The trace ends at a condition, at an expression statement and at the
/// root, at a return statement or a named assignment, which get a vertex
/// that assigns the taint they pass on, and at a call that resolves, which
/// is followed. A call that does not resolve, the type of a cast and an
/// echo statement become part of the segment; an argument gives the
/// position. Where the trace ends without a return or an assignment, the
/// last node of the segment gets a vertex that assigns nothing. The context
/// stack is after the trace as it was before. Where the arena of the file
/// is not well formed the trace is defined to change nothing; no file of
/// this library is like that.
pub open spec fn trace_from<'a>(
    env: Env<'a>,
    w: World<'a>,
    cursor: Cursor<'a>,
    at: int,
    path: Seq<Cursor<'a>>,
    index: nat,
    source: TaintView,
) -> (World<'a>, bool)
    decreases idle(env, w.context), 0nat, 3 * at, 0nat,
{
    let nodes = cursor.file().nodes();
    if !(sound(cursor) && 0 <= at < nodes.len()) {
        (w, false)
    } else if at == 0 {
        (ended(w, source, path), false)
    } else {
        let p = nodes[at].parent as int;
        let cur = cursor.jump(p);
        let node = nodes[p];
        proof {
            assert(node_ok(nodes, at));
            cursor.lemma_jump_lands(p);
        }
        if node.field is Some && node.field->0@ == "condition"@ {
            (ended(w, source, path), false)
        } else if node.kind@ == "return_statement"@ {
            (assigned(w, cur, source, return_taint(cur), path.push(cur)), true)
        } else if node.kind@ == "assignment_expression"@ {
            if cur.name_spec() is Some {
                (assigned(w, cur, source, named_taint(cur, TaintKind::Variable), path.push(cur)), false)
            } else {
                trace_from(env, w, cursor, p, path, index, source)
            }
        } else if node.kind@ == "cast_expression"@ {
            trace_from(
                env,
                w,
                cursor,
                p,
                match child_find(nodes, p, |n: Node| n.field is Some && n.field->0@ == "type"@) {
                    Some(t) => path.push(cursor.jump(t)),
                    None => path,
                },
                index,
                source,
            )
        } else if is_call(node.kind@) {
            let called = call_spec(env, w, cur, Some((index, source, path.push(cur))));
            if called.1 {
                trace_from(env, w, cursor, p, path.push(cur), index, source)
            } else {
                (ended(called.0, source, path.push(cur)), false)
            }
        } else if node.kind@ == "echo_statement"@ {
            trace_from(env, w, cursor, p, path.push(cur), index, source)
        } else if node.kind@ == "argument"@ {
            trace_from(env, w, cursor, p, path, index_of(nodes, p), source)
        } else if node.kind@ == "expression_statement"@ {
            (ended(w, source, path), false)
        } else {
            trace_from(env, w, cursor, p, path, index, source)
        }
    }
}

/// What following the call under `cursor` does: the world after it, and
/// whether the call resolves to no callable, so that a trace goes on past
/// it.
///
/// A call that resolves to no callable changes nothing. With `binding`, an
/// argument position, a taint and a segment, the taint is bound to the
/// parameter at that position, the body of the callable is analyzed, what
/// belongs to the scope of the parameter is cleared, the taints that the
/// body returned are traced on from the call, and the return taints are
/// cleared. Without it the body is analyzed as it is. The frame of the
/// callable is on the context stack while its body is analyzed. A callable
/// whose frame is on the stack already is not entered, and nothing
/// changes. The context stack is after the call as it was before.
pub open spec fn call_spec<'a>(
    env: Env<'a>,
    w: World<'a>,
    cursor: Cursor<'a>,
    binding: Option<(nat, TaintView, Seq<Cursor<'a>>)>,
) -> (World<'a>, bool)
    decreases
        idle(env, w.context),
        (if binding is Some {
            0nat
        } else {
            1nat
        }),
        (if binding is Some {
            3 * cursor.index() + 2
        } else {
            0
        }),
        0nat,
{
    match name_index(env.resolved, callee_name(cursor)) {
        None => (w, true),
        Some(i) => {
            let callable = env.resolved[i].1;
            let frame = frame_of(callable);
            let entered = in_context(w, w.context.push(frame));
            let body = field_or_self(callable.cursor_spec(), "body"@);
            proof {
                cursor.lemma_index_bounds();
                lemma_name_index(env.resolved, callee_name(cursor));
                if !w.context.contains(frame) {
                    assert(frames_of(env.resolved)[i] == frame);
                    lemma_entered(frames_of(env.resolved), w.context, frame);
                }
            }
            match binding {
                Some((index, source, path)) => {
                    let own = callable.cursor_spec();
                    let params = if callable is Function {
                        parameters_of(own.file().nodes(), own.index())
                    } else {
                        Seq::<int>::empty()
                    };
                    if index < params.len() && own.jump(params[index as int]).name_spec() is Some
                        && !w.context.contains(frame) {
                        let param = own.jump(params[index as int]);
                        let bound = assigned(
                            entered,
                            param,
                            source,
                            named_taint(param, TaintKind::Param),
                            path,
                        );
                        let done = block_from(
                            env,
                            entered.context,
                            bound,
                            body,
                            Step::Enter(body.index()),
                            None,
                            false,
                        );
                        let left = swept_scope(in_context(done.0, w.context), scope_of(param));
                        let followed = if done.1 {
                            returns_from(env, left, cursor, left.taints.filter(is_return()), 0)
                        } else {
                            left
                        };
                        (swept_returns(followed), false)
                    } else {
                        (w, false)
                    }
                },
                None => {
                    if !w.context.contains(frame) {
                        let done = block_from(
                            env,
                            entered.context,
                            entered,
                            body,
                            Step::Enter(body.index()),
                            None,
                            false,
                        );
                        (in_context(done.0, w.context), false)
                    } else {
                        (w, false)
                    }
                },
            }
        },
    }
}

/// What tracing the return taints `pending` from the `i`-th on does, each
/// from the call under `cursor`.
pub open spec fn returns_from<'a>(
    env: Env<'a>,
    w: World<'a>,
    cursor: Cursor<'a>,
    pending: Seq<TaintView>,
    i: nat,
) -> World<'a>
    decreases idle(env, w.context), 0nat, 3 * cursor.index() + 1, pending.len() - i,
{
    if i >= pending.len() || cursor.index() < 0 {
        w
    } else {
        returns_from(
            env,
            in_context(
                trace_from(env, w, cursor, cursor.index(), Seq::empty(), 0, pending[i as int]).0,
                w.context,
            ),
            cursor,
            pending,
            i + 1,
        )
    }
}

/// What following the callbacks does that the nodes `j .. stop` of the
/// file of `cursor` register: each named argument of more than two bytes
/// is followed as a call.
pub open spec fn hook_from<'a>(env: Env<'a>, w: World<'a>, cursor: Cursor<'a>, j: int, stop: int) -> World<
    'a,
>
    decreases idle(env, w.context), 2nat, stop - j, 0nat,
{
    let nodes = cursor.file().nodes();
    if j >= stop || !(0 <= j < nodes.len()) {
        w
    } else {
        let cur = cursor.jump(j);
        hook_from(
            env,
            if nodes[j].named && nodes[j].kind@ == "argument"@ && encode_utf8(cur.text()).len() > 2 {
                in_context(call_spec(env, w, cur, None).0, w.context)
            } else {
                w
            },
            cursor,
            j + 1,
            stop,
        )
    }
}

/// What following the callbacks does that the call under `cursor`
/// registers.
pub open spec fn hook_spec<'a>(env: Env<'a>, w: World<'a>, cursor: Cursor<'a>) -> World<'a> {
    let arguments = field_or_self(cursor, "arguments"@);
    hook_from(env, w, arguments, arguments.index(), arguments.node().stop as int)
}

/// The context inside a block that was entered in the context `base`:
/// with the frame of a conditional on top while the block is inside a
/// conditional that put its frame there.
pub open spec fn context_in(base: Seq<ContextView>, held: Option<int>) -> Seq<ContextView> {
    if held is Some {
        base.push(if_frame())
    } else {
        base
    }
}

/// The conditional that holds the frame on the context stack after node
/// `c` was entered: `c` itself if it is a conditional and no frame of a
/// conditional is on the stack, else the one that held it before.
pub open spec fn held_after_enter(
    base: Seq<ContextView>,
    held: Option<int>,
    kind: Seq<char>,
    c: int,
) -> Option<int> {
    if kind == "if_statement"@ && held is None && !base.contains(if_frame()) {
        Some(c)
    } else {
        held
    }
}

/// The conditional that holds the frame on the context stack after the
/// conditional `c` was left: none if it was `c`.
pub open spec fn held_after_leave(held: Option<int>, c: int) -> Option<int> {
    if held == Some(c) {
        None
    } else {
        held
    }
}

/// What the analysis of the block under `cursor` does from the step `st`
/// of its traversal on, and whether a return statement in it passed a
/// taint on, `passed` counted in.
///
/// The block was entered in the context `base`. A conditional puts its
/// frame on the context stack when it is entered, unless the frame of a
/// conditional is on the stack already, and takes it off when it is left;
/// `held` is the conditional whose frame is on the stack. Each read of a
/// tainted variable is traced, each call is followed, and each call of a
/// hook is followed into the callbacks it registers. At the end the context
/// is `base` again. Where the arena of the file is not well formed the
/// analysis is defined to stop; no file of this library is like that.
pub open spec fn block_from<'a>(
    env: Env<'a>,
    base: Seq<ContextView>,
    w: World<'a>,
    cursor: Cursor<'a>,
    st: Step,
    held: Option<int>,
    passed: bool,
) -> (World<'a>, bool)
    decreases idle(env, base), 3nat, rank_major(cursor.file().nodes(), st), rank_minor(st),
{
    let nodes = cursor.file().nodes();
    let start = cursor.index();
    if !valid_step(nodes, start, st) || !sound(cursor) {
        (in_context(w, base), passed)
    } else {
        let e = next_emitting(nodes, start, block_bounds(), false, st);
        let next = succ(nodes, start, block_bounds(), e);
        let here = in_context(w, context_in(base, held));
        proof {
            lemma_next_emitting(nodes, start, block_bounds(), false, st);
            assert(node_ok(nodes, start));
            if !(e is Done) {
                lemma_succ(nodes, start, block_bounds(), false, e);
            }
            lemma_deeper(frames_of(env.resolved), base, context_in(base, held));
        }
        match e {
            Step::Done => (in_context(w, base), passed),
            Step::Enter(c) => block_from(
                env,
                base,
                in_context(w, context_in(base, held_after_enter(base, held, nodes[c].kind@, c))),
                cursor,
                next,
                held_after_enter(base, held, nodes[c].kind@, c),
                passed,
            ),
            Step::Leave(c) => {
                let cur = cursor.jump(c);
                let kind = nodes[c].kind@;
                proof {
                    cursor.lemma_jump_lands(c);
                }
                if kind == "variable_name"@ {
                    match read_taint(w.taints, cur) {
                        Some(taint) => {
                            let traced = trace_from(env, here, cur, c, Seq::empty(), 0, taint);
                            block_from(
                                env,
                                base,
                                in_context(traced.0, here.context),
                                cursor,
                                next,
                                held,
                                passed || traced.1,
                            )
                        },
                        None => block_from(env, base, here, cursor, next, held, passed),
                    }
                } else if is_call(kind) {
                    match cur.name_spec() {
                        Some(name) => {
                            let called = in_context(call_spec(env, here, cur, None).0, here.context);
                            block_from(
                                env,
                                base,
                                if env.hooks.contains(name) {
                                    in_context(
                                        hook_from(
                                            env,
                                            called,
                                            field_or_self(cur, "arguments"@),
                                            field_or_self(cur, "arguments"@).index(),
                                            field_or_self(cur, "arguments"@).node().stop as int,
                                        ),
                                        here.context,
                                    )
                                } else {
                                    called
                                },
                                cursor,
                                next,
                                held,
                                passed,
                            )
                        },
                        None => block_from(env, base, here, cursor, next, held, passed),
                    }
                } else if kind == "if_statement"@ {
                    block_from(
                        env,
                        base,
                        in_context(w, context_in(base, held_after_leave(held, c))),
                        cursor,
                        next,
                        held_after_leave(held, c),
                        passed,
                    )
                } else {
                    block_from(env, base, here, cursor, next, held, passed)
                }
            },
        }
    }
}

/// What the analysis of the block under `cursor` does, and whether a
/// return statement in it passes a taint on.
pub open spec fn block_spec<'a>(env: Env<'a>, w: World<'a>, cursor: Cursor<'a>) -> (World<'a>, bool) {
    block_from(env, w.context, w, cursor, Step::Enter(cursor.index()), None, false)
}

/// What a trace of the taint `source` from the read under `cursor` does,
/// and whether it ends at a return statement.
pub open spec fn trace_spec<'a>(env: Env<'a>, w: World<'a>, cursor: Cursor<'a>, source: TaintView) -> (
    World<'a>,
    bool,
) {
    trace_from(env, w, cursor, cursor.index(), Seq::empty(), 0, source)
}

/// What the analysis of the files from the `f`-th on does, each from its
/// root.
pub open spec fn files_from<'a>(env: Env<'a>, w: World<'a>, files: Seq<&'a File>, f: nat) -> World<'a>
    decreases files.len() - f,
{
    if f >= files.len() {
        w
    } else {
        files_from(env, block_spec(env, w, Cursor::root(files[f as int])).0, files, f + 1)
    }
}

/// The callables `resolved` with `callable` under `name`, in the place of
/// what was under that name before.
pub open spec fn bound<'a>(
    resolved: Seq<(Seq<char>, Resolved<'a>)>,
    name: Seq<char>,
    callable: Resolved<'a>,
) -> Seq<(Seq<char>, Resolved<'a>)> {
    match name_index(resolved, name) {
        Some(i) => resolved.update(i, (name, callable)),
        None => resolved.push((name, callable)),
    }
}

/// The callables after node `j` of the file of `root` was looked at: a
/// named function or method declaration is bound under its name, a program
/// node under the name `ROOT`.
pub open spec fn resolve_node<'a>(
    resolved: Seq<(Seq<char>, Resolved<'a>)>,
    root: Cursor<'a>,
    j: int,
) -> Seq<(Seq<char>, Resolved<'a>)> {
    let node = root.file().nodes()[j];
    let cur = root.jump(j);
    if !node.named {
        resolved
    } else if node.kind@ == "function_definition"@ || node.kind@ == "method_declaration"@ {
        match cur.name_spec() {
            Some(name) => bound(resolved, name, Resolved::Function { cursor: cur }),
            None => resolved,
        }
    } else if node.kind@ == "program"@ {
        bound(resolved, "ROOT"@, Resolved::Root { cursor: cur })
    } else {
        resolved
    }
}

/// The callables after the nodes `j .. n` of the file of `root` were
/// looked at, in order.
pub open spec fn resolve_nodes<'a>(
    resolved: Seq<(Seq<char>, Resolved<'a>)>,
    root: Cursor<'a>,
    j: int,
    n: int,
) -> Seq<(Seq<char>, Resolved<'a>)>
    decreases n - j,
{
    if j >= n {
        resolved
    } else {
        resolve_nodes(resolve_node(resolved, root, j), root, j + 1, n)
    }
}

/// The callables after the files from the `f`-th on were looked at, in
/// order: of two callables under one name the later stays.
pub open spec fn resolve_from<'a>(
    resolved: Seq<(Seq<char>, Resolved<'a>)>,
    files: Seq<&'a File>,
    f: nat,
) -> Seq<(Seq<char>, Resolved<'a>)>
    decreases files.len() - f,
{
    if f >= files.len() {
        resolved
    } else {
        resolve_from(
            resolve_nodes(
                resolved,
                Cursor::root(files[f as int]),
                0,
                files[f as int].nodes().len() as int,
            ),
            files,
            f + 1,
        )
    }
}

/// Whether `callable` stands on a declaration of its sort: a function on a
/// function or method declaration, a root on a program node.
pub open spec fn declares(callable: Resolved) -> bool {
    let kind = callable.cursor_spec().node().kind@;
    match callable {
        Resolved::Function { cursor } => kind == "function_definition"@ || kind
            == "method_declaration"@,
        Resolved::Root { cursor } => kind == "program"@,
    }
}

/// Whether every callable of `resolved` stands on a declaration of its
/// sort.
pub open spec fn all_declare(resolved: Seq<(Seq<char>, Resolved)>) -> bool {
    forall|i: int| 0 <= i < resolved.len() ==> declares((#[trigger] resolved[i]).1)
}

/// Looking at the nodes of a file binds callables to declarations only.
pub proof fn lemma_nodes_declare<'a>(resolved: Seq<(Seq<char>, Resolved<'a>)>, root: Cursor<'a>, j: int, n: int)
    requires
        all_declare(resolved),
        0 <= j,
        n <= root.file().nodes().len() <= usize::MAX,
    ensures
        all_declare(resolve_nodes(resolved, root, j, n)),
    decreases n - j,
{
    if j < n {
        let next = resolve_node(resolved, root, j);
        root.lemma_jump_lands(j);
        let node = root.file().nodes()[j];
        let cur = root.jump(j);
        assert(all_declare(next)) by {
            if node.named {
                if node.kind@ == "function_definition"@ || node.kind@ == "method_declaration"@ {
                    if cur.name_spec() is Some {
                        lemma_bound_declares(
                            resolved,
                            cur.name_spec()->0,
                            Resolved::Function { cursor: cur },
                        );
                    }
                } else if node.kind@ == "program"@ {
                    lemma_bound_declares(resolved, "ROOT"@, Resolved::Root { cursor: cur });
                }
            }
        }
        lemma_nodes_declare(next, root, j + 1, n);
    }
}

/// Binding a callable that stands on a declaration keeps every callable on
/// a declaration.
pub proof fn lemma_bound_declares<'a>(
    resolved: Seq<(Seq<char>, Resolved<'a>)>,
    name: Seq<char>,
    callable: Resolved<'a>,
)
    requires
        all_declare(resolved),
        declares(callable),
    ensures
        all_declare(bound(resolved, name, callable)),
{
    lemma_name_index(resolved, name);
    let after = bound(resolved, name, callable);
    assert forall|i: int| 0 <= i < after.len() implies declares((#[trigger] after[i]).1) by {
        match name_index(resolved, name) {
            Some(k) => {
                if i != k {
                    assert(after[i] == resolved[i]);
                }
            },
            None => {
                if i < resolved.len() {
                    assert(after[i] == resolved[i]);
                }
            },
        }
    }
}

/// Every callable that the files resolve to stands on a declaration of its
/// sort: a function on a function or method declaration, a root on a
/// program node.
pub proof fn lemma_resolved_declare<'a>(resolved: Seq<(Seq<char>, Resolved<'a>)>, files: Seq<&'a File>, f: nat)
    requires
        all_declare(resolved),
        forall|i: int| 0 <= i < files.len() ==> (#[trigger] files[i]).nodes().len() <= usize::MAX,
    ensures
        all_declare(resolve_from(resolved, files, f)),
    decreases files.len() - f,
{
    if f < files.len() {
        let file = files[f as int];
        let root = Cursor::root(file);
        Cursor::lemma_root(file, root);
        lemma_nodes_declare(resolved, root, 0, file.nodes().len() as int);
        lemma_resolved_declare(
            resolve_nodes(resolved, root, 0, file.nodes().len() as int),
            files,
            f + 1,
        );
    }
}

/// The taint of the source that goes by `name`.
pub open spec fn source_taint(name: Seq<char>) -> TaintView {
    TaintView { kind: TaintKind::Source, name, scope: global_scope() }
}

/// The taints that an analysis starts from: one for each of the sources
/// `names`.
pub open spec fn seeds(names: Seq<Seq<char>>) -> Seq<TaintView> {
    names.map_values(|n: Seq<char>| source_taint(n))
}

/// The world that an analysis starts from, with the sources `names`.
pub open spec fn fresh_world<'a>(names: Seq<Seq<char>>) -> World<'a> {
    World {
        taints: seeds(names),
        context: Seq::empty(),
        graph: GraphView { nodes: Map::empty(), leaves: Map::empty() },
    }
}

/// The flow graph of `files` under the rules `rules`: what an analyzer
/// that was made of them builds.
pub open spec fn analysis<'a>(rules: &Rules, files: Seq<&'a File>) -> GraphView<'a> {
    files_from(
        Env { resolved: resolve_from(Seq::empty(), files, 0), hooks: rules.hook_names() },
        fresh_world(rules.merged_sources()),
        files,
        0,
    ).graph
}

/// Two analyses of the same files under the same rules build the same
/// graph, and the matcher finds the same witnesses in it.
pub proof fn lemma_analysis_is_repeatable<'a>(
    rules: &Rules,
    files: Seq<&'a File>,
    first: GraphView<'a>,
    second: GraphView<'a>,
)
    requires
        first == analysis(rules, files),
        second == analysis(rules, files),
    ensures
        first == second,
        forall|s: Seq<crate::graph::vertex::Key>|
            crate::graph::matcher::is_finding(first, rules.vulns_spec(), s)
                == crate::graph::matcher::is_finding(second, rules.vulns_spec(), s),
{
}

/// With more frames on the stack no more callables are idle.
pub proof fn lemma_deeper(frames: Seq<ContextView>, before: Seq<ContextView>, after: Seq<ContextView>)
    requires
        before.is_prefix_of(after),
    ensures
        missing(frames, after) <= missing(frames, before),
{
    assert forall|y: ContextView| before.contains(y) implies after.contains(y) by {
        let k = choose|k: int| 0 <= k < before.len() && before[k] == y;
        assert(after[k] == y);
    }
    lemma_missing_grows(frames, before, after);
}

/// The frame of a callable that is pushed on the stack leaves one callable
/// less idle.
pub proof fn lemma_entered(frames: Seq<ContextView>, stack: Seq<ContextView>, frame: ContextView)
    requires
        frames.contains(frame),
        !stack.contains(frame),
    ensures
        missing(frames, stack.push(frame)) < missing(frames, stack),
{
    let more = stack.push(frame);
    assert(more[stack.len() as int] == frame);
    assert forall|y: ContextView| stack.contains(y) implies more.contains(y) by {
        let k = choose|k: int| 0 <= k < stack.len() && stack[k] == y;
        assert(more[k] == y);
    }
    lemma_missing_shrinks(frames, stack, more, frame);
}

} // verus!
