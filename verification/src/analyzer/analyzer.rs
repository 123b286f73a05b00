//! The analyzer: walks the files, follows the flow of tainted data through
//! assignments, calls and returns, and records it in the flow graph.
use vstd::prelude::*;
use vstd::string::*;
use crate::analyzer::model::{
    Env, World, analysis, assigned, block_bounds, block_from, block_spec, bound, call_spec,
    context_in, ended, if_frame,
    callee_name, files_from, frames_of, fresh_world, hook_from, hook_spec, idle, is_call,
    lemma_deeper,
    lemma_entered, read_taint, resolve_from, resolve_nodes, returns_from, seeds, trace_from,
    trace_spec,
};
use crate::analyzer::taint::{Context, ContextStack, ContextView, Scope, Taint, TaintList, TaintView};
use crate::analyzer::laws::lemma_files_keep;
use crate::graph::graph::{Graph, GraphView};
use crate::graph::laws::graph_closed;
use crate::graph::rules::{Rules, texts};
use crate::graph::vertex::{PathItem, Vertex, copy_cursors};
use crate::text::{
    contains_text, find_key, is_text, lemma_key_index, name_index, named, same_text, strip_quotes,
    text_set,
};
use crate::tree::cursor::Cursor;
use crate::tree::file::{File, node_ok};
use crate::tree::resolved::Resolved;
use crate::tree::tracer::Trace;
use crate::tree::traverser::Order;

verus! {

fn is_call_kind(kind: &str) -> (call: bool)
    ensures
        call == is_call(kind@),
{
    same_text(kind, "function_call_expression") || same_text(kind, "member_call_expression")
        || same_text(kind, "scoped_call_expression")
}

/// The analyzer and its state.
pub struct Analyzer<'a> {
    taints: TaintList,
    context: ContextStack,
    files: Vec<&'a File>,
    resolved: Vec<(String, Resolved<'a>)>,
    graph: Graph<'a>,
    hooks: Vec<String>,
}

impl<'a> Analyzer<'a> {
    /// The taints that the analyzer knows of.
    pub closed spec fn taints_spec(&self) -> Seq<TaintView> {
        self.taints@
    }

    /// The frames that enclose the point where the analyzer stands.
    pub closed spec fn context_spec(&self) -> Seq<ContextView> {
        self.context@
    }

    /// The files under analysis.
    pub closed spec fn files_spec(&self) -> Seq<&'a File> {
        self.files@
    }

    /// The callables that calls resolve to, each under its name.
    pub closed spec fn resolved_spec(&self) -> Seq<(Seq<char>, Resolved<'a>)> {
        named(self.resolved@)
    }

    /// The flow graph as far as it has been built.
    pub closed spec fn graph_spec(&self) -> GraphView<'a> {
        self.graph@
    }

    /// The names of the functions that register callbacks.
    pub closed spec fn hooks_spec(&self) -> Seq<String> {
        self.hooks@
    }

    /// What the analysis changes as it goes.
    pub open spec fn world(&self) -> World<'a> {
        World {
            taints: self.taints_spec(),
            context: self.context_spec(),
            graph: self.graph_spec(),
        }
    }

    /// What the analysis goes by and leaves as it is.
    pub open spec fn env(&self) -> Env<'a> {
        Env { resolved: self.resolved_spec(), hooks: text_set(self.hooks_spec()) }
    }

    /// The number of callables that are not being analyzed: what bounds
    /// the depth of calls that the analyzer follows.
    pub open spec fn idle(&self) -> nat {
        idle(self.env(), self.context_spec())
    }

    /// What an analysis goes by stays as it is: the files, the callables
    /// and the hooks.
    pub open spec fn kept(&self, before: &Analyzer<'a>) -> bool {
        &&& self.files_spec() == before.files_spec()
        &&& self.hooks_spec() == before.hooks_spec()
        &&& self.env() == before.env()
    }

    /// What every step of an analysis leaves as it is: the files, the
    /// callables, the hooks, and the context stack.
    pub open spec fn settled(&self, before: &Analyzer<'a>) -> bool {
        &&& self.kept(before)
        &&& self.context_spec() == before.context_spec()
    }

    /// An analyzer of `files` that knows the sources of `ruleset` as
    /// taints.
    #[verifier::loop_isolation(false)]
    pub fn new(files: Vec<&'a File>, ruleset: &Rules) -> (a: Analyzer<'a>)
        ensures
            a.files_spec() == files@,
            a.world() == fresh_world(ruleset.merged_sources()),
            a.resolved_spec() == Seq::<(Seq<char>, Resolved<'a>)>::empty(),
            a.env().hooks == ruleset.hook_names(),
    {
        let mut taints = TaintList::new();
        let sources = ruleset.sources();
        let ghost names = texts(sources@);
        let mut i: usize = 0;
        assert(seeds(names.take(0)) =~= Seq::<TaintView>::empty());
        while i < sources.len()
            invariant
                i <= sources.len(),
                taints@ == seeds(names.take(i as int)),
            decreases sources.len() - i,
        {
            let taint = Taint::new_source(sources[i].clone());
            proof {
                let before = seeds(names.take(i as int));
                if before.contains(taint@) {
                    let k = choose|k: int| 0 <= k < before.len() && before[k] == taint@;
                    assert(names[k] == names[i as int]);
                }
                assert(seeds(names.take(i + 1)) =~= before.push(taint@));
            }
            taints.push(taint);
            i += 1;
        }
        assert(names.take(i as int) =~= names);
        let mut hooks: Vec<String> = Vec::new();
        let mut k: usize = 0;
        let listed = ruleset.hooks();
        while k < listed.len()
            invariant
                k <= listed.len(),
                hooks@.len() == k,
                forall|i: int| 0 <= i < k ==> (#[trigger] hooks@[i])@ == listed@[i]@,
            decreases listed.len() - k,
        {
            hooks.push(listed[k].clone());
            k += 1;
        }
        proof {
            assert forall|t: Seq<char>| text_set(hooks@).contains(t) <==> text_set(listed@).contains(
                t,
            ) by {
                if text_set(hooks@).contains(t) {
                    let i = choose|i: int| 0 <= i < hooks@.len() && (#[trigger] hooks@[i])@ == t;
                    assert(listed@[i]@ == t);
                }
                if text_set(listed@).contains(t) {
                    let i = choose|i: int| 0 <= i < listed@.len() && (#[trigger] listed@[i])@ == t;
                    assert(hooks@[i]@ == t);
                }
            }
            assert(text_set(hooks@) =~= text_set(listed@));
            assert(named(Seq::<(String, Resolved<'a>)>::empty()) =~= Seq::<
                (Seq<char>, Resolved<'a>),
            >::empty());
        }
        Analyzer {
            files,
            taints,
            context: ContextStack::new(),
            resolved: Vec::new(),
            graph: Graph::new(),
            hooks,
        }
    }

    /// The callable that a call by `name` resolves to, if any.
    pub fn resolve(&self, name: &str) -> (found: Option<Resolved<'a>>)
        ensures
            found is Some <==> name_index(self.resolved_spec(), name@) is Some,
            found is Some ==> found->0 == self.resolved_spec()[name_index(
                self.resolved_spec(),
                name@,
            )->0].1,
    {
        match find_key(&self.resolved, name) {
            Some(i) => Some(self.resolved[i].1),
            None => None,
        }
    }

    /// Records `callable` under `name`, in the place of what was under that
    /// name before.
    fn bind(&mut self, name: String, callable: Resolved<'a>)
        ensures
            final(self).files_spec() == old(self).files_spec(),
            final(self).hooks_spec() == old(self).hooks_spec(),
            final(self).world() == old(self).world(),
            final(self).resolved_spec() == bound(old(self).resolved_spec(), name@, callable),
    {
        match find_key(&self.resolved, name.as_str()) {
            Some(i) => {
                self.resolved.set(i, (name, callable));
                assert(named(self.resolved@) =~= named(old(self).resolved@).update(
                    i as int,
                    (name@, callable),
                ));
            },
            None => {
                self.resolved.push((name, callable));
                assert(named(self.resolved@) =~= named(old(self).resolved@).push((name@, callable)));
            },
        }
    }

    /// Finds the callables of the files: each function and method
    /// declaration that has a name, under that name, and the program node
    /// of each file under the name `ROOT`. Of two under one name the later
    /// stays.
    #[verifier::loop_isolation(false)]
    fn resolve_files(&mut self)
        ensures
            final(self).files_spec() == old(self).files_spec(),
            final(self).hooks_spec() == old(self).hooks_spec(),
            final(self).world() == old(self).world(),
            final(self).resolved_spec() == resolve_from(
                old(self).resolved_spec(),
                old(self).files_spec(),
                0,
            ),
    {
        let ghost goal = resolve_from(self.resolved_spec(), self.files_spec(), 0);
        let mut f: usize = 0;
        while f < self.files.len()
            invariant
                f <= self.files.len(),
                self.files_spec() == old(self).files_spec(),
                self.hooks_spec() == old(self).hooks_spec(),
                self.world() == old(self).world(),
                resolve_from(self.resolved_spec(), self.files_spec(), f as nat) == goal,
            decreases self.files.len() - f,
        {
            let file = self.files[f];
            let root = Cursor::from_file(file);
            let n = file.tree().len();
            proof {
                Cursor::lemma_root(file, root);
            }
            let ghost inner = resolve_nodes(self.resolved_spec(), root, 0, n as int);
            let mut j: usize = 0;
            while j < n
                invariant
                    j <= n,
                    n == file.nodes().len(),
                    f < self.files.len(),
                    self.files_spec() == old(self).files_spec(),
                    self.hooks_spec() == old(self).hooks_spec(),
                    self.world() == old(self).world(),
                    resolve_nodes(self.resolved_spec(), root, j as int, n as int) == inner,
                decreases n - j,
            {
                let cur = Cursor::new(file, j).unwrap();
                proof {
                    root.lemma_jump(cur, j as int);
                }
                if cur.is_named() {
                    let kind = cur.kind();
                    if same_text(kind, "function_definition") || same_text(kind, "method_declaration") {
                        match cur.name() {
                            Some(name) => {
                                self.bind(name, Resolved::new_function(cur));
                            },
                            None => {},
                        }
                    } else if same_text(kind, "program") {
                        self.bind(String::from_str("ROOT"), Resolved::new_root(cur));
                    }
                }
                j += 1;
            }
            f += 1;
        }
    }

    /// The taint that a read of the variable under `cursor` carries.
    pub fn get_taint(&self, cursor: Cursor<'a>) -> (taint: Option<Taint>)
        ensures
            taint is Some <==> read_taint(self.taints_spec(), cursor) is Some,
            taint is Some ==> taint->0@ == read_taint(self.taints_spec(), cursor)->0,
    {
        if !same_text(cursor.kind(), "variable_name") {
            return None;
        }
        if is_text(cursor.field(), "left") {
            let mut parent = cursor;
            if parent.goto_parent() && same_text(parent.kind(), "assignment_expression") {
                return None;
            }
        }
        if is_text(cursor.field(), "object") {
            return None;
        }
        match cursor.name() {
            Some(name) => {
                let template = Taint::new_source(name);
                match self.taints.get(&template) {
                    Some(taint) => {
                        let here = Scope::new(cursor);
                        if here.contains(&taint.scope) {
                            Some(taint)
                        } else {
                            None
                        }
                    },
                    None => None,
                }
            },
            None => None,
        }
    }

    /// Makes `assign` a taint and records at `cursor` a vertex that assigns
    /// it, reached by the segment `path` from the taint `source`.
    pub fn push_taint(&mut self, cursor: Cursor<'a>, source: Taint, assign: Taint, path: Vec<Cursor<'a>>)
        ensures
            final(self).settled(old(self)),
            final(self).world() == assigned(old(self).world(), cursor, source@, assign@, path@),
    {
        self.taints.push(assign.clone());
        let item = PathItem::new(source, path);
        let vertex = Vertex::new(Some(assign), self.context.clone());
        self.graph.push(item, cursor, vertex);
    }

    /// Ends a trace: records at the last node of `path`, if it has one, a
    /// vertex that assigns nothing, reached by `path` from the taint
    /// `source`.
    fn push_terminal(&mut self, source: Taint, path: Vec<Cursor<'a>>) -> (passed: bool)
        ensures
            !passed,
            final(self).settled(old(self)),
            final(self).world() == ended(old(self).world(), source@, path@),
    {
        if path.len() > 0 {
            let last = path[path.len() - 1];
            let item = PathItem::new(source, path);
            let vertex = Vertex::new(None, self.context.clone());
            self.graph.push(item, last, vertex);
        }
        false
    }

    /// Follows the taint `source` from the read under `cursor` upward to
    /// the construct that passes it on, and returns whether that is a
    /// return statement.
    ///
    /// The walk ends at a condition, at an expression statement, at a
    /// return statement or a named assignment, which get a vertex that
    /// assigns the taint they pass on, and at a call that resolves, which
    /// is followed into the callee. Calls that do not resolve, the types of
    /// casts and echo statements on the way make up the segment; a cast
    /// without a type adds nothing to it. Where the walk ends without a
    /// return or an assignment, the last node of the segment gets a vertex
    /// that assigns nothing.
    #[verifier::loop_isolation(false)]
    fn trace(&mut self, cursor: Cursor<'a>, source: Taint) -> (passed: bool)
        ensures
            final(self).settled(old(self)),
            final(self).context_spec() == old(self).context_spec(),
            (final(self).world(), passed) == trace_spec(old(self).env(), old(self).world(), cursor, source@),
        decreases old(self).idle(), 0nat, 3 * cursor.index(), 0nat,
    {
        let mut path: Vec<Cursor<'a>> = Vec::new();
        let mut index: usize = 0;
        let mut tracer = Trace::new(cursor);
        let mut here = cursor;
        let ghost env = self.env();
        let ghost goal = trace_spec(env, self.world(), cursor, source@);
        loop
            invariant
                self.settled(old(self)),
                tracer.position() == here,
                here.file() == cursor.file(),
                here.index() <= cursor.index(),
                trace_from(env, self.world(), cursor, here.index(), path@, index as nat, source@)
                    == goal,
            decreases here.index(),
        {
            proof {
                use_type_invariant(here);
                assert(node_ok(cursor.file().nodes(), here.index()));
            }
            let cur = match tracer.next() {
                Some(cur) => cur,
                None => {
                    return self.push_terminal(source, path);
                },
            };
            proof {
                cursor.lemma_jump(cur, cur.index());
            }
            if is_text(cur.field(), "condition") {
                return self.push_terminal(source, path);
            }
            let kind = cur.kind();
            if same_text(kind, "return_statement") {
                path.push(cur);
                self.push_taint(cur, source, Taint::new_return(cur), path);
                return true;
            } else if same_text(kind, "assignment_expression") {
                if cur.name().is_some() {
                    path.push(cur);
                    self.push_taint(cur, source, Taint::new_variable(cur), path);
                    return false;
                }
            } else if same_text(kind, "cast_expression") {
                let mut type_node = cur;
                if type_node.goto_field("type") {
                    proof {
                        cursor.lemma_jump(type_node, type_node.index());
                    }
                    path.push(type_node);
                }
            } else if is_call_kind(kind) {
                path.push(cur);
                proof {
                    lemma_deeper(
                        frames_of(env.resolved),
                        old(self).context_spec(),
                        self.context_spec(),
                    );
                }
                if !self.call(cur, Some(index), Some(source.clone()), Some(copy_cursors(&path))) {
                    return self.push_terminal(source, path);
                }
            } else if same_text(kind, "echo_statement") {
                path.push(cur);
            } else if same_text(kind, "argument") {
                index = cur.get_index();
            } else if same_text(kind, "expression_statement") {
                return self.push_terminal(source, path);
            }
            here = cur;
        }
    }

    /// Follows the call under `cursor` into the callable it resolves to,
    /// and returns whether it resolves to none, so that a trace goes on
    /// past the call.
    ///
    /// With `index`, `source` and `path`, the taint `source` is bound to
    /// the parameter at `index` of the callable, its body is analyzed, what
    /// belongs to the scope of the parameter is cleared, and the taints
    /// that the body returned are followed on from the call. Without them
    /// the body is analyzed as it is. The frame of the callable is on the
    /// context stack while its body is analyzed, and off it afterwards. A
    /// callable that is being analyzed already is not entered again, and
    /// nothing changes.
    #[verifier::loop_isolation(false)]
    fn call(
        &mut self,
        cursor: Cursor<'a>,
        index: Option<usize>,
        source: Option<Taint>,
        path: Option<Vec<Cursor<'a>>>,
    ) -> (transparent: bool)
        ensures
            final(self).settled(old(self)),
            (final(self).world(), transparent) == call_spec(
                old(self).env(),
                old(self).world(),
                cursor,
                binding_of(index, source, path),
            ),
            final(self).context_spec() == old(self).context_spec(),
            transparent == (name_index(old(self).resolved_spec(), callee_name(cursor)) is None),
        decreases
            old(self).idle(),
            (if binding_of(index, source, path) is Some {
                0nat
            } else {
                1nat
            }),
            (if binding_of(index, source, path) is Some {
                3 * cursor.index() + 2
            } else {
                0
            }),
            0nat,
    {
        let ghost env = self.env();
        let ghost before = self.world();
        let ghost binding = binding_of(index, source, path);
        let name = match cursor.name() {
            Some(name) => name,
            None => strip_quotes(cursor.to_str()),
        };
        let found = find_key(&self.resolved, name.as_str());
        let callable = match found {
            Some(i) => self.resolved[i].1,
            None => {
                return true;
            },
        };
        let ghost slot = found->0 as int;
        let frame = Context::new(callable.cursor().kind().to_owned(), callable.name());
        let mut body = callable.cursor();
        if body.goto_field("body") {
            proof {
                callable.cursor_spec().lemma_jump(body, body.index());
            }
        }
        proof {
            use_type_invariant(cursor);
            use_type_invariant(body);
            lemma_key_index(self.resolved@, name@);
            assert(named(self.resolved@)[slot].1 == callable);
            assert(frames_of(env.resolved)[slot] == frame@);
            if !before.context.contains(frame@) {
                lemma_entered(frames_of(env.resolved), before.context, frame@);
            }
            assert(node_ok(body.file().nodes(), body.index()));
            assert(before.context.push(frame@).drop_last() =~= before.context);
        }
        match (index, source, path) {
            (Some(at), Some(taint), Some(segment)) => {
                let params = callable.parameters();
                if at < params.len() {
                    let param = params[at];
                    proof {
                        callable.cursor_spec().lemma_jump(param, param.index());
                    }
                    if param.name().is_some() {
                        if self.context.push(frame) {
                            self.push_taint(param, taint, Taint::new_param(param), segment);
                            let returned = self.traverse(body);
                            self.context.pop();
                            let scope = Scope::new(param);
                            self.taints.clear_scope(&scope);
                            self.graph.clear_scope(&scope);
                            if returned {
                                let pending = self.taints.return_taints();
                                let ghost views = pending@.map_values(|t: Taint| t@);
                                let ghost goal = returns_from(env, self.world(), cursor, views, 0);
                                let mut i: usize = 0;
                                while i < pending.len()
                                    invariant
                                        i <= pending.len(),
                                        self.settled(old(self)),
                                        returns_from(env, self.world(), cursor, views, i as nat) == goal,
                                    decreases pending.len() - i,
                                {
                                    self.trace(cursor, pending[i].clone());
                                    i += 1;
                                }
                            }
                            self.taints.clear_returns();
                            self.graph.clear_returns();
                        }
                    }
                }
            },
            _ => {
                if self.context.push(frame) {
                    self.traverse(body);
                    self.context.pop();
                }
            },
        }
        false
    }

    /// Follows the callbacks that the call under `cursor` registers: each
    /// argument of more than two bytes is taken for the name of a callable.
    #[verifier::loop_isolation(false)]
    fn handle_hook(&mut self, cursor: Cursor<'a>)
        ensures
            final(self).settled(old(self)),
            final(self).context_spec() == old(self).context_spec(),
            final(self).world() == hook_spec(old(self).env(), old(self).world(), cursor),
        decreases old(self).idle(), 2nat, 0int, 0nat,
    {
        let ghost env = self.env();
        let mut arguments = cursor;
        if arguments.goto_field("arguments") {
            proof {
                cursor.lemma_jump(arguments, arguments.index());
            }
        }
        let stop = arguments.stop();
        let mut j = arguments.raw_cursor();
        let ghost goal = hook_spec(env, self.world(), cursor);
        while j < stop
            invariant
                self.settled(old(self)),
                stop <= arguments.file().nodes().len(),
                hook_from(env, self.world(), arguments, j as int, stop as int) == goal,
            decreases stop - j,
        {
            let cur = Cursor::new(arguments.file_ref(), j).unwrap();
            proof {
                arguments.lemma_jump(cur, j as int);
            }
            if cur.is_named() && same_text(cur.kind(), "argument") && cur.to_str().as_bytes().len() > 2 {
                self.call(cur, None, None, None);
            }
            j += 1;
        }
    }

    /// Analyzes the block under `cursor`, without the function and method
    /// declarations in it, and returns whether a return statement in it
    /// passes a taint on.
    ///
    /// Each read of a tainted variable is traced, each call is followed
    /// into the callable it resolves to, and each call of a hook into the
    /// callbacks it registers. A conditional puts its frame on the context
    /// stack while the block is inside it, unless the frame of a
    /// conditional is there already; the conditional that put it there
    /// takes it off when it is left.
    #[verifier::loop_isolation(false)]
    fn traverse(&mut self, cursor: Cursor<'a>) -> (passed: bool)
        ensures
            final(self).settled(old(self)),
            final(self).context_spec() == old(self).context_spec(),
            (final(self).world(), passed) == block_spec(old(self).env(), old(self).world(), cursor),
        decreases old(self).idle(), 3nat, cursor.file().nodes().len() + 1, 2nat,
    {
        let mut passed = false;
        let mut held: Option<usize> = None;
        let mut traversal = cursor.traverse_block();
        let ghost env = self.env();
        let ghost base = self.context_spec();
        let ghost goal = block_spec(env, self.world(), cursor);
        let ghost nodes = cursor.file().nodes();
        proof {
            use_type_invariant(cursor);
            use_type_invariant(&traversal);
            lemma_kinds_differ();
            assert(base.push(if_frame()).drop_last() =~= base);
            assert(base.push(if_frame())[base.len() as int] == if_frame());
        }
        loop
            invariant
                self.kept(old(self)),
                traversal.file() == cursor.file(),
                traversal.start() == cursor,
                traversal.bounds() == block_bounds(),
                !traversal.concrete(),
                self.context_spec() == context_in(base, held_of(held)),
                held is Some ==> traversal.pending().contains(held->0 as int) && nodes[held->0 as int].kind@
                    == "if_statement"@,
                block_from(env, base, self.world(), cursor, traversal.step(), held_of(held), passed)
                    == goal,
            decreases traversal.rank_major(), traversal.rank_minor(),
        {
            let ghost pending = traversal.pending();
            proof {
                use_type_invariant(&traversal);
                lemma_deeper(frames_of(env.resolved), base, self.context_spec());
            }
            let motion = match traversal.next() {
                Some(motion) => motion,
                None => {
                    proof {
                        if held is Some {
                            assert(pending.contains(held->0 as int));
                        }
                    }
                    return passed;
                },
            };
            proof {
                use_type_invariant(&traversal);
            }
            match motion {
                Order::Enter(cur) => {
                    proof {
                        if held is Some {
                            let k = choose|k: int| 0 <= k < pending.len() && pending[k] == held->0 as int;
                            assert(traversal.pending()[k] == held->0 as int);
                        }
                        assert(traversal.pending()[pending.len() as int] == cur.index());
                    }
                    if same_text(cur.kind(), "if_statement") {
                        let frame = Context::new(
                            String::from_str("if_statement"),
                            String::from_str("if_statement"),
                        );
                        if self.context.push(frame) {
                            held = Some(cur.raw_cursor());
                        }
                    }
                },
                Order::Leave(cur) => {
                    proof {
                        cursor.lemma_jump(cur, cur.index());
                        if held is Some && held->0 as int != cur.index() {
                            let k = choose|k: int| 0 <= k < pending.len() && pending[k] == held->0 as int;
                            assert(traversal.pending()[k] == held->0 as int);
                        }
                    }
                    let kind = cur.kind();
                    if same_text(kind, "variable_name") {
                        match self.get_taint(cur) {
                            Some(taint) => {
                                if self.trace(cur, taint) {
                                    passed = true;
                                }
                            },
                            None => {},
                        }
                    } else if is_call_kind(kind) {
                        match cur.name() {
                            Some(name) => {
                                self.call(cur, None, None, None);
                                if contains_text(&self.hooks, name.as_str()) {
                                    self.handle_hook(cur);
                                }
                            },
                            None => {},
                        }
                    } else if same_text(kind, "if_statement") {
                        if held == Some(cur.raw_cursor()) {
                            self.context.pop();
                            held = None;
                        }
                    }
                },
            }
        }
    }

    /// Analyzes the files and returns the flow graph.
    ///
    /// The callables of the files are found first; then each file is
    /// analyzed from its root, in the order of the files. The context stack
    /// is afterwards as it was before, and no frame is on it twice. In the
    /// graph every parent of a vertex and every leaf of a taint is a
    /// vertex, if it was so before.
    pub fn graph(&mut self) -> (graph: &Graph<'a>)
        ensures
            final(self).files_spec() == old(self).files_spec(),
            final(self).hooks_spec() == old(self).hooks_spec(),
            graph@ == final(self).graph_spec(),
            final(self).resolved_spec() == resolve_from(
                old(self).resolved_spec(),
                old(self).files_spec(),
                0,
            ),
            final(self).world() == files_from(
                final(self).env(),
                old(self).world(),
                old(self).files_spec(),
                0,
            ),
            final(self).env().hooks == old(self).env().hooks,
            final(self).context_spec() == old(self).context_spec(),
            final(self).context_spec().no_duplicates(),
            graph_closed(old(self).graph_spec()) ==> graph_closed(final(self).graph_spec()),
    {
        self.resolve_files();
        let ghost env = self.env();
        let ghost goal = files_from(env, self.world(), self.files_spec(), 0);
        proof {
            lemma_files_keep(env, self.world(), self.files_spec(), 0);
        }
        let mut f: usize = 0;
        while f < self.files.len()
            invariant
                f <= self.files.len(),
                self.files_spec() == old(self).files_spec(),
                self.hooks_spec() == old(self).hooks_spec(),
                self.context_spec() == old(self).context_spec(),
                self.env() == env,
                files_from(env, self.world(), self.files_spec(), f as nat) == goal,
            decreases self.files.len() - f,
        {
            let file = self.files[f];
            let root = Cursor::from_file(file);
            proof {
                Cursor::lemma_root(file, root);
            }
            self.traverse(root);
            f += 1;
        }
        proof {
            use_type_invariant(&self.context);
        }
        &self.graph
    }
}

/// The conditional that holds the frame on the context stack, by index.
pub open spec fn held_of(held: Option<usize>) -> Option<int> {
    match held {
        Some(h) => Some(h as int),
        None => None,
    }
}

/// A conditional is neither a variable nor a call.
proof fn lemma_kinds_differ()
    ensures
        "if_statement"@ != "variable_name"@,
        !is_call("if_statement"@),
{
    reveal_strlit("if_statement");
    reveal_strlit("variable_name");
    reveal_strlit("function_call_expression");
    reveal_strlit("member_call_expression");
    reveal_strlit("scoped_call_expression");
    assert("if_statement"@.len() == 12);
    assert("variable_name"@.len() == 13);
    assert("function_call_expression"@.len() == 24);
    assert("member_call_expression"@.len() == 22);
    assert("scoped_call_expression"@.len() == 22);
}

/// The graph that an analyzer builds which was made of `files` and `rules`
/// and then analyzed them is the analysis of the files under the rules.
pub proof fn lemma_first_run<'a>(made: Analyzer<'a>, done: Analyzer<'a>, rules: &Rules, files: Seq<&'a File>)
    requires
        made.files_spec() == files,
        made.world() == fresh_world(rules.merged_sources()),
        made.resolved_spec() == Seq::<(Seq<char>, Resolved<'a>)>::empty(),
        made.env().hooks == rules.hook_names(),
        done.resolved_spec() == resolve_from(made.resolved_spec(), files, 0),
        done.world() == files_from(done.env(), made.world(), files, 0),
        done.env().hooks == made.env().hooks,
    ensures
        done.graph_spec() == analysis(rules, files),
{
    assert(done.env() == Env {
        resolved: resolve_from(Seq::empty(), files, 0),
        hooks: rules.hook_names(),
    });
}

/// What a call is given to bind, if it is given all of it: the position of
/// the argument, the taint and the segment.
pub open spec fn binding_of<'a>(
    index: Option<usize>,
    source: Option<Taint>,
    path: Option<Vec<Cursor<'a>>>,
) -> Option<(nat, TaintView, Seq<Cursor<'a>>)> {
    if index is Some && source is Some && path is Some {
        Some((index->0 as nat, source->0@, path->0@))
    } else {
        None
    }
}

} // verus!
