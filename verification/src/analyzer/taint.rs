//! Taints, the scopes they live in, and the stack of enclosing contexts.
use vstd::prelude::*;
use vstd::string::*;
use vstd::std_specs::cmp::PartialEqSpecImpl;
use crate::text::same_text;
use crate::seqs::{lemma_filter_step, lemma_filter_no_duplicates, lemma_filter_members};
use crate::tree::cursor::Cursor;
use crate::tree::file::Node;

verus! {

broadcast use {vstd::seq_lib::group_filter_ensures, vstd::seq_lib::group_seq_properties};

/// What optional text holds.
pub open spec fn opt_text(o: Option<String>) -> Option<Seq<char>> {
    match o {
        Some(s) => Some(s@),
        None => None,
    }
}

fn same_opt(a: &Option<String>, b: &Option<String>) -> (same: bool)
    ensures
        same == (opt_text(*a) == opt_text(*b)),
{
    match (a, b) {
        (Some(x), Some(y)) => same_text(x.as_str(), y.as_str()),
        (None, None) => true,
        _ => false,
    }
}

fn copy_opt(a: &Option<String>) -> (b: Option<String>)
    ensures
        b == *a,
{
    match a {
        Some(x) => Some(x.clone()),
        None => None,
    }
}

/// The provenance of a taint.
#[derive(Clone, Copy, Debug, Hash, PartialEq, Eq, Structural)]
pub enum TaintKind {
    Source,
    Global,
    Variable,
    Param,
    Return,
}

/// What a scope holds.
pub struct ScopeView {
    pub filename: Option<Seq<char>>,
    pub function: Option<Seq<char>>,
    pub class: Option<Seq<char>>,
}

/// Where a name is visible: a file, a class and a function, each of which
/// may be absent. The global scope has none of them.
#[derive(Debug, Hash)]
pub struct Scope {
    pub filename: Option<String>,
    pub function: Option<String>,
    pub class: Option<String>,
}

impl View for Scope {
    type V = ScopeView;

    open spec fn view(&self) -> ScopeView {
        ScopeView {
            filename: opt_text(self.filename),
            function: opt_text(self.function),
            class: opt_text(self.class),
        }
    }
}

impl Clone for Scope {
    fn clone(&self) -> (s: Self)
        ensures
            s == *self,
    {
        Scope {
            filename: copy_opt(&self.filename),
            function: copy_opt(&self.function),
            class: copy_opt(&self.class),
        }
    }
}

impl PartialEq for Scope {
    fn eq(&self, other: &Self) -> (same: bool) {
        self.same(other)
    }
}

impl PartialEqSpecImpl for Scope {
    open spec fn obeys_eq_spec() -> bool {
        true
    }

    open spec fn eq_spec(&self, other: &Self) -> bool {
        self@ == other@
    }
}

impl Eq for Scope {

}

/// Whether a node of kind `kind` declares a function or a method.
pub open spec fn declares_callable(kind: Seq<char>) -> bool {
    kind == "method_declaration"@ || kind == "function_definition"@
}

/// The outermost function or method declaration among the proper ancestors
/// of node `i`, or `found` if there is none.
pub open spec fn outermost_callable(nodes: Seq<Node>, i: int, found: Option<int>) -> Option<int>
    decreases i,
{
    if 0 < i < nodes.len() && nodes[i].parent < i {
        let p = nodes[i].parent as int;
        outermost_callable(
            nodes,
            p,
            if declares_callable(nodes[p].kind@) {
                Some(p)
            } else {
                found
            },
        )
    } else {
        found
    }
}

/// The scope of the node under `cursor`: its file, and the name of the
/// outermost function or method declaration around it.
pub open spec fn scope_of(cursor: Cursor) -> ScopeView {
    ScopeView {
        filename: Some(cursor.file().name_spec()),
        function: match outermost_callable(cursor.file().nodes(), cursor.index(), None) {
            Some(f) => match crate::tree::cursor::name_node(cursor.file().nodes(), f) {
                Some(n) => Some(cursor.file().node_text(n)),
                None => None,
            },
            None => None,
        },
        class: None,
    }
}

/// The global scope.
pub open spec fn global_scope() -> ScopeView {
    ScopeView { filename: None, function: None, class: None }
}

/// Whether a name of scope `inner` is visible from scope `outer`: each part
/// that `inner` has is the same in `outer`.
pub open spec fn scope_contains(outer: ScopeView, inner: ScopeView) -> bool {
    &&& inner.filename is Some ==> outer.filename == inner.filename
    &&& inner.class is Some ==> outer.class == inner.class
    &&& inner.function is Some ==> outer.function == inner.function
}

impl Scope {
    /// The scope of the node under `cursor`.
    #[verifier::loop_isolation(false)]
    pub fn new(cursor: Cursor) -> (s: Scope)
        ensures
            s@ == scope_of(cursor),
    {
        let mut function: Option<String> = None;
        let mut at = cursor;
        let ghost nodes = cursor.file().nodes();
        let ghost mut found: Option<int> = None;
        loop
            invariant
                at.file() == cursor.file(),
                outermost_callable(nodes, at.index(), found) == outermost_callable(
                    nodes,
                    cursor.index(),
                    None,
                ),
                opt_text(function) == (match found {
                    Some(f) => match crate::tree::cursor::name_node(nodes, f) {
                        Some(n) => Some(cursor.file().node_text(n)),
                        None => None,
                    },
                    None => None,
                }),
            decreases at.index(),
        {
            proof {
                use_type_invariant(at);
                assert(crate::tree::file::node_ok(nodes, at.index()));
            }
            if !at.goto_parent() {
                break;
            }
            if same_text(at.kind(), "method_declaration") || same_text(
                at.kind(),
                "function_definition",
            ) {
                function = at.name();
                proof {
                    found = Some(at.index());
                }
            }
        }
        Scope { filename: Some(cursor.filename()), function, class: None }
    }

    /// The global scope: no file, no class, no function.
    pub fn new_global() -> (s: Scope)
        ensures
            s@ == global_scope(),
    {
        Scope { filename: None, function: None, class: None }
    }

    /// Whether the two scopes are the same.
    pub fn same(&self, other: &Scope) -> (same: bool)
        ensures
            same == (self@ == other@),
    {
        same_opt(&self.filename, &other.filename) && same_opt(&self.function, &other.function)
            && same_opt(&self.class, &other.class)
    }

    /// Whether a name of scope `other` is visible from this scope.
    pub fn contains(&self, other: &Scope) -> (inside: bool)
        ensures
            inside == scope_contains(self@, other@),
    {
        (other.filename.is_none() || same_opt(&self.filename, &other.filename)) && (
        other.class.is_none() || same_opt(&self.class, &other.class)) && (other.function.is_none()
            || same_opt(&self.function, &other.function))
    }
}

/// What a taint holds.
pub struct TaintView {
    pub kind: TaintKind,
    pub name: Seq<char>,
    pub scope: ScopeView,
}

/// A record of untrusted data: where it comes from, the name it goes by and
/// the scope in which that name is visible.
#[derive(Debug, Hash)]
pub struct Taint {
    pub kind: TaintKind,
    pub name: String,
    pub scope: Scope,
}

impl View for Taint {
    type V = TaintView;

    open spec fn view(&self) -> TaintView {
        TaintView { kind: self.kind, name: self.name@, scope: self.scope@ }
    }
}

impl Clone for Taint {
    fn clone(&self) -> (t: Self)
        ensures
            t == *self,
    {
        Taint { kind: self.kind, name: self.name.clone(), scope: self.scope.clone() }
    }
}

impl PartialEq for Taint {
    fn eq(&self, other: &Self) -> (same: bool) {
        self.same(other)
    }
}

impl PartialEqSpecImpl for Taint {
    open spec fn obeys_eq_spec() -> bool {
        true
    }

    open spec fn eq_spec(&self, other: &Self) -> bool {
        self@ == other@
    }
}

impl Eq for Taint {

}

/// The name of the return taint of the function `function`.
pub open spec fn return_name(function: Option<Seq<char>>) -> Seq<char> {
    "return "@ + (match function {
        Some(f) => f,
        None => Seq::<char>::empty(),
    })
}

impl Taint {
    /// The taint of kind `kind` that the node under `cursor` introduces; a
    /// return is recorded under the name of the variable instead.
    pub fn new(cursor: Cursor, kind: TaintKind) -> (t: Taint)
        requires
            cursor.name_spec() is Some,
        ensures
            t@ == (TaintView {
                kind: if kind == TaintKind::Return {
                    TaintKind::Variable
                } else {
                    kind
                },
                name: cursor.name_spec()->0,
                scope: scope_of(cursor),
            }),
    {
        match kind {
            TaintKind::Return => Taint::new_variable(cursor),
            _ => Taint { kind, name: Taint::name_of(cursor), scope: Scope::new(cursor) },
        }
    }

    fn name_of(cursor: Cursor) -> (name: String)
        requires
            cursor.name_spec() is Some,
        ensures
            name@ == cursor.name_spec()->0,
    {
        match cursor.name() {
            Some(name) => name,
            None => String::new(),
        }
    }

    /// The taint that a return statement or an assignment under `cursor`
    /// passes on; an error for any other kind of node, and for an
    /// assignment that names no variable.
    pub fn from_trace(cursor: Cursor) -> (r: Result<Taint, &'static str>)
        ensures
            r is Ok <==> cursor.node().kind@ == "return_statement"@ || (cursor.node().kind@
                == "assignment_expression"@ && cursor.name_spec() is Some),
            cursor.node().kind@ == "return_statement"@ ==> r is Ok && r->Ok_0@ == (TaintView {
                kind: TaintKind::Return,
                name: return_name(scope_of(cursor).function),
                scope: global_scope(),
            }),
            cursor.node().kind@ != "return_statement"@ && r is Ok ==> r->Ok_0@ == (TaintView {
                kind: TaintKind::Variable,
                name: cursor.name_spec()->0,
                scope: scope_of(cursor),
            }),
    {
        if same_text(cursor.kind(), "return_statement") {
            Ok(Taint::new_return(cursor))
        } else if same_text(cursor.kind(), "assignment_expression") {
            match cursor.name() {
                Some(_) => Ok(Taint::new_variable(cursor)),
                None => Err("not a valid trace taint"),
            }
        } else {
            Err("not a valid trace taint")
        }
    }

    /// The taint of the variable that the node under `cursor` names, in the
    /// scope of that node.
    pub fn new_variable(cursor: Cursor) -> (t: Taint)
        requires
            cursor.name_spec() is Some,
        ensures
            t@ == (TaintView {
                kind: TaintKind::Variable,
                name: cursor.name_spec()->0,
                scope: scope_of(cursor),
            }),
    {
        Taint { kind: TaintKind::Variable, name: Taint::name_of(cursor), scope: Scope::new(cursor) }
    }

    /// The taint of the source `name`, in the global scope.
    pub fn new_source(name: String) -> (t: Taint)
        ensures
            t@ == (TaintView { kind: TaintKind::Source, name: name@, scope: global_scope() }),
    {
        Taint { kind: TaintKind::Source, name, scope: Scope::new_global() }
    }

    /// The taint of what the function around `cursor` returns, in the global
    /// scope.
    pub fn new_return(cursor: Cursor) -> (t: Taint)
        ensures
            t@ == (TaintView {
                kind: TaintKind::Return,
                name: return_name(scope_of(cursor).function),
                scope: global_scope(),
            }),
    {
        let scope = Scope::new(cursor);
        let name = match &scope.function {
            Some(f) => String::from_str("return ").concat(f.as_str()),
            None => String::from_str("return "),
        };
        assert("return "@ + Seq::<char>::empty() =~= "return "@);
        Taint { kind: TaintKind::Return, name, scope: Scope::new_global() }
    }

    /// The taint of the parameter that the node under `cursor` names, in the
    /// scope of that node.
    pub fn new_param(cursor: Cursor) -> (t: Taint)
        requires
            cursor.name_spec() is Some,
        ensures
            t@ == (TaintView {
                kind: TaintKind::Param,
                name: cursor.name_spec()->0,
                scope: scope_of(cursor),
            }),
    {
        Taint { kind: TaintKind::Param, name: Taint::name_of(cursor), scope: Scope::new(cursor) }
    }

    /// Whether the two taints are the same.
    pub fn same(&self, other: &Taint) -> (same: bool)
        ensures
            same == (self@ == other@),
    {
        self.kind == other.kind && same_text(self.name.as_str(), other.name.as_str())
            && self.scope.same(&other.scope)
    }
}

impl crate::keyed::Keyed for Taint {
    type K = TaintView;

    open spec fn key_of(&self) -> TaintView {
        self@
    }

    fn same_key(&self, other: &Self) -> (same: bool) {
        self.same(other)
    }

    fn duplicate(&self) -> (copy: Self) {
        self.clone()
    }
}

/// The index of the first taint of `taints` that goes by `name`.
pub open spec fn first_named(taints: Seq<TaintView>, name: Seq<char>) -> Option<int>
    decreases taints.len(),
{
    if taints.len() == 0 {
        None
    } else {
        match first_named(taints.drop_last(), name) {
            Some(i) => Some(i),
            None => if taints.last().name == name {
                Some(taints.len() - 1)
            } else {
                None
            },
        }
    }
}

/// Holds of the taints of the scope `scope`.
pub open spec fn of_scope(scope: ScopeView) -> spec_fn(TaintView) -> bool {
    |t: TaintView| t.scope == scope
}

/// Holds of the taints of other scopes than `scope`.
pub open spec fn not_of_scope(scope: ScopeView) -> spec_fn(TaintView) -> bool {
    |t: TaintView| t.scope != scope
}

/// Holds of the return taints.
pub open spec fn is_return() -> spec_fn(TaintView) -> bool {
    |t: TaintView| t.kind == TaintKind::Return
}

/// Holds of the taints that are no return taints.
pub open spec fn not_return() -> spec_fn(TaintView) -> bool {
    |t: TaintView| t.kind != TaintKind::Return
}

/// The set of taints that the analysis knows of, in the order in which they
/// came to be known.
pub struct TaintList {
    list: Vec<Taint>,
}

impl View for TaintList {
    type V = Seq<TaintView>;

    closed spec fn view(&self) -> Seq<TaintView> {
        self.list@.map_values(|t: Taint| t@)
    }
}

impl TaintList {
    /// Holds of every list: no taint occurs twice.
    #[verifier::type_invariant]
    pub open spec fn inv(self) -> bool {
        self@.no_duplicates()
    }

    /// A list without taints.
    pub fn new() -> (l: TaintList)
        ensures
            l@ == Seq::<TaintView>::empty(),
    {
        let l = TaintList { list: Vec::new() };
        assert(l@ =~= Seq::<TaintView>::empty());
        l
    }

    fn position(&self, taint: &Taint) -> (found: Option<usize>)
        ensures
            found is Some <==> self@.contains(taint@),
            found is Some ==> found->0 < self@.len() && self@[found->0 as int] == taint@,
    {
        let mut i: usize = 0;
        while i < self.list.len()
            invariant
                i <= self.list.len(),
                forall|k: int| 0 <= k < i ==> self@[k] != taint@,
            decreases self.list.len() - i,
        {
            if self.list[i].same(taint) {
                assert(self@[i as int] == taint@);
                return Some(i);
            }
            i += 1;
        }
        None
    }

    /// Adds `taint`, unless the list has it already.
    pub fn push(&mut self, taint: Taint)
        ensures
            final(self)@ == if old(self)@.contains(taint@) {
                old(self)@
            } else {
                old(self)@.push(taint@)
            },
    {
        proof {
            use_type_invariant(&*self);
        }
        if self.position(&taint).is_none() {
            let mut list: Vec<Taint> = Vec::new();
            std::mem::swap(&mut list, &mut self.list);
            list.push(taint);
            proof {
                assert(list@.map_values(|t: Taint| t@) =~= old(self)@.push(taint@));
            }
            self.list = list;
        }
    }

    /// Takes `taint` out of the list, if it is there.
    pub fn remove(&mut self, taint: &Taint)
        ensures
            final(self)@ == old(self)@.filter(|t: TaintView| t != taint@),
    {
        self.retain_where(None, None, Some(taint), Ghost(|t: TaintView| t != taint@));
    }

    /// The first taint that goes by the name of `taint`, whatever its kind
    /// and scope.
    pub fn get(&self, taint: &Taint) -> (found: Option<Taint>)
        ensures
            found is Some <==> first_named(self@, taint@.name) is Some,
            found is Some ==> found->0@ == self@[first_named(self@, taint@.name)->0],
    {
        let mut i: usize = 0;
        while i < self.list.len()
            invariant
                i <= self.list.len(),
                first_named(self@.take(i as int), taint@.name) is None,
            decreases self.list.len() - i,
        {
            proof {
                assert(self@.take(i + 1).drop_last() =~= self@.take(i as int));
            }
            if same_text(self.list[i].name.as_str(), taint.name.as_str()) {
                proof {
                    lemma_first_named_prefix(self@, taint@.name, i + 1);
                }
                return Some(self.list[i].clone());
            }
            i += 1;
        }
        assert(self@.take(i as int) =~= self@);
        None
    }

    /// The return taints of the list, in order.
    pub fn return_taints(&self) -> (found: Vec<Taint>)
        ensures
            found@.map_values(|t: Taint| t@) == self@.filter(is_return()),
    {
        let mut found: Vec<Taint> = Vec::new();
        let mut i: usize = 0;
        let ghost pred = is_return();
        while i < self.list.len()
            invariant
                i <= self.list.len(),
                pred == is_return(),
                found@.map_values(|t: Taint| t@) == self@.take(i as int).filter(pred),
            decreases self.list.len() - i,
        {
            proof {
                lemma_filter_step(self@, i as int, pred);
            }
            if self.list[i].kind == TaintKind::Return {
                let t = self.list[i].clone();
                let ghost before = found@;
                found.push(t);
                proof {
                    assert(found@.map_values(|t: Taint| t@) =~= before.map_values(|t: Taint| t@).push(
                        self@[i as int],
                    ));
                }
            }
            i += 1;
        }
        assert(self@.take(i as int) =~= self@);
        found
    }

    /// Whether the list has a taint that goes by the name of `taint`.
    pub fn contains(&self, taint: &Taint) -> (found: bool)
        ensures
            found == (first_named(self@, taint@.name) is Some),
    {
        self.get(taint).is_some()
    }

    /// Whether `retain_where` keeps the taint `t`.
    pub open spec fn kept(
        t: TaintView,
        scope: Option<ScopeView>,
        kind: Option<TaintKind>,
        taint: Option<TaintView>,
    ) -> bool {
        &&& scope is Some ==> t.scope != scope->0
        &&& kind is Some ==> t.kind != kind->0
        &&& taint is Some ==> t != taint->0
    }

    /// Drops the taints of the scope `scope`, of the kind `kind` and equal
    /// to `taint`, as far as each is given; `pred` says the same of a taint.
    fn retain_where(
        &mut self,
        scope: Option<&Scope>,
        kind: Option<TaintKind>,
        taint: Option<&Taint>,
        Ghost(pred): Ghost<spec_fn(TaintView) -> bool>,
    )
        requires
            forall|t: TaintView|
                #[trigger] pred(t) == TaintList::kept(
                    t,
                    match scope {
                        Some(s) => Some(s@),
                        None => None,
                    },
                    kind,
                    match taint {
                        Some(x) => Some(x@),
                        None => None,
                    },
                ),
        ensures
            final(self)@ == old(self)@.filter(pred),
    {
        proof {
            use_type_invariant(&*self);
        }
        let mut list: Vec<Taint> = Vec::new();
        std::mem::swap(&mut list, &mut self.list);
        let mut out: Vec<Taint> = Vec::new();
        let ghost all = list@.map_values(|t: Taint| t@);
        let mut i: usize = 0;
        while i < list.len()
            invariant
                i <= list.len(),
                all == list@.map_values(|t: Taint| t@),
                forall|t: TaintView|
                    #[trigger] pred(t) == TaintList::kept(
                        t,
                        match scope {
                            Some(s) => Some(s@),
                            None => None,
                        },
                        kind,
                        match taint {
                            Some(x) => Some(x@),
                            None => None,
                        },
                    ),
                out@.map_values(|t: Taint| t@) == all.take(i as int).filter(pred),
            decreases list.len() - i,
        {
            proof {
                lemma_filter_step(all, i as int, pred);
            }
            let t = &list[i];
            let drop_scope = match scope {
                Some(s) => t.scope.same(s),
                None => false,
            };
            let drop_kind = match kind {
                Some(k) => t.kind == k,
                None => false,
            };
            let drop_taint = match taint {
                Some(x) => t.same(x),
                None => false,
            };
            if !(drop_scope || drop_kind || drop_taint) {
                let ghost before = out@;
                out.push(t.clone());
                proof {
                    assert(out@.map_values(|t: Taint| t@) =~= before.map_values(|t: Taint| t@).push(
                        all[i as int],
                    ));
                }
            }
            i += 1;
        }
        proof {
            assert(all.take(i as int) =~= all);
            lemma_filter_no_duplicates(all, pred);
        }
        self.list = out;
    }

    /// Drops every taint of the scope `scope`.
    pub fn clear_scope(&mut self, scope: &Scope)
        ensures
            final(self)@ == old(self)@.filter(not_of_scope(scope@)),
            forall|t: TaintView| final(self)@.contains(t) ==> t.scope != scope@,
    {
        self.retain_where(Some(scope), None, None, Ghost(not_of_scope(scope@)));
        proof {
            lemma_filter_members(old(self)@, not_of_scope(scope@));
        }
    }

    /// Drops every return taint.
    pub fn clear_returns(&mut self)
        ensures
            final(self)@ == old(self)@.filter(not_return()),
            forall|t: TaintView| final(self)@.contains(t) ==> t.kind != TaintKind::Return,
    {
        self.retain_where(None, Some(TaintKind::Return), None, Ghost(not_return()));
        proof {
            lemma_filter_members(old(self)@, not_return());
        }
    }
}

/// The first taint by a name among the first `n` taints of a list is the
/// first by that name in the whole list.
pub proof fn lemma_first_named_prefix(taints: Seq<TaintView>, name: Seq<char>, n: int)
    requires
        0 <= n <= taints.len(),
        first_named(taints.take(n), name) is Some,
    ensures
        first_named(taints, name) == first_named(taints.take(n), name),
    decreases taints.len() - n,
{
    if n < taints.len() {
        assert(taints.take(n + 1).drop_last() =~= taints.take(n));
        lemma_first_named_prefix(taints, name, n + 1);
    } else {
        assert(taints.take(n) =~= taints);
    }
}

/// Where `first_named` finds a taint it is the first that goes by the name;
/// where it finds none, none goes by the name.
pub proof fn lemma_first_named(taints: Seq<TaintView>, name: Seq<char>)
    ensures
        match first_named(taints, name) {
            Some(i) => 0 <= i < taints.len() && taints[i].name == name && forall|k: int|
                0 <= k < i ==> (#[trigger] taints[k]).name != name,
            None => forall|k: int| 0 <= k < taints.len() ==> (#[trigger] taints[k]).name != name,
        },
    decreases taints.len(),
{
    if taints.len() > 0 {
        let front = taints.drop_last();
        lemma_first_named(front, name);
        match first_named(front, name) {
            Some(i) => {
                assert(taints[i] == front[i]);
                assert forall|k: int| 0 <= k < i implies (#[trigger] taints[k]).name != name by {
                    assert(front[k].name != name);
                }
            },
            None => {
                assert forall|k: int| 0 <= k < taints.len() - 1 implies (#[trigger] taints[k]).name
                    != name by {
                    assert(front[k].name != name);
                }
            },
        }
    }
}

/// After the taints of a scope were cleared, no lookup by name finds a
/// taint of that scope.
pub proof fn lemma_cleared_scope_is_unreachable(taints: Seq<TaintView>, scope: ScopeView, name: Seq<char>)
    ensures
        ({
            let left = taints.filter(not_of_scope(scope));
            &&& forall|t: TaintView| left.contains(t) ==> t.scope != scope
            &&& first_named(left, name) is Some ==> left[first_named(left, name)->0].scope != scope
        }),
{
    let left = taints.filter(not_of_scope(scope));
    lemma_filter_members(taints, not_of_scope(scope));
    lemma_first_named(left, name);
    if first_named(left, name) is Some {
        let i = first_named(left, name)->0;
        assert(left.contains(left[i]));
    }
}

/// What a context frame holds: its kind and its name.
pub type ContextView = (Seq<char>, Seq<char>);

/// A frame of the enclosing control flow: a conditional, a loop or a call.
#[derive(Debug, Hash)]
pub struct Context {
    pub kind: String,
    pub name: String,
}

impl View for Context {
    type V = ContextView;

    open spec fn view(&self) -> ContextView {
        (self.kind@, self.name@)
    }
}

impl Clone for Context {
    fn clone(&self) -> (c: Self)
        ensures
            c == *self,
    {
        Context { kind: self.kind.clone(), name: self.name.clone() }
    }
}

impl PartialEq for Context {
    fn eq(&self, other: &Self) -> (same: bool) {
        self.same(other)
    }
}

impl PartialEqSpecImpl for Context {
    open spec fn obeys_eq_spec() -> bool {
        true
    }

    open spec fn eq_spec(&self, other: &Self) -> bool {
        self@ == other@
    }
}

impl Eq for Context {

}

impl Context {
    /// The frame of the kind `kind` by the name `name`.
    pub fn new(kind: String, name: String) -> (c: Context)
        ensures
            c@ == (kind@, name@),
    {
        Context { kind, name }
    }

    /// Whether the two frames are the same.
    pub fn same(&self, other: &Context) -> (same: bool)
        ensures
            same == (self@ == other@),
    {
        same_text(self.kind.as_str(), other.kind.as_str()) && same_text(
            self.name.as_str(),
            other.name.as_str(),
        )
    }
}

/// Whether two stacks agree as far as both reach: one is a prefix of the
/// other.
pub open spec fn comparable(a: Seq<ContextView>, b: Seq<ContextView>) -> bool {
    forall|i: int| 0 <= i < a.len() && i < b.len() ==> a[i] == b[i]
}

/// The stack after a push of `frame`: with the frame on top, or as it was
/// where the frame is on the stack already.
pub open spec fn pushed(stack: Seq<ContextView>, frame: ContextView) -> Seq<ContextView> {
    if stack.contains(frame) {
        stack
    } else {
        stack.push(frame)
    }
}

/// A push never puts a frame on the stack a second time: after it the
/// frame is on the stack once, and no other frame is on it twice.
pub proof fn lemma_push_keeps_frames_distinct(stack: Seq<ContextView>, frame: ContextView)
    requires
        stack.no_duplicates(),
    ensures
        pushed(stack, frame).no_duplicates(),
        pushed(stack, frame).contains(frame),
        forall|i: int, j: int|
            0 <= i < pushed(stack, frame).len() && 0 <= j < pushed(stack, frame).len() && pushed(
                stack,
                frame,
            )[i] == frame && pushed(stack, frame)[j] == frame ==> i == j,
{
    let after = pushed(stack, frame);
    if !stack.contains(frame) {
        assert(after[stack.len() as int] == frame);
        assert forall|i: int, j: int| 0 <= i < after.len() && 0 <= j < after.len() && i != j implies after[i]
            != after[j] by {
            if i < stack.len() && j < stack.len() {
                assert(stack[i] != stack[j]);
            } else if i < stack.len() {
                assert(stack.contains(stack[i]));
            } else {
                assert(stack.contains(stack[j]));
            }
        }
    }
}

/// Taking the top frame off keeps the frames unique.
pub proof fn lemma_pop_keeps_frames_distinct(stack: Seq<ContextView>)
    requires
        stack.no_duplicates(),
        stack.len() > 0,
    ensures
        stack.drop_last().no_duplicates(),
{
    let after = stack.drop_last();
    assert forall|i: int, j: int| 0 <= i < after.len() && 0 <= j < after.len() && i != j implies after[i]
        != after[j] by {
        assert(stack[i] != stack[j]);
    }
}

/// The frames that enclose the point where the analysis stands, outermost
/// first.
#[derive(Debug, Hash)]
pub struct ContextStack {
    stack: Vec<Context>,
}

impl View for ContextStack {
    type V = Seq<ContextView>;

    closed spec fn view(&self) -> Seq<ContextView> {
        self.stack@.map_values(|c: Context| c@)
    }
}

impl Clone for ContextStack {
    fn clone(&self) -> (s: Self)
        ensures
            s@ == self@,
    {
        let mut stack: Vec<Context> = Vec::new();
        let mut i: usize = 0;
        while i < self.stack.len()
            invariant
                i <= self.stack.len(),
                stack@.map_values(|c: Context| c@) == self@.take(i as int),
            decreases self.stack.len() - i,
        {
            let ghost before = stack@;
            stack.push(self.stack[i].clone());
            proof {
                assert(stack@.map_values(|c: Context| c@) =~= before.map_values(|c: Context| c@).push(
                    self@[i as int],
                ));
                assert(self@.take(i + 1) =~= self@.take(i as int).push(self@[i as int]));
            }
            i += 1;
        }
        assert(self@.take(i as int) =~= self@);
        proof {
            use_type_invariant(self);
        }
        ContextStack { stack }
    }
}

impl ContextStack {
    /// Holds of every stack: no frame is on it twice.
    #[verifier::type_invariant]
    pub open spec fn inv(self) -> bool {
        self@.no_duplicates()
    }

    /// A stack without frames.
    pub fn new() -> (s: ContextStack)
        ensures
            s@ == Seq::<ContextView>::empty(),
    {
        let s = ContextStack { stack: Vec::new() };
        assert(s@ =~= Seq::<ContextView>::empty());
        s
    }

    /// The number of frames.
    pub fn len(&self) -> (n: usize)
        ensures
            n == self@.len(),
    {
        self.stack.len()
    }

    /// Whether a frame equal to `context` is on the stack.
    pub fn holds(&self, context: &Context) -> (found: bool)
        ensures
            found == self@.contains(context@),
    {
        let mut i: usize = 0;
        while i < self.stack.len()
            invariant
                i <= self.stack.len(),
                forall|k: int| 0 <= k < i ==> self@[k] != context@,
            decreases self.stack.len() - i,
        {
            if self.stack[i].same(context) {
                assert(self@[i as int] == context@);
                return true;
            }
            i += 1;
        }
        false
    }

    /// Puts `context` on the stack and returns true, unless an equal frame
    /// is on it already: then the stack stays as it is and the result is
    /// false.
    pub fn push(&mut self, context: Context) -> (fresh: bool)
        ensures
            fresh == !old(self)@.contains(context@),
            final(self)@ == if fresh {
                old(self)@.push(context@)
            } else {
                old(self)@
            },
            final(self)@ == pushed(old(self)@, context@),
            final(self)@.no_duplicates(),
    {
        proof {
            use_type_invariant(&*self);
            lemma_push_keeps_frames_distinct(self@, context@);
        }
        if self.holds(&context) {
            return false;
        }
        let mut stack: Vec<Context> = Vec::new();
        std::mem::swap(&mut stack, &mut self.stack);
        stack.push(context);
        proof {
            assert(stack@.map_values(|c: Context| c@) =~= old(self)@.push(context@));
        }
        self.stack = stack;
        true
    }

    /// Takes the top frame off the stack.
    pub fn pop(&mut self) -> (top: Option<Context>)
        ensures
            old(self)@.len() == 0 ==> top is None && final(self)@ == old(self)@,
            old(self)@.len() > 0 ==> top is Some && top->0@ == old(self)@.last() && final(self)@
                == old(self)@.drop_last(),
            final(self)@.no_duplicates(),
    {
        proof {
            use_type_invariant(&*self);
            if self@.len() > 0 {
                lemma_pop_keeps_frames_distinct(self@);
            }
        }
        let mut stack: Vec<Context> = Vec::new();
        std::mem::swap(&mut stack, &mut self.stack);
        let top = stack.pop();
        proof {
            if old(self)@.len() > 0 {
                assert(stack@.map_values(|c: Context| c@) =~= old(self)@.drop_last());
            } else {
                assert(stack@.map_values(|c: Context| c@) =~= old(self)@);
            }
        }
        self.stack = stack;
        top
    }

    /// Whether this stack and `other` agree as far as both reach: every
    /// frame of this stack is the frame of `other` at the same depth, where
    /// `other` goes that deep.
    pub fn contains(&self, other: &ContextStack) -> (agree: bool)
        ensures
            agree == comparable(self@, other@),
    {
        let n = if self.stack.len() <= other.stack.len() {
            self.stack.len()
        } else {
            other.stack.len()
        };
        let mut i: usize = 0;
        while i < n
            invariant
                i <= n,
                n <= self.stack.len(),
                n <= other.stack.len(),
                n == self.stack.len() || n == other.stack.len(),
                forall|k: int| 0 <= k < i ==> self@[k] == other@[k],
            decreases n - i,
        {
            if !self.stack[i].same(&other.stack[i]) {
                assert(self@[i as int] != other@[i as int]);
                return false;
            }
            i += 1;
        }
        true
    }
}

} // verus!
