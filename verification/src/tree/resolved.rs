//! Callables found in a file, by name.
use vstd::prelude::*;
use vstd::string::*;
use crate::text::same_text;
use crate::tree::cursor::{Cursor, range_find_kind};
use crate::tree::file::Node;

verus! {

/// The indices in `lo .. hi` whose nodes are named and of kind `kind`, in
/// order.
pub open spec fn range_collect(nodes: Seq<Node>, lo: int, hi: int, kind: Seq<char>) -> Seq<int>
    decreases hi - lo,
{
    if lo >= hi {
        Seq::<int>::empty()
    } else if nodes[hi - 1].named && nodes[hi - 1].kind@ == kind {
        range_collect(nodes, lo, hi - 1, kind).push(hi - 1)
    } else {
        range_collect(nodes, lo, hi - 1, kind)
    }
}

/// The parameters of the declaration at node `i`: the variable names under
/// its first list of formal parameters, in order.
pub open spec fn parameters_of(nodes: Seq<Node>, i: int) -> Seq<int> {
    match range_find_kind(nodes, i + 1, nodes[i].stop as int, "formal_parameters"@) {
        Some(list) => range_collect(nodes, list + 1, nodes[list].stop as int, "variable_name"@),
        None => Seq::<int>::empty(),
    }
}

/// The names of the first `n` of `cursors`, each followed by a space.
pub open spec fn spaced(cursors: Seq<Cursor>, n: int) -> Seq<char>
    decreases n,
{
    if n <= 0 {
        Seq::empty()
    } else {
        spaced(cursors, n - 1) + (match cursors[n - 1].name_spec() {
            Some(name) => name,
            None => Seq::empty(),
        }) + seq![' ']
    }
}

/// Something that a call can resolve to.
#[derive(Clone, Copy)]
pub enum Resolved<'a> {
    /// A function or method declaration.
    Function { cursor: Cursor<'a> },
    /// The program node of a file.
    Root { cursor: Cursor<'a> },
}

impl<'a> Resolved<'a> {
    /// The function or method declared under `cursor`.
    pub fn new_function(cursor: Cursor<'a>) -> (r: Resolved<'a>)
        ensures
            r == (Resolved::Function { cursor }),
    {
        Resolved::Function { cursor }
    }

    /// The program under `cursor`.
    pub fn new_root(cursor: Cursor<'a>) -> (r: Resolved<'a>)
        ensures
            r == (Resolved::Root { cursor }),
    {
        Resolved::Root { cursor }
    }

    /// The cursor of the declaration.
    pub open spec fn cursor_spec(self) -> Cursor<'a> {
        match self {
            Resolved::Function { cursor } => cursor,
            Resolved::Root { cursor } => cursor,
        }
    }

    /// The cursor of the declaration.
    pub fn cursor(&self) -> (cursor: Cursor<'a>)
        ensures
            cursor == self.cursor_spec(),
    {
        match self {
            Resolved::Function { cursor } => *cursor,
            Resolved::Root { cursor } => *cursor,
        }
    }

    /// The cursors of the parameters of a function, in order; empty for a
    /// root.
    #[verifier::loop_isolation(false)]
    pub fn parameters(&self) -> (params: Vec<Cursor<'a>>)
        ensures
            self is Root ==> params@.len() == 0,
            self is Function ==> ({
                let own = self.cursor_spec();
                let indices = parameters_of(own.file().nodes(), own.index());
                &&& params@.len() == indices.len()
                &&& forall|k: int|
                    0 <= k < params@.len() ==> own.moved_to(#[trigger] params@[k], indices[k])
            }),
    {
        let mut params: Vec<Cursor<'a>> = Vec::new();
        match self {
            Resolved::Function { cursor } => {
                match cursor.find_below("formal_parameters") {
                    Some(list) => {
                        let stop = list.stop();
                        let lo = list.raw_cursor() + 1;
                        let mut j = lo;
                        let ghost nodes = cursor.file().nodes();
                        while j < stop
                            invariant
                                lo <= j <= stop <= nodes.len(),
                                params@.len() == range_collect(
                                    nodes,
                                    lo as int,
                                    j as int,
                                    "variable_name"@,
                                ).len(),
                                forall|k: int|
                                    0 <= k < params@.len() ==> cursor.moved_to(
                                        #[trigger] params@[k],
                                        range_collect(nodes, lo as int, j as int, "variable_name"@)[k],
                                    ),
                            decreases stop - j,
                        {
                            let cur = Cursor::new(cursor.file_ref(), j).unwrap();
                            if cur.is_named() && same_text(cur.kind(), "variable_name") {
                                params.push(cur);
                            }
                            j += 1;
                        }
                        params
                    },
                    None => params,
                }
            },
            Resolved::Root { .. } => params,
        }
    }

    /// The names of the parameters, each followed by a space; a parameter
    /// without a name gives the space alone.
    pub fn dump_parameters(&self) -> (text: String)
        ensures
            text@ == spaced(self.parameters_spec(), self.parameters_spec().len() as int),
    {
        let params = self.parameters();
        let mut text = String::new();
        let mut i: usize = 0;
        proof {
            assert(params@ =~= self.parameters_spec()) by {
                assert forall|k: int| 0 <= k < params@.len() implies params@[k]
                    == self.parameters_spec()[k] by {
                    if self is Function {
                        self.cursor_spec().lemma_jump(params@[k], params@[k].index());
                    }
                }
            }
        }
        while i < params.len()
            invariant
                i <= params.len(),
                params@ == self.parameters_spec(),
                text@ == spaced(params@, i as int),
            decreases params.len() - i,
        {
            match params[i].name() {
                Some(name) => {
                    text.append(name.as_str());
                },
                None => {},
            }
            text.append(" ");
            proof {
                reveal_strlit(" ");
                assert(" "@ =~= seq![' ']);
            }
            i += 1;
        }
        text
    }

    /// The cursors of the parameters of a function, in order; none for a
    /// root.
    pub open spec fn parameters_spec(self) -> Seq<Cursor<'a>> {
        match self {
            Resolved::Function { cursor } => parameters_of(cursor.file().nodes(), cursor.index()).map_values(
                |i: int| cursor.jump(i),
            ),
            Resolved::Root { cursor } => Seq::empty(),
        }
    }

    /// The name of the declaration, where it has one.
    pub open spec fn name_spec(self) -> Seq<char> {
        match self.cursor_spec().name_spec() {
            Some(name) => name,
            None => Seq::<char>::empty(),
        }
    }

    /// The name of the declaration; empty where it has none.
    pub fn name(&self) -> (name: String)
        ensures
            name@ == self.name_spec(),
    {
        match self.cursor().name() {
            Some(name) => name,
            None => String::new(),
        }
    }
}

} // verus!
