//! Upward iteration from a node through its ancestors.
use vstd::prelude::*;
use crate::tree::cursor::Cursor;
use crate::tree::file::parent_of;

verus! {

/// The ancestors of a node, nearest first, ending at the root.
pub struct Trace<'a> {
    cursor: Cursor<'a>,
}

impl<'a> Trace<'a> {
    /// Where the trace stands: the node whose parent comes next.
    pub closed spec fn position(self) -> Cursor<'a> {
        self.cursor
    }

    /// A trace of the ancestors of `cursor`.
    pub fn new(cursor: Cursor<'a>) -> (trace: Trace<'a>)
        ensures
            trace.position() == cursor,
    {
        Trace { cursor }
    }

    /// The next ancestor, if the trace has not reached the root.
    pub fn next(&mut self) -> (ancestor: Option<Cursor<'a>>)
        ensures
            ancestor is Some <==> parent_of(
                old(self).position().file().nodes(),
                old(self).position().index(),
            ) is Some,
            ancestor is Some ==> ancestor->0 == final(self).position() && old(
                self,
            ).position().moved_to(
                ancestor->0,
                parent_of(old(self).position().file().nodes(), old(self).position().index())->0,
            ) && ancestor->0.index() < old(self).position().index(),
            ancestor is None ==> final(self).position() == old(self).position(),
    {
        proof {
            use_type_invariant(self.cursor);
            assert(crate::tree::file::node_ok(self.cursor.file().nodes(), self.cursor.index()));
        }
        let mut next = self.cursor;
        if next.goto_parent() {
            self.cursor = next;
            Some(next)
        } else {
            None
        }
    }
}

} // verus!
