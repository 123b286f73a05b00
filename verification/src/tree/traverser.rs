//! Depth-first traversal of a subtree as a stream of enter and leave events.
use vstd::prelude::*;
use crate::text::same_text;
use crate::tree::cursor::Cursor;
use crate::tree::file::{
    Node, first_child_of, next_sibling_of, well_formed, node_ok, lemma_subtrees_nest,
};

verus! {

/// One event of a traversal: a node is entered before its children and left
/// after them.
#[derive(Clone, Copy)]
pub enum Order<'a> {
    Enter(Cursor<'a>),
    Leave(Cursor<'a>),
}

/// Where a traversal stands: the event that comes next, by node index.
pub enum Step {
    Enter(int),
    Leave(int),
    Done,
}

/// Whether `kind` is one of the kinds in `bounds`.
pub open spec fn is_bound(bounds: Seq<&str>, kind: Seq<char>) -> bool {
    exists|i: int| 0 <= i < bounds.len() && (#[trigger] bounds[i])@ == kind
}

/// Whether a traversal from `start` goes on to the children of node `c`: it
/// has a child, and is the start or not of a bounding kind.
pub open spec fn descends(nodes: Seq<Node>, start: int, bounds: Seq<&str>, c: int) -> bool {
    first_child_of(nodes, c) is Some && (c == start || !is_bound(bounds, nodes[c].kind@))
}

/// The step that follows `st` in the depth-first order of the subtree of
/// `start`.
pub open spec fn succ(nodes: Seq<Node>, start: int, bounds: Seq<&str>, st: Step) -> Step {
    match st {
        Step::Enter(c) => if descends(nodes, start, bounds, c) {
            Step::Enter(c + 1)
        } else {
            Step::Leave(c)
        },
        Step::Leave(c) => if c == start {
            Step::Done
        } else if next_sibling_of(nodes, c) is Some {
            Step::Enter(nodes[c].stop as int)
        } else {
            Step::Leave(nodes[c].parent as int)
        },
        Step::Done => Step::Done,
    }
}

/// Whether the traversal reports the step `st`: every step of a concrete
/// traversal, else the steps on named nodes.
pub open spec fn emits(nodes: Seq<Node>, concrete: bool, st: Step) -> bool {
    match st {
        Step::Enter(c) => concrete || nodes[c].named,
        Step::Leave(c) => concrete || nodes[c].named,
        Step::Done => false,
    }
}

/// Whether `st` is a step of the traversal of the subtree of `start`.
pub open spec fn valid_step(nodes: Seq<Node>, start: int, st: Step) -> bool {
    &&& well_formed(nodes)
    &&& 0 <= start < nodes.len()
    &&& match st {
        Step::Enter(c) => start <= c < nodes[start].stop,
        Step::Leave(c) => start <= c < nodes[start].stop,
        Step::Done => true,
    }
}

/// First part of the measure that goes down with every step.
pub open spec fn rank_major(nodes: Seq<Node>, st: Step) -> nat {
    match st {
        Step::Enter(c) => (nodes.len() - c) as nat,
        Step::Leave(c) => (nodes.len() - nodes[c].stop) as nat,
        Step::Done => 0,
    }
}

/// Second part of the measure that goes down with every step.
pub open spec fn rank_minor(st: Step) -> nat {
    match st {
        Step::Enter(c) => 1,
        Step::Leave(c) => (c + 2) as nat,
        Step::Done => 0,
    }
}

/// `b` comes strictly before `a` in the measure of steps.
pub open spec fn rank_less(nodes: Seq<Node>, b: Step, a: Step) -> bool {
    rank_major(nodes, b) < rank_major(nodes, a) || (rank_major(nodes, b) == rank_major(nodes, a)
        && rank_minor(b) < rank_minor(a))
}

/// The reported nodes on the way from `start` down to `c`, both included.
pub open spec fn open_chain(nodes: Seq<Node>, concrete: bool, start: int, c: int) -> Seq<int>
    decreases c,
{
    let own = if concrete || nodes[c].named {
        seq![c]
    } else {
        Seq::<int>::empty()
    };
    if start < c < nodes.len() && nodes[c].parent < c {
        open_chain(nodes, concrete, start, nodes[c].parent as int) + own
    } else {
        own
    }
}

/// The nodes that have been reported as entered and not yet as left when the
/// traversal stands at `st`, outermost first.
pub open spec fn pending(nodes: Seq<Node>, concrete: bool, start: int, st: Step) -> Seq<int> {
    match st {
        Step::Enter(c) => if c == start {
            Seq::<int>::empty()
        } else {
            open_chain(nodes, concrete, start, nodes[c].parent as int)
        },
        Step::Leave(c) => open_chain(nodes, concrete, start, c),
        Step::Done => Seq::<int>::empty(),
    }
}

/// Each step leads to a step of the same traversal that is lower in the
/// measure, and changes the pending nodes by the node it reports.
pub proof fn lemma_succ(nodes: Seq<Node>, start: int, bounds: Seq<&str>, concrete: bool, st: Step)
    requires
        valid_step(nodes, start, st),
        !(st is Done),
    ensures
        valid_step(nodes, start, succ(nodes, start, bounds, st)),
        rank_less(nodes, succ(nodes, start, bounds, st), st),
        match st {
            Step::Enter(c) => pending(nodes, concrete, start, succ(nodes, start, bounds, st))
                == pending(nodes, concrete, start, st) + (if emits(nodes, concrete, st) {
                seq![c]
            } else {
                Seq::<int>::empty()
            }),
            Step::Leave(c) => pending(nodes, concrete, start, st) == pending(
                nodes,
                concrete,
                start,
                succ(nodes, start, bounds, st),
            ) + (if emits(nodes, concrete, st) {
                seq![c]
            } else {
                Seq::<int>::empty()
            }),
            Step::Done => true,
        },
{
    assert(node_ok(nodes, start));
    match st {
        Step::Enter(c) => {
            assert(node_ok(nodes, c));
            if c > start {
                lemma_subtrees_nest(nodes, start, c);
            }
            if descends(nodes, start, bounds, c) {
                assert(node_ok(nodes, c + 1));
            }
            if c == start {
                assert(pending(nodes, concrete, start, st) + open_chain(nodes, concrete, start, c)
                    =~= open_chain(nodes, concrete, start, c));
            }
        },
        Step::Leave(c) => {
            assert(node_ok(nodes, c));
            if c > start {
                lemma_subtrees_nest(nodes, start, c);
                let p = nodes[c].parent as int;
                assert(node_ok(nodes, p));
                if next_sibling_of(nodes, c) is Some {
                    let s = nodes[c].stop as int;
                    if p > start {
                        lemma_subtrees_nest(nodes, start, p);
                    }
                    assert(node_ok(nodes, s));
                }
            } else {
                assert(Seq::<int>::empty() + open_chain(nodes, concrete, start, c)
                    =~= open_chain(nodes, concrete, start, c));
            }
        },
        Step::Done => {},
    }
}

/// The first step at or after `st` that the traversal reports; `Done` if
/// there is none.
pub open spec fn next_emitting(
    nodes: Seq<Node>,
    start: int,
    bounds: Seq<&str>,
    concrete: bool,
    st: Step,
) -> Step
    decreases rank_major(nodes, st), rank_minor(st),
    when valid_step(nodes, start, st)
{
    if st is Done || emits(nodes, concrete, st) {
        st
    } else {
        proof {
            lemma_succ(nodes, start, bounds, concrete, st);
        }
        next_emitting(nodes, start, bounds, concrete, succ(nodes, start, bounds, st))
    }
}

/// The step that is reported next is a step of the same traversal, at or
/// after the step it is sought from, and one that is reported unless the
/// traversal is over.
pub proof fn lemma_next_emitting(
    nodes: Seq<Node>,
    start: int,
    bounds: Seq<&str>,
    concrete: bool,
    st: Step,
)
    requires
        valid_step(nodes, start, st),
    ensures
        valid_step(nodes, start, next_emitting(nodes, start, bounds, concrete, st)),
        next_emitting(nodes, start, bounds, concrete, st) == st || rank_less(
            nodes,
            next_emitting(nodes, start, bounds, concrete, st),
            st,
        ),
        next_emitting(nodes, start, bounds, concrete, st) is Done || emits(
            nodes,
            concrete,
            next_emitting(nodes, start, bounds, concrete, st),
        ),
        pending(nodes, concrete, start, next_emitting(nodes, start, bounds, concrete, st)) == pending(
            nodes,
            concrete,
            start,
            st,
        ),
    decreases rank_major(nodes, st), rank_minor(st),
{
    if !(st is Done || emits(nodes, concrete, st)) {
        lemma_succ(nodes, start, bounds, concrete, st);
        lemma_next_emitting(nodes, start, bounds, concrete, succ(nodes, start, bounds, st));
        assert(pending(nodes, concrete, start, st) + Seq::<int>::empty() =~= pending(
            nodes,
            concrete,
            start,
            st,
        ));
        assert(pending(nodes, concrete, start, succ(nodes, start, bounds, st)) + Seq::<int>::empty()
            =~= pending(nodes, concrete, start, succ(nodes, start, bounds, st)));
    }
}

/// A depth-first traversal of the subtree under a cursor.
pub struct Traversal<'a> {
    cursor: Cursor<'a>,
    start: Cursor<'a>,
    last: Option<Cursor<'a>>,
    bounds: Vec<&'a str>,
    concrete: bool,
    visited: bool,
    end: bool,
}

impl<'a> Traversal<'a> {
    /// Holds of every traversal: it stands at a step of the subtree that it
    /// walks, and remembers the node it entered last only while it is still
    /// at or right below that node.
    #[verifier::type_invariant]
    pub open spec fn inv(self) -> bool {
        &&& self.start().file() == self.file()
        &&& self.start().index() == self.root()
        &&& valid_step(self.nodes(), self.root(), self.step())
        &&& self.entered() is Some ==> {
            let c = self.entered()->0;
            &&& self.entered_in() == self.file()
            &&& self.root() <= c < self.nodes().len()
            &&& (self.step() == Step::Leave(c) || (self.step() == Step::Enter(c + 1) && c + 1
                < self.nodes()[c].stop))
        }
    }

    /// The cursor that the traversal started from.
    pub closed spec fn start(self) -> Cursor<'a> {
        self.start
    }

    /// The file that the traversal walks.
    pub closed spec fn file(self) -> crate::tree::file::File {
        self.cursor.file()
    }

    /// The nodes of the file that the traversal walks.
    pub open spec fn nodes(self) -> Seq<Node> {
        self.file().nodes()
    }

    /// The index of the node that the traversal started from.
    pub closed spec fn root(self) -> int {
        self.start.index()
    }

    /// The kinds of node that a block traversal does not go below.
    pub closed spec fn bounds(self) -> Seq<&'a str> {
        self.bounds@
    }

    /// Whether the traversal reports unnamed nodes too.
    pub closed spec fn concrete(self) -> bool {
        self.concrete
    }

    /// The step that comes next.
    pub closed spec fn step(self) -> Step {
        if self.end {
            Step::Done
        } else if self.visited {
            Step::Leave(self.cursor.index())
        } else {
            Step::Enter(self.cursor.index())
        }
    }

    /// The node whose entering was the last event reported, if the last
    /// event was one of entering.
    pub closed spec fn entered(self) -> Option<int> {
        match self.last {
            Some(c) => Some(c.index()),
            None => None,
        }
    }

    /// The file of the node whose entering was the last event reported.
    pub closed spec fn entered_in(self) -> crate::tree::file::File {
        match self.last {
            Some(c) => c.file(),
            None => self.cursor.file(),
        }
    }

    /// The nodes reported as entered and not yet as left, outermost first.
    pub open spec fn pending(self) -> Seq<int> {
        pending(self.nodes(), self.concrete(), self.root(), self.step())
    }

    /// First part of the measure that every event lowers.
    pub open spec fn rank_major(self) -> nat {
        rank_major(self.nodes(), self.step())
    }

    /// Second part of the measure that every event lowers.
    pub open spec fn rank_minor(self) -> nat {
        rank_minor(self.step())
    }

    /// `self` is the traversal that `other` is, at the step `st`.
    pub open spec fn at_step(self, other: Traversal<'a>, st: Step) -> bool {
        &&& self.start() == other.start()
        &&& self.file() == other.file()
        &&& self.bounds() == other.bounds()
        &&& self.concrete() == other.concrete()
        &&& self.step() == st
    }

    fn make(cursor: Cursor<'a>, bounds: Vec<&'a str>, concrete: bool) -> (t: Traversal<'a>)
        ensures
            t.start() == cursor,
            t.file() == cursor.file(),
            t.bounds() == bounds@,
            t.concrete() == concrete,
            t.step() == Step::Enter(cursor.index()),
            t.entered() is None,
    {
        proof {
            use_type_invariant(cursor);
            assert(node_ok(cursor.file().nodes(), cursor.index()));
        }
        Traversal {
            cursor,
            start: cursor,
            last: None,
            bounds,
            concrete,
            visited: false,
            end: false,
        }
    }

    /// A traversal of the named nodes under `cursor`.
    pub fn new(cursor: Cursor<'a>) -> (t: Traversal<'a>)
        ensures
            t.start() == cursor,
            t.file() == cursor.file(),
            t.bounds() == Seq::<&str>::empty(),
            !t.concrete(),
            t.step() == Step::Enter(cursor.index()),
            t.entered() is None,
    {
        Traversal::make(cursor, Vec::new(), false)
    }

    /// A traversal of all the nodes under `cursor`, unnamed ones too.
    pub fn new_concrete(cursor: Cursor<'a>) -> (t: Traversal<'a>)
        ensures
            t.start() == cursor,
            t.file() == cursor.file(),
            t.bounds() == Seq::<&str>::empty(),
            t.concrete(),
            t.step() == Step::Enter(cursor.index()),
            t.entered() is None,
    {
        Traversal::make(cursor, Vec::new(), true)
    }

    /// A traversal of the named nodes under `cursor` that does not go below
    /// a node whose kind is in `bounds`, unless it is `cursor` itself.
    pub fn new_block(cursor: Cursor<'a>, bounds: Vec<&'a str>) -> (t: Traversal<'a>)
        ensures
            t.start() == cursor,
            t.file() == cursor.file(),
            t.bounds() == bounds@,
            !t.concrete(),
            t.step() == Step::Enter(cursor.index()),
            t.entered() is None,
    {
        Traversal::make(cursor, bounds, false)
    }

    /// Leaves the subtree of the node that was entered last without going
    /// into it. Before the first event this ends the traversal; after an
    /// event of leaving it changes nothing.
    pub fn pass(&mut self)
        ensures
            final(self).at_step(
                *old(self),
                match old(self).entered() {
                    Some(c) => Step::Leave(c),
                    None => if old(self).step() == Step::Enter(old(self).root()) {
                        Step::Done
                    } else {
                        old(self).step()
                    },
                },
            ),
            final(self).entered() == old(self).entered(),
            final(self).pending() == old(self).pending(),
            final(self).rank_major() <= old(self).rank_major(),
    {
        proof {
            use_type_invariant(&*self);
            assert(node_ok(self.nodes(), self.root()));
        }
        match self.last {
            Some(c) => {
                proof {
                    use_type_invariant(c);
                    assert(node_ok(self.nodes(), c.index()));
                    if self.root() < c.index() {
                        lemma_subtrees_nest(self.nodes(), self.root(), c.index());
                    }
                }
                self.last = None;
                self.cursor = c;
                self.visited = true;
                self.last = Some(c);
            },
            None => {
                if !self.visited && !self.end && self.cursor.raw_cursor() == self.start.raw_cursor() {
                    self.end = true;
                }
            },
        }
    }

    fn is_boundary(&self, kind: &str) -> (b: bool)
        ensures
            b == is_bound(self.bounds(), kind@),
    {
        let mut i: usize = 0;
        while i < self.bounds.len()
            invariant
                i <= self.bounds.len(),
                forall|k: int| 0 <= k < i ==> (#[trigger] self.bounds@[k])@ != kind@,
            decreases self.bounds.len() - i,
        {
            if same_text(self.bounds[i], kind) {
                return true;
            }
            i += 1;
        }
        false
    }

    /// Makes the step that comes next and says whether it is reported.
    fn advance(&mut self) -> (event: Option<Order<'a>>)
        requires
            !(old(self).step() is Done),
        ensures
            final(self).at_step(
                *old(self),
                succ(old(self).nodes(), old(self).root(), old(self).bounds(), old(self).step()),
            ),
            emits(old(self).nodes(), old(self).concrete(), old(self).step()) <==> event is Some,
            final(self).entered() == (match old(self).step() {
                Step::Enter(c) => if event is Some {
                    Some(c)
                } else {
                    None
                },
                _ => None,
            }),
            match old(self).step() {
                Step::Enter(c) => event is Some ==> (event->0 matches Order::Enter(cur)
                    && cur.file() == old(self).file() && cur.index() == c),
                Step::Leave(c) => event is Some ==> (event->0 matches Order::Leave(cur)
                    && cur.file() == old(self).file() && cur.index() == c),
                Step::Done => true,
            },
    {
        proof {
            use_type_invariant(&*self);
            lemma_succ(self.nodes(), self.root(), self.bounds(), self.concrete(), self.step());
        }
        let cur = self.cursor;
        let reported = self.concrete || cur.is_named();
        self.last = None;
        if self.visited {
            if cur.raw_cursor() == self.start.raw_cursor() {
                self.end = true;
            } else {
                let mut next = cur;
                if next.goto_next_sibling() {
                    self.cursor = next;
                    self.visited = false;
                } else {
                    let moved = next.goto_parent();
                    self.cursor = next;
                }
            }
            if reported {
                Some(Order::Leave(cur))
            } else {
                None
            }
        } else {
            let descend = cur.raw_cursor() == self.start.raw_cursor() || !self.is_boundary(
                cur.kind(),
            );
            let mut next = cur;
            if descend && next.goto_first_child() {
                self.cursor = next;
            } else {
                self.visited = true;
            }
            if reported {
                self.last = Some(cur);
                Some(Order::Enter(cur))
            } else {
                None
            }
        }
    }

    /// The next event of the traversal, if any is left.
    pub fn next(&mut self) -> (event: Option<Order<'a>>)
        ensures
            ({
                let e = next_emitting(
                    old(self).nodes(),
                    old(self).root(),
                    old(self).bounds(),
                    old(self).concrete(),
                    old(self).step(),
                );
                &&& final(self).at_step(
                    *old(self),
                    succ(old(self).nodes(), old(self).root(), old(self).bounds(), e),
                )
                &&& match e {
                    Step::Enter(c) => event matches Some(Order::Enter(cur)) && cur.file() == old(self).file() && cur.index() == c && final(self).pending() == old(self).pending().push(c) && final(self).entered() == Some(c),
                    Step::Leave(c) => event matches Some(Order::Leave(cur)) && cur.file() == old(self).file() && cur.index() == c && old(self).pending() == final(self).pending().push(c) && final(self).entered() is None,
                    Step::Done => event is None && final(self).pending() == old(self).pending(),
                }
            }),
            event is Some ==> final(self).rank_major() < old(self).rank_major() || (final(self).rank_major() == old(self).rank_major() && final(self).rank_minor() < old(self).rank_minor()),
    {
        let ghost goal = next_emitting(
            self.nodes(),
            self.root(),
            self.bounds(),
            self.concrete(),
            self.step(),
        );
        proof {
            use_type_invariant(&*self);
        }
        loop
            invariant
                self.at_step(*old(self), self.step()),
                valid_step(self.nodes(), self.root(), self.step()),
                next_emitting(
                    self.nodes(),
                    self.root(),
                    self.bounds(),
                    self.concrete(),
                    self.step(),
                ) == goal,
                self.pending() == old(self).pending(),
                self.step() == old(self).step() || rank_less(self.nodes(), self.step(), old(self).step()),
                goal == next_emitting(
                    old(self).nodes(),
                    old(self).root(),
                    old(self).bounds(),
                    old(self).concrete(),
                    old(self).step(),
                ),
            decreases self.rank_major(), self.rank_minor(),
        {
            proof {
                use_type_invariant(&*self);
            }
            if self.end {
                return None;
            }
            let ghost before = *self;
            proof {
                lemma_succ(self.nodes(), self.root(), self.bounds(), self.concrete(), self.step());
            }
            let event = self.advance();
            if event.is_some() {
                proof {
                    assert(goal == before.step());
                    match before.step() {
                        Step::Enter(c) => {
                            assert(self.pending() =~= old(self).pending().push(c));
                        },
                        Step::Leave(c) => {
                            assert(old(self).pending() =~= self.pending().push(c));
                        },
                        Step::Done => {},
                    }
                }
                return event;
            }
            proof {
                assert(before.pending() + Seq::<int>::empty() =~= before.pending());
                assert(self.pending() + Seq::<int>::empty() =~= self.pending());
            }
        }
    }
}

} // verus!
