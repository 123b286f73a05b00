//! Syntax trees as indented text.
use vstd::prelude::*;
use vstd::string::*;
use crate::text::{indent, indent_text, same_text};
use crate::tree::cursor::{Cursor, sound};
use crate::tree::file::File;
use crate::tree::traverser::{
    Order, Step, lemma_next_emitting, lemma_succ, next_emitting, rank_major, rank_minor, succ,
    valid_step,
};

verus! {

/// What is written of the node under `cursor` at the depth `depth`: its
/// kind, its text if it is a name, and its field if it has one, each on a
/// line of its own.
pub open spec fn entry_text(cursor: Cursor, depth: nat) -> Seq<char> {
    let node = cursor.node();
    indent_text(depth) + "Kind: "@ + node.kind@ + "\n"@ + (if node.kind@ == "name"@ {
        indent_text(depth) + "Name: "@ + cursor.text() + "\n"@
    } else {
        Seq::empty()
    }) + (if node.field is Some {
        indent_text(depth) + "Field: "@ + node.field->0@ + "\n"@
    } else {
        Seq::empty()
    })
}

/// The depth below `depth`, as far as the machine counts.
pub open spec fn deeper(depth: nat) -> nat {
    if depth < usize::MAX {
        depth + 1
    } else {
        depth
    }
}

/// The depth above `depth`.
pub open spec fn shallower(depth: nat) -> nat {
    if depth > 0 {
        (depth - 1) as nat
    } else {
        0
    }
}

/// What is written of the named nodes under `cursor` from the step `st`
/// of their traversal on, at the depth `depth`.
pub open spec fn dump_from(cursor: Cursor, st: Step, depth: nat) -> Seq<char>
    decreases rank_major(cursor.file().nodes(), st), rank_minor(st),
{
    let nodes = cursor.file().nodes();
    let start = cursor.index();
    if !valid_step(nodes, start, st) || !sound(cursor) {
        Seq::empty()
    } else {
        let e = next_emitting(nodes, start, Seq::empty(), false, st);
        let next = succ(nodes, start, Seq::empty(), e);
        proof {
            lemma_next_emitting(nodes, start, Seq::empty(), false, st);
            if !(e is Done) {
                lemma_succ(nodes, start, Seq::empty(), false, e);
            }
        }
        match e {
            Step::Done => Seq::empty(),
            Step::Enter(c) => entry_text(cursor.jump(c), depth) + dump_from(cursor, next, deeper(depth)),
            Step::Leave(c) => dump_from(cursor, next, shallower(depth)),
        }
    }
}

/// What is written of the named nodes under `cursor`, each indented by its
/// depth.
pub open spec fn dump_text(cursor: Cursor) -> Seq<char> {
    dump_from(cursor, Step::Enter(cursor.index()), 0)
}

/// What is written of the first `n` of `files`.
pub open spec fn dump_files(files: Seq<&File>, n: int) -> Seq<char>
    decreases n,
{
    if n <= 0 {
        Seq::empty()
    } else {
        dump_files(files, n - 1) + dump_text(Cursor::root(files[n - 1]))
    }
}

/// Writes syntax trees out as text.
pub struct Dumper<'a> {
    files: Vec<&'a File>,
}

impl<'a> Dumper<'a> {
    /// The files that the dumper writes out.
    pub closed spec fn files(&self) -> Seq<&'a File> {
        self.files@
    }

    /// A dumper of `files`.
    pub fn new(files: Vec<&'a File>) -> (d: Dumper<'a>)
        ensures
            d.files() == files@,
    {
        Dumper { files }
    }

    /// The named nodes under `cursor` as text, each indented by its depth.
    #[verifier::loop_isolation(false)]
    pub fn dump_cursor(cursor: Cursor<'a>) -> (text: String)
        ensures
            text@ == dump_text(cursor),
    {
        let mut text = String::new();
        let mut depth: usize = 0;
        let mut traversal = cursor.traverse();
        let ghost goal = dump_text(cursor);
        proof {
            use_type_invariant(cursor);
            assert(text@ + goal =~= goal);
        }
        loop
            invariant
                traversal.file() == cursor.file(),
                traversal.start() == cursor,
                traversal.bounds() == Seq::<&str>::empty(),
                !traversal.concrete(),
                text@ + dump_from(cursor, traversal.step(), depth as nat) == goal,
            decreases traversal.rank_major(), traversal.rank_minor(),
        {
            proof {
                use_type_invariant(&traversal);
            }
            let ghost before = text@;
            let motion = match traversal.next() {
                Some(motion) => motion,
                None => {
                    assert(text@ + Seq::<char>::empty() =~= text@);
                    return text;
                },
            };
            match motion {
                Order::Enter(cur) => {
                    proof {
                        cursor.lemma_jump(cur, cur.index());
                    }
                    let pad = indent(depth);
                    text.append(pad.as_str());
                    text.append("Kind: ");
                    text.append(cur.kind());
                    text.append("\n");
                    if same_text(cur.kind(), "name") {
                        text.append(pad.as_str());
                        text.append("Name: ");
                        text.append(cur.to_str());
                        text.append("\n");
                    }
                    match cur.field() {
                        Some(field) => {
                            text.append(pad.as_str());
                            text.append("Field: ");
                            text.append(field);
                            text.append("\n");
                        },
                        None => {},
                    }
                    proof {
                        assert(text@ =~= before + entry_text(cur, depth as nat));
                        assert(text@ + dump_from(cursor, traversal.step(), deeper(depth as nat))
                            =~= before + (entry_text(cur, depth as nat) + dump_from(
                            cursor,
                            traversal.step(),
                            deeper(depth as nat),
                        )));
                    }
                    if depth < usize::MAX {
                        depth += 1;
                    }
                },
                Order::Leave(cur) => {
                    if depth > 0 {
                        depth -= 1;
                    }
                },
            }
        }
    }

    /// The named nodes of the files as text, file by file.
    pub fn dump(&self) -> (text: String)
        ensures
            text@ == dump_files(self.files(), self.files().len() as int),
    {
        let mut text = String::new();
        let mut i: usize = 0;
        while i < self.files.len()
            invariant
                i <= self.files.len(),
                text@ == dump_files(self.files(), i as int),
            decreases self.files.len() - i,
        {
            let root = self.files[i].cursor();
            proof {
                Cursor::lemma_root(self.files[i as int], root);
            }
            text.append(Dumper::dump_cursor(root).as_str());
            i += 1;
        }
        text
    }
}

} // verus!
