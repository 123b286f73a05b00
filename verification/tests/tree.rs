use taint_analyzer::tree::cursor::Cursor;
use taint_analyzer::tree::file::{slice_text, File, Node, SyntaxTree};
use taint_analyzer::tree::parse::TreeBuilder;
use taint_analyzer::tree::resolved::Resolved;
use taint_analyzer::tree::tracer::Trace;
use taint_analyzer::tree::traverser::{Order, Traversal};
use taint_analyzer::utils::dumper::Dumper;
use taint_analyzer::text::{decimal, escape_quotes, indent};

fn node(kind: &str, field: Option<&str>, named: bool, start: usize, end: usize, parent: usize, stop: usize) -> Node {
    Node::new(kind.to_string(), field.map(|f| f.to_string()), named, start, end, parent, stop)
}

const SOURCE: &str = "function f($a, $b) { g($a); }";

/// function_definition
///   name "f"
///   formal_parameters
///     "("                      (unnamed)
///     simple_parameter > variable_name > name "a"
///     simple_parameter > variable_name > name "b"
///   compound_statement (field body)
///     function_call_expression
///       name "g" (field function)
///       arguments (field arguments)
///         argument > variable_name > name "a"
fn sample() -> File {
    let mut b = TreeBuilder::new();
    b.enter("function_definition".to_string(), None, true, 0, 29);
    b.enter("name".to_string(), Some("name".to_string()), true, 9, 10);
    b.leave();
    b.enter("formal_parameters".to_string(), Some("parameters".to_string()), true, 10, 18);
    b.enter("(".to_string(), None, false, 10, 11);
    b.leave();
    b.enter("simple_parameter".to_string(), None, true, 11, 13);
    b.enter("variable_name".to_string(), Some("name".to_string()), true, 11, 13);
    b.enter("name".to_string(), None, true, 12, 13);
    b.leave();
    b.leave();
    b.leave();
    b.enter("simple_parameter".to_string(), None, true, 15, 17);
    b.enter("variable_name".to_string(), Some("name".to_string()), true, 15, 17);
    b.enter("name".to_string(), None, true, 16, 17);
    b.leave();
    b.leave();
    b.leave();
    b.leave();
    b.enter("compound_statement".to_string(), Some("body".to_string()), true, 19, 29);
    b.enter("function_call_expression".to_string(), None, true, 21, 26);
    b.enter("name".to_string(), Some("function".to_string()), true, 21, 22);
    b.leave();
    b.enter("arguments".to_string(), Some("arguments".to_string()), true, 22, 26);
    b.enter("argument".to_string(), None, true, 23, 25);
    b.enter("variable_name".to_string(), None, true, 23, 25);
    b.enter("name".to_string(), None, true, 24, 25);
    b.leave();
    b.leave();
    b.leave();
    b.leave();
    b.leave();
    b.leave();
    b.leave();
    let tree = b.finish().expect("the tree is well formed");
    File::from_tree("sample.php", tree, SOURCE.to_string())
}

fn at(file: &File, index: usize) -> Cursor<'_> {
    Cursor::new(file, index).expect("the node exists")
}

#[test]
fn root_cursor_reads_kind_and_text() {
    let source = "<?php $x;".to_string();
    let nodes = vec![
        node("program", None, true, 0, 9, 0, 3),
        node("php_tag", None, true, 0, 5, 0, 2),
        node("variable_name", None, true, 6, 8, 0, 3),
    ];
    let tree = SyntaxTree::new(nodes).expect("well formed");
    let file = File::from_tree("a.php", tree, source);
    let mut cursor = Cursor::from_file(&file);
    assert_eq!(cursor.kind(), "program");
    assert_eq!(cursor.filename(), "a.php");
    assert!(cursor.goto_first_child());
    assert_eq!(cursor.kind(), "php_tag");
    assert!(cursor.goto_next_sibling());
    assert_eq!(cursor.to_str(), "$x");
    assert_eq!(cursor.to_string(), "$x".to_string());
    assert!(!cursor.goto_next_sibling());
    assert_eq!(cursor.raw_cursor(), 2);
    assert!(cursor.goto_parent());
    assert_eq!(cursor.kind(), "program");
    assert!(!cursor.goto_parent());
}

#[test]
fn arenas_that_are_no_trees_are_refused() {
    assert!(SyntaxTree::new(vec![]).is_none());
    // the root does not span the arena
    assert!(SyntaxTree::new(vec![
        node("a", None, true, 0, 0, 0, 1),
        node("b", None, true, 0, 0, 0, 2),
    ])
    .is_none());
    // a child that names the wrong parent
    assert!(SyntaxTree::new(vec![
        node("a", None, true, 0, 0, 0, 3),
        node("b", None, true, 0, 0, 0, 3),
        node("c", None, true, 0, 0, 0, 3),
    ])
    .is_none());
    // a subtree that reaches beyond its parent
    assert!(SyntaxTree::new(vec![
        node("a", None, true, 0, 0, 0, 3),
        node("b", None, true, 0, 0, 0, 2),
        node("c", None, true, 0, 0, 1, 4),
    ])
    .is_none());
    // a node that is its own subtree's end
    assert!(SyntaxTree::new(vec![node("a", None, true, 0, 0, 0, 0)]).is_none());
    assert!(SyntaxTree::new(vec![node("a", None, true, 0, 0, 0, 1)]).is_some());
    let ok = SyntaxTree::new(vec![
        node("a", None, true, 0, 0, 0, 4),
        node("b", None, true, 0, 0, 0, 3),
        node("c", None, true, 0, 0, 1, 3),
        node("d", None, true, 0, 0, 0, 4),
    ]);
    assert_eq!(ok.expect("well formed").len(), 4);
}

#[test]
fn the_builder_lays_the_nodes_out_in_preorder() {
    let file = sample();
    let tree = file.tree();
    assert_eq!(tree.len(), 17);
    assert_eq!(tree.node(0).stop, 17);
    assert_eq!(tree.node(2).kind, "formal_parameters");
    assert_eq!(tree.node(2).parent, 0);
    assert_eq!(tree.node(2).stop, 10);
    assert_eq!(tree.node(7).parent, 2);
    assert_eq!(tree.node(10).kind, "compound_statement");
    assert_eq!(tree.node(10).parent, 0);
    assert_eq!(tree.node(16).parent, 15);
    assert_eq!(tree.node(16).stop, 17);
}

#[test]
fn a_builder_with_open_nodes_gives_no_tree() {
    let mut b = TreeBuilder::new();
    assert!(!b.leave());
    b.enter("a".to_string(), None, true, 0, 1);
    assert_eq!(b.depth(), 1);
    assert_eq!(b.len(), 1);
    assert!(b.finish().is_none());
    let mut two_roots = TreeBuilder::new();
    two_roots.enter("a".to_string(), None, true, 0, 1);
    assert!(two_roots.leave());
    two_roots.enter("b".to_string(), None, true, 0, 1);
    assert!(two_roots.leave());
    assert!(two_roots.finish().is_none());
    assert!(TreeBuilder::new().finish().is_none());
}

#[test]
fn text_is_cut_at_byte_offsets() {
    assert_eq!(slice_text("héllo", 0, 3), "hé");
    assert_eq!(slice_text("héllo", 3, 6), "llo");
    assert_eq!(slice_text("héllo", 0, 0), "");
    // not on a character boundary, backwards, or beyond the end
    assert_eq!(slice_text("héllo", 0, 2), "");
    assert_eq!(slice_text("héllo", 2, 3), "");
    assert_eq!(slice_text("héllo", 3, 1), "");
    assert_eq!(slice_text("héllo", 0, 7), "");
}

#[test]
fn navigation_fails_where_there_is_nowhere_to_go() {
    let file = sample();
    let mut leaf = at(&file, 1);
    assert!(!leaf.goto_first_child());
    assert_eq!(leaf.raw_cursor(), 1);
    let mut last = at(&file, 10);
    assert!(!last.goto_next_sibling());
    assert_eq!(last.raw_cursor(), 10);
    let mut root = at(&file, 0);
    assert!(!root.goto_parent());
    assert!(!root.goto_next_sibling());
    assert!(Cursor::new(&file, 17).is_none());
}

#[test]
fn goto_child_counts_named_children() {
    let file = sample();
    let mut c = at(&file, 2);
    assert!(c.goto_child(0));
    assert_eq!(c.raw_cursor(), 4);
    let mut c = at(&file, 2);
    assert!(c.goto_child(1));
    assert_eq!(c.raw_cursor(), 7);
    let mut c = at(&file, 2);
    assert!(!c.goto_child(2));
    assert_eq!(c.raw_cursor(), 2);
    let mut leaf = at(&file, 1);
    assert!(!leaf.goto_child(0));
}

#[test]
fn goto_field_finds_the_first_child_under_the_field() {
    let file = sample();
    let mut c = at(&file, 0);
    assert!(c.goto_field("body"));
    assert_eq!(c.kind(), "compound_statement");
    assert_eq!(c.field(), Some("body"));
    let mut c = at(&file, 0);
    assert!(!c.goto_field("condition"));
    assert_eq!(c.raw_cursor(), 0);
    let mut c = at(&file, 11);
    assert!(c.goto_field("arguments"));
    assert_eq!(c.raw_cursor(), 13);
}

#[test]
fn get_index_is_the_position_among_named_siblings() {
    let file = sample();
    assert_eq!(at(&file, 0).get_index(), 0);
    assert_eq!(at(&file, 3).get_index(), 0);
    assert_eq!(at(&file, 4).get_index(), 0);
    assert_eq!(at(&file, 7).get_index(), 1);
    assert_eq!(at(&file, 10).get_index(), 2);
    assert_eq!(at(&file, 14).get_index(), 0);
}

#[test]
fn name_is_the_text_of_the_naming_node() {
    let file = sample();
    assert_eq!(at(&file, 0).name(), Some("f".to_string()));
    assert_eq!(at(&file, 1).name(), Some("f".to_string()));
    assert_eq!(at(&file, 11).name(), Some("g".to_string()));
    // no child is a name: the first name below, in preorder
    assert_eq!(at(&file, 2).name(), Some("a".to_string()));
    assert_eq!(at(&file, 14).name(), Some("a".to_string()));
    assert_eq!(at(&file, 3).name(), None);
    assert_eq!(at(&file, 2).name_cursor().map(|c| c.raw_cursor()), Some(6));
    assert_eq!(at(&file, 10).find_below("argument").map(|c| c.raw_cursor()), Some(14));
    assert!(at(&file, 10).find_below("if_statement").is_none());
}

#[test]
fn a_direct_child_names_before_a_deeper_node() {
    let mut b = TreeBuilder::new();
    b.enter("member_call_expression".to_string(), None, true, 0, 9);
    b.enter("variable_name".to_string(), Some("object".to_string()), true, 0, 2);
    b.enter("name".to_string(), None, true, 1, 2);
    b.leave();
    b.leave();
    b.enter("name".to_string(), Some("name".to_string()), true, 4, 7);
    b.leave();
    b.leave();
    let file = File::from_tree("m.php", b.finish().expect("well formed"), "$o->run()".to_string());
    assert_eq!(at(&file, 0).name(), Some("run".to_string()));
}

fn events(mut t: Traversal) -> Vec<(bool, usize)> {
    let mut out = Vec::new();
    while let Some(event) = t.next() {
        match event {
            Order::Enter(c) => out.push((true, c.raw_cursor())),
            Order::Leave(c) => out.push((false, c.raw_cursor())),
        }
    }
    out
}

#[test]
fn a_traversal_enters_and_leaves_the_named_nodes_in_depth_first_order() {
    let file = sample();
    let found = events(at(&file, 2).traverse());
    assert_eq!(
        found,
        vec![
            (true, 2),
            (true, 4),
            (true, 5),
            (true, 6),
            (false, 6),
            (false, 5),
            (false, 4),
            (true, 7),
            (true, 8),
            (true, 9),
            (false, 9),
            (false, 8),
            (false, 7),
            (false, 2),
        ]
    );
    assert_eq!(events(file.traverse()).len(), 32);
    assert_eq!(events(at(&file, 1).traverse()), vec![(true, 1), (false, 1)]);
}

#[test]
fn a_concrete_traversal_reports_unnamed_nodes_too() {
    let file = sample();
    let found = events(Traversal::new_concrete(at(&file, 2)));
    assert_eq!(found.len(), 16);
    assert_eq!(found[1], (true, 3));
    assert_eq!(found[2], (false, 3));
    // an unnamed start is walked but not reported
    assert_eq!(events(Traversal::new(at(&file, 3))), vec![]);
}

#[test]
fn a_block_traversal_stops_at_its_bounds() {
    let mut b = TreeBuilder::new();
    b.enter("program".to_string(), None, true, 0, 0);
    b.enter("function_definition".to_string(), None, true, 0, 0);
    b.enter("name".to_string(), None, true, 0, 0);
    b.leave();
    b.leave();
    b.enter("expression_statement".to_string(), None, true, 0, 0);
    b.enter("name".to_string(), None, true, 0, 0);
    b.leave();
    b.leave();
    b.leave();
    let file = File::from_tree("b.php", b.finish().expect("well formed"), String::new());
    let found = events(at(&file, 0).traverse_block());
    assert_eq!(
        found,
        vec![(true, 0), (true, 1), (false, 1), (true, 3), (true, 4), (false, 4), (false, 3), (false, 0)]
    );
    // the start is gone into even if it is of a bounding kind
    let found = events(at(&file, 1).traverse_block());
    assert_eq!(found, vec![(true, 1), (true, 2), (false, 2), (false, 1)]);
    let found = events(Traversal::new_block(at(&file, 0), vec!["expression_statement"]));
    assert_eq!(found.len(), 8);
    assert_eq!(found[5], (true, 3));
    assert_eq!(found[6], (false, 3));
}

#[test]
fn pass_leaves_the_subtree_that_was_entered() {
    let file = sample();
    let mut t = at(&file, 0).traverse();
    let mut seen = Vec::new();
    while let Some(event) = t.next() {
        match event {
            Order::Enter(c) => {
                seen.push((true, c.raw_cursor()));
                if c.kind() == "formal_parameters" || c.kind() == "compound_statement" {
                    t.pass();
                }
            }
            Order::Leave(c) => {
                seen.push((false, c.raw_cursor()));
                t.pass();
            }
        }
    }
    assert_eq!(
        seen,
        vec![(true, 0), (true, 1), (false, 1), (true, 2), (false, 2), (true, 10), (false, 10), (false, 0)]
    );
    let mut fresh = at(&file, 0).traverse();
    fresh.pass();
    assert!(fresh.next().is_none());
}

#[test]
fn a_trace_yields_the_ancestors_up_to_the_root() {
    let file = sample();
    let mut trace = at(&file, 16).trace();
    let mut seen = Vec::new();
    while let Some(c) = trace.next() {
        seen.push(c.raw_cursor());
    }
    assert_eq!(seen, vec![15, 14, 13, 11, 10, 0]);
    assert!(trace.next().is_none());
    assert!(Trace::new(at(&file, 0)).next().is_none());
}

#[test]
fn the_parameters_are_the_variables_of_the_parameter_list() {
    let file = sample();
    let function = Resolved::new_function(at(&file, 0));
    let params: Vec<usize> = function.parameters().iter().map(|c| c.raw_cursor()).collect();
    assert_eq!(params, vec![5, 8]);
    assert_eq!(function.name(), "f".to_string());
    assert_eq!(function.dump_parameters(), "a b ".to_string());
    assert_eq!(function.cursor().raw_cursor(), 0);
    let root = Resolved::new_root(at(&file, 0));
    assert!(root.parameters().is_empty());
    assert_eq!(root.dump_parameters(), String::new());
    let nameless = Resolved::new_function(at(&file, 3));
    assert!(nameless.parameters().is_empty());
    assert_eq!(nameless.name(), String::new());
}

#[test]
fn cursors_are_told_by_file_name_and_node() {
    let one = sample();
    let other = sample();
    assert!(at(&one, 3).same(&at(&other, 3)));
    assert!(!at(&one, 3).same(&at(&one, 4)));
    assert!(at(&one, 3) == at(&other, 3));
    assert!(at(&one, 3) != at(&one, 4));
    let mut seen = std::collections::HashSet::new();
    assert!(seen.insert(at(&one, 3)));
    assert!(!seen.insert(at(&other, 3)));
    assert!(seen.insert(at(&one, 4)));
    assert!(seen.contains(&at(&other, 4)));
    assert_eq!(seen.len(), 2);
    let renamed = File::from_tree(
        "other.php",
        SyntaxTree::new(vec![node("a", None, true, 0, 0, 0, 1)]).expect("well formed"),
        String::new(),
    );
    assert!(!at(&one, 0).same(&at(&renamed, 0)));
    assert_eq!(renamed.name(), "other.php".to_string());
    assert_eq!(renamed.get_source(), "");
    assert_eq!(renamed.cursor().raw_cursor(), 0);
}

#[test]
fn php_source_is_parsed_into_a_tree() {
    let file = File::from_source("p.php", "<?php $x = $_GET[\"q\"];".to_string()).expect("parses");
    let root = file.cursor();
    assert_eq!(root.kind(), "program");
    assert_eq!(root.to_str(), "<?php $x = $_GET[\"q\"];");
    let assignment = root.find_below("assignment_expression").expect("an assignment");
    assert_eq!(assignment.to_str(), "$x = $_GET[\"q\"]");
    assert_eq!(assignment.name(), Some("x".to_string()));
    let mut left = assignment;
    assert!(left.goto_field("left"));
    assert_eq!(left.kind(), "variable_name");
    let mut right = assignment;
    assert!(right.goto_field("right"));
    assert_eq!(right.kind(), "subscript_expression");
    assert_eq!(right.name(), Some("_GET".to_string()));
}

#[test]
fn a_tree_is_dumped_as_indented_text() {
    let file = sample();
    let text = Dumper::dump_cursor(at(&file, 11));
    assert_eq!(
        text,
        "Kind: function_call_expression\n\
         \x20 Kind: name\n\
         \x20 Name: g\n\
         \x20 Field: function\n\
         \x20 Kind: arguments\n\
         \x20 Field: arguments\n\
         \x20   Kind: argument\n\
         \x20     Kind: variable_name\n\
         \x20       Kind: name\n\
         \x20       Name: a\n"
    );
    assert_eq!(Dumper::dump_cursor(at(&file, 3)), "");
    let both = Dumper::new(vec![&file, &file]).dump();
    let once = Dumper::dump_cursor(file.cursor());
    assert_eq!(both, format!("{}{}", once, once));
    assert_eq!(Dumper::new(vec![]).dump(), "");
}

#[test]
fn numbers_and_labels_are_written_out() {
    assert_eq!(decimal(0), "0");
    assert_eq!(decimal(7), "7");
    assert_eq!(decimal(10), "10");
    assert_eq!(decimal(4096), "4096");
    assert_eq!(decimal(usize::MAX), usize::MAX.to_string());
    assert_eq!(escape_quotes("a \"b\" c"), "a \\\"b\\\" c");
    assert_eq!(escape_quotes("é\""), "é\\\"");
    assert_eq!(escape_quotes(""), "");
    assert_eq!(indent(0), "");
    assert_eq!(indent(3), "      ");
}

#[test]
fn source_that_is_no_php_still_gives_a_tree() {
    let empty = File::from_source("e.php", String::new()).expect("a tree");
    assert_eq!(empty.cursor().kind(), "program");
    assert_eq!(empty.cursor().to_str(), "");
    let broken = File::from_source("b.php", "<?php function ( { $x = ; ".to_string()).expect("a tree");
    assert_eq!(broken.cursor().kind(), "program");
    assert!(broken.tree().len() > 1);
    let text = File::from_source("t.php", "just text, no code".to_string()).expect("a tree");
    assert_eq!(text.cursor().to_str(), "just text, no code");
    let wide = File::from_source("w.php", "<?php $é = 'ü'; echo $é;".to_string()).expect("a tree");
    let name = wide.cursor().find_below("variable_name").expect("a variable");
    assert_eq!(name.to_str(), "$é");
    assert_eq!(name.name(), Some("é".to_string()));
}

#[test]
fn a_parsed_tree_is_laid_out_as_the_walk_found_it() {
    let file = File::from_source("l.php", "<?php f($a, 1);".to_string()).expect("parses");
    let tree = file.tree();
    let n = tree.len();
    assert_eq!(tree.node(0).kind, "program");
    assert_eq!(tree.node(0).parent, 0);
    assert_eq!(tree.node(0).stop, n);
    for i in 1..n {
        let node = tree.node(i);
        let parent = tree.node(node.parent);
        assert!(node.parent < i);
        assert!(i < node.stop && node.stop <= parent.stop);
        assert!(parent.start <= node.start && node.end <= parent.end);
    }
    let call = file.cursor().find_below("function_call_expression").expect("a call");
    let arguments = call.find_below("arguments").expect("arguments");
    assert_eq!(tree.node(arguments.raw_cursor()).parent, call.raw_cursor());
    assert_eq!(tree.node(arguments.raw_cursor()).field, Some("arguments".to_string()));
    assert_eq!(arguments.stop(), call.stop());
    let first = arguments.find_below("argument").expect("an argument");
    assert_eq!(first.to_str(), "$a");
    let mut second = first;
    assert!(second.goto_next_sibling());
    assert_eq!(second.kind(), ",");
    assert!(!second.is_named());
    assert!(second.goto_next_sibling());
    assert_eq!(second.to_str(), "1");
    assert_eq!(second.get_index(), 1);
}
