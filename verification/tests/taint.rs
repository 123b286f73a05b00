use taint_analyzer::analyzer::taint::{Context, ContextStack, Scope, Taint, TaintKind, TaintList};
use taint_analyzer::text::{same_text, strip_quotes};
use taint_analyzer::tree::cursor::Cursor;
use taint_analyzer::tree::file::File;
use taint_analyzer::tree::parse::TreeBuilder;

fn parse(source: &str) -> File {
    File::from_source("t.php", source.to_string()).expect("the source parses")
}

fn first<'a>(file: &'a File, kind: &str) -> Cursor<'a> {
    file.cursor().find_below(kind).expect("a node of the kind")
}

fn scope(filename: Option<&str>, function: Option<&str>, class: Option<&str>) -> Scope {
    Scope {
        filename: filename.map(|s| s.to_string()),
        function: function.map(|s| s.to_string()),
        class: class.map(|s| s.to_string()),
    }
}

fn variable(name: &str, s: Scope) -> Taint {
    Taint { kind: TaintKind::Variable, name: name.to_string(), scope: s }
}

fn frame(kind: &str, name: &str) -> Context {
    Context::new(kind.to_string(), name.to_string())
}

#[test]
fn the_scope_of_a_node_is_its_file_and_outermost_function() {
    let file = parse("<?php function f($a) { function g() { $y; } $x; } $z;");
    let a = first(&file, "simple_parameter");
    let in_f = Scope::new(a);
    assert_eq!(in_f.filename, Some("t.php".to_string()));
    assert_eq!(in_f.function, Some("f".to_string()));
    assert_eq!(in_f.class, None);
    let inner = first(&file, "compound_statement").find_below("compound_statement").expect("a body");
    let in_g = Scope::new(inner.find_below("variable_name").expect("a variable"));
    assert_eq!(in_g.function, Some("f".to_string()));
    let top = Scope::new(file.cursor());
    assert_eq!(top.filename, Some("t.php".to_string()));
    assert_eq!(top.function, None);
    let global = Scope::new_global();
    assert_eq!(global.filename, None);
    assert_eq!(global.function, None);
    assert_eq!(global.class, None);
}

#[test]
fn a_scope_contains_what_agrees_in_every_part_it_has() {
    let here = scope(Some("a.php"), Some("f"), None);
    assert!(here.contains(&Scope::new_global()));
    assert!(here.contains(&scope(Some("a.php"), Some("f"), None)));
    assert!(here.contains(&scope(Some("a.php"), None, None)));
    assert!(here.contains(&scope(None, Some("f"), None)));
    assert!(!here.contains(&scope(Some("b.php"), Some("f"), None)));
    assert!(!here.contains(&scope(Some("a.php"), Some("g"), None)));
    assert!(!here.contains(&scope(Some("a.php"), Some("f"), Some("C"))));
    assert!(!scope(Some("a.php"), None, None).contains(&here));
    assert!(Scope::new_global().contains(&Scope::new_global()));
    assert!(!Scope::new_global().contains(&here));
    assert!(here.same(&scope(Some("a.php"), Some("f"), None)));
    assert!(!here.same(&scope(Some("a.php"), None, None)));
}

#[test]
fn taints_are_made_of_the_nodes_that_introduce_them() {
    let file = parse("<?php function f($a) { $x = $a; return $x; }");
    let source = Taint::new_source("_GET".to_string());
    assert_eq!(source.kind, TaintKind::Source);
    assert_eq!(source.name, "_GET");
    assert!(source.scope.same(&Scope::new_global()));

    let assignment = first(&file, "assignment_expression");
    let assigned = Taint::new_variable(assignment);
    assert_eq!(assigned.kind, TaintKind::Variable);
    assert_eq!(assigned.name, "x");
    assert_eq!(assigned.scope.function, Some("f".to_string()));
    assert_eq!(assigned.scope.filename, Some("t.php".to_string()));

    let param = first(&file, "formal_parameters").find_below("variable_name").expect("a variable");
    let bound = Taint::new_param(param);
    assert_eq!(bound.kind, TaintKind::Param);
    assert_eq!(bound.name, "a");
    assert_eq!(bound.scope.function, Some("f".to_string()));

    let statement = first(&file, "return_statement");
    let returned = Taint::new_return(statement);
    assert_eq!(returned.kind, TaintKind::Return);
    assert_eq!(returned.name, "return f");
    assert!(returned.scope.same(&Scope::new_global()));

    let outside = parse("<?php return $x;");
    assert_eq!(Taint::new_return(first(&outside, "return_statement")).name, "return ");

    assert_eq!(Taint::new(param, TaintKind::Param).kind, TaintKind::Param);
    assert_eq!(Taint::new(param, TaintKind::Global).kind, TaintKind::Global);
    assert_eq!(Taint::new(param, TaintKind::Return).kind, TaintKind::Variable);
    assert_eq!(Taint::new(param, TaintKind::Return).name, "a");
}

#[test]
fn from_trace_takes_returns_and_assignments_only() {
    let file = parse("<?php function f($a) { $x = $a; return $x; }");
    let of_assignment = Taint::from_trace(first(&file, "assignment_expression")).expect("a taint");
    assert_eq!(of_assignment.kind, TaintKind::Variable);
    assert_eq!(of_assignment.name, "x");
    let of_return = Taint::from_trace(first(&file, "return_statement")).expect("a taint");
    assert_eq!(of_return.kind, TaintKind::Return);
    assert_eq!(of_return.name, "return f");
    assert_eq!(
        Taint::from_trace(first(&file, "formal_parameters")).err(),
        Some("not a valid trace taint")
    );
    // an assignment that names no variable passes no taint on
    let mut b = TreeBuilder::new();
    b.enter("assignment_expression".to_string(), None, true, 0, 1);
    b.leave();
    let nameless = File::from_tree("n.php", b.finish().expect("well formed"), "=".to_string());
    assert_eq!(Taint::from_trace(nameless.cursor()).err(), Some("not a valid trace taint"));
}

#[test]
fn a_taint_list_is_a_set() {
    let mut list = TaintList::new();
    let x = variable("x", scope(Some("a.php"), None, None));
    list.push(x.clone());
    list.push(x.clone());
    list.push(Taint::new_source("x".to_string()));
    list.push(Taint { kind: TaintKind::Return, name: "return f".to_string(), scope: Scope::new_global() });
    assert_eq!(list.return_taints().len(), 1);
    // the first by the name, whatever it is
    let found = list.get(&Taint::new_source("x".to_string())).expect("a taint by the name");
    assert_eq!(found.kind, TaintKind::Variable);
    assert!(list.get(&Taint::new_source("y".to_string())).is_none());
    assert!(list.contains(&Taint::new_source("return f".to_string())));
    assert!(!list.contains(&Taint::new_source("y".to_string())));
    list.remove(&x);
    assert_eq!(list.get(&x).expect("the source stays").kind, TaintKind::Source);
    list.remove(&x);
    assert!(list.contains(&x));
}

#[test]
fn clearing_a_scope_leaves_no_taint_of_it_to_be_found() {
    let in_f = scope(Some("a.php"), Some("f"), None);
    let mut list = TaintList::new();
    list.push(Taint { kind: TaintKind::Param, name: "a".to_string(), scope: in_f.clone() });
    list.push(variable("a", scope(Some("a.php"), None, None)));
    list.push(variable("b", in_f.clone()));
    list.clear_scope(&in_f);
    let left = list.get(&Taint::new_source("a".to_string())).expect("the other a");
    assert!(!left.scope.same(&in_f));
    assert_eq!(left.kind, TaintKind::Variable);
    assert!(list.get(&Taint::new_source("b".to_string())).is_none());
    list.clear_scope(&in_f);
    assert!(list.contains(&Taint::new_source("a".to_string())));
}

#[test]
fn clearing_the_returns_keeps_the_rest() {
    let mut list = TaintList::new();
    list.push(Taint::new_source("_GET".to_string()));
    list.push(Taint { kind: TaintKind::Return, name: "return f".to_string(), scope: Scope::new_global() });
    list.push(Taint { kind: TaintKind::Return, name: "return g".to_string(), scope: Scope::new_global() });
    let found: Vec<String> = list.return_taints().iter().map(|t| t.name.clone()).collect();
    assert_eq!(found, vec!["return f".to_string(), "return g".to_string()]);
    list.clear_returns();
    assert!(list.return_taints().is_empty());
    assert!(list.contains(&Taint::new_source("_GET".to_string())));
}

#[test]
fn a_frame_that_is_on_the_stack_is_refused() {
    let mut stack = ContextStack::new();
    assert!(stack.push(frame("function_definition", "a")));
    assert!(stack.push(frame("function_definition", "b")));
    // the cycle a -> b -> a is refused, and nothing goes on the stack
    assert!(!stack.push(frame("function_definition", "a")));
    assert!(!stack.push(frame("function_definition", "b")));
    assert_eq!(stack.len(), 2);
    assert!(stack.holds(&frame("function_definition", "a")));
    assert!(!stack.holds(&frame("function_definition", "c")));
    assert_eq!(stack.pop().expect("b").name, "b");
    assert!(stack.push(frame("function_definition", "b")));
    assert_eq!(stack.pop().expect("b").name, "b");
    assert_eq!(stack.pop().expect("a").name, "a");
    assert!(stack.pop().is_none());
    assert_eq!(stack.len(), 0);
    // same name, other kind: not the same frame
    assert!(stack.push(frame("function_definition", "a")));
    assert!(stack.push(frame("method_declaration", "a")));
    assert_eq!(stack.len(), 2);
    // an empty frame is a frame like any other
    assert!(stack.push(frame("", "")));
    assert!(!stack.push(frame("", "")));
    assert_eq!(stack.len(), 3);
    assert!(frame("k", "n").same(&frame("k", "n")));
    assert!(!frame("k", "n").same(&frame("k", "m")));
}

#[test]
fn a_second_push_of_a_frame_leaves_one_frame() {
    let mut stack = ContextStack::new();
    assert!(stack.push(frame("function_definition", "r")));
    assert!(!stack.push(frame("function_definition", "r")));
    assert_eq!(stack.len(), 1);
    let top = stack.pop().expect("the frame");
    assert_eq!(top.kind, "function_definition");
    assert_eq!(top.name, "r");
    assert!(stack.pop().is_none());
}

#[test]
fn stacks_are_compared_as_far_as_both_reach() {
    let mut outer = ContextStack::new();
    outer.push(frame("if_statement", "if_statement"));
    let mut inner = outer.clone();
    inner.push(frame("function_definition", "f"));
    let mut other = ContextStack::new();
    other.push(frame("function_definition", "f"));
    let mut beside = outer.clone();
    beside.push(frame("function_definition", "g"));
    assert!(outer.contains(&inner));
    assert!(outer.contains(&outer));
    assert!(inner.contains(&outer));
    assert!(!outer.contains(&other));
    assert!(!inner.contains(&beside));
    assert!(!beside.contains(&inner));
    assert!(ContextStack::new().contains(&outer));
    assert!(outer.contains(&ContextStack::new()));
}

#[test]
fn quotes_are_stripped_from_callback_names() {
    assert_eq!(strip_quotes("\"cb\""), "cb");
    assert_eq!(strip_quotes("'cb'"), "cb");
    assert_eq!(strip_quotes("'a\"b'"), "a\"b");
    assert_eq!(strip_quotes("'é'"), "é");
    assert_eq!(strip_quotes("'a\"b'c"), "'a\"b'c");
    assert_eq!(strip_quotes("plain"), "plain");
    assert_eq!(strip_quotes("''"), "");
    assert_eq!(strip_quotes("'"), "'");
    assert_eq!(strip_quotes(""), "");
    assert!(same_text("a", "a"));
    assert!(!same_text("a", "ab"));
    assert!(!same_text("é", "e"));
}
