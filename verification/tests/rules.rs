use taint_analyzer::graph::rules::{Rules, VertKind, Vuln, Waypoint};
use taint_analyzer::tree::cursor::Cursor;
use taint_analyzer::tree::file::File;

fn names(list: &[(&str, Option<Vec<u32>>)]) -> Vec<(String, Option<Vec<u32>>)> {
    list.iter().map(|(n, a)| (n.to_string(), a.clone())).collect()
}

fn texts(list: &[&str]) -> Vec<String> {
    list.iter().map(|n| n.to_string()).collect()
}

fn sqli() -> Vuln {
    Vuln::new(
        names(&[("mysqli_query", Some(vec![1])), ("echo_statement", None)]),
        texts(&["_GET", "_POST"]),
        names(&[("intval", None), ("(int)", None)]),
        Some(vec![Waypoint::new(Some(vec![0]))]),
    )
}

fn first<'a>(file: &'a File, kind: &str) -> Cursor<'a> {
    file.cursor().find_below(kind).expect("a node of the kind")
}

#[test]
fn a_class_knows_its_names() {
    let vuln = sqli();
    assert!(vuln.has_sink("mysqli_query"));
    assert!(vuln.has_sink("echo_statement"));
    assert!(!vuln.has_sink("intval"));
    assert!(vuln.has_source("_POST"));
    assert!(!vuln.has_source("_COOKIE"));
    assert!(vuln.has_sanitizer("intval"));
    assert!(!vuln.has_sanitizer("mysqli_query"));
    assert_eq!(vuln.sinks().len(), 2);
    assert_eq!(vuln.sinks()[0].1, Some(vec![1]));
    assert_eq!(vuln.sources(), &texts(&["_GET", "_POST"]));
    assert_eq!(vuln.sanitizers().len(), 2);
    assert_eq!(vuln.waypoints().as_ref().expect("listed")[0].args, Some(vec![0]));
}

#[test]
fn nodes_are_identified_by_kind_and_name() {
    let file = File::from_source(
        "r.php",
        "<?php echo intval($_GET[\"q\"]); mysqli_query((int) $y); other($z);".to_string(),
    )
    .expect("parses");
    let vuln = sqli();
    let echo = first(&file, "echo_statement");
    // by its kind a sink, by its name (intval) a sanitizer: the sanitizer wins
    assert_eq!(vuln.identify(echo), Some(VertKind::Sanitizer));
    let intval = first(&file, "function_call_expression");
    assert_eq!(vuln.identify(intval), Some(VertKind::Sanitizer));
    let get = first(&file, "subscript_expression");
    assert_eq!(vuln.identify(get), Some(VertKind::Source));
    let cast = first(&file, "cast_type");
    assert_eq!(cast.to_str(), "int");
    assert_eq!(vuln.identify(cast), Some(VertKind::Sanitizer));
    let query = first(&file, "cast_expression").find_below("variable_name").expect("a variable");
    assert_eq!(vuln.identify(query), None);
    let plain = Vuln::new(names(&[("mysqli_query", None)]), texts(&[]), names(&[]), None);
    let mut statement = file.cursor();
    assert!(statement.goto_child(2));
    assert_eq!(plain.identify(statement), Some(VertKind::Sink));
    assert_eq!(plain.identify(intval), None);
    assert_eq!(plain.identify(cast), None);
}

#[test]
fn the_sources_of_a_rule_set_are_those_of_the_set_and_of_its_classes() {
    let other = Vuln::new(names(&[("system", None)]), texts(&["_COOKIE", "_GET"]), names(&[]), None);
    let rules = Rules::new(
        vec![("sqli".to_string(), sqli()), ("rce".to_string(), other)],
        texts(&["_REQUEST", "_GET", "_REQUEST"]),
        texts(&["add_action"]),
    );
    assert_eq!(rules.sources(), texts(&["_REQUEST", "_GET", "_POST", "_COOKIE"]));
    assert!(rules.has_source("_COOKIE"));
    assert!(rules.has_source("_REQUEST"));
    assert!(!rules.has_source("_FILES"));
    assert_eq!(rules.hooks(), &texts(&["add_action"]));
    assert!(rules.has_hook("add_action"));
    assert!(!rules.has_hook("add_filter"));
    assert_eq!(rules.vulns().len(), 2);
    assert_eq!(rules.vulns()[1].0, "rce");
}

#[test]
fn the_sinks_of_a_rule_set_hold_each_name_once() {
    let other = Vuln::new(
        names(&[("system", None), ("mysqli_query", Some(vec![0, 2]))]),
        texts(&[]),
        names(&[]),
        None,
    );
    let rules = Rules::new(
        vec![("sqli".to_string(), sqli()), ("rce".to_string(), other)],
        texts(&[]),
        texts(&[]),
    );
    assert_eq!(
        rules.sinks(),
        names(&[("mysqli_query", Some(vec![0, 2])), ("echo_statement", None), ("system", None)])
    );
    assert!(Rules::new(vec![], texts(&[]), texts(&[])).sinks().is_empty());
    assert!(Rules::new(vec![], texts(&[]), texts(&[])).sources().is_empty());
}
