use taint_analyzer::analyzer::analyzer::Analyzer;
use taint_analyzer::analyzer::taint::{Scope, Taint, TaintKind};
use taint_analyzer::graph::graph::Graph;
use taint_analyzer::graph::rules::{Rules, Vuln};
use taint_analyzer::tree::cursor::Cursor;
use taint_analyzer::tree::file::File;

fn names(list: &[&str]) -> Vec<(String, Option<Vec<u32>>)> {
    list.iter().map(|n| (n.to_string(), None)).collect()
}

fn texts(list: &[&str]) -> Vec<String> {
    list.iter().map(|n| n.to_string()).collect()
}

fn rules(sinks: &[&str], sanitizers: &[&str], hooks: &[&str]) -> Rules {
    let vuln = Vuln::new(names(sinks), texts(&["_GET"]), names(sanitizers), None);
    Rules::new(vec![("sqli".to_string(), vuln)], texts(&["_GET"]), texts(hooks))
}

fn parse(source: &str) -> File {
    File::from_source("test.php", source.to_string()).expect("the source parses")
}

fn describe(found: &[Vec<Cursor>]) -> Vec<Vec<(String, String)>> {
    let mut out: Vec<Vec<(String, String)>> = found
        .iter()
        .map(|stack| stack.iter().map(|c: &Cursor| (c.kind().to_string(), c.to_string())).collect())
        .collect();
    out.sort();
    out
}

fn witnesses(source: &str, rules: &Rules) -> Vec<Vec<(String, String)>> {
    let file = parse(source);
    let mut analyzer = Analyzer::new(vec![&file], rules);
    let graph = analyzer.graph();
    describe(&graph.match_rules(rules))
}

fn step(kind: &str, text: &str) -> (String, String) {
    (kind.to_string(), text.to_string())
}

#[test]
fn direct_flow_is_reported() {
    let found = witnesses(
        "<?php $x = $_GET[\"q\"]; mysqli_query($x);",
        &rules(&["mysqli_query"], &[], &[]),
    );
    assert_eq!(
        found,
        vec![vec![
            step("function_call_expression", "mysqli_query($x)"),
            step("assignment_expression", "$x = $_GET[\"q\"]"),
        ]]
    );
}

#[test]
fn sanitized_flow_is_not_reported() {
    let found = witnesses(
        "<?php $x = intval($_GET[\"q\"]); mysqli_query($x);",
        &rules(&["mysqli_query"], &["intval"], &[]),
    );
    assert!(found.is_empty());
    // without the sanitizer in the rules the flow is found
    let found = witnesses(
        "<?php $x = intval($_GET[\"q\"]); mysqli_query($x);",
        &rules(&["mysqli_query"], &[], &[]),
    );
    assert_eq!(found.len(), 1);
}

#[test]
fn a_cast_can_be_a_sanitizer() {
    let source = "<?php $x = (int) $_GET[\"q\"]; mysqli_query($x);";
    assert!(witnesses(source, &rules(&["mysqli_query"], &["(int)"], &[])).is_empty());
    assert_eq!(witnesses(source, &rules(&["mysqli_query"], &["(string)"], &[])).len(), 1);
}

#[test]
fn flow_through_a_parameter_is_reported() {
    let found = witnesses(
        "<?php function w($a){ mysqli_query($a); } w($_GET[\"q\"]);",
        &rules(&["mysqli_query"], &[], &[]),
    );
    assert_eq!(
        found,
        vec![vec![step("function_call_expression", "mysqli_query($a)"), step("variable_name", "$a")]]
    );
}

#[test]
fn the_parameter_vertex_hangs_from_the_call_site() {
    let file = parse("<?php function w($a){ mysqli_query($a); } w($_GET[\"q\"]);");
    let rules = rules(&["mysqli_query"], &[], &[]);
    let mut analyzer = Analyzer::new(vec![&file], &rules);
    let graph = analyzer.graph();
    let param = file.cursor().find_below("formal_parameters").expect("parameters").find_below("variable_name").expect("a");
    let vertex = graph.get(&param).expect("the parameter has a vertex");
    assert_eq!(vertex.assign().as_ref().expect("assigns").kind, TaintKind::Param);
    assert_eq!(vertex.context().len(), 1);
    let sources = vertex.sources();
    assert_eq!(sources.len(), 1);
    assert_eq!(sources[0].0.to_str(), "w($_GET[\"q\"])");
    assert_eq!(sources[0].1.source().name, "_GET");
    // what belongs to the call was cleared when it was left
    let bound = Taint::new_param(param);
    assert_eq!(graph.leaves(&bound).map(|l| l.len()), Some(0));
}

#[test]
fn a_returned_taint_is_recorded_at_the_return() {
    let source = "<?php function g(){ return $_GET[\"q\"]; } $x = g(); mysqli_query($x);";
    let file = parse(source);
    let rules = rules(&["mysqli_query"], &[], &[]);
    let mut analyzer = Analyzer::new(vec![&file], &rules);
    let graph = analyzer.graph();
    let statement = file.cursor().find_below("return_statement").expect("a return");
    let vertex = graph.get(&statement).expect("the return has a vertex");
    let assign = vertex.assign().as_ref().expect("assigns");
    assert_eq!(assign.kind, TaintKind::Return);
    assert_eq!(assign.name, "return g");
    assert!(assign.scope.same(&Scope::new_global()));
    // a call without tainted arguments does not pass the return on
    assert!(graph.get(&file.cursor().find_below("assignment_expression").expect("an assignment")).is_none());
    assert!(describe(&graph.match_rules(&rules)).is_empty());
}

#[test]
fn a_returned_taint_is_followed_from_a_call_with_a_tainted_argument() {
    let source = "<?php function g($p){ return $p; } $x = g($_GET[\"q\"]); mysqli_query($x);";
    let found = witnesses(source, &rules(&["mysqli_query"], &[], &[]));
    assert_eq!(
        found,
        vec![vec![
            step("function_call_expression", "mysqli_query($x)"),
            step("assignment_expression", "$x = g($_GET[\"q\"])"),
            step("return_statement", "return $p;"),
            step("variable_name", "$p"),
        ]]
    );
}

#[test]
fn recursion_terminates() {
    let source = "<?php function r($x){ return r($x); } mysqli_query(r($_GET[\"q\"]));";
    let file = parse(source);
    let rules = rules(&["mysqli_query"], &[], &[]);
    let mut analyzer = Analyzer::new(vec![&file], &rules);
    let graph = analyzer.graph();
    // the first activation binds the parameter; the second is refused
    let param = file.cursor().find_below("formal_parameters").expect("parameters").find_below("variable_name").expect("x");
    let vertex = graph.get(&param).expect("the parameter has a vertex");
    assert_eq!(vertex.sources().len(), 1);
    assert_eq!(vertex.sources()[0].0.to_str(), "r($_GET[\"q\"])");
    assert_eq!(vertex.context().len(), 1);
    // the trace of the parameter ends at the call that is refused
    let statement = file.cursor().find_below("return_statement").expect("a return");
    let inner = statement.find_below("function_call_expression").expect("the inner call");
    let refused = graph.get(&inner).expect("the inner call has a vertex");
    assert!(refused.assign().is_none());
    assert_eq!(refused.parents().len(), 1);
    assert_eq!(refused.parents()[0].0.to_str(), "$x");
    assert_eq!(refused.context().len(), 1);
    assert!(graph.get(&statement).is_none());
    // the trace of the source ends at the outer call, in the context it began in
    let mut last = file.cursor();
    assert!(last.goto_child(2));
    let outer = last.find_below("arguments").expect("arguments").find_below("function_call_expression").expect("the call of r");
    assert_eq!(graph.get(&outer).expect("the outer call has a vertex").context().len(), 0);
    assert!(describe(&graph.match_rules(&rules)).is_empty());
}

#[test]
fn a_call_leaves_the_context_as_it_found_it() {
    // f is entered from inside a conditional; after the call the vertices
    // arise in the context of the conditional alone, and at the top in none
    let source = "<?php function f($a){ if ($a) { $b = $a; } f($a); return $b; }
        if ($c) { $x = f($_GET[\"q\"]); $y = $x; } $z = $_GET[\"r\"]; f($z); $w = $_GET[\"s\"];";
    let file = parse(source);
    let rules = rules(&["mysqli_query"], &[], &[]);
    let mut analyzer = Analyzer::new(vec![&file], &rules);
    let graph = analyzer.graph();
    let mut depths: Vec<(String, usize)> = graph
        .nodes()
        .iter()
        .map(|(c, v)| (c.to_string(), v.context().len()))
        .collect();
    depths.sort();
    let depth = |text: &str| depths.iter().find(|d| d.0 == text).map(|d| d.1);
    assert_eq!(depth("$x = f($_GET[\"q\"])"), Some(1));
    assert_eq!(depth("$y = $x"), Some(1));
    // inside f: the frame of f and that of the outer conditional; the
    // conditional in f is refused while the outer one is open
    assert_eq!(depth("$b = $a"), Some(2));
    assert_eq!(depth("$z = $_GET[\"r\"]"), Some(0));
    assert_eq!(depth("$w = $_GET[\"s\"]"), Some(0));
}

#[test]
fn mutual_recursion_terminates() {
    let source = "<?php function a($x){ b($x); } function b($y){ a($y); mysqli_query($y); } a($_GET[\"q\"]);";
    let found = witnesses(source, &rules(&["mysqli_query"], &[], &[]));
    assert_eq!(
        found,
        vec![vec![
            step("function_call_expression", "mysqli_query($y)"),
            step("variable_name", "$y"),
            step("variable_name", "$x"),
        ]]
    );
}

#[test]
fn hook_dispatch_reaches_the_callback() {
    let found = witnesses(
        "<?php add_action(\"init\",\"cb\"); function cb(){ echo $_GET[\"q\"]; }",
        &rules(&["echo_statement"], &[], &["add_action"]),
    );
    assert_eq!(found, vec![vec![step("echo_statement", "echo $_GET[\"q\"];")]]);
    // without the hook the callback is never entered
    let found = witnesses(
        "<?php add_action(\"init\",\"cb\"); function cb(){ echo $_GET[\"q\"]; }",
        &rules(&["echo_statement"], &[], &[]),
    );
    assert!(found.is_empty());
}

#[test]
fn a_condition_passes_no_taint_on() {
    let source = "<?php if ($_GET[\"q\"]) { $x = 1; } mysqli_query($x);";
    assert!(witnesses(source, &rules(&["mysqli_query"], &[], &[])).is_empty());
}

#[test]
fn the_target_of_an_assignment_is_no_read() {
    let file = parse("<?php $_GET = 1; $o->p = 2;");
    let rules = rules(&["mysqli_query"], &[], &[]);
    let mut analyzer = Analyzer::new(vec![&file], &rules);
    let left = file.cursor().find_below("variable_name").expect("the target");
    assert_eq!(left.to_str(), "$_GET");
    assert!(analyzer.get_taint(left).is_none());
    assert!(analyzer.get_taint(file.cursor()).is_none());
    assert_eq!(analyzer.graph().nodes().len(), 0);
    let read = parse("<?php echo $_GET; echo $other;");
    let mut analyzer = Analyzer::new(vec![&read], &rules);
    let first = read.cursor().find_below("variable_name").expect("the read");
    let found = analyzer.get_taint(first).expect("a source is read");
    assert_eq!(found.kind, TaintKind::Source);
    assert_eq!(found.name, "_GET");
    assert_eq!(analyzer.graph().nodes().len(), 1);
}

#[test]
fn a_variable_of_another_function_is_not_read() {
    let source = "<?php function f($a){ $x = $a; } function g(){ mysqli_query($x); } f($_GET[\"q\"]); g();";
    assert!(witnesses(source, &rules(&["mysqli_query"], &[], &[])).is_empty());
}

#[test]
fn callables_are_resolved_by_name_across_files() {
    let library = File::from_source("lib.php", "<?php function w($a){ mysqli_query($a); }".to_string())
        .expect("parses");
    let main = File::from_source("main.php", "<?php w($_GET[\"q\"]);".to_string()).expect("parses");
    let rules = rules(&["mysqli_query"], &[], &[]);
    let mut analyzer = Analyzer::new(vec![&main, &library], &rules);
    let found = describe(&analyzer.graph().match_rules(&rules));
    assert_eq!(
        found,
        vec![vec![step("function_call_expression", "mysqli_query($a)"), step("variable_name", "$a")]]
    );
    assert!(analyzer.resolve("w").is_some());
    assert!(analyzer.resolve("ROOT").is_some());
    assert_eq!(analyzer.resolve("ROOT").expect("the last program").cursor().filename(), "lib.php");
    assert!(analyzer.resolve("v").is_none());
}

fn run(file: &File, rules: &Rules) -> Vec<Vec<(String, String)>> {
    let mut analyzer = Analyzer::new(vec![file], rules);
    let graph: &Graph = analyzer.graph();
    describe(&graph.match_rules(rules))
}

#[test]
fn two_analyses_of_the_same_files_find_the_same() {
    let source = "<?php function w($a){ if ($a) { $b = $a; } mysqli_query($b); echo $a; return $b; }
        $x = w($_GET[\"q\"]); mysqli_query(intval($x)); w($x);";
    let file = parse(source);
    let rules = rules(&["mysqli_query", "echo_statement"], &["intval"], &[]);
    let first = run(&file, &rules);
    let second = run(&file, &rules);
    assert!(!first.is_empty());
    assert_eq!(first, second);
    // analyzing twice with one analyzer changes nothing either
    let mut analyzer = Analyzer::new(vec![&file], &rules);
    let once = describe(&analyzer.graph().match_rules(&rules));
    let again = describe(&analyzer.graph().match_rules(&rules));
    assert_eq!(once, first);
    assert_eq!(again.len() >= once.len(), true);
}

#[test]
fn an_argument_beyond_the_parameters_passes_nothing_on() {
    let source = "<?php function w($a){ mysqli_query($a); } w(1, $_GET[\"q\"]);";
    let file = parse(source);
    let rules = rules(&["mysqli_query"], &[], &[]);
    let mut analyzer = Analyzer::new(vec![&file], &rules);
    let graph = analyzer.graph();
    assert!(describe(&graph.match_rules(&rules)).is_empty());
    let param = file.cursor().find_below("formal_parameters").expect("parameters").find_below("variable_name").expect("a");
    assert!(graph.get(&param).is_none());
    // the trace ended at the call, which resolves
    let mut statement = file.cursor();
    assert!(statement.goto_child(2));
    let call = statement.find_below("function_call_expression").expect("the call");
    let vertex = graph.get(&call).expect("the call has a vertex");
    assert!(vertex.assign().is_none());
    assert_eq!(vertex.sources().len(), 1);
}

#[test]
fn a_call_that_does_not_resolve_is_a_waypoint() {
    let source = "<?php $x = trim(htmlspecialchars($_GET[\"q\"]));";
    let file = parse(source);
    let rules = rules(&["mysqli_query"], &[], &[]);
    let mut analyzer = Analyzer::new(vec![&file], &rules);
    let graph = analyzer.graph();
    let assignment = file.cursor().find_below("assignment_expression").expect("an assignment");
    let vertex = graph.get(&assignment).expect("the assignment has a vertex");
    let segment: Vec<String> =
        vertex.sources()[0].1.segments().iter().map(|c| c.name().unwrap_or_default()).collect();
    assert_eq!(segment, vec!["htmlspecialchars".to_string(), "trim".to_string(), "x".to_string()]);
    assert_eq!(vertex.sources()[0].0.to_str(), "$x = trim(htmlspecialchars($_GET[\"q\"]))");
}

#[test]
fn every_leaf_is_a_vertex_that_assigns_its_taint() {
    let source = "<?php $x = $_GET[\"a\"]; if ($c) { $x = $_GET[\"b\"]; } $y = $x; echo $y;";
    let file = parse(source);
    let rules = rules(&["echo_statement"], &[], &[]);
    let mut analyzer = Analyzer::new(vec![&file], &rules);
    let graph = analyzer.graph();
    let mut seen = 0;
    for (cursor, vertex) in graph.nodes().iter() {
        for (parent, _) in vertex.parents().iter() {
            assert!(graph.get(parent).is_some());
        }
        if let Some(taint) = vertex.assign() {
            for leaf in graph.leaves(taint).expect("the taint has leaves").iter() {
                let at = graph.get(leaf).expect("a leaf is a vertex");
                assert!(at.assign().as_ref().expect("a leaf assigns") == taint);
                seen += 1;
            }
        }
        assert!(graph.get(cursor).is_some());
    }
    assert!(seen >= 3);
    // the assignment in the conditional took the place of the one around it
    let x = Taint {
        kind: TaintKind::Variable,
        name: "x".to_string(),
        scope: Scope { filename: Some("test.php".to_string()), function: None, class: None },
    };
    let leaves: Vec<String> = graph.leaves(&x).expect("x has leaves").iter().map(|c| c.to_string()).collect();
    assert_eq!(leaves, vec!["$x = $_GET[\"b\"]".to_string()]);
    assert_eq!(describe(&graph.match_rules(&rules)).len(), 1);
}

#[test]
fn nested_conditionals_leave_the_context_as_it_was() {
    let source = "<?php function f($a){ if ($a) { if ($a) { $b = $a; } } mysqli_query($b); f($b); } f($_GET[\"q\"]);";
    let found = witnesses(source, &rules(&["mysqli_query"], &[], &[]));
    assert_eq!(
        found,
        vec![vec![
            step("function_call_expression", "mysqli_query($b)"),
            step("assignment_expression", "$b = $a"),
            step("variable_name", "$a"),
        ]]
    );
}

#[test]
fn a_program_with_classes_and_closures_is_analyzed() {
    let source = r#"<?php
/**
 * Plugin Name: Sample
 */
namespace App;

class Repo {
    private $db;
    public function find($id) {
        if ($id > 0) {
            $sql = "SELECT * FROM t WHERE id = " . $id;
            return mysqli_query($this->db, $sql);
        } elseif ($id === 0) {
            return null;
        } else {
            foreach ([1, 2] as $n) {
                echo $n;
            }
        }
        return self::fallback((string) $id);
    }
    public static function fallback($x) {
        $f = function ($y) use ($x) { return $x . $y; };
        return $f("é");
    }
}

function handle() {
    $repo = new Repo();
    $id = $_GET['id'] ?? $_POST["id"];
    echo htmlspecialchars($repo->find($id));
    Repo::fallback($_GET['x']);
}
add_action('init', 'handle');
add_action("init", "");
handle();
?>
<p><?= $_GET['q'] ?></p>
"#;
    let file = parse(source);
    let rules = Rules::new(
        vec![(
            "sqli".to_string(),
            Vuln::new(
                names(&["mysqli_query", "echo_statement"]),
                texts(&["_GET"]),
                names(&["htmlspecialchars", "(string)"]),
                None,
            ),
        )],
        texts(&["_GET", "_POST"]),
        texts(&["add_action"]),
    );
    let mut analyzer = Analyzer::new(vec![&file], &rules);
    assert!(analyzer.resolve("find").is_none());
    assert!(analyzer.resolve("handle").is_none());
    let first = describe(&analyzer.graph().match_rules(&rules));
    assert!(analyzer.resolve("find").is_some());
    assert!(analyzer.resolve("fallback").is_some());
    assert!(analyzer.resolve("handle").is_some());
    assert!(analyzer.resolve("Repo").is_none());
    let second = run(&file, &rules);
    assert_eq!(first, second);
    for witness in first.iter() {
        assert!(!witness.is_empty());
    }
    let dump = analyzer.graph().dump();
    assert!(dump.starts_with("digraph {\n"));
    assert!(dump.ends_with("}"));
}

#[test]
fn files_of_one_name_share_their_vertices() {
    // cursors are told by file name and node: the assignments of the two
    // files stand at one vertex, which assigns what the first assigned
    let one = File::from_source("same.php", "<?php $a = $_GET[\"q\"];".to_string()).expect("parses");
    let two = File::from_source("same.php", "<?php $b = $_GET[\"q\"];".to_string()).expect("parses");
    let rules = rules(&["mysqli_query"], &[], &[]);
    let mut analyzer = Analyzer::new(vec![&one, &two], &rules);
    let graph = analyzer.graph();
    assert_eq!(graph.nodes().len(), 1);
    let second = two.cursor().find_below("assignment_expression").expect("an assignment");
    let vertex = graph.get(&second).expect("the vertex of both");
    assert_eq!(vertex.assign().as_ref().expect("assigns").name, "a");
    let b = Taint::new_variable(second);
    assert_eq!(b.name, "b");
    assert_eq!(graph.leaves(&b).map(|l| l.len()), Some(1));
}

#[test]
fn no_vertex_arises_in_a_context_with_a_frame_twice() {
    let source = "<?php function a($x){ if ($x) { b($x); } }
        function b($y){ if ($y) { a($y); } mysqli_query($y); } a($_GET[\"q\"]);";
    let file = parse(source);
    let rules = rules(&["mysqli_query"], &[], &[]);
    let mut analyzer = Analyzer::new(vec![&file], &rules);
    let graph = analyzer.graph();
    let mut deepest = 0;
    for (_, vertex) in graph.nodes().iter() {
        let mut stack = vertex.context().clone();
        deepest = deepest.max(stack.len());
        while let Some(top) = stack.pop() {
            assert!(!stack.holds(&top));
        }
    }
    // the frame of a, that of its conditional, and the frame of b
    assert_eq!(deepest, 3);
}
