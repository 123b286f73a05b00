use taint_analyzer::analyzer::taint::{Context, ContextStack, Scope, Taint, TaintKind};
use taint_analyzer::graph::graph::Graph;
use taint_analyzer::graph::rules::{Rules, Vuln};
use taint_analyzer::graph::vertex::{PathItem, Vertex};
use taint_analyzer::tree::cursor::Cursor;
use taint_analyzer::tree::file::{File, Node, SyntaxTree};

/// A flat file: node 0 is the root and every other node is a child of it,
/// of the kind and with the text given.
fn flat(kinds: &[&str]) -> File {
    let mut source = String::new();
    let mut nodes = vec![Node::new("program".to_string(), None, true, 0, 0, 0, kinds.len() + 1)];
    for (i, kind) in kinds.iter().enumerate() {
        let start = source.len();
        source.push_str(kind);
        nodes.push(Node::new(kind.to_string(), None, true, start, source.len(), 0, i + 2));
    }
    File::from_tree("g.php", SyntaxTree::new(nodes).expect("well formed"), source)
}

fn at(file: &File, index: usize) -> Cursor<'_> {
    Cursor::new(file, index).expect("the node exists")
}

fn var(name: &str) -> Taint {
    Taint {
        kind: TaintKind::Variable,
        name: name.to_string(),
        scope: Scope { filename: Some("g.php".to_string()), function: None, class: None },
    }
}

fn stack(frames: &[&str]) -> ContextStack {
    let mut s = ContextStack::new();
    for f in frames {
        s.push(Context::new(f.to_string(), f.to_string()));
    }
    s
}

fn names(list: &[&str]) -> Vec<(String, Option<Vec<u32>>)> {
    list.iter().map(|n| (n.to_string(), None)).collect()
}

fn vuln(sinks: &[&str], sources: &[&str], sanitizers: &[&str]) -> Vuln {
    Vuln::new(names(sinks), sources.iter().map(|s| s.to_string()).collect(), names(sanitizers), None)
}

fn keys(stacks: &[Vec<Cursor>]) -> Vec<Vec<usize>> {
    let mut out: Vec<Vec<usize>> =
        stacks.iter().map(|s| s.iter().map(|c| c.raw_cursor()).collect()).collect();
    out.sort();
    out
}

fn leaves(graph: &Graph, taint: &Taint) -> Option<Vec<usize>> {
    graph.leaves(taint).map(|l| l.iter().map(|c| c.raw_cursor()).collect())
}

fn parents(graph: &Graph, file: &File, index: usize) -> Vec<usize> {
    let mut out: Vec<usize> =
        graph.get(&at(file, index)).expect("a vertex").parents().iter().map(|e| e.0.raw_cursor()).collect();
    out.sort();
    out
}

fn sources(graph: &Graph, file: &File, index: usize) -> Vec<usize> {
    graph.get(&at(file, index)).expect("a vertex").sources().iter().map(|e| e.0.raw_cursor()).collect()
}

#[test]
fn a_vertex_of_an_unknown_taint_hangs_from_a_synthetic_source() {
    let file = flat(&["a", "b", "c"]);
    let mut graph = Graph::new();
    let path = PathItem::new(Taint::new_source("_GET".to_string()), vec![at(&file, 2), at(&file, 1)]);
    assert!(graph.push(path, at(&file, 1), Vertex::new(Some(var("x")), stack(&[]))));
    assert_eq!(sources(&graph, &file, 1), vec![1]);
    assert_eq!(parents(&graph, &file, 1), Vec::<usize>::new());
    assert_eq!(leaves(&graph, &var("x")), Some(vec![1]));
    assert_eq!(leaves(&graph, &Taint::new_source("_GET".to_string())), None);
    assert_eq!(graph.nodes().len(), 1);
    // an empty segment names no source
    let empty = PathItem::new(Taint::new_source("_GET".to_string()), vec![]);
    assert!(graph.push(empty, at(&file, 3), Vertex::new(None, stack(&[]))));
    assert_eq!(sources(&graph, &file, 3), Vec::<usize>::new());
}

#[test]
fn a_vertex_of_a_known_taint_hangs_from_its_leaves() {
    let file = flat(&["a", "b", "c", "d"]);
    let mut graph = Graph::new();
    let get = Taint::new_source("_GET".to_string());
    graph.push(PathItem::new(get.clone(), vec![at(&file, 1)]), at(&file, 1), Vertex::new(Some(var("x")), stack(&["if"])));
    graph.push(PathItem::new(get.clone(), vec![at(&file, 2)]), at(&file, 2), Vertex::new(Some(var("x")), stack(&["loop"])));
    assert_eq!(leaves(&graph, &var("x")), Some(vec![2, 1]));
    let use_x = PathItem::new(var("x"), vec![at(&file, 3)]);
    assert!(graph.push(use_x, at(&file, 3), Vertex::new(None, stack(&[]))));
    assert_eq!(parents(&graph, &file, 3), vec![1, 2]);
    assert_eq!(sources(&graph, &file, 3), Vec::<usize>::new());
    // every parent is a vertex, every leaf assigns its taint
    for p in parents(&graph, &file, 3) {
        let v = graph.get(&at(&file, p)).expect("the parent is a vertex");
        assert!(v.assign().as_ref().expect("assigns").same(&var("x")));
    }
    assert!(graph.get(&at(&file, 4)).is_none());
}

#[test]
fn pushing_at_a_known_cursor_merges_the_segments() {
    let file = flat(&["a", "b", "c"]);
    let mut graph = Graph::new();
    let get = Taint::new_source("_GET".to_string());
    graph.push(PathItem::new(get.clone(), vec![at(&file, 1)]), at(&file, 1), Vertex::new(Some(var("x")), stack(&[])));
    graph.push(PathItem::new(get.clone(), vec![at(&file, 2)]), at(&file, 2), Vertex::new(Some(var("y")), stack(&[])));
    assert!(graph.push(PathItem::new(var("x"), vec![at(&file, 3)]), at(&file, 3), Vertex::new(None, stack(&[]))));
    assert!(!graph.push(PathItem::new(var("y"), vec![at(&file, 3)]), at(&file, 3), Vertex::new(None, stack(&[]))));
    assert!(!graph.push(PathItem::new(get.clone(), vec![at(&file, 3)]), at(&file, 3), Vertex::new(None, stack(&[]))));
    assert_eq!(parents(&graph, &file, 3), vec![1, 2]);
    assert_eq!(sources(&graph, &file, 3), vec![3]);
    assert_eq!(graph.nodes().len(), 3);
}

#[test]
fn an_assignment_replaces_the_leaves_of_the_contexts_it_shares_a_way_with() {
    let file = flat(&["a", "b", "c", "d", "e"]);
    let get = Taint::new_source("_GET".to_string());
    let mut graph = Graph::new();
    graph.push(PathItem::new(get.clone(), vec![at(&file, 1)]), at(&file, 1), Vertex::new(Some(var("x")), stack(&["if"])));
    // in another branch: the leaf of the first stays
    graph.push(PathItem::new(get.clone(), vec![at(&file, 2)]), at(&file, 2), Vertex::new(Some(var("x")), stack(&["loop"])));
    assert_eq!(leaves(&graph, &var("x")), Some(vec![2, 1]));
    // inside the first branch: its leaf goes, that of the other stays
    graph.push(PathItem::new(get.clone(), vec![at(&file, 3)]), at(&file, 3), Vertex::new(Some(var("x")), stack(&["if", "inner"])));
    assert_eq!(leaves(&graph, &var("x")), Some(vec![3, 2]));
    // around the first branch again: what arose inside it goes
    graph.push(PathItem::new(get.clone(), vec![at(&file, 4)]), at(&file, 4), Vertex::new(Some(var("x")), stack(&["if"])));
    assert_eq!(leaves(&graph, &var("x")), Some(vec![4, 2]));
    // at the top: everything goes
    graph.push(PathItem::new(var("x"), vec![at(&file, 5)]), at(&file, 5), Vertex::new(Some(var("x")), stack(&[])));
    assert_eq!(leaves(&graph, &var("x")), Some(vec![5]));
    assert_eq!(parents(&graph, &file, 5), vec![2, 4]);
}

#[test]
fn clearing_empties_the_leaves_and_keeps_the_vertices() {
    let file = flat(&["a", "b", "c"]);
    let get = Taint::new_source("_GET".to_string());
    let in_f = Scope { filename: Some("g.php".to_string()), function: Some("f".to_string()), class: None };
    let param = Taint { kind: TaintKind::Param, name: "a".to_string(), scope: in_f.clone() };
    let ret = Taint { kind: TaintKind::Return, name: "return f".to_string(), scope: Scope::new_global() };
    let mut graph = Graph::new();
    graph.push(PathItem::new(get.clone(), vec![at(&file, 1)]), at(&file, 1), Vertex::new(Some(param.clone()), stack(&[])));
    graph.push(PathItem::new(get.clone(), vec![at(&file, 2)]), at(&file, 2), Vertex::new(Some(ret.clone()), stack(&[])));
    graph.push(PathItem::new(get.clone(), vec![at(&file, 3)]), at(&file, 3), Vertex::new(Some(var("x")), stack(&[])));
    graph.clear_scope(&in_f);
    assert_eq!(leaves(&graph, &param), Some(vec![]));
    assert_eq!(leaves(&graph, &ret), Some(vec![2]));
    assert_eq!(leaves(&graph, &var("x")), Some(vec![3]));
    graph.clear_returns();
    assert_eq!(leaves(&graph, &ret), Some(vec![]));
    assert_eq!(leaves(&graph, &var("x")), Some(vec![3]));
    assert_eq!(graph.nodes().len(), 3);
    // a taint whose leaves were cleared is known still: no synthetic source
    assert!(graph.push(PathItem::new(param.clone(), vec![at(&file, 2)]), at(&file, 0), Vertex::new(None, stack(&[]))));
    assert_eq!(sources(&graph, &file, 0), Vec::<usize>::new());
    assert_eq!(parents(&graph, &file, 0), Vec::<usize>::new());
}

/// sink(4) <- x(3) <- y(2) <- _GET, with a second way sink(4) <- z(1) that
/// passes a node of kind `clean`.
fn chain(file: &File) -> Graph<'_> {
    let get = Taint::new_source("_GET".to_string());
    let mut graph = Graph::new();
    graph.push(PathItem::new(get.clone(), vec![at(file, 2)]), at(file, 2), Vertex::new(Some(var("y")), stack(&[])));
    graph.push(PathItem::new(var("y"), vec![at(file, 3)]), at(file, 3), Vertex::new(Some(var("x")), stack(&[])));
    graph.push(PathItem::new(get.clone(), vec![at(file, 5), at(file, 1)]), at(file, 1), Vertex::new(Some(var("z")), stack(&[])));
    graph.push(PathItem::new(var("x"), vec![at(file, 4)]), at(file, 4), Vertex::new(None, stack(&[])));
    graph.push(PathItem::new(var("z"), vec![at(file, 4)]), at(file, 4), Vertex::new(None, stack(&[])));
    graph
}

#[test]
fn the_search_follows_unsanitized_segments_back_to_a_source() {
    let file = flat(&["z", "y", "x", "sink", "clean"]);
    let graph = chain(&file);
    let found = graph.crawl(&vuln(&["sink"], &["_GET"], &[]), vec![at(&file, 4)]);
    assert_eq!(keys(&found), vec![vec![4, 1], vec![4, 3, 2]]);
    // from the middle of the chain
    let found = graph.crawl(&vuln(&["sink"], &["_GET"], &[]), vec![at(&file, 3)]);
    assert_eq!(keys(&found), vec![vec![3, 2]]);
    // no source by that name: nothing
    assert!(graph.crawl(&vuln(&["sink"], &["_POST"], &[]), vec![at(&file, 4)]).is_empty());
    // an empty stack and a cursor without a vertex: nothing
    assert!(graph.crawl(&vuln(&["sink"], &["_GET"], &[]), vec![]).is_empty());
    assert!(graph.crawl(&vuln(&["sink"], &["_GET"], &[]), vec![at(&file, 5)]).is_empty());
}

#[test]
fn a_sanitizer_on_a_segment_ends_the_search_there() {
    let file = flat(&["z", "y", "x", "sink", "clean"]);
    let graph = chain(&file);
    let found = graph.crawl(&vuln(&["sink"], &["_GET"], &["clean"]), vec![at(&file, 4)]);
    assert_eq!(keys(&found), vec![vec![4, 3, 2]]);
    // every way back passes a sanitizer: no witness
    let found = graph.crawl(&vuln(&["sink"], &["_GET"], &["clean", "x"]), vec![at(&file, 4)]);
    assert!(found.is_empty());
    // the sanitizer counts wherever it stands on the segment
    let found = graph.crawl(&vuln(&["sink"], &["_GET", "clean"], &["z"]), vec![at(&file, 4)]);
    assert_eq!(keys(&found), vec![vec![4, 3, 2]]);
}

#[test]
fn a_segment_from_a_source_ends_the_search_with_a_witness() {
    let file = flat(&["z", "y", "x", "sink", "clean"]);
    let graph = chain(&file);
    // x is a source by name: the stack is a witness at 4 and the search goes no further
    let found = graph.crawl(&vuln(&["sink"], &["x"], &[]), vec![at(&file, 4)]);
    assert_eq!(keys(&found), vec![vec![4]]);
    // a node on the segment is a source by kind
    let found = graph.crawl(&vuln(&["sink"], &["y"], &[]), vec![at(&file, 4)]);
    assert_eq!(keys(&found), vec![vec![4, 3]]);
}

#[test]
fn the_search_does_not_go_round_in_circles() {
    let file = flat(&["a", "b", "c"]);
    let get = Taint::new_source("_GET".to_string());
    let mut graph = Graph::new();
    // a(1) assigns x from _GET; b(2) assigns y from x; a(1) again from y: 1 <-> 2
    graph.push(PathItem::new(get.clone(), vec![at(&file, 1)]), at(&file, 1), Vertex::new(Some(var("x")), stack(&[])));
    graph.push(PathItem::new(var("x"), vec![at(&file, 2)]), at(&file, 2), Vertex::new(Some(var("y")), stack(&[])));
    graph.push(PathItem::new(var("y"), vec![at(&file, 1)]), at(&file, 1), Vertex::new(Some(var("x")), stack(&[])));
    assert_eq!(parents(&graph, &file, 1), vec![2]);
    assert_eq!(parents(&graph, &file, 2), vec![1]);
    let found = graph.crawl(&vuln(&["c"], &["_GET"], &[]), vec![at(&file, 2)]);
    assert_eq!(keys(&found), vec![vec![2, 1]]);
    let found = graph.crawl(&vuln(&["c"], &["_GET"], &[]), vec![at(&file, 1)]);
    assert_eq!(keys(&found), vec![vec![1]]);
    let found = graph.crawl(&vuln(&["c"], &["nothing"], &[]), vec![at(&file, 1)]);
    assert!(found.is_empty());
}

#[test]
fn the_rules_are_matched_from_the_vertices_that_a_sink_leads_to() {
    let file = flat(&["z", "y", "x", "sink", "clean"]);
    let graph = chain(&file);
    let rules = Rules::new(
        vec![
            ("first".to_string(), vuln(&["sink"], &["_GET"], &["clean"])),
            ("second".to_string(), vuln(&["x"], &["_GET"], &[])),
            ("third".to_string(), vuln(&["nowhere"], &["_GET"], &[])),
        ],
        vec![],
        vec![],
    );
    let found = graph.match_rules(&rules);
    assert_eq!(keys(&found), vec![vec![3, 2], vec![4, 3, 2]]);
    let none = Rules::new(vec![], vec!["_GET".to_string()], vec![]);
    assert!(graph.match_rules(&none).is_empty());
    assert!(Graph::new().match_rules(&rules).is_empty());
    // the same witness of two classes is reported once
    let twice = Rules::new(
        vec![
            ("first".to_string(), vuln(&["sink"], &["_GET"], &["clean"])),
            ("again".to_string(), vuln(&["sink"], &["_GET"], &["clean"])),
        ],
        vec![],
        vec![],
    );
    assert_eq!(keys(&graph.match_rules(&twice)), vec![vec![4, 3, 2]]);
}

#[test]
fn segments_know_their_nodes() {
    let file = flat(&["a", "b"]);
    let item = PathItem::new(var("x"), vec![at(&file, 1), at(&file, 2)]);
    assert!(item.contains(&at(&file, 2)));
    assert!(!item.contains(&at(&file, 0)));
    assert_eq!(item.segments().len(), 2);
    assert_eq!(item.path_vec()[1].raw_cursor(), 2);
    assert!(item.source().same(&var("x")));
    assert_eq!(item.to_str(), "a");
    assert_eq!(PathItem::new(var("x"), vec![]).to_str(), "");
    let copy = item.clone();
    assert_eq!(copy.segments().len(), 2);
    assert_eq!(Graph::scan(&vuln(&[], &["x"], &["b"]), &item), (true, true));
    assert_eq!(Graph::scan(&vuln(&[], &["a"], &[]), &item), (false, true));
    assert_eq!(Graph::scan(&vuln(&["a"], &[], &[]), &item), (false, false));
}

#[test]
fn a_vertex_holds_one_segment_from_each_parent() {
    let file = flat(&["a", "b"]);
    let mut vertex = Vertex::new(Some(var("x")), stack(&["if"]));
    assert!(vertex.assign().as_ref().expect("assigns").same(&var("x")));
    assert_eq!(vertex.context().len(), 1);
    vertex.add_parent(at(&file, 1), PathItem::new(var("a"), vec![]));
    vertex.add_parent(at(&file, 2), PathItem::new(var("b"), vec![]));
    vertex.add_parent(at(&file, 1), PathItem::new(var("c"), vec![]));
    assert_eq!(vertex.parents().len(), 2);
    assert_eq!(vertex.parents()[0].0.raw_cursor(), 1);
    assert!(vertex.parents()[0].1.source().same(&var("c")));
    vertex.add_source(at(&file, 2), PathItem::new(var("s"), vec![]));
    vertex.add_source(at(&file, 2), PathItem::new(var("t"), vec![]));
    assert_eq!(vertex.sources().len(), 1);
    assert!(vertex.sources()[0].1.source().same(&var("t")));
    let copy = vertex.clone();
    assert_eq!(copy.parents().len(), 2);
    assert_eq!(copy.sources().len(), 1);
}

#[test]
fn the_graph_is_written_in_dot_format() {
    let file = flat(&["z", "y", "x", "si\"nk", "clean"]);
    let graph = chain(&file);
    assert_eq!(
        graph.dump(),
        "digraph {\n\
         \t0 [ label = \"y\" ]\n\
         \t1 [ label = \"x\" ]\n\
         \t0 -> 1 []\n\
         \t2 [ label = \"z\" ]\n\
         \t3 [ label = \"si\\\"nk\" ]\n\
         \t1 -> 3 []\n\
         \t2 -> 3 []\n\
         }"
    );
    assert_eq!(Graph::new().dump(), "digraph {\n}");
}
