use monowrap::graph::{build_command_graph, build_dependency_graph, BuiltContextGraphs};
use monowrap::keys::{compare_strings, KeyOrder};
use monowrap::manifest::{Command, Dependency, MonowrapManifest};
use monowrap::ordmap::OrdMap;
use monowrap::{build_context_graphs, ArgsBuildContextGraphs};

fn s(x: &str) -> String {
    x.to_string()
}

fn strings(xs: &[&str]) -> Vec<String> {
    xs.iter().map(|x| x.to_string()).collect()
}

fn command(alias: &str, requires: Option<&[&str]>) -> Command {
    Command {
        alias: s(alias),
        uri: format!("wrap://ens/{}.eth", alias),
        method: s("run"),
        args: s("0x80"),
        requires: requires.map(strings),
    }
}

fn dependency(name: &str, requires: Option<&[&str]>) -> Dependency {
    Dependency {
        name: s(name),
        path: format!("./packages/{}", name),
        requires: requires.map(strings),
    }
}

fn sample_manifest() -> MonowrapManifest {
    MonowrapManifest {
        name: s("mono"),
        path: None,
        commands: vec![
            command("build", None),
            command("test", Some(&["build"])),
            command("deploy", Some(&["build", "test"])),
        ],
        dependencies: vec![dependency("core", None), dependency("app", Some(&["core"]))],
        sub_deps_execute_after: s("build"),
    }
}

fn keys_of<V>(m: &OrdMap<String, V>) -> Vec<String> {
    (0..m.len()).map(|i| m.key_at(i).clone()).collect()
}

#[test]
fn strings_compare_by_code_point() {
    assert!(matches!(compare_strings(&s("app"), &s("core")), KeyOrder::Less));
    assert!(matches!(compare_strings(&s("core"), &s("app")), KeyOrder::Greater));
    assert!(matches!(compare_strings(&s("core"), &s("core")), KeyOrder::Equal));
    assert!(matches!(compare_strings(&s("ab"), &s("abc")), KeyOrder::Less));
    assert!(matches!(compare_strings(&s("Z"), &s("a")), KeyOrder::Less));
    assert!(matches!(compare_strings(&s(""), &s("a")), KeyOrder::Less));
}

#[test]
fn ordered_map_keeps_keys_ascending_and_replaces() {
    let mut m: OrdMap<String, u32> = OrdMap::new();
    m.insert(s("b"), 2);
    m.insert(s("a"), 1);
    m.insert(s("c"), 3);
    m.insert(s("b"), 20);
    assert_eq!(keys_of(&m), strings(&["a", "b", "c"]));
    assert_eq!(m.get(&s("b")), Some(&20));
    assert_eq!(m.get(&s("d")), None);
    assert!(m.contains_key(&s("a")));
    assert_eq!(m.len(), 3);
}

#[test]
fn command_graph_counts_requirements_and_lists_dependents() {
    let g = build_command_graph(&sample_manifest());
    assert_eq!(keys_of(&g.vertices), strings(&["build", "deploy", "test"]));
    assert_eq!(g.vertices.get(&s("build")).unwrap().deps, 0);
    assert_eq!(g.vertices.get(&s("test")).unwrap().deps, 1);
    assert_eq!(g.vertices.get(&s("deploy")).unwrap().deps, 2);
    assert!(!g.vertices.get(&s("deploy")).unwrap().visited);
    assert_eq!(g.vertices.get(&s("deploy")).unwrap().uri, "wrap://ens/deploy.eth");
    assert_eq!(keys_of(&g.adj_list), strings(&["build", "test"]));
    assert_eq!(g.adj_list.get(&s("build")).unwrap(), &strings(&["deploy", "test"]));
    assert_eq!(g.adj_list.get(&s("test")).unwrap(), &strings(&["deploy"]));
}

#[test]
fn dependency_graph_counts_requirements_and_lists_dependents() {
    let g = build_dependency_graph(&sample_manifest());
    assert_eq!(keys_of(&g.vertices), strings(&["app", "core"]));
    assert_eq!(g.vertices.get(&s("app")).unwrap().deps, 1);
    assert_eq!(g.vertices.get(&s("core")).unwrap().deps, 0);
    assert_eq!(g.vertices.get(&s("app")).unwrap().path, "./packages/app");
    assert_eq!(keys_of(&g.adj_list), strings(&["core"]));
    assert_eq!(g.adj_list.get(&s("core")).unwrap(), &strings(&["app"]));
}

#[test]
fn duplicate_requirement_counts_twice_but_lists_once() {
    let mut m = sample_manifest();
    m.commands = vec![command("a", None), command("b", Some(&["a", "a", "missing"]))];
    let g = build_command_graph(&m);
    assert_eq!(g.vertices.get(&s("b")).unwrap().deps, 3);
    assert_eq!(g.adj_list.get(&s("a")).unwrap(), &strings(&["b"]));
    assert_eq!(g.adj_list.get(&s("missing")).unwrap(), &strings(&["b"]));
}

#[test]
fn later_command_with_same_alias_wins() {
    let mut m = sample_manifest();
    m.commands = vec![command("a", Some(&["x"])), command("a", None)];
    let g = build_command_graph(&m);
    assert_eq!(g.vertices.len(), 1);
    assert_eq!(g.vertices.get(&s("a")).unwrap().deps, 0);
    assert_eq!(g.adj_list.get(&s("x")).unwrap(), &strings(&["a"]));
}

#[test]
fn context_graphs_carry_id_and_sub_deps_command() {
    let g: BuiltContextGraphs = build_context_graphs(ArgsBuildContextGraphs { manifest: sample_manifest() });
    assert_eq!(g.id, "N/A");
    assert_eq!(g.sub_deps_execute_after, "build");
    assert_eq!(g.command_graph.vertices.len(), 3);
    assert_eq!(g.dependency_graph.vertices.len(), 2);
}
