use monowrap::execute::{
    dependency_command_counts, matches_scope, plan_jobs, scoped_dependencies, ConcurrentTask,
};
use monowrap::graph::build_context;
use monowrap::job::{JobGraph, JobGraphBuilder};
use monowrap::manifest::{Command, Dependency, MonowrapManifest};

fn s(x: &str) -> String {
    x.to_string()
}

fn strings(xs: &[&str]) -> Vec<String> {
    xs.iter().map(|x| x.to_string()).collect()
}

fn command(alias: &str, requires: Option<&[&str]>) -> Command {
    Command {
        alias: s(alias),
        uri: format!("wrap://ens/{}.eth", alias),
        method: s("run"),
        args: s("0x80"),
        requires: requires.map(strings),
    }
}

fn dependency(name: &str, requires: Option<&[&str]>) -> Dependency {
    Dependency {
        name: s(name),
        path: format!("./packages/{}", name),
        requires: requires.map(strings),
    }
}

fn sample_manifest() -> MonowrapManifest {
    MonowrapManifest {
        name: s("mono"),
        path: None,
        commands: vec![
            command("build", None),
            command("test", Some(&["build"])),
            command("deploy", Some(&["build", "test"])),
        ],
        dependencies: vec![dependency("core", None), dependency("app", Some(&["core"]))],
        sub_deps_execute_after: s("build"),
    }
}

fn job(d: &str, c: &str) -> (String, String) {
    (s(d), s(c))
}

fn entries(g: &JobGraph) -> Vec<((String, String), u32)> {
    (0..g.vertices.len()).map(|i| (g.vertices.key_at(i).clone(), *g.vertices.value_at(i))).collect()
}

fn build_sample() -> JobGraph {
    let mut builder = JobGraphBuilder::new(build_context(&sample_manifest()));
    builder.build()
}

#[test]
fn job_graph_counts_jobs_before_each_job() {
    let g = build_sample();
    assert_eq!(
        entries(&g),
        vec![
            (job("app", "build"), 1),
            (job("app", "deploy"), 2),
            (job("app", "test"), 1),
            (job("core", "build"), 0),
            (job("core", "deploy"), 2),
            (job("core", "test"), 1),
        ]
    );
}

#[test]
fn job_graph_links_commands_and_dependent_packages() {
    let g = build_sample();
    assert_eq!(
        g.adj_list.get(&job("core", "build")).unwrap(),
        &vec![job("core", "deploy"), job("core", "test"), job("app", "build")]
    );
    assert_eq!(g.adj_list.get(&job("core", "test")).unwrap(), &vec![job("core", "deploy")]);
    assert_eq!(g.adj_list.get(&job("core", "deploy")).unwrap(), &vec![]);
    assert_eq!(
        g.adj_list.get(&job("app", "build")).unwrap(),
        &vec![job("app", "deploy"), job("app", "test")]
    );
    assert_eq!(g.adj_list.get(&job("app", "test")).unwrap(), &vec![job("app", "deploy")]);
    assert_eq!(g.adj_list.len(), 6);
}

#[test]
fn each_count_is_the_number_of_edges_into_the_job() {
    let g = build_sample();
    for (k, count) in entries(&g) {
        let mut into = 0u32;
        for i in 0..g.adj_list.len() {
            into += g.adj_list.value_at(i).iter().filter(|t| **t == k).count() as u32;
        }
        assert_eq!(into, count);
    }
}

#[test]
fn building_twice_changes_nothing() {
    let mut builder = JobGraphBuilder::new(build_context(&sample_manifest()));
    let first = builder.build();
    let second = builder.build();
    assert_eq!(entries(&first), entries(&second));
}

#[test]
fn adding_one_package_adds_its_jobs() {
    let mut builder = JobGraphBuilder::new(build_context(&sample_manifest()));
    builder.add_dependency(&s("app"));
    let g = builder.build();
    // "app" was added by hand first; the walk then adds "core" and, once core
    // has run its build, "app" again, whose jobs gain edges a second time.
    assert_eq!(g.vertices.get(&job("app", "deploy")), Some(&4));
    assert_eq!(g.vertices.get(&job("core", "build")), Some(&0));
}

#[test]
fn no_package_ready_means_no_jobs() {
    let mut m = sample_manifest();
    m.dependencies = vec![dependency("a", Some(&["b"])), dependency("b", Some(&["a"]))];
    let mut builder = JobGraphBuilder::new(build_context(&m));
    let g = builder.build();
    assert_eq!(g.vertices.len(), 0);
    assert_eq!(g.adj_list.len(), 0);
}

#[test]
fn a_command_cycle_leaves_its_commands_out() {
    let mut m = sample_manifest();
    m.commands = vec![command("x", Some(&["y"])), command("y", Some(&["x"]))];
    m.dependencies = vec![dependency("solo", None)];
    let mut builder = JobGraphBuilder::new(build_context(&m));
    let g = builder.build();
    assert_eq!(g.vertices.len(), 0);
}

fn task_names(tasks: &[ConcurrentTask]) -> Vec<(String, String)> {
    tasks.iter().map(|t| (t.process_id.clone(), t.uri.clone())).collect()
}

#[test]
fn jobs_run_in_batches_after_the_jobs_before_them() {
    let mut sched = plan_jobs(build_context(&sample_manifest())).unwrap();
    let b1 = sched.next_batch().unwrap();
    assert_eq!(task_names(&b1), vec![(s("core"), s("wrap://ens/build.eth"))]);
    assert_eq!(b1[0].cwd, "./packages/core");
    assert_eq!(b1[0].method, "run");
    assert_eq!(b1[0].args, "0x80");
    let b2 = sched.next_batch().unwrap();
    assert_eq!(
        task_names(&b2),
        vec![(s("app"), s("wrap://ens/build.eth")), (s("core"), s("wrap://ens/test.eth"))]
    );
    let b3 = sched.next_batch().unwrap();
    assert_eq!(
        task_names(&b3),
        vec![(s("app"), s("wrap://ens/test.eth")), (s("core"), s("wrap://ens/deploy.eth"))]
    );
    let b4 = sched.next_batch().unwrap();
    assert_eq!(task_names(&b4), vec![(s("app"), s("wrap://ens/deploy.eth"))]);
    assert!(sched.next_batch().is_none());
    assert!(sched.next_batch().is_none());
}

#[test]
fn an_empty_manifest_runs_nothing() {
    let mut m = sample_manifest();
    m.commands = vec![];
    m.dependencies = vec![];
    let mut sched = plan_jobs(build_context(&m)).unwrap();
    assert!(sched.next_batch().is_none());
}

#[test]
fn scope_selects_packages_by_glob() {
    let mut m = sample_manifest();
    m.dependencies = vec![
        dependency("web-app", None),
        dependency("core", None),
        dependency("web-lib", None),
    ];
    let ctx = build_context(&m);
    assert_eq!(
        scoped_dependencies(&ctx, &strings(&["web-*"])),
        strings(&["web-app", "web-lib"])
    );
    assert_eq!(
        scoped_dependencies(&ctx, &strings(&["*"])),
        strings(&["core", "web-app", "web-lib"])
    );
    assert_eq!(
        scoped_dependencies(&ctx, &strings(&["core", "web-lib"])),
        strings(&["core", "web-lib"])
    );
    assert_eq!(scoped_dependencies(&ctx, &strings(&["nothing"])), strings(&[]));
    assert_eq!(scoped_dependencies(&ctx, &strings(&[])), strings(&[]));
}

#[test]
fn each_scoped_package_counts_the_commands() {
    let counts = dependency_command_counts(&strings(&["a", "b"]), &strings(&["build", "test"]));
    assert_eq!(counts.len(), 2);
    assert_eq!(counts.get(&s("a")), Some(&2));
    assert_eq!(counts.get(&s("b")), Some(&2));
}

#[test]
fn every_job_runs_exactly_once() {
    let mut sched = plan_jobs(build_context(&sample_manifest())).unwrap();
    let mut seen: Vec<(String, String)> = Vec::new();
    let mut batches = 0usize;
    while let Some(batch) = sched.next_batch() {
        batches += 1;
        assert!(!batch.is_empty());
        for t in batch {
            let key = (t.process_id.clone(), t.uri.clone());
            assert!(!seen.contains(&key));
            seen.push(key);
        }
    }
    assert_eq!(seen.len(), 6);
    assert!(batches <= seen.len());
}

#[test]
fn building_keeps_package_names_and_paths() {
    let mut builder = JobGraphBuilder::new(build_context(&sample_manifest()));
    builder.build();
    let ctx = builder.into_context();
    let deps = &ctx.dependency_graph.vertices;
    assert_eq!(deps.len(), 2);
    assert_eq!(deps.get(&s("app")).unwrap().name, "app");
    assert_eq!(deps.get(&s("app")).unwrap().path, "./packages/app");
    assert_eq!(deps.get(&s("core")).unwrap().name, "core");
    assert_eq!(deps.get(&s("core")).unwrap().path, "./packages/core");
}

#[test]
fn two_root_commands_leave_a_dependent_package_unvisited() {
    let mut m = sample_manifest();
    m.commands = vec![
        command("build", None),
        command("lint", None),
        command("test", Some(&["build"])),
    ];
    let mut builder = JobGraphBuilder::new(build_context(&m));
    let g = builder.build();
    // core meets app's one requirement once per command that requires nothing,
    // so app's count falls below zero and app is never walked.
    assert_eq!(
        entries(&g),
        vec![
            (job("app", "build"), 1),
            (job("app", "lint"), 1),
            (job("core", "build"), 0),
            (job("core", "lint"), 0),
            (job("core", "test"), 1),
        ]
    );
    assert_eq!(builder.into_context().dependency_graph.vertices.get(&s("app")).unwrap().deps, -1);
}

#[test]
fn scope_patterns_match_package_names() {
    assert!(matches_scope(&strings(&["web-*"]), &s("web-app")));
    assert!(!matches_scope(&strings(&["web-*"]), &s("core")));
    assert!(matches_scope(&strings(&["x", "core"]), &s("core")));
    assert!(!matches_scope(&strings(&[]), &s("core")));
}

#[test]
fn batches_in_scope_hand_out_only_scoped_tasks() {
    let mut sched = plan_jobs(build_context(&sample_manifest())).unwrap();
    let scope = strings(&["app"]);
    assert_eq!(sched.next_job_keys(), vec![job("core", "build")]);
    let b1 = sched.next_batch_in_scope(&scope).unwrap();
    assert!(b1.is_empty());
    assert_eq!(sched.next_job_keys(), vec![job("app", "build"), job("core", "test")]);
    let b2 = sched.next_batch_in_scope(&scope).unwrap();
    assert_eq!(task_names(&b2), vec![(s("app"), s("wrap://ens/build.eth"))]);
    let b3 = sched.next_batch_in_scope(&scope).unwrap();
    assert_eq!(task_names(&b3), vec![(s("app"), s("wrap://ens/test.eth"))]);
    let b4 = sched.next_batch_in_scope(&scope).unwrap();
    assert_eq!(task_names(&b4), vec![(s("app"), s("wrap://ens/deploy.eth"))]);
    assert!(sched.next_batch_in_scope(&scope).is_none());
    assert!(sched.next_job_keys().is_empty());
}

#[test]
fn the_star_scope_hands_out_every_task() {
    let mut sched = plan_jobs(build_context(&sample_manifest())).unwrap();
    let scope = strings(&["*"]);
    let mut n = 0;
    while let Some(batch) = sched.next_batch_in_scope(&scope) {
        n += batch.len();
    }
    assert_eq!(n, 6);
}
