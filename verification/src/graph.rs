//! The command graph and the dependency graph of a manifest: one vertex per
//! command (package), holding how many names it requires, and for each
//! required name the ascending list of the commands (packages) that require it.
use crate::keys::{lemma_sorted_strict_unique, sorted_strict, OrderedKey};
use crate::manifest::{clone_strings, Command, Dependency, MonowrapManifest};
use crate::ordmap::{insert_sorted, key_views, OrdMap};
use vstd::prelude::*;

verus! {

/// A vertex of the command graph.
#[derive(Clone, Debug)]
pub struct CommandNode {
    pub alias: String,
    pub uri: String,
    pub method: String,
    pub args: String,
    /// Requirements not yet met; it starts at the number of names required.
    pub deps: i128,
    pub visited: bool,
}

/// A vertex of the dependency graph.
#[derive(Clone, Debug)]
pub struct DependencyNode {
    pub name: String,
    pub path: String,
    /// Requirements not yet met; it starts at the number of names required.
    pub deps: i128,
    pub visited: bool,
}

/// Commands by alias, and for each required alias the commands that require it.
pub struct CommandGraph {
    pub vertices: OrdMap<String, CommandNode>,
    pub adj_list: OrdMap<String, Vec<String>>,
}

/// Packages by name, and for each required name the packages that require it.
pub struct DependencyGraph {
    pub vertices: OrdMap<String, DependencyNode>,
    pub adj_list: OrdMap<String, Vec<String>>,
}

pub open spec fn names_view(v: Vec<String>) -> Seq<Seq<char>> {
    key_views(v@)
}

/// The names listed under `requires`; none where the list is absent.
pub open spec fn requires_view(r: Option<Vec<String>>) -> Seq<Seq<char>> {
    match r {
        Some(v) => names_view(v),
        None => Seq::empty(),
    }
}

/// How many names are listed under `requires`, a name listed twice counting twice.
pub open spec fn requires_count(r: Option<Vec<String>>) -> int {
    match r {
        Some(v) => v.len() as int,
        None => 0,
    }
}

/// Every name that some entry requires; an entry is a name and what it requires.
pub open spec fn required_names(entries: Seq<(Seq<char>, Seq<Seq<char>>)>) -> Set<Seq<char>> {
    Set::new(
        |r: Seq<char>| exists|i: int| 0 <= i < entries.len() && #[trigger] entries[i].1.contains(r),
    )
}

/// The names of the entries that require `r`.
pub open spec fn dependents_of(entries: Seq<(Seq<char>, Seq<Seq<char>>)>, r: Seq<char>) -> Set<
    Seq<char>,
> {
    Set::new(
        |a: Seq<char>|
            exists|i: int|
                0 <= i < entries.len() && #[trigger] entries[i].0 == a && entries[i].1.contains(r),
    )
}

/// `adj` maps each required name to the strictly ascending list of the names
/// that require it, and holds no other key.
pub open spec fn is_adjacency_of(
    adj: Map<Seq<char>, Vec<String>>,
    entries: Seq<(Seq<char>, Seq<Seq<char>>)>,
) -> bool {
    &&& adj.dom() == required_names(entries)
    &&& forall|r: Seq<char>| #[trigger]
        adj.dom().contains(r) ==> {
            &&& sorted_strict::<String>(names_view(adj[r]))
            &&& names_view(adj[r]).to_set() == dependents_of(entries, r)
        }
}

pub open spec fn command_entries(cmds: Seq<Command>) -> Seq<(Seq<char>, Seq<Seq<char>>)> {
    cmds.map_values(|c: Command| (c.alias@, requires_view(c.requires)))
}

pub open spec fn dependency_entries(deps: Seq<Dependency>) -> Seq<(Seq<char>, Seq<Seq<char>>)> {
    deps.map_values(|d: Dependency| (d.name@, requires_view(d.requires)))
}

/// The vertex of a command: its fields, the number of names it requires, not visited.
pub open spec fn command_node(c: Command) -> CommandNode {
    CommandNode {
        alias: c.alias,
        uri: c.uri,
        method: c.method,
        args: c.args,
        deps: requires_count(c.requires) as i128,
        visited: false,
    }
}

/// The vertex of a package: its fields, the number of names it requires, not visited.
pub open spec fn dependency_node(d: Dependency) -> DependencyNode {
    DependencyNode {
        name: d.name,
        path: d.path,
        deps: requires_count(d.requires) as i128,
        visited: false,
    }
}

/// Each command under its alias; of two commands with one alias, the later one.
pub open spec fn command_vertices(cmds: Seq<Command>) -> Map<Seq<char>, CommandNode>
    decreases cmds.len(),
{
    if cmds.len() == 0 {
        Map::empty()
    } else {
        command_vertices(cmds.drop_last()).insert(
            cmds.last().alias@,
            command_node(cmds.last()),
        )
    }
}

/// Each package under its name; of two packages with one name, the later one.
pub open spec fn dependency_vertices(deps: Seq<Dependency>) -> Map<Seq<char>, DependencyNode>
    decreases deps.len(),
{
    if deps.len() == 0 {
        Map::empty()
    } else {
        dependency_vertices(deps.drop_last()).insert(
            deps.last().name@,
            dependency_node(deps.last()),
        )
    }
}

/// What an entry adds to the required names and to the dependents of `r`.
proof fn lemma_push_entry(
    entries: Seq<(Seq<char>, Seq<Seq<char>>)>,
    name: Seq<char>,
    reqs: Seq<Seq<char>>,
    r: Seq<char>,
)
    ensures
        required_names(entries.push((name, reqs))) == required_names(entries).union(reqs.to_set()),
        dependents_of(entries.push((name, reqs)), r) == (if reqs.contains(r) {
            dependents_of(entries, r).insert(name)
        } else {
            dependents_of(entries, r)
        }),
{
    let e2 = entries.push((name, reqs));
    assert forall|x: Seq<char>| #[trigger]
        required_names(e2).contains(x) == required_names(entries).union(reqs.to_set()).contains(
            x,
        ) by {
        if required_names(e2).contains(x) {
            let i = choose|i: int| 0 <= i < e2.len() && #[trigger] e2[i].1.contains(x);
            if i < entries.len() {
                assert(entries[i].1.contains(x));
            }
        }
        if required_names(entries).contains(x) {
            let i = choose|i: int| 0 <= i < entries.len() && #[trigger] entries[i].1.contains(x);
            assert(e2[i].1.contains(x));
        }
        if reqs.contains(x) {
            assert(e2[entries.len() as int].1.contains(x));
        }
    }
    assert(required_names(e2) =~= required_names(entries).union(reqs.to_set()));
    let want = if reqs.contains(r) {
        dependents_of(entries, r).insert(name)
    } else {
        dependents_of(entries, r)
    };
    assert forall|a: Seq<char>| #[trigger] dependents_of(e2, r).contains(a) == want.contains(a) by {
        if dependents_of(e2, r).contains(a) {
            let i = choose|i: int|
                0 <= i < e2.len() && #[trigger] e2[i].0 == a && e2[i].1.contains(r);
            if i < entries.len() {
                assert(entries[i].0 == a && entries[i].1.contains(r));
            }
        }
        if dependents_of(entries, r).contains(a) {
            let i = choose|i: int|
                0 <= i < entries.len() && #[trigger] entries[i].0 == a && entries[i].1.contains(r);
            assert(e2[i].0 == a && e2[i].1.contains(r));
        }
        if reqs.contains(r) && a == name {
            assert(e2[entries.len() as int].0 == a);
        }
    }
    assert(dependents_of(e2, r) =~= want);
}

/// Records that `dependent` requires each name in `required`.
fn add_dependents(
    adj: &mut OrdMap<String, Vec<String>>,
    dependent: &String,
    required: &Option<Vec<String>>,
    Ghost(entries): Ghost<Seq<(Seq<char>, Seq<Seq<char>>)>>,
)
    requires
        old(adj).wf(),
        is_adjacency_of(old(adj).as_map(), entries),
    ensures
        final(adj).wf(),
        is_adjacency_of(
            final(adj).as_map(),
            entries.push((dependent@, requires_view(*required))),
        ),
{
    let ghost reqs = requires_view(*required);
    let ghost name = dependent@;
    match required {
        Some(rs) => {
            let n = rs.len();
            let mut j: usize = 0;
            while j < n
                invariant
                    n == rs@.len(),
                    reqs == names_view(*rs),
                    name == dependent@,
                    j <= n,
                    adj.wf(),
                    adj.as_map().dom() == required_names(entries).union(
                        reqs.take(j as int).to_set(),
                    ),
                    forall|r: Seq<char>| #[trigger]
                        adj.as_map().dom().contains(r) ==> {
                            &&& sorted_strict::<String>(names_view(adj.as_map()[r]))
                            &&& names_view(adj.as_map()[r]).to_set() == (if reqs.take(
                                j as int,
                            ).contains(r) {
                                dependents_of(entries, r).insert(name)
                            } else {
                                dependents_of(entries, r)
                            })
                        },
                decreases n - j,
            {
                let require = &rs[j];
                let ghost rv = require@;
                let ghost before = adj.as_map();
                let ghost seen = reqs.take(j as int);
                let ghost seen2 = reqs.take(j + 1);
                assert(seen2 =~= seen.push(rv));
                let mut list: Vec<String>;
                match adj.get(require) {
                    Some(dependents) => {
                        list = clone_strings(dependents);
                        insert_sorted(&mut list, dependent.clone());
                    },
                    None => {
                        list = Vec::new();
                        proof {
                            assert(names_view(list).to_set() =~= Set::<Seq<char>>::empty());
                        }
                        insert_sorted(&mut list, dependent.clone());
                        proof {
                            // rv was not required yet, so nothing depends on it so far.
                            assert forall|a: Seq<char>| !dependents_of(entries, rv).contains(
                                a,
                            ) by {
                                if dependents_of(entries, rv).contains(a) {
                                    let i = choose|i: int|
                                        0 <= i < entries.len() && #[trigger] entries[i].0 == a
                                            && entries[i].1.contains(rv);
                                    assert(required_names(entries).contains(rv));
                                }
                            }
                            assert(dependents_of(entries, rv) =~= Set::<Seq<char>>::empty());
                        }
                    },
                }
                adj.insert(require.clone(), list);
                proof {
                    assert forall|x: Seq<char>| #[trigger] seen2.contains(x) == (seen.contains(x)
                        || x == rv) by {
                        if seen2.contains(x) {
                            let k = choose|k: int| 0 <= k < seen2.len() && seen2[k] == x;
                            if k < seen.len() {
                                assert(seen[k] == x);
                            }
                        }
                        if seen.contains(x) {
                            let k = choose|k: int| 0 <= k < seen.len() && seen[k] == x;
                            assert(seen2[k] == x);
                        }
                        if x == rv {
                            assert(seen2[seen.len() as int] == rv);
                        }
                    }
                    assert(seen2.to_set() =~= seen.to_set().insert(rv));
                    assert(adj.as_map().dom() =~= required_names(entries).union(seen2.to_set()));
                    assert forall|r: Seq<char>| #[trigger]
                        adj.as_map().dom().contains(r) implies {
                        &&& sorted_strict::<String>(names_view(adj.as_map()[r]))
                        &&& names_view(adj.as_map()[r]).to_set() == (if seen2.contains(r) {
                            dependents_of(entries, r).insert(name)
                        } else {
                            dependents_of(entries, r)
                        })
                    } by {
                        if r != rv {
                            assert(seen2.contains(r) == seen.contains(r));
                        } else {
                            assert(seen2.contains(r));
                            if before.contains_key(rv) {
                                assert(names_view(before[rv]).to_set().insert(name)
                                    =~= dependents_of(entries, rv).insert(name));
                            } else {
                                assert(!seen.contains(rv));
                                assert(Set::<Seq<char>>::empty().insert(name)
                                    =~= dependents_of(entries, rv).insert(name));
                            }
                        }
                    }
                }
                j = j + 1;
            }
            proof {
                assert(reqs.take(n as int) =~= reqs);
                lemma_push_entry(entries, name, reqs, Seq::empty());
                assert forall|r: Seq<char>| #[trigger]
                    adj.as_map().dom().contains(r) implies {
                    &&& sorted_strict::<String>(names_view(adj.as_map()[r]))
                    &&& names_view(adj.as_map()[r]).to_set() == dependents_of(
                        entries.push((name, reqs)),
                        r,
                    )
                } by {
                    lemma_push_entry(entries, name, reqs, r);
                }
            }
        },
        None => {
            proof {
                assert(reqs =~= Seq::<Seq<char>>::empty());
                lemma_push_entry(entries, name, reqs, Seq::empty());
                assert(reqs.to_set() =~= Set::<Seq<char>>::empty());
                assert(required_names(entries).union(reqs.to_set()) =~= required_names(entries));
                assert forall|r: Seq<char>| #[trigger]
                    adj.as_map().dom().contains(r) implies {
                    &&& sorted_strict::<String>(names_view(adj.as_map()[r]))
                    &&& names_view(adj.as_map()[r]).to_set() == dependents_of(
                        entries.push((name, reqs)),
                        r,
                    )
                } by {
                    lemma_push_entry(entries, name, reqs, r);
                }
            }
        },
    }
}

/// Builds the command graph of a manifest: each command under its alias, with
/// the number of names it requires and not visited, and for each required alias
/// the ascending list of the aliases of the commands that require it.
pub fn build_command_graph(manifest: &MonowrapManifest) -> (g: CommandGraph)
    ensures
        g.vertices.wf(),
        g.adj_list.wf(),
        g.vertices.as_map() == command_vertices(manifest.commands@),
        is_adjacency_of(g.adj_list.as_map(), command_entries(manifest.commands@)),
{
    let mut adj: OrdMap<String, Vec<String>> = OrdMap::new();
    let mut command_map: OrdMap<String, CommandNode> = OrdMap::new();
    let ghost cmds = manifest.commands@;
    let n = manifest.commands.len();
    let mut i: usize = 0;
    proof {
        assert(required_names(command_entries(cmds.take(0))) =~= Set::<Seq<char>>::empty());
        assert(adj.as_map().dom() =~= Set::<Seq<char>>::empty());
        assert(cmds.take(0) =~= Seq::<Command>::empty());
    }
    while i < n
        invariant
            n == cmds.len(),
            cmds == manifest.commands@,
            i <= n,
            adj.wf(),
            command_map.wf(),
            command_map.as_map() == command_vertices(cmds.take(i as int)),
            is_adjacency_of(adj.as_map(), command_entries(cmds.take(i as int))),
        decreases n - i,
    {
        let command = &manifest.commands[i];
        let deps: i128 = match &command.requires {
            Some(r) => r.len() as i128,
            None => 0,
        };
        command_map.insert(
            command.alias.clone(),
            CommandNode {
                alias: command.alias.clone(),
                uri: command.uri.clone(),
                method: command.method.clone(),
                args: command.args.clone(),
                deps,
                visited: false,
            },
        );
        add_dependents(
            &mut adj,
            &command.alias,
            &command.requires,
            Ghost(command_entries(cmds.take(i as int))),
        );
        proof {
            assert(cmds.take(i + 1).drop_last() =~= cmds.take(i as int));
            assert(command_entries(cmds.take(i + 1)) =~= command_entries(cmds.take(i as int)).push(
                (command.alias@, requires_view(command.requires)),
            ));
        }
        i = i + 1;
    }
    proof {
        assert(cmds.take(n as int) =~= cmds);
    }
    CommandGraph { vertices: command_map, adj_list: adj }
}

/// Builds the dependency graph of a manifest: each package under its name, with
/// the number of names it requires and not visited, and for each required name
/// the ascending list of the names of the packages that require it.
pub fn build_dependency_graph(manifest: &MonowrapManifest) -> (g: DependencyGraph)
    ensures
        g.vertices.wf(),
        g.adj_list.wf(),
        g.vertices.as_map() == dependency_vertices(manifest.dependencies@),
        is_adjacency_of(g.adj_list.as_map(), dependency_entries(manifest.dependencies@)),
{
    let mut adj: OrdMap<String, Vec<String>> = OrdMap::new();
    let mut node_map: OrdMap<String, DependencyNode> = OrdMap::new();
    let ghost deps = manifest.dependencies@;
    let n = manifest.dependencies.len();
    let mut i: usize = 0;
    proof {
        assert(required_names(dependency_entries(deps.take(0))) =~= Set::<Seq<char>>::empty());
        assert(adj.as_map().dom() =~= Set::<Seq<char>>::empty());
        assert(deps.take(0) =~= Seq::<Dependency>::empty());
    }
    while i < n
        invariant
            n == deps.len(),
            deps == manifest.dependencies@,
            i <= n,
            adj.wf(),
            node_map.wf(),
            node_map.as_map() == dependency_vertices(deps.take(i as int)),
            is_adjacency_of(adj.as_map(), dependency_entries(deps.take(i as int))),
        decreases n - i,
    {
        let dependency = &manifest.dependencies[i];
        let count: i128 = match &dependency.requires {
            Some(r) => r.len() as i128,
            None => 0,
        };
        node_map.insert(
            dependency.name.clone(),
            DependencyNode {
                name: dependency.name.clone(),
                path: dependency.path.clone(),
                deps: count,
                visited: false,
            },
        );
        add_dependents(
            &mut adj,
            &dependency.name,
            &dependency.requires,
            Ghost(dependency_entries(deps.take(i as int))),
        );
        proof {
            assert(deps.take(i + 1).drop_last() =~= deps.take(i as int));
            assert(dependency_entries(deps.take(i + 1)) =~= dependency_entries(
                deps.take(i as int),
            ).push((dependency.name@, requires_view(dependency.requires))));
        }
        i = i + 1;
    }
    proof {
        assert(deps.take(n as int) =~= deps);
    }
    DependencyGraph { vertices: node_map, adj_list: adj }
}

/// The command graph and the dependency graph of a manifest, and the command
/// after which the packages that require a package may start.
pub struct BuiltContextGraphs {
    pub id: String,
    pub dependency_graph: DependencyGraph,
    pub command_graph: CommandGraph,
    pub sub_deps_execute_after: String,
}

/// Each adjacency list ascends strictly and names only vertices.
pub open spec fn adjacency_closed<N>(
    adj: Map<Seq<char>, Vec<String>>,
    vertices: Map<Seq<char>, N>,
) -> bool {
    forall|r: Seq<char>| #[trigger]
        adj.contains_key(r) ==> {
            &&& sorted_strict::<String>(names_view(adj[r]))
            &&& forall|i: int|
                0 <= i < adj[r]@.len() ==> vertices.contains_key(#[trigger] names_view(adj[r])[i])
        }
}

impl BuiltContextGraphs {
    /// The maps are ordered, each vertex sits under its own name, and each
    /// adjacency list ascends strictly and names only vertices. Every context
    /// that `build_context_graphs` (or `build_context`) returns meets it; the
    /// fields are public so that callers can read the graphs, and a context
    /// assembled by hand must meet it before the job builder or the scheduler
    /// takes it.
    pub open spec fn wf(&self) -> bool {
        &&& self.command_graph.vertices.wf()
        &&& self.command_graph.adj_list.wf()
        &&& self.dependency_graph.vertices.wf()
        &&& self.dependency_graph.adj_list.wf()
        &&& forall|k: Seq<char>| #[trigger]
            self.command_graph.vertices.as_map().contains_key(k)
                ==> self.command_graph.vertices.as_map()[k].alias@ == k
        &&& forall|k: Seq<char>| #[trigger]
            self.dependency_graph.vertices.as_map().contains_key(k)
                ==> self.dependency_graph.vertices.as_map()[k].name@ == k
        &&& adjacency_closed(
            self.command_graph.adj_list.as_map(),
            self.command_graph.vertices.as_map(),
        )
        &&& adjacency_closed(
            self.dependency_graph.adj_list.as_map(),
            self.dependency_graph.vertices.as_map(),
        )
    }
}

/// The commands sit under their aliases, and every alias has a vertex.
pub proof fn lemma_command_vertices(cmds: Seq<Command>)
    ensures
        forall|k: Seq<char>| #[trigger]
            command_vertices(cmds).contains_key(k) ==> command_vertices(cmds)[k].alias@ == k,
        forall|i: int|
            0 <= i < cmds.len() ==> command_vertices(cmds).contains_key(#[trigger] cmds[i].alias@),
    decreases cmds.len(),
{
    if cmds.len() > 0 {
        lemma_command_vertices(cmds.drop_last());
        assert forall|k: Seq<char>| #[trigger]
            command_vertices(cmds).contains_key(k) implies command_vertices(cmds)[k].alias@ == k by {
            if k != cmds.last().alias@ {
                assert(command_vertices(cmds.drop_last()).contains_key(k));
            }
        }
        assert forall|i: int| 0 <= i < cmds.len() implies command_vertices(cmds).contains_key(
            #[trigger] cmds[i].alias@,
        ) by {
            if i < cmds.len() - 1 {
                assert(cmds.drop_last()[i] == cmds[i]);
            }
        }
    }
}

/// The packages sit under their names, and every name has a vertex.
pub proof fn lemma_dependency_vertices(deps: Seq<Dependency>)
    ensures
        forall|k: Seq<char>| #[trigger]
            dependency_vertices(deps).contains_key(k) ==> dependency_vertices(deps)[k].name@ == k,
        forall|i: int|
            0 <= i < deps.len() ==> dependency_vertices(deps).contains_key(
                #[trigger] deps[i].name@,
            ),
    decreases deps.len(),
{
    if deps.len() > 0 {
        lemma_dependency_vertices(deps.drop_last());
        assert forall|k: Seq<char>| #[trigger]
            dependency_vertices(deps).contains_key(k) implies dependency_vertices(deps)[k].name@
            == k by {
            if k != deps.last().name@ {
                assert(dependency_vertices(deps.drop_last()).contains_key(k));
            }
        }
        assert forall|i: int| 0 <= i < deps.len() implies dependency_vertices(deps).contains_key(
            #[trigger] deps[i].name@,
        ) by {
            if i < deps.len() - 1 {
                assert(deps.drop_last()[i] == deps[i]);
            }
        }
    }
}

/// An adjacency built from entries names only entries, so only vertices.
proof fn lemma_adjacency_closed<N>(
    adj: Map<Seq<char>, Vec<String>>,
    entries: Seq<(Seq<char>, Seq<Seq<char>>)>,
    vertices: Map<Seq<char>, N>,
)
    requires
        is_adjacency_of(adj, entries),
        forall|i: int| 0 <= i < entries.len() ==> vertices.contains_key(#[trigger] entries[i].0),
    ensures
        adjacency_closed(adj, vertices),
{
    assert forall|r: Seq<char>| #[trigger] adj.contains_key(r) implies {
        &&& sorted_strict::<String>(names_view(adj[r]))
        &&& forall|i: int|
            0 <= i < adj[r]@.len() ==> vertices.contains_key(#[trigger] names_view(adj[r])[i])
    } by {
        assert(adj.dom().contains(r));
        assert forall|i: int| 0 <= i < adj[r]@.len() implies vertices.contains_key(
            #[trigger] names_view(adj[r])[i],
        ) by {
            let a = names_view(adj[r])[i];
            assert(names_view(adj[r]).to_set().contains(a));
            assert(dependents_of(entries, r).contains(a));
            let j = choose|j: int|
                0 <= j < entries.len() && #[trigger] entries[j].0 == a && entries[j].1.contains(r);
        }
    }
}

/// What `build_context_graphs` returns for a manifest.
pub open spec fn context_of(manifest: MonowrapManifest, g: BuiltContextGraphs) -> bool {
    &&& g.id@ == "N/A"@
    &&& g.sub_deps_execute_after@ == manifest.sub_deps_execute_after@
    &&& g.command_graph.vertices.as_map() == command_vertices(manifest.commands@)
    &&& is_adjacency_of(g.command_graph.adj_list.as_map(), command_entries(manifest.commands@))
    &&& g.dependency_graph.vertices.as_map() == dependency_vertices(manifest.dependencies@)
    &&& is_adjacency_of(
        g.dependency_graph.adj_list.as_map(),
        dependency_entries(manifest.dependencies@),
    )
}

/// Builds both graphs of a manifest.
pub fn build_context(manifest: &MonowrapManifest) -> (g: BuiltContextGraphs)
    ensures
        g.wf(),
        context_of(*manifest, g),
{
    let command_graph = build_command_graph(manifest);
    let dependency_graph = build_dependency_graph(manifest);
    let id = String::from_str("N/A");
    proof {
        reveal_strlit("N/A");
        let cmds = manifest.commands@;
        let deps = manifest.dependencies@;
        lemma_command_vertices(cmds);
        lemma_dependency_vertices(deps);
        assert forall|i: int| 0 <= i < command_entries(cmds).len() implies command_vertices(
            cmds,
        ).contains_key(#[trigger] command_entries(cmds)[i].0) by {
            assert(command_entries(cmds)[i].0 == cmds[i].alias@);
        }
        assert forall|i: int| 0 <= i < dependency_entries(deps).len() implies dependency_vertices(
            deps,
        ).contains_key(#[trigger] dependency_entries(deps)[i].0) by {
            assert(dependency_entries(deps)[i].0 == deps[i].name@);
        }
        lemma_adjacency_closed(
            command_graph.adj_list.as_map(),
            command_entries(cmds),
            command_vertices(cmds),
        );
        lemma_adjacency_closed(
            dependency_graph.adj_list.as_map(),
            dependency_entries(deps),
            dependency_vertices(deps),
        );
    }
    BuiltContextGraphs {
        id,
        dependency_graph,
        command_graph,
        sub_deps_execute_after: manifest.sub_deps_execute_after.clone(),
    }
}

/// The names in each list of an adjacency.
pub open spec fn adjacency_names(adj: Map<Seq<char>, Vec<String>>) -> Map<Seq<char>, Seq<Seq<char>>> {
    adj.map_values(|v: Vec<String>| names_view(v))
}

/// Two adjacencies of the same entries hold the same keys and the same lists.
pub proof fn lemma_adjacency_unique(
    a: Map<Seq<char>, Vec<String>>,
    b: Map<Seq<char>, Vec<String>>,
    entries: Seq<(Seq<char>, Seq<Seq<char>>)>,
)
    requires
        is_adjacency_of(a, entries),
        is_adjacency_of(b, entries),
    ensures
        adjacency_names(a) == adjacency_names(b),
{
    assert forall|r: Seq<char>| #[trigger] a.contains_key(r) implies names_view(a[r]) == names_view(
        b[r],
    ) by {
        assert(a.dom().contains(r));
        assert(b.dom().contains(r));
        lemma_sorted_strict_unique::<String>(names_view(a[r]), names_view(b[r]));
    }
    assert(adjacency_names(a) =~= adjacency_names(b));
}

/// `build_context_graphs` gives what the two graph builders give: the command
/// graph and the dependency graph of the manifest (the same vertices and the
/// same adjacency lists), the id `N/A` and the manifest's
/// `sub_deps_execute_after`.
pub proof fn lemma_context_is_both_graphs(
    manifest: MonowrapManifest,
    g: BuiltContextGraphs,
    cg: CommandGraph,
    dg: DependencyGraph,
)
    requires
        context_of(manifest, g),
        cg.vertices.as_map() == command_vertices(manifest.commands@),
        is_adjacency_of(cg.adj_list.as_map(), command_entries(manifest.commands@)),
        dg.vertices.as_map() == dependency_vertices(manifest.dependencies@),
        is_adjacency_of(dg.adj_list.as_map(), dependency_entries(manifest.dependencies@)),
    ensures
        g.id@ == "N/A"@,
        g.sub_deps_execute_after@ == manifest.sub_deps_execute_after@,
        g.command_graph.vertices.as_map() == cg.vertices.as_map(),
        adjacency_names(g.command_graph.adj_list.as_map()) == adjacency_names(cg.adj_list.as_map()),
        g.dependency_graph.vertices.as_map() == dg.vertices.as_map(),
        adjacency_names(g.dependency_graph.adj_list.as_map()) == adjacency_names(
            dg.adj_list.as_map(),
        ),
{
    lemma_adjacency_unique(
        g.command_graph.adj_list.as_map(),
        cg.adj_list.as_map(),
        command_entries(manifest.commands@),
    );
    lemma_adjacency_unique(
        g.dependency_graph.adj_list.as_map(),
        dg.adj_list.as_map(),
        dependency_entries(manifest.dependencies@),
    );
}

} // verus!
