//! The job graph: one job per package and command, with an edge from a job to
//! each job that may start only after it, and for each job the number of jobs
//! that must run before it.
//!
//! The builder walks the packages in rounds: each round takes, in name order,
//! the packages whose requirements are all met and that it has not visited,
//! marks them visited and adds their jobs. Adding the jobs of a package walks
//! the commands the same way, on a copy of the command graph.
use crate::graph::{names_view, BuiltContextGraphs, CommandNode, DependencyNode};
use crate::keys::{pair_lt, sorted_strict, OrderedKey};
use crate::ordmap::{key_views, OrdMap};
use vstd::prelude::*;

verus! {

/// The targets of `k` in an adjacency map; none where `k` has no entry.
pub open spec fn targets_of(adj: Map<Seq<char>, Vec<String>>, k: Seq<char>) -> Seq<Seq<char>> {
    if adj.contains_key(k) {
        names_view(adj[k])
    } else {
        Seq::empty()
    }
}

/// One requirement fewer (the count stops at the least `i128`).
pub open spec fn dec_count(d: i128) -> i128 {
    if d > i128::MIN {
        (d - 1) as i128
    } else {
        d
    }
}

// ---------------------------------------------------------------------------
// The walk over the commands.
// ---------------------------------------------------------------------------

/// A command is ready when all its requirements are met and it is not visited.
pub open spec fn cmd_ready(nodes: Map<Seq<char>, CommandNode>, k: Seq<char>) -> bool {
    &&& nodes.contains_key(k)
    &&& nodes[k].deps == 0
    &&& !nodes[k].visited
}

/// The ready commands, in key order.
pub open spec fn ready_commands(nodes: Map<Seq<char>, CommandNode>, keys: Seq<Seq<char>>) -> Seq<
    Seq<char>,
>
    decreases keys.len(),
{
    if keys.len() == 0 {
        Seq::empty()
    } else {
        let rest = ready_commands(nodes, keys.drop_last());
        if cmd_ready(nodes, keys.last()) {
            rest.push(keys.last())
        } else {
            rest
        }
    }
}

/// How many of the keys name a command that is not visited.
pub open spec fn unvisited_commands(nodes: Map<Seq<char>, CommandNode>, keys: Seq<Seq<char>>) -> nat
    decreases keys.len(),
{
    if keys.len() == 0 {
        0
    } else {
        unvisited_commands(nodes, keys.drop_last()) + (if nodes.contains_key(keys.last())
            && !nodes[keys.last()].visited {
            1nat
        } else {
            0nat
        })
    }
}

/// One requirement of command `s` is met.
pub open spec fn cmd_dec(nodes: Map<Seq<char>, CommandNode>, s: Seq<char>) -> Map<
    Seq<char>,
    CommandNode,
> {
    if nodes.contains_key(s) {
        let n = nodes[s];
        nodes.insert(
            s,
            CommandNode {
                alias: n.alias,
                uri: n.uri,
                method: n.method,
                args: n.args,
                deps: dec_count(n.deps),
                visited: n.visited,
            },
        )
    } else {
        nodes
    }
}

pub open spec fn cmd_dec_all(nodes: Map<Seq<char>, CommandNode>, ts: Seq<Seq<char>>) -> Map<
    Seq<char>,
    CommandNode,
>
    decreases ts.len(),
{
    if ts.len() == 0 {
        nodes
    } else {
        cmd_dec(cmd_dec_all(nodes, ts.drop_last()), ts.last())
    }
}

/// Command `c` is marked visited.
pub open spec fn cmd_mark(nodes: Map<Seq<char>, CommandNode>, c: Seq<char>) -> Map<
    Seq<char>,
    CommandNode,
> {
    if nodes.contains_key(c) {
        let n = nodes[c];
        nodes.insert(
            c,
            CommandNode {
                alias: n.alias,
                uri: n.uri,
                method: n.method,
                args: n.args,
                deps: n.deps,
                visited: true,
            },
        )
    } else {
        nodes
    }
}

/// Visiting `c`: it is marked, and one requirement of each command that
/// requires it is met.
pub open spec fn cmd_visit(
    nodes: Map<Seq<char>, CommandNode>,
    adj: Map<Seq<char>, Vec<String>>,
    c: Seq<char>,
) -> Map<Seq<char>, CommandNode> {
    cmd_dec_all(cmd_mark(nodes, c), targets_of(adj, c))
}

pub open spec fn cmd_visit_all(
    nodes: Map<Seq<char>, CommandNode>,
    adj: Map<Seq<char>, Vec<String>>,
    batch: Seq<Seq<char>>,
) -> Map<Seq<char>, CommandNode>
    decreases batch.len(),
{
    if batch.len() == 0 {
        nodes
    } else {
        cmd_visit(cmd_visit_all(nodes, adj, batch.drop_last()), adj, batch.last())
    }
}

pub proof fn lemma_cmd_dec_all_keeps(nodes: Map<Seq<char>, CommandNode>, ts: Seq<Seq<char>>)
    ensures
        cmd_dec_all(nodes, ts).dom() == nodes.dom(),
        forall|k: Seq<char>| #[trigger]
            nodes.contains_key(k) ==> cmd_dec_all(nodes, ts)[k].visited == nodes[k].visited,
    decreases ts.len(),
{
    if ts.len() > 0 {
        lemma_cmd_dec_all_keeps(nodes, ts.drop_last());
        let m = cmd_dec_all(nodes, ts.drop_last());
        assert(cmd_dec(m, ts.last()).dom() =~= m.dom());
    }
}

pub proof fn lemma_cmd_visit_all_keeps(
    nodes: Map<Seq<char>, CommandNode>,
    adj: Map<Seq<char>, Vec<String>>,
    batch: Seq<Seq<char>>,
)
    ensures
        cmd_visit_all(nodes, adj, batch).dom() == nodes.dom(),
        forall|k: Seq<char>| #[trigger]
            nodes.contains_key(k) && nodes[k].visited ==> cmd_visit_all(nodes, adj, batch)[k].visited,
        forall|i: int|
            0 <= i < batch.len() && nodes.contains_key(batch[i]) ==> cmd_visit_all(
                nodes,
                adj,
                batch,
            )[#[trigger] batch[i]].visited,
    decreases batch.len(),
{
    if batch.len() > 0 {
        let prev = batch.drop_last();
        lemma_cmd_visit_all_keeps(nodes, adj, prev);
        let m = cmd_visit_all(nodes, adj, prev);
        let c = batch.last();
        assert(cmd_mark(m, c).dom() =~= m.dom());
        lemma_cmd_dec_all_keeps(cmd_mark(m, c), targets_of(adj, c));
        assert forall|i: int|
            0 <= i < batch.len() && nodes.contains_key(batch[i]) implies cmd_visit_all(
            nodes,
            adj,
            batch,
        )[#[trigger] batch[i]].visited by {
            if i < batch.len() - 1 {
                assert(prev[i] == batch[i]);
            }
        }
    }
}

pub proof fn lemma_ready_commands(nodes: Map<Seq<char>, CommandNode>, keys: Seq<Seq<char>>)
    ensures
        forall|i: int|
            0 <= i < ready_commands(nodes, keys).len() ==> cmd_ready(
                nodes,
                #[trigger] ready_commands(nodes, keys)[i],
            ),
        forall|i: int|
            0 <= i < ready_commands(nodes, keys).len() ==> keys.contains(
                #[trigger] ready_commands(nodes, keys)[i],
            ),
    decreases keys.len(),
{
    if keys.len() > 0 {
        lemma_ready_commands(nodes, keys.drop_last());
        let rest = ready_commands(nodes, keys.drop_last());
        assert forall|i: int| 0 <= i < ready_commands(nodes, keys).len() implies keys.contains(
            #[trigger] ready_commands(nodes, keys)[i],
        ) by {
            if i < rest.len() {
                let r = rest[i];
                assert(keys.drop_last().contains(r));
                let j = choose|j: int| 0 <= j < keys.drop_last().len() && keys.drop_last()[j] == r;
                assert(keys[j] == r);
            } else {
                assert(keys[keys.len() - 1] == keys.last());
            }
        }
    }
}

/// Fewer unvisited commands after a change that marks one and clears none.
pub proof fn lemma_unvisited_commands_drop(
    a: Map<Seq<char>, CommandNode>,
    b: Map<Seq<char>, CommandNode>,
    keys: Seq<Seq<char>>,
    k: Seq<char>,
)
    requires
        b.dom() == a.dom(),
        forall|x: Seq<char>| #[trigger] a.contains_key(x) && a[x].visited ==> b[x].visited,
    ensures
        unvisited_commands(b, keys) <= unvisited_commands(a, keys),
        keys.contains(k) && a.contains_key(k) && !a[k].visited && b[k].visited
            ==> unvisited_commands(b, keys) < unvisited_commands(a, keys),
    decreases keys.len(),
{
    if keys.len() > 0 {
        lemma_unvisited_commands_drop(a, b, keys.drop_last(), k);
        if keys.contains(k) && keys.last() != k {
            let j = choose|j: int| 0 <= j < keys.len() && keys[j] == k;
            assert(keys.drop_last()[j] == k);
        }
    }
}

pub proof fn lemma_command_round_progress(
    nodes: Map<Seq<char>, CommandNode>,
    keys: Seq<Seq<char>>,
    adj: Map<Seq<char>, Vec<String>>,
)
    requires
        ready_commands(nodes, keys).len() > 0,
    ensures
        unvisited_commands(
            cmd_visit_all(nodes, adj, ready_commands(nodes, keys)),
            keys,
        ) < unvisited_commands(nodes, keys),
{
    let batch = ready_commands(nodes, keys);
    lemma_ready_commands(nodes, keys);
    lemma_cmd_visit_all_keeps(nodes, adj, batch);
    let k = batch[0];
    assert(cmd_ready(nodes, k));
    lemma_unvisited_commands_drop(nodes, cmd_visit_all(nodes, adj, batch), keys, k);
}

/// The order in which the walk visits the commands: round after round, the
/// ready commands in key order.
pub open spec fn command_order(
    nodes: Map<Seq<char>, CommandNode>,
    keys: Seq<Seq<char>>,
    adj: Map<Seq<char>, Vec<String>>,
) -> Seq<Seq<char>>
    decreases unvisited_commands(nodes, keys),
{
    let batch = ready_commands(nodes, keys);
    if batch.len() == 0 {
        Seq::empty()
    } else {
        proof {
            lemma_command_round_progress(nodes, keys, adj);
        }
        batch + command_order(cmd_visit_all(nodes, adj, batch), keys, adj)
    }
}

// ---------------------------------------------------------------------------
// The walk over the packages.
// ---------------------------------------------------------------------------

pub open spec fn dep_ready(nodes: Map<Seq<char>, DependencyNode>, k: Seq<char>) -> bool {
    &&& nodes.contains_key(k)
    &&& nodes[k].deps == 0
    &&& !nodes[k].visited
}

/// The ready packages, in key order.
pub open spec fn ready_dependencies(
    nodes: Map<Seq<char>, DependencyNode>,
    keys: Seq<Seq<char>>,
) -> Seq<Seq<char>>
    decreases keys.len(),
{
    if keys.len() == 0 {
        Seq::empty()
    } else {
        let rest = ready_dependencies(nodes, keys.drop_last());
        if dep_ready(nodes, keys.last()) {
            rest.push(keys.last())
        } else {
            rest
        }
    }
}

pub open spec fn unvisited_dependencies(
    nodes: Map<Seq<char>, DependencyNode>,
    keys: Seq<Seq<char>>,
) -> nat
    decreases keys.len(),
{
    if keys.len() == 0 {
        0
    } else {
        unvisited_dependencies(nodes, keys.drop_last()) + (if nodes.contains_key(keys.last())
            && !nodes[keys.last()].visited {
            1nat
        } else {
            0nat
        })
    }
}

/// One requirement of package `s` is met.
pub open spec fn dep_dec(nodes: Map<Seq<char>, DependencyNode>, s: Seq<char>) -> Map<
    Seq<char>,
    DependencyNode,
> {
    if nodes.contains_key(s) {
        let n = nodes[s];
        nodes.insert(
            s,
            DependencyNode { name: n.name, path: n.path, deps: dec_count(n.deps), visited: n.visited },
        )
    } else {
        nodes
    }
}

/// `n` requirements of package `s` are met.
pub open spec fn dep_dec_times(nodes: Map<Seq<char>, DependencyNode>, s: Seq<char>, n: nat) -> Map<
    Seq<char>,
    DependencyNode,
>
    decreases n,
{
    if n == 0 {
        nodes
    } else {
        dep_dec(dep_dec_times(nodes, s, (n - 1) as nat), s)
    }
}

/// `n` requirements of each package in `sds` are met.
pub open spec fn dep_dec_each(
    nodes: Map<Seq<char>, DependencyNode>,
    sds: Seq<Seq<char>>,
    n: nat,
) -> Map<Seq<char>, DependencyNode>
    decreases sds.len(),
{
    if sds.len() == 0 {
        nodes
    } else {
        dep_dec_times(dep_dec_each(nodes, sds.drop_last(), n), sds.last(), n)
    }
}

/// Package `x` is marked visited.
pub open spec fn dep_mark(nodes: Map<Seq<char>, DependencyNode>, x: Seq<char>) -> Map<
    Seq<char>,
    DependencyNode,
> {
    if nodes.contains_key(x) {
        let n = nodes[x];
        nodes.insert(x, DependencyNode { name: n.name, path: n.path, deps: n.deps, visited: true })
    } else {
        nodes
    }
}

// ---------------------------------------------------------------------------
// The jobs.
// ---------------------------------------------------------------------------

/// A job: a package and a command.
pub type JobKey = (Seq<char>, Seq<char>);

/// The jobs: for each, the number of jobs before it and the jobs after it.
pub type JobModel = (Map<JobKey, u32>, Map<JobKey, Seq<JobKey>>);

/// The count of a job; zero for a job not in the map.
pub open spec fn count_of(counts: Map<JobKey, u32>, k: JobKey) -> int {
    if counts.contains_key(k) {
        counts[k] as int
    } else {
        0
    }
}

/// The jobs of package `x` for the commands `ts`.
pub open spec fn pair_all(x: Seq<char>, ts: Seq<Seq<char>>) -> Seq<JobKey> {
    ts.map_values(|t: Seq<char>| (x, t))
}

/// The jobs of each package in `sds` for each command in `roots`.
pub open spec fn cross_targets(sds: Seq<Seq<char>>, roots: Seq<Seq<char>>) -> Seq<JobKey>
    decreases sds.len(),
{
    if sds.len() == 0 {
        Seq::empty()
    } else {
        cross_targets(sds.drop_last(), roots) + pair_all(sds.last(), roots)
    }
}

/// An edge from `src` to `t`: one more job before `t`.
pub open spec fn job_add_edge(job: JobModel, src: JobKey, t: JobKey) -> JobModel {
    (job.0.insert(t, (count_of(job.0, t) + 1) as u32), job.1.insert(src, job.1[src].push(t)))
}

pub open spec fn job_add_edges(job: JobModel, src: JobKey, ts: Seq<JobKey>) -> JobModel
    decreases ts.len(),
{
    if ts.len() == 0 {
        job
    } else {
        job_add_edge(job_add_edges(job, src, ts.drop_last()), src, ts.last())
    }
}

/// Job `src` exists, with no jobs before it and none after it where it is new.
pub open spec fn job_open(job: JobModel, src: JobKey) -> JobModel {
    (
        if job.0.contains_key(src) {
            job.0
        } else {
            job.0.insert(src, 0)
        },
        if job.1.contains_key(src) {
            job.1
        } else {
            job.1.insert(src, Seq::empty())
        },
    )
}

pub open spec fn cmd_vertices(ctx: BuiltContextGraphs) -> Map<Seq<char>, CommandNode> {
    ctx.command_graph.vertices.as_map()
}

pub open spec fn cmd_keys(ctx: BuiltContextGraphs) -> Seq<Seq<char>> {
    ctx.command_graph.vertices.key_seq()
}

pub open spec fn cmd_adj(ctx: BuiltContextGraphs) -> Map<Seq<char>, Vec<String>> {
    ctx.command_graph.adj_list.as_map()
}

pub open spec fn dep_vertices(ctx: BuiltContextGraphs) -> Map<Seq<char>, DependencyNode> {
    ctx.dependency_graph.vertices.as_map()
}

pub open spec fn dep_keys(ctx: BuiltContextGraphs) -> Seq<Seq<char>> {
    ctx.dependency_graph.vertices.key_seq()
}

pub open spec fn dep_adj(ctx: BuiltContextGraphs) -> Map<Seq<char>, Vec<String>> {
    ctx.dependency_graph.adj_list.as_map()
}

/// What the walks read of the context: the command vertices, their keys in
/// order, the command adjacency, the package adjacency, and the command after
/// which the packages that require a package may start.
pub type Walk = (
    Map<Seq<char>, CommandNode>,
    Seq<Seq<char>>,
    Map<Seq<char>, Vec<String>>,
    Map<Seq<char>, Vec<String>>,
    Seq<char>,
);

pub open spec fn walk_of(ctx: BuiltContextGraphs) -> Walk {
    (cmd_vertices(ctx), cmd_keys(ctx), cmd_adj(ctx), dep_adj(ctx), ctx.sub_deps_execute_after@)
}

/// The commands that require nothing (more) in the context's command graph.
pub open spec fn root_commands(w: Walk) -> Seq<Seq<char>> {
    ready_commands(w.0, w.1)
}

/// The order in which adding the jobs of a package visits the commands.
pub open spec fn commands_in_order(w: Walk) -> Seq<Seq<char>> {
    command_order(w.0, w.1, w.2)
}

/// The jobs after job (`x`, `c`): package `x` with each command that requires
/// `c`, and, where `c` is the command after which the packages that require `x`
/// may start, each such package with each command that requires nothing.
pub open spec fn job_targets(w: Walk, x: Seq<char>, c: Seq<char>) -> Seq<JobKey> {
    pair_all(x, targets_of(w.2, c)) + (if c == w.4 {
        cross_targets(targets_of(w.3, x), root_commands(w))
    } else {
        Seq::empty()
    })
}

pub open spec fn job_visit(job: JobModel, w: Walk, x: Seq<char>, c: Seq<char>) -> JobModel {
    job_add_edges(job_open(job, (x, c)), (x, c), job_targets(w, x, c))
}

pub open spec fn job_visit_all(
    job: JobModel,
    w: Walk,
    x: Seq<char>,
    cs: Seq<Seq<char>>,
) -> JobModel
    decreases cs.len(),
{
    if cs.len() == 0 {
        job
    } else {
        job_visit(job_visit_all(job, w, x, cs.drop_last()), w, x, cs.last())
    }
}

/// The packages' counts as the commands `cs` are visited for package `x`.
pub open spec fn deps_visit_all(
    nodes: Map<Seq<char>, DependencyNode>,
    w: Walk,
    x: Seq<char>,
    cs: Seq<Seq<char>>,
) -> Map<Seq<char>, DependencyNode>
    decreases cs.len(),
{
    if cs.len() == 0 {
        nodes
    } else {
        let prev = deps_visit_all(nodes, w, x, cs.drop_last());
        if cs.last() == w.4 {
            dep_dec_each(prev, targets_of(w.3, x), root_commands(w).len())
        } else {
            prev
        }
    }
}

/// The jobs once those of package `x` are added.
pub open spec fn jobs_after_adding(job: JobModel, w: Walk, x: Seq<char>) -> JobModel {
    job_visit_all(job, w, x, commands_in_order(w))
}

/// The packages once the jobs of package `x` are added.
pub open spec fn deps_after_adding(
    nodes: Map<Seq<char>, DependencyNode>,
    w: Walk,
    x: Seq<char>,
) -> Map<Seq<char>, DependencyNode> {
    deps_visit_all(nodes, w, x, commands_in_order(w))
}

/// One round of the walk over the packages: each package of `batch` is marked
/// visited and its jobs are added.
pub open spec fn build_round(
    job: JobModel,
    nodes: Map<Seq<char>, DependencyNode>,
    w: Walk,
    batch: Seq<Seq<char>>,
) -> (JobModel, Map<Seq<char>, DependencyNode>)
    decreases batch.len(),
{
    if batch.len() == 0 {
        (job, nodes)
    } else {
        let prev = build_round(job, nodes, w, batch.drop_last());
        let x = batch.last();
        (jobs_after_adding(prev.0, w, x), deps_after_adding(dep_mark(prev.1, x), w, x))
    }
}

pub proof fn lemma_dep_dec_keeps(nodes: Map<Seq<char>, DependencyNode>, s: Seq<char>)
    ensures
        dep_dec(nodes, s).dom() == nodes.dom(),
        forall|k: Seq<char>| #[trigger]
            nodes.contains_key(k) ==> dep_dec(nodes, s)[k].visited == nodes[k].visited,
        forall|k: Seq<char>| #[trigger]
            nodes.contains_key(k) ==> dep_dec(nodes, s)[k].name == nodes[k].name
                && dep_dec(nodes, s)[k].path == nodes[k].path,
{
    assert(dep_dec(nodes, s).dom() =~= nodes.dom());
}

pub proof fn lemma_dep_dec_times_keeps(nodes: Map<Seq<char>, DependencyNode>, s: Seq<char>, n: nat)
    ensures
        dep_dec_times(nodes, s, n).dom() == nodes.dom(),
        forall|k: Seq<char>| #[trigger]
            nodes.contains_key(k) ==> dep_dec_times(nodes, s, n)[k].visited == nodes[k].visited,
        forall|k: Seq<char>| #[trigger]
            nodes.contains_key(k) ==> dep_dec_times(nodes, s, n)[k].name == nodes[k].name
                && dep_dec_times(nodes, s, n)[k].path == nodes[k].path,
    decreases n,
{
    if n > 0 {
        lemma_dep_dec_times_keeps(nodes, s, (n - 1) as nat);
        lemma_dep_dec_keeps(dep_dec_times(nodes, s, (n - 1) as nat), s);
    }
}

pub proof fn lemma_dep_dec_each_keeps(
    nodes: Map<Seq<char>, DependencyNode>,
    sds: Seq<Seq<char>>,
    n: nat,
)
    ensures
        dep_dec_each(nodes, sds, n).dom() == nodes.dom(),
        forall|k: Seq<char>| #[trigger]
            nodes.contains_key(k) ==> dep_dec_each(nodes, sds, n)[k].visited == nodes[k].visited,
        forall|k: Seq<char>| #[trigger]
            nodes.contains_key(k) ==> dep_dec_each(nodes, sds, n)[k].name == nodes[k].name
                && dep_dec_each(nodes, sds, n)[k].path == nodes[k].path,
    decreases sds.len(),
{
    if sds.len() > 0 {
        lemma_dep_dec_each_keeps(nodes, sds.drop_last(), n);
        lemma_dep_dec_times_keeps(dep_dec_each(nodes, sds.drop_last(), n), sds.last(), n);
    }
}

pub proof fn lemma_deps_visit_all_keeps(
    nodes: Map<Seq<char>, DependencyNode>,
    w: Walk,
    x: Seq<char>,
    cs: Seq<Seq<char>>,
)
    ensures
        deps_visit_all(nodes, w, x, cs).dom() == nodes.dom(),
        forall|k: Seq<char>| #[trigger]
            nodes.contains_key(k) ==> deps_visit_all(nodes, w, x, cs)[k].visited
                == nodes[k].visited,
        forall|k: Seq<char>| #[trigger]
            nodes.contains_key(k) ==> deps_visit_all(nodes, w, x, cs)[k].name == nodes[k].name
                && deps_visit_all(nodes, w, x, cs)[k].path == nodes[k].path,
    decreases cs.len(),
{
    if cs.len() > 0 {
        lemma_deps_visit_all_keeps(nodes, w, x, cs.drop_last());
        lemma_dep_dec_each_keeps(
            deps_visit_all(nodes, w, x, cs.drop_last()),
            targets_of(w.3, x),
            root_commands(w).len(),
        );
    }
}

pub proof fn lemma_build_round_keeps(
    job: JobModel,
    nodes: Map<Seq<char>, DependencyNode>,
    w: Walk,
    batch: Seq<Seq<char>>,
)
    ensures
        build_round(job, nodes, w, batch).1.dom() == nodes.dom(),
        forall|k: Seq<char>| #[trigger]
            nodes.contains_key(k) && nodes[k].visited ==> build_round(
                job,
                nodes,
                w,
                batch,
            ).1[k].visited,
        forall|i: int|
            0 <= i < batch.len() && nodes.contains_key(batch[i]) ==> build_round(
                job,
                nodes,
                w,
                batch,
            ).1[#[trigger] batch[i]].visited,
        forall|k: Seq<char>| #[trigger]
            nodes.contains_key(k) ==> build_round(job, nodes, w, batch).1[k].name == nodes[k].name
                && build_round(job, nodes, w, batch).1[k].path == nodes[k].path,
    decreases batch.len(),
{
    if batch.len() > 0 {
        let prev = batch.drop_last();
        lemma_build_round_keeps(job, nodes, w, prev);
        let m = build_round(job, nodes, w, prev).1;
        let x = batch.last();
        assert(dep_mark(m, x).dom() =~= m.dom());
        lemma_deps_visit_all_keeps(dep_mark(m, x), w, x, commands_in_order(w));
        assert forall|i: int|
            0 <= i < batch.len() && nodes.contains_key(batch[i]) implies build_round(
            job,
            nodes,
            w,
            batch,
        ).1[#[trigger] batch[i]].visited by {
            if i < batch.len() - 1 {
                assert(prev[i] == batch[i]);
            }
        }
    }
}

pub proof fn lemma_ready_dependencies(nodes: Map<Seq<char>, DependencyNode>, keys: Seq<Seq<char>>)
    ensures
        forall|i: int|
            0 <= i < ready_dependencies(nodes, keys).len() ==> dep_ready(
                nodes,
                #[trigger] ready_dependencies(nodes, keys)[i],
            ),
        forall|i: int|
            0 <= i < ready_dependencies(nodes, keys).len() ==> keys.contains(
                #[trigger] ready_dependencies(nodes, keys)[i],
            ),
    decreases keys.len(),
{
    if keys.len() > 0 {
        lemma_ready_dependencies(nodes, keys.drop_last());
        let rest = ready_dependencies(nodes, keys.drop_last());
        assert forall|i: int| 0 <= i < ready_dependencies(nodes, keys).len() implies keys.contains(
            #[trigger] ready_dependencies(nodes, keys)[i],
        ) by {
            if i < rest.len() {
                let r = rest[i];
                assert(keys.drop_last().contains(r));
                let j = choose|j: int| 0 <= j < keys.drop_last().len() && keys.drop_last()[j] == r;
                assert(keys[j] == r);
            } else {
                assert(keys[keys.len() - 1] == keys.last());
            }
        }
    }
}

pub proof fn lemma_unvisited_dependencies_drop(
    a: Map<Seq<char>, DependencyNode>,
    b: Map<Seq<char>, DependencyNode>,
    keys: Seq<Seq<char>>,
    k: Seq<char>,
)
    requires
        b.dom() == a.dom(),
        forall|x: Seq<char>| #[trigger] a.contains_key(x) && a[x].visited ==> b[x].visited,
    ensures
        unvisited_dependencies(b, keys) <= unvisited_dependencies(a, keys),
        keys.contains(k) && a.contains_key(k) && !a[k].visited && b[k].visited
            ==> unvisited_dependencies(b, keys) < unvisited_dependencies(a, keys),
    decreases keys.len(),
{
    if keys.len() > 0 {
        lemma_unvisited_dependencies_drop(a, b, keys.drop_last(), k);
        if keys.contains(k) && keys.last() != k {
            let j = choose|j: int| 0 <= j < keys.len() && keys[j] == k;
            assert(keys.drop_last()[j] == k);
        }
    }
}

pub proof fn lemma_dependency_round_progress(
    job: JobModel,
    nodes: Map<Seq<char>, DependencyNode>,
    w: Walk,
    keys: Seq<Seq<char>>,
)
    requires
        ready_dependencies(nodes, keys).len() > 0,
    ensures
        unvisited_dependencies(
            build_round(job, nodes, w, ready_dependencies(nodes, keys)).1,
            keys,
        ) < unvisited_dependencies(nodes, keys),
{
    let batch = ready_dependencies(nodes, keys);
    lemma_ready_dependencies(nodes, keys);
    lemma_build_round_keeps(job, nodes, w, batch);
    let k = batch[0];
    assert(dep_ready(nodes, k));
    lemma_unvisited_dependencies_drop(nodes, build_round(job, nodes, w, batch).1, keys, k);
}

/// The walk over the packages from the given jobs and package counts: round
/// after round until no package is ready.
pub open spec fn build_from(
    job: JobModel,
    nodes: Map<Seq<char>, DependencyNode>,
    w: Walk,
    keys: Seq<Seq<char>>,
) -> (JobModel, Map<Seq<char>, DependencyNode>)
    decreases unvisited_dependencies(nodes, keys),
{
    let batch = ready_dependencies(nodes, keys);
    if batch.len() == 0 {
        (job, nodes)
    } else {
        proof {
            lemma_dependency_round_progress(job, nodes, w, keys);
        }
        let next = build_round(job, nodes, w, batch);
        build_from(next.0, next.1, w, keys)
    }
}

// ---------------------------------------------------------------------------
// The job graph.
// ---------------------------------------------------------------------------

/// The jobs after each job, by view.
pub open spec fn edges_view(m: Map<JobKey, Vec<(String, String)>>) -> Map<JobKey, Seq<JobKey>> {
    Map::new(|k: JobKey| m.contains_key(k), |k: JobKey| key_views(m[k]@))
}

/// For each job, the number of jobs that must run before it, and the jobs that
/// may run only after it.
pub struct JobGraph {
    pub vertices: OrdMap<(String, String), u32>,
    pub adj_list: OrdMap<(String, String), Vec<(String, String)>>,
}

impl JobGraph {
    pub open spec fn wf(&self) -> bool {
        self.vertices.wf() && self.adj_list.wf()
    }

    pub open spec fn model(&self) -> JobModel {
        (self.vertices.as_map(), edges_view(self.adj_list.as_map()))
    }

    pub fn new() -> (g: JobGraph)
        ensures
            g.wf(),
            g.model() == (Map::<JobKey, u32>::empty(), Map::<JobKey, Seq<JobKey>>::empty()),
            indegree_law(g.model()),
    {
        let g = JobGraph { vertices: OrdMap::new(), adj_list: OrdMap::new() };
        assert(edges_view(g.adj_list.as_map()) =~= Map::<JobKey, Seq<JobKey>>::empty());
        proof {
            lemma_law_empty();
        }
        g
    }

    /// Creates job `src` where it is missing.
    fn open(&mut self, src: &(String, String))
        requires
            old(self).wf(),
        ensures
            final(self).wf(),
            final(self).model() == job_open(old(self).model(), src@),
            indegree_law(old(self).model()) ==> indegree_law(final(self).model()),
    {
        let ghost m = self.model();
        proof {
            if indegree_law(m) {
                lemma_law_open(m, src@);
            }
        }
        if !self.vertices.contains_key(src) {
            self.vertices.insert(src.clone_key(), 0);
        }
        if !self.adj_list.contains_key(src) {
            let ghost before = self.adj_list.as_map();
            let empty: Vec<(String, String)> = Vec::new();
            assert(key_views(empty@) =~= Seq::<JobKey>::empty());
            self.adj_list.insert(src.clone_key(), empty);
            proof {
                assert(edges_view(self.adj_list.as_map()) =~= edges_view(before).insert(
                    src@,
                    Seq::empty(),
                ));
            }
        }
        proof {
            assert(self.model().0 =~= job_open(m, src@).0);
            assert(self.model().1 =~= job_open(m, src@).1);
        }
    }

    /// Adds an edge from `src` to `t`: one more job before `t`.
    fn add_edge(&mut self, src: &(String, String), t: &(String, String))
        requires
            old(self).wf(),
            old(self).model().1.contains_key(src@),
            count_of(old(self).model().0, t@) < u32::MAX,
        ensures
            final(self).wf(),
            final(self).model() == job_add_edge(old(self).model(), src@, t@),
            indegree_law(old(self).model()) ==> indegree_law(final(self).model()),
    {
        let ghost m = self.model();
        proof {
            if indegree_law(m) {
                lemma_law_add_edge(m, src@, t@);
            }
        }
        let count: u32 = match self.vertices.get(t) {
            Some(c) => *c,
            None => 0,
        };
        self.vertices.insert(t.clone_key(), count + 1);
        let ghost before = self.adj_list.as_map();
        let mut list = clone_job_keys(self.adj_list.get(src).unwrap());
        list.push(t.clone_key());
        proof {
            assert(key_views(list@) =~= m.1[src@].push(t@));
        }
        self.adj_list.insert(src.clone_key(), list);
        proof {
            assert(edges_view(self.adj_list.as_map()) =~= m.1.insert(src@, m.1[src@].push(t@)));
            assert(self.model().0 =~= job_add_edge(m, src@, t@).0);
        }
    }

    /// A copy of the job graph.
    pub fn copy(&self) -> (g: JobGraph)
        requires
            self.wf(),
        ensures
            g.wf(),
            g.model() == self.model(),
    {
        let mut vertices: OrdMap<(String, String), u32> = OrdMap::new();
        let n = self.vertices.len();
        let mut i: usize = 0;
        while i < n
            invariant
                n == self.vertices.spec_len(),
                self.wf(),
                i <= n,
                vertices.wf(),
                vertices.key_seq() == self.vertices.key_seq().take(i as int),
                vertices.value_seq() == self.vertices.value_seq().take(i as int),
            decreases n - i,
        {
            proof {
                assert forall|j: int| 0 <= j < vertices.spec_len() implies pair_lt(
                    #[trigger] vertices.key_seq()[j],
                    self.vertices.key_seq()[i as int],
                ) by {
                    assert(vertices.key_seq()[j] == self.vertices.key_seq()[j]);
                    assert(<(String, String) as OrderedKey>::key_lt(
                        self.vertices.key_seq()[j],
                        self.vertices.key_seq()[i as int],
                    ));
                }
            }
            vertices.push_last(self.vertices.key_at(i).clone_key(), *self.vertices.value_at(i));
            proof {
                assert(vertices.key_seq() =~= self.vertices.key_seq().take(i + 1));
                assert(vertices.value_seq() =~= self.vertices.value_seq().take(i + 1));
            }
            i = i + 1;
        }
        let mut adj: OrdMap<(String, String), Vec<(String, String)>> = OrdMap::new();
        let n2 = self.adj_list.len();
        let mut i2: usize = 0;
        while i2 < n2
            invariant
                n2 == self.adj_list.spec_len(),
                self.wf(),
                i2 <= n2,
                adj.wf(),
                adj.key_seq() == self.adj_list.key_seq().take(i2 as int),
                adj.value_seq().len() == i2,
                forall|j: int|
                    0 <= j < i2 ==> key_views(#[trigger] adj.value_seq()[j]@) == key_views(
                        self.adj_list.value_seq()[j]@,
                    ),
            decreases n2 - i2,
        {
            proof {
                assert forall|j: int| 0 <= j < adj.spec_len() implies pair_lt(
                    #[trigger] adj.key_seq()[j],
                    self.adj_list.key_seq()[i2 as int],
                ) by {
                    assert(adj.key_seq()[j] == self.adj_list.key_seq()[j]);
                    assert(<(String, String) as OrderedKey>::key_lt(
                        self.adj_list.key_seq()[j],
                        self.adj_list.key_seq()[i2 as int],
                    ));
                }
            }
            adj.push_last(
                self.adj_list.key_at(i2).clone_key(),
                clone_job_keys(self.adj_list.value_at(i2)),
            );
            proof {
                assert(adj.key_seq() =~= self.adj_list.key_seq().take(i2 + 1));
            }
            i2 = i2 + 1;
        }
        proof {
            assert(vertices.key_seq() =~= self.vertices.key_seq());
            assert(vertices.value_seq() =~= self.vertices.value_seq());
            assert(adj.key_seq() =~= self.adj_list.key_seq());
            lemma_same_entries(vertices, self.vertices);
            assert forall|k: JobKey| #[trigger] adj.as_map().contains_key(k) implies key_views(
                adj.as_map()[k]@,
            ) == key_views(self.adj_list.as_map()[k]@) by {
                let j = adj.key_seq().index_of(k);
                adj.lemma_entry(j);
                self.adj_list.lemma_entry(j);
            }
            assert(edges_view(adj.as_map()) =~= edges_view(self.adj_list.as_map()));
        }
        JobGraph { vertices, adj_list: adj }
    }
}

/// Two ordered maps with the same entries are the same map.
pub proof fn lemma_same_entries<K: OrderedKey, V>(a: OrdMap<K, V>, b: OrdMap<K, V>)
    requires
        a.wf(),
        b.wf(),
        a.key_seq() == b.key_seq(),
        a.value_seq() == b.value_seq(),
    ensures
        a.as_map() == b.as_map(),
{
    assert(a.as_map() =~= b.as_map());
}

/// A copy of a list of jobs.
pub fn clone_job_keys(v: &Vec<(String, String)>) -> (r: Vec<(String, String)>)
    ensures
        key_views(r@) == key_views(v@),
{
    let mut r: Vec<(String, String)> = Vec::new();
    let n = v.len();
    let mut i: usize = 0;
    while i < n
        invariant
            n == v@.len(),
            i <= n,
            key_views(r@) == key_views(v@).take(i as int),
        decreases n - i,
    {
        let e = v[i].clone_key();
        let ghost before = r@;
        r.push(e);
        proof {
            assert(r@ == before.push(e));
            assert(e@ == key_views(v@)[i as int]);
            assert(key_views(r@) =~= key_views(before).push(e@));
            assert(key_views(v@).take(i + 1) =~= key_views(v@).take(i as int).push(
                key_views(v@)[i as int],
            ));
            assert(key_views(r@) =~= key_views(v@).take(i + 1));
        }
        i = i + 1;
    }
    proof {
        assert(key_views(v@).take(n as int) =~= key_views(v@));
    }
    r
}

// ---------------------------------------------------------------------------
// Facts about the walks.
// ---------------------------------------------------------------------------

/// Strictly ascending keys are distinct.
pub proof fn lemma_sorted_no_duplicates<K: OrderedKey>(s: Seq<K::V>)
    requires
        sorted_strict::<K>(s),
    ensures
        s.no_duplicates(),
{
    assert forall|i: int, j: int| 0 <= i < s.len() && 0 <= j < s.len() && i != j implies s[i]
        != s[j] by {
        if s[i] == s[j] {
            K::lemma_key_lt_irreflexive(s[i]);
            if i < j {
                assert(K::key_lt(s[i], s[j]));
            } else {
                assert(K::key_lt(s[j], s[i]));
            }
        }
    }
}

pub proof fn lemma_ready_commands_distinct(nodes: Map<Seq<char>, CommandNode>, keys: Seq<Seq<char>>)
    requires
        keys.no_duplicates(),
    ensures
        ready_commands(nodes, keys).no_duplicates(),
    decreases keys.len(),
{
    if keys.len() > 0 {
        let prev = keys.drop_last();
        assert(prev.no_duplicates());
        lemma_ready_commands_distinct(nodes, prev);
        lemma_ready_commands(nodes, prev);
        let rest = ready_commands(nodes, prev);
        if cmd_ready(nodes, keys.last()) {
            assert forall|i: int| 0 <= i < rest.len() implies rest[i] != keys.last() by {
                assert(prev.contains(rest[i]));
                let j = choose|j: int| 0 <= j < prev.len() && prev[j] == rest[i];
                assert(keys[j] == prev[j]);
            }
            assert(rest.push(keys.last()).no_duplicates());
        }
    }
}

/// A round leaves at least as many fewer unvisited commands as it visits.
pub proof fn lemma_unvisited_commands_batch(
    a: Map<Seq<char>, CommandNode>,
    b: Map<Seq<char>, CommandNode>,
    keys: Seq<Seq<char>>,
)
    requires
        b.dom() == a.dom(),
        forall|x: Seq<char>| #[trigger] a.contains_key(x) && a[x].visited ==> b[x].visited,
        forall|i: int| 0 <= i < keys.len() && cmd_ready(a, keys[i]) ==> b[#[trigger] keys[i]].visited,
    ensures
        unvisited_commands(b, keys) + ready_commands(a, keys).len() <= unvisited_commands(a, keys),
    decreases keys.len(),
{
    if keys.len() > 0 {
        let prev = keys.drop_last();
        assert forall|i: int| 0 <= i < prev.len() && cmd_ready(a, prev[i]) implies b[#[trigger] prev[i]].visited by {
            assert(prev[i] == keys[i]);
        }
        lemma_unvisited_commands_batch(a, b, prev);
        assert(keys[keys.len() - 1] == keys.last());
    }
}

/// Every command of the order was unvisited at the start, the order is no
/// longer than the number of unvisited commands, and it names no command twice.
pub proof fn lemma_command_order(
    nodes: Map<Seq<char>, CommandNode>,
    keys: Seq<Seq<char>>,
    adj: Map<Seq<char>, Vec<String>>,
)
    requires
        keys.no_duplicates(),
    ensures
        forall|i: int|
            0 <= i < command_order(nodes, keys, adj).len() ==> {
                let c = #[trigger] command_order(nodes, keys, adj)[i];
                keys.contains(c) && nodes.contains_key(c) && !nodes[c].visited
            },
        command_order(nodes, keys, adj).len() <= unvisited_commands(nodes, keys),
        command_order(nodes, keys, adj).no_duplicates(),
    decreases unvisited_commands(nodes, keys),
{
    let batch = ready_commands(nodes, keys);
    if batch.len() > 0 {
        lemma_command_round_progress(nodes, keys, adj);
        let next = cmd_visit_all(nodes, adj, batch);
        lemma_command_order(next, keys, adj);
        lemma_ready_commands(nodes, keys);
        lemma_ready_commands_distinct(nodes, keys);
        lemma_cmd_visit_all_keeps(nodes, adj, batch);
        assert forall|i: int| 0 <= i < keys.len() && cmd_ready(nodes, keys[i]) implies next[#[trigger] keys[i]].visited by {
            let x = keys[i];
            lemma_ready_commands_contains(nodes, keys, x);
            let j = choose|j: int| 0 <= j < batch.len() && batch[j] == x;
            assert(nodes.contains_key(batch[j]));
        }
        lemma_unvisited_commands_batch(nodes, next, keys);
        let rest = command_order(next, keys, adj);
        let order = batch + rest;
        assert(command_order(nodes, keys, adj) == order);
        assert forall|i: int| 0 <= i < order.len() implies {
            let c = #[trigger] order[i];
            keys.contains(c) && nodes.contains_key(c) && !nodes[c].visited
        } by {
            if i < batch.len() {
                assert(order[i] == batch[i]);
            } else {
                assert(order[i] == rest[i - batch.len()]);
            }
        }
        assert forall|i: int, j: int|
            0 <= i < order.len() && 0 <= j < order.len() && i != j implies order[i] != order[j] by {
            if i < batch.len() && j >= batch.len() {
                assert(order[j] == rest[j - batch.len()]);
                assert(next[order[i]].visited);
            } else if j < batch.len() && i >= batch.len() {
                assert(order[i] == rest[i - batch.len()]);
                assert(next[order[j]].visited);
            } else if i >= batch.len() {
                assert(order[i] == rest[i - batch.len()]);
                assert(order[j] == rest[j - batch.len()]);
            }
        }
    }
}

/// A key that is ready and among the keys is in the ready list.
pub proof fn lemma_ready_commands_contains(
    nodes: Map<Seq<char>, CommandNode>,
    keys: Seq<Seq<char>>,
    x: Seq<char>,
)
    ensures
        keys.contains(x) && cmd_ready(nodes, x) ==> ready_commands(nodes, keys).contains(x),
    decreases keys.len(),
{
    if keys.len() > 0 {
        lemma_ready_commands_contains(nodes, keys.drop_last(), x);
        if keys.contains(x) && cmd_ready(nodes, x) && keys.last() != x {
            let j = choose|j: int| 0 <= j < keys.len() && keys[j] == x;
            assert(keys.drop_last()[j] == x);
            let rest = ready_commands(nodes, keys.drop_last());
            let k = choose|k: int| 0 <= k < rest.len() && rest[k] == x;
            if cmd_ready(nodes, keys.last()) {
                assert(rest.push(keys.last())[k] == x);
            }
        } else if keys.contains(x) && cmd_ready(nodes, x) {
            let r = ready_commands(nodes, keys);
            assert(r[r.len() - 1] == x);
        }
    }
}

pub proof fn lemma_unvisited_commands_bound(nodes: Map<Seq<char>, CommandNode>, keys: Seq<Seq<char>>)
    ensures
        unvisited_commands(nodes, keys) <= keys.len(),
    decreases keys.len(),
{
    if keys.len() > 0 {
        lemma_unvisited_commands_bound(nodes, keys.drop_last());
    }
}

pub proof fn lemma_unvisited_dependencies_bound(
    nodes: Map<Seq<char>, DependencyNode>,
    keys: Seq<Seq<char>>,
)
    ensures
        unvisited_dependencies(nodes, keys) <= keys.len(),
    decreases keys.len(),
{
    if keys.len() > 0 {
        lemma_unvisited_dependencies_bound(nodes, keys.drop_last());
    }
}

// ---------------------------------------------------------------------------
// Run-time steps of the walks.
// ---------------------------------------------------------------------------

/// Each command sits under its own alias.
pub open spec fn commands_under_alias(m: Map<Seq<char>, CommandNode>) -> bool {
    forall|k: Seq<char>| #[trigger] m.contains_key(k) ==> m[k].alias@ == k
}

/// Each package sits under its own name.
pub open spec fn dependencies_under_name(m: Map<Seq<char>, DependencyNode>) -> bool {
    forall|k: Seq<char>| #[trigger] m.contains_key(k) ==> m[k].name@ == k
}

/// The aliases of the ready commands, in key order.
fn get_ready_commands(cmds: &OrdMap<String, CommandNode>) -> (r: Vec<String>)
    requires
        cmds.wf(),
        commands_under_alias(cmds.as_map()),
    ensures
        key_views(r@) == ready_commands(cmds.as_map(), cmds.key_seq()),
{
    let mut r: Vec<String> = Vec::new();
    let n = cmds.len();
    let mut i: usize = 0;
    while i < n
        invariant
            n == cmds.spec_len(),
            cmds.wf(),
            commands_under_alias(cmds.as_map()),
            i <= n,
            key_views(r@) == ready_commands(cmds.as_map(), cmds.key_seq().take(i as int)),
        decreases n - i,
    {
        let node = cmds.value_at(i);
        proof {
            cmds.lemma_entry(i as int);
            assert(cmds.key_seq().take(i + 1).drop_last() =~= cmds.key_seq().take(i as int));
            assert(cmds.key_seq().take(i + 1).last() == cmds.key_seq()[i as int]);
        }
        if node.deps == 0 && !node.visited {
            let ghost before = r@;
            r.push(node.alias.clone());
            proof {
                assert(key_views(r@) =~= key_views(before).push(node.alias@));
            }
        }
        i = i + 1;
    }
    proof {
        assert(cmds.key_seq().take(n as int) =~= cmds.key_seq());
    }
    r
}

/// The names of the ready packages, in key order.
fn get_ready_deps(deps: &OrdMap<String, DependencyNode>) -> (r: Vec<String>)
    requires
        deps.wf(),
        dependencies_under_name(deps.as_map()),
    ensures
        key_views(r@) == ready_dependencies(deps.as_map(), deps.key_seq()),
{
    let mut r: Vec<String> = Vec::new();
    let n = deps.len();
    let mut i: usize = 0;
    while i < n
        invariant
            n == deps.spec_len(),
            deps.wf(),
            dependencies_under_name(deps.as_map()),
            i <= n,
            key_views(r@) == ready_dependencies(deps.as_map(), deps.key_seq().take(i as int)),
        decreases n - i,
    {
        let node = deps.value_at(i);
        proof {
            deps.lemma_entry(i as int);
            assert(deps.key_seq().take(i + 1).drop_last() =~= deps.key_seq().take(i as int));
            assert(deps.key_seq().take(i + 1).last() == deps.key_seq()[i as int]);
        }
        if node.deps == 0 && !node.visited {
            let ghost before = r@;
            r.push(node.name.clone());
            proof {
                assert(key_views(r@) =~= key_views(before).push(node.name@));
            }
        }
        i = i + 1;
    }
    proof {
        assert(deps.key_seq().take(n as int) =~= deps.key_seq());
    }
    r
}

/// A copy of a command vertex.
fn copy_command_node(n: &CommandNode) -> (r: CommandNode)
    ensures
        r == *n,
{
    CommandNode {
        alias: n.alias.clone(),
        uri: n.uri.clone(),
        method: n.method.clone(),
        args: n.args.clone(),
        deps: n.deps,
        visited: n.visited,
    }
}

/// A copy of the command vertices.
fn copy_commands(cmds: &OrdMap<String, CommandNode>) -> (r: OrdMap<String, CommandNode>)
    requires
        cmds.wf(),
    ensures
        r.wf(),
        r.key_seq() == cmds.key_seq(),
        r.as_map() == cmds.as_map(),
{
    let mut r: OrdMap<String, CommandNode> = OrdMap::new();
    let n = cmds.len();
    let mut i: usize = 0;
    while i < n
        invariant
            n == cmds.spec_len(),
            cmds.wf(),
            i <= n,
            r.wf(),
            r.key_seq() == cmds.key_seq().take(i as int),
            r.value_seq() == cmds.value_seq().take(i as int),
        decreases n - i,
    {
        proof {
            assert forall|j: int| 0 <= j < r.spec_len() implies String::key_lt(
                #[trigger] r.key_seq()[j],
                cmds.key_seq()[i as int],
            ) by {
                assert(r.key_seq()[j] == cmds.key_seq()[j]);
            }
        }
        r.push_last(cmds.key_at(i).clone_key(), copy_command_node(cmds.value_at(i)));
        proof {
            assert(r.key_seq() =~= cmds.key_seq().take(i + 1));
            assert(r.value_seq() =~= cmds.value_seq().take(i + 1));
        }
        i = i + 1;
    }
    proof {
        assert(r.key_seq() =~= cmds.key_seq());
        assert(r.value_seq() =~= cmds.value_seq());
        lemma_same_entries(r, *cmds);
    }
    r
}

/// Marks command `c` visited.
fn mark_command(cmds: &mut OrdMap<String, CommandNode>, c: &String)
    requires
        old(cmds).wf(),
    ensures
        final(cmds).wf(),
        final(cmds).key_seq() == old(cmds).key_seq(),
        final(cmds).as_map() == cmd_mark(old(cmds).as_map(), c@),
{
    let updated = match cmds.get(c) {
        Some(n) => Some(
            CommandNode {
                alias: n.alias.clone(),
                uri: n.uri.clone(),
                method: n.method.clone(),
                args: n.args.clone(),
                deps: n.deps,
                visited: true,
            },
        ),
        None => None,
    };
    if let Some(node) = updated {
        cmds.insert(c.clone(), node);
    }
}

/// Meets one requirement of command `s`.
fn dec_command(cmds: &mut OrdMap<String, CommandNode>, s: &String)
    requires
        old(cmds).wf(),
    ensures
        final(cmds).wf(),
        final(cmds).key_seq() == old(cmds).key_seq(),
        final(cmds).as_map() == cmd_dec(old(cmds).as_map(), s@),
{
    let updated = match cmds.get(s) {
        Some(n) => Some(
            CommandNode {
                alias: n.alias.clone(),
                uri: n.uri.clone(),
                method: n.method.clone(),
                args: n.args.clone(),
                deps: if n.deps > i128::MIN {
                    n.deps - 1
                } else {
                    n.deps
                },
                visited: n.visited,
            },
        ),
        None => None,
    };
    if let Some(node) = updated {
        cmds.insert(s.clone(), node);
    }
}

/// Marks package `x` visited.
fn mark_dependency(deps: &mut OrdMap<String, DependencyNode>, x: &String)
    requires
        old(deps).wf(),
    ensures
        final(deps).wf(),
        final(deps).key_seq() == old(deps).key_seq(),
        final(deps).as_map() == dep_mark(old(deps).as_map(), x@),
{
    let updated = match deps.get(x) {
        Some(n) => Some(
            DependencyNode {
                name: n.name.clone(),
                path: n.path.clone(),
                deps: n.deps,
                visited: true,
            },
        ),
        None => None,
    };
    if let Some(node) = updated {
        deps.insert(x.clone(), node);
    }
}

/// Meets one requirement of package `s`.
fn dec_dependency(deps: &mut OrdMap<String, DependencyNode>, s: &String)
    requires
        old(deps).wf(),
    ensures
        final(deps).wf(),
        final(deps).key_seq() == old(deps).key_seq(),
        final(deps).as_map() == dep_dec(old(deps).as_map(), s@),
{
    let updated = match deps.get(s) {
        Some(n) => Some(
            DependencyNode {
                name: n.name.clone(),
                path: n.path.clone(),
                deps: if n.deps > i128::MIN {
                    n.deps - 1
                } else {
                    n.deps
                },
                visited: n.visited,
            },
        ),
        None => None,
    };
    if let Some(node) = updated {
        deps.insert(s.clone(), node);
    }
}

pub proof fn lemma_pair_all(x: Seq<char>, ts: Seq<Seq<char>>)
    ensures
        pair_all(x, ts).len() == ts.len(),
        forall|i: int| 0 <= i < ts.len() ==> #[trigger] pair_all(x, ts)[i] == (x, ts[i]),
        forall|v: JobKey| #[trigger] pair_all(x, ts).contains(v) ==> v.0 == x && ts.contains(v.1),
{
    assert forall|v: JobKey| #[trigger] pair_all(x, ts).contains(v) implies v.0 == x && ts.contains(
        v.1,
    ) by {
        let i = choose|i: int| 0 <= i < pair_all(x, ts).len() && pair_all(x, ts)[i] == v;
        assert(ts[i] == v.1);
    }
}

pub proof fn lemma_cross_targets_contains(sds: Seq<Seq<char>>, roots: Seq<Seq<char>>, v: JobKey)
    ensures
        cross_targets(sds, roots).contains(v) ==> sds.contains(v.0) && roots.contains(v.1),
    decreases sds.len(),
{
    if sds.len() > 0 {
        let prev = sds.drop_last();
        lemma_cross_targets_contains(prev, roots, v);
        lemma_pair_all(sds.last(), roots);
        let a = cross_targets(prev, roots);
        let b = pair_all(sds.last(), roots);
        if (a + b).contains(v) {
            let i = choose|i: int| 0 <= i < (a + b).len() && (a + b)[i] == v;
            if i < a.len() {
                assert(a[i] == v);
                let j = choose|j: int| 0 <= j < prev.len() && prev[j] == v.0;
                assert(sds[j] == v.0);
            } else {
                assert(b[i - a.len()] == v);
                assert(sds[sds.len() - 1] == v.0);
            }
        }
    }
}

pub proof fn lemma_job_add_edges_concat(job: JobModel, src: JobKey, a: Seq<JobKey>, b: Seq<JobKey>)
    ensures
        job_add_edges(job, src, a + b) == job_add_edges(job_add_edges(job, src, a), src, b),
    decreases b.len(),
{
    if b.len() == 0 {
        assert(a + b =~= a);
    } else {
        lemma_job_add_edges_concat(job, src, a, b.drop_last());
        assert((a + b).drop_last() =~= a + b.drop_last());
        assert((a + b).last() == b.last());
    }
}

pub proof fn lemma_job_add_edges_keeps_source(job: JobModel, src: JobKey, ts: Seq<JobKey>)
    requires
        job.1.contains_key(src),
    ensures
        job_add_edges(job, src, ts).1.contains_key(src),
    decreases ts.len(),
{
    if ts.len() > 0 {
        lemma_job_add_edges_keeps_source(job, src, ts.drop_last());
    }
}

/// The parts of two contexts that the walks read are the same.
pub open spec fn same_walk(a: BuiltContextGraphs, b: BuiltContextGraphs) -> bool {
    &&& a.id == b.id
    &&& a.command_graph == b.command_graph
    &&& a.dependency_graph.adj_list == b.dependency_graph.adj_list
    &&& a.sub_deps_execute_after == b.sub_deps_execute_after
    &&& a.dependency_graph.vertices.key_seq() == b.dependency_graph.vertices.key_seq()
}

/// Every job can take one more edge from each package's walk over the
/// commands of package `x` plus one, without its count leaving `u32`.
pub open spec fn room_to_add(counts: Map<JobKey, u32>, n_cmds: int, x: Seq<char>) -> bool {
    forall|v: JobKey|
        #[trigger] count_of(counts, v) + (if v.0 == x {
            n_cmds
        } else {
            0
        }) + 1 <= u32::MAX
}

/// How far the counts have grown during the walk over the commands `done`.
pub open spec fn grown_by(
    counts: Map<JobKey, u32>,
    base: Map<JobKey, u32>,
    x: Seq<char>,
    done: Seq<Seq<char>>,
    sde: Seq<char>,
) -> bool {
    forall|v: JobKey|
        #[trigger] count_of(counts, v) <= count_of(base, v) + (if v.0 == x {
            done.len() as int
        } else {
            0
        }) + (if done.contains(sde) {
            1int
        } else {
            0
        })
}

/// Builds the job graph of a context.
pub struct JobGraphBuilder {
    job_graph: JobGraph,
    context_graph: BuiltContextGraphs,
}

impl JobGraphBuilder {
    pub closed spec fn jobs(&self) -> JobGraph {
        self.job_graph
    }

    pub closed spec fn context(&self) -> BuiltContextGraphs {
        self.context_graph
    }

    pub open spec fn wf(&self) -> bool {
        self.jobs().wf() && self.context().wf()
    }

    /// The context, with the packages as the walk left them.
    pub fn into_context(self) -> (ctx: BuiltContextGraphs)
        ensures
            ctx == self.context(),
    {
        self.context_graph
    }

    /// A builder with no jobs yet.
    pub fn new(context_graph: BuiltContextGraphs) -> (b: JobGraphBuilder)
        ensures
            b.jobs().wf(),
            b.jobs().model() == (Map::<JobKey, u32>::empty(), Map::<JobKey, Seq<JobKey>>::empty()),
            b.context() == context_graph,
    {
        JobGraphBuilder { job_graph: JobGraph::new(), context_graph }
    }

    /// Visits command `c` in the walk over the commands for package `x`.
    fn visit_command(
        &mut self,
        x: &String,
        c: &String,
        cmds: &mut OrdMap<String, CommandNode>,
        Ghost(w): Ghost<Walk>,
        Ghost(done): Ghost<Seq<Seq<char>>>,
        Ghost(base): Ghost<Map<JobKey, u32>>,
    )
        requires
            old(self).wf(),
            w == walk_of(old(self).context()),
            old(cmds).wf(),
            old(cmds).key_seq() == w.1,
            commands_under_alias(old(cmds).as_map()),
            !done.contains(c@),
            done.len() + 1 <= w.1.len(),
            room_to_add(base, w.1.len() as int, x@),
            grown_by(old(self).jobs().model().0, base, x@, done, w.4),
            w.1.contains(c@),
        ensures
            final(self).wf(),
            same_walk(final(self).context(), old(self).context()),
            indegree_law(old(self).jobs().model()) ==> indegree_law(final(self).jobs().model()),
            keys_name_vertices(old(self).jobs().model().0, w, dep_keys(old(self).context()))
                && dep_keys(old(self).context()).contains(x@) ==> keys_name_vertices(
                final(self).jobs().model().0,
                w,
                dep_keys(old(self).context()),
            ),
            final(cmds).wf(),
            final(cmds).key_seq() == w.1,
            commands_under_alias(final(cmds).as_map()),
            final(cmds).as_map() == cmd_visit(old(cmds).as_map(), w.2, c@),
            final(self).jobs().model() == job_visit(old(self).jobs().model(), w, x@, c@),
            final(self).context().dependency_graph.vertices.as_map() == (if c@ == w.4 {
                dep_dec_each(
                    old(self).context().dependency_graph.vertices.as_map(),
                    targets_of(w.3, x@),
                    root_commands(w).len(),
                )
            } else {
                old(self).context().dependency_graph.vertices.as_map()
            }),
            grown_by(final(self).jobs().model().0, base, x@, done.push(c@), w.4),
    {
        let ghost ctx0 = self.context_graph;
        let ghost job0 = self.job_graph.model();
        let ghost nodes0 = cmds.as_map();
        let ghost dkeys = dep_keys(self.context_graph);
        let ghost law0 = indegree_law(job0);
        let ghost names0 = keys_name_vertices(job0.0, w, dkeys) && dkeys.contains(x@);
        proof {
            self.context_graph.command_graph.vertices.lemma_dom();
            self.context_graph.dependency_graph.vertices.lemma_dom();
        }
        let ghost cv = c@;
        let ghost xv = x@;
        let ghost n_cmds = w.1.len() as int;
        proof {
            lemma_sorted_no_duplicates::<String>(w.1);
        }
        mark_command(cmds, c);
        proof {
            assert forall|k: Seq<char>| #[trigger] cmds.as_map().contains_key(k) implies cmds.as_map()[k].alias@ == k by {
                assert(nodes0.contains_key(k));
            }
        }
        let src = (x.clone(), c.clone());
        self.job_graph.open(&src);
        let ghost opened = self.job_graph.model();
        let ghost marked = cmds.as_map();
        assert(opened.1.contains_key((xv, cv)));
        proof {
            if names0 {
                assert forall|v: JobKey| #[trigger] opened.0.contains_key(v) implies dkeys.contains(v.0) && w.1.contains(v.1) by {
                    if v != (xv, cv) {
                        assert(job0.0.contains_key(v));
                    }
                }
            }
        }
        // Edges to the jobs of this package for the commands that require `c`.
        let ghost ts = targets_of(w.2, cv);
        let ghost pj = pair_all(xv, ts);
        proof {
            lemma_pair_all(xv, ts);
            if w.2.contains_key(cv) {
                lemma_sorted_no_duplicates::<String>(ts);
            }
            assert(ts.no_duplicates());
            assert forall|v: JobKey| #[trigger] count_of(opened.0, v) == count_of(job0.0, v) by {}
            assert forall|i: int| 0 <= i < ts.len() implies w.1.contains(#[trigger] ts[i]) by {
                assert(w.2.contains_key(cv));
                assert(w.0.contains_key(names_view(w.2[cv])[i]));
                assert(w.0.dom().contains(ts[i]));
            }
        }
        match self.context_graph.command_graph.adj_list.get(c) {
            Some(subs) => {
                let n = subs.len();
                let mut j: usize = 0;
                while j < n
                    invariant
                        n == subs@.len(),
                        names_view(*subs) == ts,
                        ts.no_duplicates(),
                        pj == pair_all(xv, ts),
                        pj.len() == ts.len(),
                        forall|i: int| 0 <= i < ts.len() ==> #[trigger] pj[i] == (xv, ts[i]),
                        j <= n,
                        xv == x@,
                        src@ == (xv, cv),
                        self.job_graph.wf(),
                        self.job_graph.model() == job_add_edges(opened, (xv, cv), pj.take(j as int)),
                        self.job_graph.model().1.contains_key((xv, cv)),
                        law0 ==> indegree_law(self.job_graph.model()),
                        names0 ==> keys_name_vertices(self.job_graph.model().0, w, dkeys),
                        names0 ==> dkeys.contains(xv),
                        forall|i: int| 0 <= i < ts.len() ==> w.1.contains(#[trigger] ts[i]),
                        cmds.wf(),
                        cmds.key_seq() == w.1,
                        cmds.as_map() == cmd_dec_all(marked, ts.take(j as int)),
                        commands_under_alias(cmds.as_map()),
                        self.context_graph == ctx0,
                        room_to_add(base, n_cmds, xv),
                        done.len() + 1 <= n_cmds,
                        forall|v: JobKey|
                            #[trigger] count_of(self.job_graph.model().0, v) <= count_of(base, v)
                                + (if v.0 == xv {
                                done.len() as int + (if pj.take(j as int).contains(v) {
                                    1int
                                } else {
                                    0
                                })
                            } else {
                                0
                            }) + (if done.contains(w.4) {
                                1int
                            } else {
                                0
                            }),
                    decreases n - j,
                {
                    let t = (x.clone(), subs[j].clone());
                    let ghost tv = t@;
                    let ghost m = self.job_graph.model();
                    proof {
                        assert(tv == pj[j as int]);
                        assert(!pj.take(j as int).contains(tv)) by {
                            if pj.take(j as int).contains(tv) {
                                let i = choose|i: int| 0 <= i < j && pj.take(j as int)[i] == tv;
                                assert(pj[i] == pj[j as int]);
                                assert(ts[i] == ts[j as int]);
                            }
                        }
                        assert(count_of(m.0, tv) <= count_of(base, tv) + done.len() + 1);
                        assert(count_of(base, tv) + n_cmds + 1 <= u32::MAX);
                    }
                    self.job_graph.add_edge(&src, &t);
                    dec_command(cmds, &subs[j]);
                    proof {
                        if names0 {
                            assert(tv == (xv, ts[j as int]));
                            assert(w.1.contains(ts[j as int]));
                            assert forall|v: JobKey| #[trigger] self.job_graph.model().0.contains_key(v) implies dkeys.contains(v.0) && w.1.contains(v.1) by {
                                if v != tv {
                                    assert(m.0.contains_key(v));
                                }
                            }
                        }
                        let pj2 = pj.take(j + 1);
                        assert(pj2.drop_last() =~= pj.take(j as int));
                        assert(pj2.last() == tv);
                        assert(ts.take(j + 1).drop_last() =~= ts.take(j as int));
                        assert(ts.take(j + 1).last() == subs@[j as int]@);
                        assert forall|k: Seq<char>| #[trigger] cmds.as_map().contains_key(k) implies cmds.as_map()[k].alias@ == k by {
                            assert(cmd_dec_all(marked, ts.take(j as int)).contains_key(k));
                        }
                        assert forall|v: JobKey| #[trigger] count_of(self.job_graph.model().0, v) <= count_of(base, v)
                            + (if v.0 == xv {
                            done.len() as int + (if pj2.contains(v) {
                                1int
                            } else {
                                0
                            })
                        } else {
                            0
                        }) + (if done.contains(w.4) {
                            1int
                        } else {
                            0
                        }) by {
                            if v != tv {
                                assert(count_of(self.job_graph.model().0, v) == count_of(m.0, v));
                                if pj.take(j as int).contains(v) {
                                    let i = choose|i: int| 0 <= i < j && pj.take(j as int)[i] == v;
                                    assert(pj2[i] == v);
                                }
                            } else {
                                assert(pj2[j as int] == v);
                            }
                        }
                        assert(self.job_graph.model().1.contains_key((xv, cv)));
                    }
                    j = j + 1;
                }
                proof {
                    assert(pj.take(n as int) =~= pj);
                    assert(ts.take(n as int) =~= ts);
                }
            },
            None => {
                proof {
                    assert(ts =~= Seq::<Seq<char>>::empty());
                    assert(pj =~= Seq::<JobKey>::empty());
                    assert(pj.take(0) =~= pj);
                    assert(ts.take(0) =~= ts);
                }
            },
        }
        let ghost after_cmds = self.job_graph.model();
        assert(after_cmds == job_add_edges(opened, (xv, cv), pj));
        assert(cmds.as_map() == cmd_visit(nodes0, w.2, cv));
        proof {
            assert forall|v: JobKey| #[trigger] count_of(after_cmds.0, v) <= count_of(base, v) + (if v.0
                == xv {
                done.len() as int + (if pj.contains(v) {
                    1int
                } else {
                    0
                })
            } else {
                0
            }) + (if done.contains(w.4) {
                1int
            } else {
                0
            }) by {}
        }
        if *c == self.context_graph.sub_deps_execute_after {
            // Edges to the jobs of each package that requires `x`, for each
            // command that requires nothing.
            let roots = get_ready_commands(&self.context_graph.command_graph.vertices);
            let ghost rs = root_commands(w);
            let ghost sds = targets_of(w.3, xv);
            let ghost d0 = self.context_graph.dependency_graph.vertices.as_map();
            proof {
                lemma_ready_commands_distinct(w.0, w.1);
                lemma_ready_commands(w.0, w.1);
                assert(!done.contains(w.4));
            }
            match self.context_graph.dependency_graph.adj_list.get(x) {
                Some(dependents) => {
                    if roots.len() > 0 {
                        proof {
                            lemma_sorted_no_duplicates::<String>(sds);
                            assert forall|i: int| 0 <= i < sds.len() implies dkeys.contains(#[trigger] sds[i]) by {
                                assert(w.3.contains_key(xv));
                                assert(ctx0.dependency_graph.vertices.as_map().contains_key(names_view(w.3[xv])[i]));
                                assert(ctx0.dependency_graph.vertices.as_map().dom().contains(sds[i]));
                            }
                            assert forall|i: int| 0 <= i < rs.len() implies w.1.contains(#[trigger] rs[i]) by {
                            }
                        }
                        let nd = dependents.len();
                        let mut k: usize = 0;
                        while k < nd
                            invariant
                                nd == dependents@.len(),
                                names_view(*dependents) == sds,
                                sds.no_duplicates(),
                                key_views(roots@) == rs,
                                rs.no_duplicates(),
                                k <= nd,
                                xv == x@,
                                src@ == (xv, cv),
                                cv == w.4,
                                !done.contains(w.4),
                                self.job_graph.wf(),
                                self.job_graph.model() == job_add_edges(
                                    after_cmds,
                                    (xv, cv),
                                    cross_targets(sds.take(k as int), rs),
                                ),
                                self.job_graph.model().1.contains_key((xv, cv)),
                                law0 ==> indegree_law(self.job_graph.model()),
                                names0 ==> keys_name_vertices(self.job_graph.model().0, w, dkeys),
                                forall|i: int| 0 <= i < sds.len() ==> dkeys.contains(#[trigger] sds[i]),
                                forall|i: int| 0 <= i < rs.len() ==> w.1.contains(#[trigger] rs[i]),
                                self.context_graph.command_graph == ctx0.command_graph,
                                self.context_graph.dependency_graph.adj_list
                                    == ctx0.dependency_graph.adj_list,
                                self.context_graph.sub_deps_execute_after
                                    == ctx0.sub_deps_execute_after,
                                self.context_graph.id == ctx0.id,
                                self.context_graph.dependency_graph.vertices.wf(),
                                self.context_graph.dependency_graph.vertices.key_seq()
                                    == ctx0.dependency_graph.vertices.key_seq(),
                                self.context_graph.dependency_graph.vertices.as_map()
                                    == dep_dec_each(d0, sds.take(k as int), rs.len()),
                                room_to_add(base, n_cmds, xv),
                                done.len() + 1 <= n_cmds,
                                forall|v: JobKey|
                                    #[trigger] count_of(self.job_graph.model().0, v) <= count_of(
                                        base,
                                        v,
                                    ) + (if v.0 == xv {
                                        done.len() as int + (if pj.contains(v) {
                                            1int
                                        } else {
                                            0
                                        })
                                    } else {
                                        0
                                    }) + (if cross_targets(sds.take(k as int), rs).contains(v) {
                                        1int
                                    } else {
                                        0
                                    }),
                            decreases nd - k,
                        {
                            let sd = &dependents[k];
                            let ghost sdv = sd@;
                            let ghost crossed = cross_targets(sds.take(k as int), rs);
                            let ghost at_k = self.job_graph.model();
                            let ghost dk = self.context_graph.dependency_graph.vertices.as_map();
                            proof {
                                assert forall|v: JobKey| #[trigger] crossed.contains(v) implies v.0 != sdv by {
                                    lemma_cross_targets_contains(sds.take(k as int), rs, v);
                                    let i = choose|i: int| 0 <= i < k && sds.take(k as int)[i] == v.0;
                                    assert(sds[i] == v.0);
                                    assert(sdv == sds[k as int]);
                                    if v.0 == sdv {
                                        assert(sds[i] == sds[k as int]);
                                    }
                                }
                                assert(pair_all(sdv, rs.take(0)) =~= Seq::<JobKey>::empty());
                            }
                            proof {
                                assert(dkeys.contains(sds[k as int]));
                            }
                            let nr = roots.len();
                            let mut ri: usize = 0;
                            while ri < nr
                                invariant
                                    nr == roots@.len(),
                                    key_views(roots@) == rs,
                                    rs.no_duplicates(),
                                    ri <= nr,
                                    sdv == sd@,
                                    sdv == sds[k as int],
                                    src@ == (xv, cv),
                                    xv == x@,
                                    forall|v: JobKey| #[trigger] crossed.contains(v) ==> v.0 != sdv,
                                    self.job_graph.wf(),
                                    self.job_graph.model() == job_add_edges(
                                        at_k,
                                        (xv, cv),
                                        pair_all(sdv, rs.take(ri as int)),
                                    ),
                                    self.job_graph.model().1.contains_key((xv, cv)),
                                    law0 ==> indegree_law(self.job_graph.model()),
                                    names0 ==> keys_name_vertices(self.job_graph.model().0, w, dkeys),
                                    dkeys.contains(sdv),
                                    forall|i: int| 0 <= i < rs.len() ==> w.1.contains(#[trigger] rs[i]),
                                    self.context_graph.command_graph == ctx0.command_graph,
                                    self.context_graph.dependency_graph.adj_list
                                        == ctx0.dependency_graph.adj_list,
                                    self.context_graph.sub_deps_execute_after
                                        == ctx0.sub_deps_execute_after,
                                    self.context_graph.id == ctx0.id,
                                    self.context_graph.dependency_graph.vertices.wf(),
                                    self.context_graph.dependency_graph.vertices.key_seq()
                                        == ctx0.dependency_graph.vertices.key_seq(),
                                    self.context_graph.dependency_graph.vertices.as_map()
                                        == dep_dec_times(dk, sdv, ri as nat),
                                    room_to_add(base, n_cmds, xv),
                                    done.len() + 1 <= n_cmds,
                                    forall|v: JobKey|
                                        #[trigger] count_of(self.job_graph.model().0, v)
                                            <= count_of(base, v) + (if v.0 == xv {
                                            done.len() as int + (if pj.contains(v) {
                                                1int
                                            } else {
                                                0
                                            })
                                        } else {
                                            0
                                        }) + (if crossed.contains(v) || pair_all(
                                            sdv,
                                            rs.take(ri as int),
                                        ).contains(v) {
                                            1int
                                        } else {
                                            0
                                        }),
                                decreases nr - ri,
                            {
                                let t = (sd.clone(), roots[ri].clone());
                                let ghost tv = t@;
                                let ghost m = self.job_graph.model();
                                let ghost pr = pair_all(sdv, rs.take(ri as int));
                                proof {
                                    lemma_pair_all(sdv, rs.take(ri as int));
                                    assert(tv == (sdv, rs[ri as int]));
                                    assert(!crossed.contains(tv));
                                    if pr.contains(tv) {
                                        assert(rs.take(ri as int).contains(rs[ri as int]));
                                        let i = choose|i: int|
                                            0 <= i < ri && rs.take(ri as int)[i] == rs[ri as int];
                                        assert(rs[i] == rs[ri as int]);
                                    }
                                    assert(!pr.contains(tv));
                                    if pj.contains(tv) {
                                        lemma_pair_all(xv, ts);
                                    }
                                    assert(count_of(m.0, tv) <= count_of(base, tv) + (if tv.0
                                        == xv {
                                        done.len() as int + 1
                                    } else {
                                        0
                                    }));
                                    assert(count_of(base, tv) + (if tv.0 == xv {
                                        n_cmds
                                    } else {
                                        0
                                    }) + 1 <= u32::MAX);
                                }
                                self.job_graph.add_edge(&src, &t);
                                dec_dependency(
                                    &mut self.context_graph.dependency_graph.vertices,
                                    sd,
                                );
                                proof {
                                    if names0 {
                                        assert(w.1.contains(rs[ri as int]));
                                        assert forall|v: JobKey| #[trigger] self.job_graph.model().0.contains_key(v) implies dkeys.contains(v.0) && w.1.contains(v.1) by {
                                            if v != tv {
                                                assert(m.0.contains_key(v));
                                            }
                                        }
                                    }
                                    let pr2 = pair_all(sdv, rs.take(ri + 1));
                                    assert(rs.take(ri + 1) =~= rs.take(ri as int).push(rs[ri as int]));
                                    assert(pr2 =~= pr.push(tv));
                                    assert(pr2.drop_last() =~= pr);
                                    assert(pr2.last() == tv);
                                    assert forall|v: JobKey| #[trigger] count_of(self.job_graph.model().0, v) <= count_of(base, v)
                                        + (if v.0 == xv {
                                        done.len() as int + (if pj.contains(v) {
                                            1int
                                        } else {
                                            0
                                        })
                                    } else {
                                        0
                                    }) + (if crossed.contains(v) || pr2.contains(v) {
                                        1int
                                    } else {
                                        0
                                    }) by {
                                        if v != tv {
                                            assert(count_of(self.job_graph.model().0, v) == count_of(m.0, v));
                                            if pr.contains(v) {
                                                let i = choose|i: int| 0 <= i < pr.len() && pr[i] == v;
                                                assert(pr2[i] == v);
                                            }
                                        } else {
                                            assert(pr2[ri as int] == v);
                                        }
                                    }
                                }
                                ri = ri + 1;
                            }
                            proof {
                                assert(rs.take(nr as int) =~= rs);
                                let c2 = cross_targets(sds.take(k + 1), rs);
                                assert(sds.take(k + 1).drop_last() =~= sds.take(k as int));
                                assert(sds.take(k + 1).last() == sdv);
                                assert(c2 == crossed + pair_all(sdv, rs));
                                lemma_job_add_edges_concat(after_cmds, (xv, cv), crossed, pair_all(sdv, rs));
                                assert forall|v: JobKey| #[trigger] c2.contains(v) == (crossed.contains(v) || pair_all(sdv, rs).contains(v)) by {
                                    let b = pair_all(sdv, rs);
                                    if c2.contains(v) {
                                        let i = choose|i: int| 0 <= i < c2.len() && c2[i] == v;
                                        if i < crossed.len() {
                                            assert(crossed[i] == v);
                                        } else {
                                            assert(b[i - crossed.len()] == v);
                                        }
                                    }
                                    if crossed.contains(v) {
                                        let i = choose|i: int| 0 <= i < crossed.len() && crossed[i] == v;
                                        assert(c2[i] == v);
                                    }
                                    if b.contains(v) {
                                        let i = choose|i: int| 0 <= i < b.len() && b[i] == v;
                                        assert(c2[crossed.len() + i] == v);
                                    }
                                }
                            }
                            k = k + 1;
                        }
                        proof {
                            assert(sds.take(nd as int) =~= sds);
                            assert forall|v: JobKey| #[trigger] count_of(self.job_graph.model().0, v) <= count_of(base, v)
                                + (if v.0 == xv { done.len() as int + (if pj.contains(v) { 1int } else { 0 }) } else { 0 }) + 1 by {}
                        }
                    } else {
                        proof {
                            assert(rs.len() == 0);
                            assert forall|i: int| 0 <= i <= sds.len() implies cross_targets(sds.take(i), rs) =~= Seq::<JobKey>::empty() by {
                                lemma_cross_targets_empty(sds.take(i), rs);
                            }
                            lemma_cross_targets_empty(sds, rs);
                            lemma_dep_dec_each_zero(d0, sds);
                        }
                    }
                },
                None => {
                    proof {
                        assert(sds =~= Seq::<Seq<char>>::empty());
                    }
                },
            }
            proof {
                lemma_job_add_edges_concat(opened, (xv, cv), pj, cross_targets(sds, rs));
            }
            proof {
                assert forall|v: JobKey| #[trigger] count_of(self.job_graph.model().0, v) <= count_of(base, v)
                    + (if v.0 == xv { done.len() as int + 1 } else { 0 }) + (if done.push(cv).contains(w.4) { 1int } else { 0 }) by {
                    assert(done.push(cv)[done.len() as int] == cv);
                    if pj.contains(v) {
                        lemma_pair_all(xv, ts);
                    }
                }
            }
        } else {
            proof {
                assert(pj + Seq::<JobKey>::empty() =~= pj);
                assert forall|v: JobKey| #[trigger] count_of(self.job_graph.model().0, v) <= count_of(base, v)
                    + (if v.0 == xv { done.len() as int + 1 } else { 0 }) + (if done.push(cv).contains(w.4) { 1int } else { 0 }) by {
                    if done.contains(w.4) {
                        let i = choose|i: int| 0 <= i < done.len() && done[i] == w.4;
                        assert(done.push(cv)[i] == w.4);
                    }
                    if pj.contains(v) {
                        lemma_pair_all(xv, ts);
                    }
                }
            }
        }
        proof {
            lemma_dep_dec_each_keeps(ctx0.dependency_graph.vertices.as_map(), targets_of(w.3, xv), root_commands(w).len());
            assert forall|k: Seq<char>| #[trigger] self.context_graph.dependency_graph.vertices.as_map().contains_key(k)
                implies self.context_graph.dependency_graph.vertices.as_map()[k].name@ == k by {
                assert(ctx0.dependency_graph.vertices.as_map().contains_key(k));
                lemma_dep_dec_each_names(ctx0.dependency_graph.vertices.as_map(), targets_of(w.3, xv), root_commands(w).len(), k);
            }
        }
    }
}

impl JobGraphBuilder {
    /// Adds the jobs of package `dep`: walks a copy of the command graph in
    /// rounds and, for each command visited, adds the job (`dep`, command) with
    /// an edge to the job of `dep` for each command that requires it. When the
    /// command is the one after which the packages that require `dep` may
    /// start, it also adds an edge to the job of each such package for each
    /// command that requires nothing, and meets that many requirements of the
    /// package.
    pub fn add_dependency(&mut self, dep: &String)
        requires
            old(self).wf(),
            room_to_add(
                old(self).jobs().model().0,
                cmd_keys(old(self).context()).len() as int,
                dep@,
            ),
        ensures
            final(self).wf(),
            same_walk(final(self).context(), old(self).context()),
            final(self).jobs().model() == jobs_after_adding(
                old(self).jobs().model(),
                walk_of(old(self).context()),
                dep@,
            ),
            final(self).context().dependency_graph.vertices.as_map() == deps_after_adding(
                old(self).context().dependency_graph.vertices.as_map(),
                walk_of(old(self).context()),
                dep@,
            ),
            indegree_law(old(self).jobs().model()) ==> indegree_law(final(self).jobs().model()),
            keys_name_vertices(
                old(self).jobs().model().0,
                walk_of(old(self).context()),
                dep_keys(old(self).context()),
            ) && dep_keys(old(self).context()).contains(dep@) ==> keys_name_vertices(
                final(self).jobs().model().0,
                walk_of(old(self).context()),
                dep_keys(old(self).context()),
            ),
            forall|v: JobKey|
                #[trigger] count_of(final(self).jobs().model().0, v) <= count_of(
                    old(self).jobs().model().0,
                    v,
                ) + (if v.0 == dep@ {
                    cmd_keys(old(self).context()).len() as int
                } else {
                    0
                }) + 1,
    {
        let ghost ctx0 = self.context_graph;
        let ghost w = walk_of(self.context_graph);
        let ghost job0 = self.job_graph.model();
        let ghost d0 = self.context_graph.dependency_graph.vertices.as_map();
        let ghost order = commands_in_order(w);
        let ghost xv = dep@;
        let ghost dkeys = dep_keys(self.context_graph);
        let ghost law0 = indegree_law(job0);
        let ghost names0 = keys_name_vertices(job0.0, w, dkeys) && dkeys.contains(xv);
        proof {
            lemma_sorted_no_duplicates::<String>(w.1);
            lemma_command_order(w.0, w.1, w.2);
            lemma_unvisited_commands_bound(w.0, w.1);
            assert(order =~= Seq::<Seq<char>>::empty() + order);
        }
        let mut cmds = copy_commands(&self.context_graph.command_graph.vertices);
        let ghost mut done: Seq<Seq<char>> = Seq::empty();
        let mut ready = get_ready_commands(&cmds);
        proof {
            assert forall|v: JobKey| #[trigger] count_of(job0.0, v) <= count_of(job0.0, v) + (if v.0 == xv {
                done.len() as int
            } else {
                0
            }) + (if done.contains(w.4) {
                1int
            } else {
                0
            }) by {}
        }
        while ready.len() > 0
            invariant
                self.wf(),
                same_walk(self.context_graph, ctx0),
                walk_of(self.context_graph) == w,
                cmds.wf(),
                cmds.key_seq() == w.1,
                commands_under_alias(cmds.as_map()),
                key_views(ready@) == ready_commands(cmds.as_map(), w.1),
                order == done + command_order(cmds.as_map(), w.1, w.2),
                order == command_order(w.0, w.1, w.2),
                forall|i: int| 0 <= i < order.len() ==> w.1.contains(#[trigger] order[i]),
                order.no_duplicates(),
                order.len() <= w.1.len(),
                xv == dep@,
                self.job_graph.model() == job_visit_all(job0, w, xv, done),
                self.context_graph.dependency_graph.vertices.as_map() == deps_visit_all(
                    d0,
                    w,
                    xv,
                    done,
                ),
                grown_by(self.job_graph.model().0, job0.0, xv, done, w.4),
                room_to_add(job0.0, w.1.len() as int, xv),
                law0 ==> indegree_law(self.job_graph.model()),
                names0 ==> keys_name_vertices(self.job_graph.model().0, w, dkeys),
                names0 ==> dkeys.contains(xv),
                dkeys == dep_keys(self.context_graph),
            decreases unvisited_commands(cmds.as_map(), w.1),
        {
            let ghost start = cmds.as_map();
            let ghost batch = key_views(ready@);
            let ghost rest = command_order(cmd_visit_all(start, w.2, batch), w.1, w.2);
            proof {
                lemma_command_round_progress(start, w.1, w.2);
                assert(command_order(start, w.1, w.2) == batch + rest);
                assert(order =~= done + batch + rest);
            }
            let n = ready.len();
            let mut b: usize = 0;
            while b < n
                invariant
                    n == ready@.len(),
                    batch == key_views(ready@),
                    b <= n,
                    self.wf(),
                    same_walk(self.context_graph, ctx0),
                    walk_of(self.context_graph) == w,
                    cmds.wf(),
                    cmds.key_seq() == w.1,
                    commands_under_alias(cmds.as_map()),
                    cmds.as_map() == cmd_visit_all(start, w.2, batch.take(b as int)),
                    order == done + batch + rest,
                    order == command_order(w.0, w.1, w.2),
                    forall|i: int| 0 <= i < order.len() ==> w.1.contains(#[trigger] order[i]),
                    order.no_duplicates(),
                    order.len() <= w.1.len(),
                    xv == dep@,
                    self.job_graph.model() == job_visit_all(job0, w, xv, done + batch.take(b as int)),
                    self.context_graph.dependency_graph.vertices.as_map() == deps_visit_all(
                        d0,
                        w,
                        xv,
                        done + batch.take(b as int),
                    ),
                    grown_by(self.job_graph.model().0, job0.0, xv, done + batch.take(b as int), w.4),
                    room_to_add(job0.0, w.1.len() as int, xv),
                    law0 ==> indegree_law(self.job_graph.model()),
                    names0 ==> keys_name_vertices(self.job_graph.model().0, w, dkeys),
                    names0 ==> dkeys.contains(xv),
                    dkeys == dep_keys(self.context_graph),
                decreases n - b,
            {
                let c = &ready[b];
                let ghost sofar = done + batch.take(b as int);
                proof {
                    assert(c@ == batch[b as int]);
                    assert(order[done.len() + b] == c@);
                    assert forall|i: int| 0 <= i < sofar.len() implies sofar[i] != c@ by {
                        if i < done.len() {
                            assert(order[i] == sofar[i]);
                        } else {
                            assert(sofar[i] == batch[i - done.len()]);
                            assert(order[i] == batch[i - done.len()]);
                        }
                        assert(i != done.len() + b);
                    }
                    assert(!sofar.contains(c@));
                    assert(sofar.len() + 1 <= order.len());
                    let cc = command_order(w.0, w.1, w.2)[done.len() + b];
                    assert(w.1.contains(cc));
                }
                self.visit_command(dep, c, &mut cmds, Ghost(w), Ghost(sofar), Ghost(job0.0));
                proof {
                    let next = done + batch.take(b + 1);
                    assert(next =~= sofar.push(c@));
                    assert(next.drop_last() =~= sofar);
                    assert(batch.take(b + 1).drop_last() =~= batch.take(b as int));
                    assert(batch.take(b + 1).last() == c@);
                }
                b = b + 1;
            }
            proof {
                assert(batch.take(n as int) =~= batch);
                done = done + batch;
                assert(order =~= done + rest);
            }
            ready = get_ready_commands(&cmds);
        }
        proof {
            assert(command_order(cmds.as_map(), w.1, w.2) =~= Seq::<Seq<char>>::empty());
            assert(order =~= done);
            assert forall|v: JobKey| #[trigger] count_of(self.job_graph.model().0, v) <= count_of(job0.0, v) + (if v.0 == xv {
                w.1.len() as int
            } else {
                0
            }) + 1 by {}
        }
    }
}

pub proof fn lemma_ready_dependencies_distinct(
    nodes: Map<Seq<char>, DependencyNode>,
    keys: Seq<Seq<char>>,
)
    requires
        keys.no_duplicates(),
    ensures
        ready_dependencies(nodes, keys).no_duplicates(),
    decreases keys.len(),
{
    if keys.len() > 0 {
        let prev = keys.drop_last();
        assert(prev.no_duplicates());
        lemma_ready_dependencies_distinct(nodes, prev);
        lemma_ready_dependencies(nodes, prev);
        let rest = ready_dependencies(nodes, prev);
        if dep_ready(nodes, keys.last()) {
            assert forall|i: int| 0 <= i < rest.len() implies rest[i] != keys.last() by {
                assert(prev.contains(rest[i]));
                let j = choose|j: int| 0 <= j < prev.len() && prev[j] == rest[i];
                assert(keys[j] == prev[j]);
            }
            assert(rest.push(keys.last()).no_duplicates());
        }
    }
}

/// Package `y` is a vertex that has not been visited.
pub open spec fn dep_unvisited(nodes: Map<Seq<char>, DependencyNode>, y: Seq<char>) -> bool {
    nodes.contains_key(y) && !nodes[y].visited
}

/// Enough room in `u32` for the counts that the rest of the walk over the
/// packages can add: each package's own walk adds at most the number of
/// commands to its jobs, and each walk adds at most one to any job.
pub open spec fn build_room_for(
    counts: Map<JobKey, u32>,
    nodes: Map<Seq<char>, DependencyNode>,
    keys: Seq<Seq<char>>,
    n_cmds: int,
) -> bool {
    &&& n_cmds + keys.len() <= u32::MAX
    &&& forall|v: JobKey|
        #[trigger] count_of(counts, v) + unvisited_dependencies(nodes, keys) + (if dep_unvisited(
            nodes,
            v.0,
        ) {
            n_cmds
        } else {
            0
        }) <= n_cmds + keys.len()
}

impl JobGraphBuilder {
    pub open spec fn build_room(&self) -> bool {
        build_room_for(
            self.jobs().model().0,
            self.context().dependency_graph.vertices.as_map(),
            dep_keys(self.context()),
            cmd_keys(self.context()).len() as int,
        )
    }

    /// A builder with no jobs has room for the whole walk where the numbers of
    /// commands and packages add up to at most `u32::MAX`.
    pub proof fn lemma_fresh_room(&self)
        requires
            self.wf(),
            self.jobs().model().0 == Map::<JobKey, u32>::empty(),
            cmd_keys(self.context()).len() + dep_keys(self.context()).len() <= u32::MAX,
        ensures
            self.build_room(),
    {
        lemma_unvisited_dependencies_bound(
            self.context().dependency_graph.vertices.as_map(),
            dep_keys(self.context()),
        );
    }

    /// Walks the packages in rounds: each round takes the packages, in name
    /// order, whose requirements are all met and that are not visited, marks
    /// each visited and adds its jobs; the walk ends when no package is ready.
    /// Returns a copy of the job graph.
    pub fn build(&mut self) -> (g: JobGraph)
        requires
            old(self).wf(),
            old(self).build_room(),
        ensures
            final(self).wf(),
            same_walk(final(self).context(), old(self).context()),
            (final(self).jobs().model(), final(self).context().dependency_graph.vertices.as_map())
                == build_from(
                old(self).jobs().model(),
                old(self).context().dependency_graph.vertices.as_map(),
                walk_of(old(self).context()),
                dep_keys(old(self).context()),
            ),
            g.wf(),
            g.model() == final(self).jobs().model(),
            final(self).build_room(),
            indegree_law(old(self).jobs().model()) ==> indegree_law(final(self).jobs().model()),
            keys_name_vertices(
                old(self).jobs().model().0,
                walk_of(old(self).context()),
                dep_keys(old(self).context()),
            ) ==> keys_name_vertices(
                final(self).jobs().model().0,
                walk_of(old(self).context()),
                dep_keys(old(self).context()),
            ),
    {
        let ghost ctx0 = self.context_graph;
        let ghost w = walk_of(self.context_graph);
        let ghost keys = dep_keys(self.context_graph);
        let ghost law0 = indegree_law(self.job_graph.model());
        let ghost names0 = keys_name_vertices(self.job_graph.model().0, w, keys);
        let ghost n_cmds = w.1.len() as int;
        let ghost target = build_from(
            self.job_graph.model(),
            self.context_graph.dependency_graph.vertices.as_map(),
            w,
            keys,
        );
        proof {
            lemma_sorted_no_duplicates::<String>(keys);
        }
        let mut ready = get_ready_deps(&self.context_graph.dependency_graph.vertices);
        while ready.len() > 0
            invariant
                self.wf(),
                same_walk(self.context_graph, ctx0),
                walk_of(self.context_graph) == w,
                keys == dep_keys(self.context_graph),
                keys.no_duplicates(),
                n_cmds == w.1.len(),
                key_views(ready@) == ready_dependencies(
                    self.context_graph.dependency_graph.vertices.as_map(),
                    keys,
                ),
                build_from(
                    self.job_graph.model(),
                    self.context_graph.dependency_graph.vertices.as_map(),
                    w,
                    keys,
                ) == target,
                build_room_for(
                    self.job_graph.model().0,
                    self.context_graph.dependency_graph.vertices.as_map(),
                    keys,
                    n_cmds,
                ),
                law0 ==> indegree_law(self.job_graph.model()),
                names0 ==> keys_name_vertices(self.job_graph.model().0, w, keys),
            decreases unvisited_dependencies(self.context_graph.dependency_graph.vertices.as_map(), keys),
        {
            let ghost start_j = self.job_graph.model();
            let ghost start_d = self.context_graph.dependency_graph.vertices.as_map();
            let ghost batch = key_views(ready@);
            proof {
                lemma_dependency_round_progress(start_j, start_d, w, keys);
                lemma_ready_dependencies(start_d, keys);
                lemma_ready_dependencies_distinct(start_d, keys);
                let next = build_round(start_j, start_d, w, batch);
                assert(build_from(start_j, start_d, w, keys) == build_from(next.0, next.1, w, keys));
                assert(batch.take(0) =~= Seq::<Seq<char>>::empty());
            }
            let n = ready.len();
            let mut i: usize = 0;
            while i < n
                invariant
                    n == ready@.len(),
                    batch == key_views(ready@),
                    batch.no_duplicates(),
                    forall|j: int| 0 <= j < batch.len() ==> keys.contains(#[trigger] batch[j]),
                    i <= n,
                    self.wf(),
                    same_walk(self.context_graph, ctx0),
                    walk_of(self.context_graph) == w,
                    keys == dep_keys(self.context_graph),
                    n_cmds == w.1.len(),
                    (self.job_graph.model(), self.context_graph.dependency_graph.vertices.as_map())
                        == build_round(start_j, start_d, w, batch.take(i as int)),
                    forall|j: int|
                        i <= j < n ==> dep_unvisited(
                            self.context_graph.dependency_graph.vertices.as_map(),
                            #[trigger] batch[j],
                        ),
                    build_room_for(
                        self.job_graph.model().0,
                        self.context_graph.dependency_graph.vertices.as_map(),
                        keys,
                        n_cmds,
                    ),
                    law0 ==> indegree_law(self.job_graph.model()),
                    names0 ==> keys_name_vertices(self.job_graph.model().0, w, keys),
                decreases n - i,
            {
                let x = &ready[i];
                let ghost xv = x@;
                let ghost d1 = self.context_graph.dependency_graph.vertices.as_map();
                let ghost c1 = self.job_graph.model().0;
                proof {
                    assert(xv == batch[i as int]);
                    assert(dep_unvisited(d1, xv));
                }
                mark_dependency(&mut self.context_graph.dependency_graph.vertices, x);
                let ghost d2 = self.context_graph.dependency_graph.vertices.as_map();
                proof {
                    assert(d2.dom() =~= d1.dom());
                    assert forall|k: Seq<char>| #[trigger] d2.contains_key(k) implies d2[k].name@ == k by {
                        assert(d1.contains_key(k));
                    }
                    lemma_unvisited_dependencies_drop(d1, d2, keys, xv);
                    assert(unvisited_dependencies(d2, keys) < unvisited_dependencies(d1, keys));
                    assert forall|v: JobKey| #[trigger] count_of(c1, v) + (if v.0 == xv {
                        n_cmds
                    } else {
                        0
                    }) + 1 <= u32::MAX by {
                        assert(count_of(c1, v) + unvisited_dependencies(d1, keys) + (if dep_unvisited(d1, v.0) {
                            n_cmds
                        } else {
                            0
                        }) <= n_cmds + keys.len());
                    }
                    assert(cmd_keys(self.context_graph) == w.1);
                }
                self.add_dependency(x);
                proof {
                    let d3 = self.context_graph.dependency_graph.vertices.as_map();
                    let c3 = self.job_graph.model().0;
                    lemma_deps_visit_all_keeps(d2, w, xv, commands_in_order(w));
                    lemma_unvisited_dependencies_drop(d2, d3, keys, xv);
                    assert forall|v: JobKey| #[trigger] count_of(c3, v) + unvisited_dependencies(d3, keys) + (if dep_unvisited(
                        d3,
                        v.0,
                    ) {
                        n_cmds
                    } else {
                        0
                    }) <= n_cmds + keys.len() by {
                        assert(count_of(c1, v) + unvisited_dependencies(d1, keys) + (if dep_unvisited(d1, v.0) {
                            n_cmds
                        } else {
                            0
                        }) <= n_cmds + keys.len());
                        if d3.contains_key(v.0) && !d3[v.0].visited {
                            assert(d2.contains_key(v.0) && !d2[v.0].visited);
                            assert(v.0 != xv);
                        }
                    }
                    assert forall|j: int| i + 1 <= j < n implies dep_unvisited(d3, #[trigger] batch[j]) by {
                        assert(dep_unvisited(d1, batch[j]));
                        assert(batch[j] != batch[i as int]);
                    }
                    assert(batch.take(i + 1).drop_last() =~= batch.take(i as int));
                    assert(batch.take(i + 1).last() == xv);
                }
                i = i + 1;
            }
            proof {
                assert(batch.take(n as int) =~= batch);
            }
            ready = get_ready_deps(&self.context_graph.dependency_graph.vertices);
        }
        self.job_graph.copy()
    }
}

pub proof fn lemma_cross_targets_empty(sds: Seq<Seq<char>>, rs: Seq<Seq<char>>)
    requires
        rs.len() == 0,
    ensures
        cross_targets(sds, rs) =~= Seq::<JobKey>::empty(),
    decreases sds.len(),
{
    if sds.len() > 0 {
        lemma_cross_targets_empty(sds.drop_last(), rs);
        assert(pair_all(sds.last(), rs) =~= Seq::<JobKey>::empty());
    }
}

pub proof fn lemma_dep_dec_each_zero(nodes: Map<Seq<char>, DependencyNode>, sds: Seq<Seq<char>>)
    ensures
        dep_dec_each(nodes, sds, 0) == nodes,
    decreases sds.len(),
{
    if sds.len() > 0 {
        lemma_dep_dec_each_zero(nodes, sds.drop_last());
    }
}

pub proof fn lemma_dep_dec_each_names(
    nodes: Map<Seq<char>, DependencyNode>,
    sds: Seq<Seq<char>>,
    n: nat,
    k: Seq<char>,
)
    requires
        nodes.contains_key(k),
    ensures
        dep_dec_each(nodes, sds, n)[k].name == nodes[k].name,
    decreases sds.len(),
{
    if sds.len() > 0 {
        lemma_dep_dec_each_names(nodes, sds.drop_last(), n, k);
        lemma_dep_dec_each_keeps(nodes, sds.drop_last(), n);
        lemma_dep_dec_times_names(dep_dec_each(nodes, sds.drop_last(), n), sds.last(), n, k);
    }
}

pub proof fn lemma_dep_dec_times_names(
    nodes: Map<Seq<char>, DependencyNode>,
    s: Seq<char>,
    n: nat,
    k: Seq<char>,
)
    requires
        nodes.contains_key(k),
    ensures
        dep_dec_times(nodes, s, n)[k].name == nodes[k].name,
    decreases n,
{
    if n > 0 {
        lemma_dep_dec_times_names(nodes, s, (n - 1) as nat, k);
        lemma_dep_dec_times_keeps(nodes, s, (n - 1) as nat);
    }
}

// ---------------------------------------------------------------------------
// The count of each job is the number of edges into it.
// ---------------------------------------------------------------------------

/// The places in the adjacency lists that hold job `v`: (source, position).
pub open spec fn slots_into(edges: Map<JobKey, Seq<JobKey>>, v: JobKey) -> Set<(JobKey, int)> {
    Set::new(
        |s: (JobKey, int)|
            edges.contains_key(s.0) && 0 <= s.1 < edges[s.0].len() && edges[s.0][s.1] == v,
    )
}

/// Each job's count is the number of edges into it, and every source and
/// target of an edge is a job.
pub open spec fn indegree_law(job: JobModel) -> bool {
    &&& forall|v: JobKey| #[trigger] slots_into(job.1, v).finite()
    &&& forall|v: JobKey| count_of(job.0, v) == #[trigger] slots_into(job.1, v).len()
    &&& forall|k: JobKey| #[trigger] job.1.contains_key(k) ==> job.0.contains_key(k)
    &&& forall|k: JobKey, i: int|
        job.1.contains_key(k) && 0 <= i < job.1[k].len() ==> job.0.contains_key(
            #[trigger] job.1[k][i],
        )
}

/// A graph with no jobs meets the indegree law.
pub proof fn lemma_law_empty()
    ensures
        indegree_law((Map::<JobKey, u32>::empty(), Map::<JobKey, Seq<JobKey>>::empty())),
{
    let e = Map::<JobKey, Seq<JobKey>>::empty();
    assert forall|v: JobKey| #[trigger] slots_into(e, v) == Set::<(JobKey, int)>::empty() by {
        assert(slots_into(e, v) =~= Set::<(JobKey, int)>::empty());
    }
}

/// Opening a job (with count 0 and no edges, where it is new) keeps the
/// indegree law.
pub proof fn lemma_law_open(job: JobModel, src: JobKey)
    requires
        indegree_law(job),
    ensures
        indegree_law(job_open(job, src)),
{
    let j2 = job_open(job, src);
    assert forall|v: JobKey| #[trigger] slots_into(j2.1, v) == slots_into(job.1, v) by {
        assert(slots_into(j2.1, v) =~= slots_into(job.1, v));
    }
    assert forall|v: JobKey| count_of(j2.0, v) == #[trigger] slots_into(j2.1, v).len() by {
        if v == src && !job.0.contains_key(src) {
            assert(count_of(job.0, v) == 0);
        }
    }
}

/// Adding an edge and counting it at its target keeps the indegree law.
pub proof fn lemma_law_add_edge(job: JobModel, src: JobKey, t: JobKey)
    requires
        indegree_law(job),
        job.1.contains_key(src),
        count_of(job.0, t) < u32::MAX,
    ensures
        indegree_law(job_add_edge(job, src, t)),
{
    let j2 = job_add_edge(job, src, t);
    let l = job.1[src].len() as int;
    assert forall|v: JobKey| #[trigger] slots_into(j2.1, v) == (if v == t {
        slots_into(job.1, v).insert((src, l))
    } else {
        slots_into(job.1, v)
    }) by {
        if v == t {
            assert(slots_into(j2.1, v) =~= slots_into(job.1, v).insert((src, l)));
        } else {
            assert(slots_into(j2.1, v) =~= slots_into(job.1, v));
        }
    }
    assert forall|v: JobKey| #[trigger] slots_into(j2.1, v).finite() by {}
    assert forall|v: JobKey| count_of(j2.0, v) == #[trigger] slots_into(j2.1, v).len() by {
        if v == t {
            assert(!slots_into(job.1, v).contains((src, l)));
        }
    }
    assert forall|k: JobKey, i: int|
        j2.1.contains_key(k) && 0 <= i < j2.1[k].len() implies j2.0.contains_key(
        #[trigger] j2.1[k][i],
    ) by {
        if k == src && i == l {
            assert(j2.1[k][i] == t);
        } else if k == src {
            assert(j2.1[k][i] == job.1[k][i]);
        }
    }
}

/// Every job names a package and a command of the walk.
pub open spec fn keys_name_vertices(counts: Map<JobKey, u32>, w: Walk, dkeys: Seq<Seq<char>>) -> bool {
    forall|v: JobKey| #[trigger] counts.contains_key(v) ==> dkeys.contains(v.0) && w.1.contains(v.1)
}

/// Building the job graph changes no package's name or path, and no package
/// leaves or joins the graph.
pub proof fn lemma_build_from_keeps(
    job: JobModel,
    nodes: Map<Seq<char>, DependencyNode>,
    w: Walk,
    keys: Seq<Seq<char>>,
)
    ensures
        build_from(job, nodes, w, keys).1.dom() == nodes.dom(),
        forall|k: Seq<char>| #[trigger]
            nodes.contains_key(k) ==> build_from(job, nodes, w, keys).1[k].name == nodes[k].name
                && build_from(job, nodes, w, keys).1[k].path == nodes[k].path,
    decreases unvisited_dependencies(nodes, keys),
{
    let batch = ready_dependencies(nodes, keys);
    if batch.len() > 0 {
        lemma_dependency_round_progress(job, nodes, w, keys);
        let next = build_round(job, nodes, w, batch);
        lemma_build_round_keeps(job, nodes, w, batch);
        lemma_build_from_keeps(next.0, next.1, w, keys);
    }
}

/// Where the walk over the packages ends, no package is ready.
pub proof fn lemma_build_from_ends(
    job: JobModel,
    nodes: Map<Seq<char>, DependencyNode>,
    w: Walk,
    keys: Seq<Seq<char>>,
)
    ensures
        ready_dependencies(build_from(job, nodes, w, keys).1, keys).len() == 0,
    decreases unvisited_dependencies(nodes, keys),
{
    let batch = ready_dependencies(nodes, keys);
    if batch.len() > 0 {
        lemma_dependency_round_progress(job, nodes, w, keys);
        let next = build_round(job, nodes, w, batch);
        lemma_build_from_ends(next.0, next.1, w, keys);
    }
}

/// Building twice is building once: a second walk over the packages finds
/// none ready and changes nothing.
pub proof fn lemma_build_idempotent(
    job: JobModel,
    nodes: Map<Seq<char>, DependencyNode>,
    w: Walk,
    keys: Seq<Seq<char>>,
)
    ensures
        build_from(build_from(job, nodes, w, keys).0, build_from(job, nodes, w, keys).1, w, keys)
            == build_from(job, nodes, w, keys),
{
    lemma_build_from_ends(job, nodes, w, keys);
}

/// An edge the job graph may hold: from (`x`, `c`) to (`x`, `c2`) where
/// command `c2` requires `c`; or, where `c` is the command after which the
/// packages that require `x` may start, to (`s`, `r`) where package `s`
/// requires `x` and command `r` requires nothing.
pub open spec fn edge_of_walk(w: Walk, src: JobKey, t: JobKey) -> bool {
    ||| t.0 == src.0 && targets_of(w.2, src.1).contains(t.1)
    ||| src.1 == w.4 && targets_of(w.3, src.0).contains(t.0) && root_commands(w).contains(t.1)
}

/// Every edge of the job graph is an edge the walk may add.
pub open spec fn edges_of_walk(job: JobModel, w: Walk) -> bool {
    forall|k: JobKey, i: int|
        job.1.contains_key(k) && 0 <= i < job.1[k].len() ==> edge_of_walk(w, k, #[trigger] job.1[k][i])
}

proof fn lemma_edges_add(job: JobModel, w: Walk, src: JobKey, ts: Seq<JobKey>)
    requires
        edges_of_walk(job, w),
        job.1.contains_key(src),
        forall|i: int| 0 <= i < ts.len() ==> edge_of_walk(w, src, #[trigger] ts[i]),
    ensures
        edges_of_walk(job_add_edges(job, src, ts), w),
        job_add_edges(job, src, ts).1.contains_key(src),
    decreases ts.len(),
{
    if ts.len() > 0 {
        let prev = ts.drop_last();
        assert forall|i: int| 0 <= i < prev.len() implies edge_of_walk(w, src, #[trigger] prev[i]) by {
            assert(prev[i] == ts[i]);
        }
        lemma_edges_add(job, w, src, prev);
        let j1 = job_add_edges(job, src, prev);
        let j2 = job_add_edge(j1, src, ts.last());
        assert(edge_of_walk(w, src, ts[ts.len() - 1]));
        assert forall|k: JobKey, i: int| j2.1.contains_key(k) && 0 <= i < j2.1[k].len() implies edge_of_walk(
            w,
            k,
            #[trigger] j2.1[k][i],
        ) by {
            if k == src && i == j1.1[src].len() {
                assert(j2.1[k][i] == ts.last());
            } else if k == src {
                assert(j2.1[k][i] == j1.1[k][i]);
            }
        }
    }
}

/// The jobs after a job are edges the walk may add.
proof fn lemma_job_targets_of_walk(w: Walk, x: Seq<char>, c: Seq<char>)
    ensures
        forall|i: int|
            0 <= i < job_targets(w, x, c).len() ==> edge_of_walk(w, (x, c), #[trigger] job_targets(w, x, c)[i]),
{
    let a = pair_all(x, targets_of(w.2, c));
    let b = if c == w.4 {
        cross_targets(targets_of(w.3, x), root_commands(w))
    } else {
        Seq::empty()
    };
    lemma_pair_all(x, targets_of(w.2, c));
    assert forall|i: int| 0 <= i < job_targets(w, x, c).len() implies edge_of_walk(
        w,
        (x, c),
        #[trigger] job_targets(w, x, c)[i],
    ) by {
        let v = job_targets(w, x, c)[i];
        if i < a.len() {
            assert(a[i] == v);
            assert(a.contains(v));
        } else {
            assert(b[i - a.len()] == v);
            assert(b.contains(v));
            lemma_cross_targets_contains(targets_of(w.3, x), root_commands(w), v);
        }
    }
}

proof fn lemma_job_visit_all_edges(job: JobModel, w: Walk, x: Seq<char>, cs: Seq<Seq<char>>)
    requires
        edges_of_walk(job, w),
    ensures
        edges_of_walk(job_visit_all(job, w, x, cs), w),
    decreases cs.len(),
{
    if cs.len() > 0 {
        lemma_job_visit_all_edges(job, w, x, cs.drop_last());
        let j1 = job_visit_all(job, w, x, cs.drop_last());
        let c = cs.last();
        let j2 = job_open(j1, (x, c));
        assert forall|k: JobKey, i: int| j2.1.contains_key(k) && 0 <= i < j2.1[k].len() implies edge_of_walk(
            w,
            k,
            #[trigger] j2.1[k][i],
        ) by {
            assert(j1.1.contains_key(k));
        }
        lemma_job_targets_of_walk(w, x, c);
        lemma_edges_add(j2, w, (x, c), job_targets(w, x, c));
    }
}

proof fn lemma_build_round_edges(
    job: JobModel,
    nodes: Map<Seq<char>, DependencyNode>,
    w: Walk,
    batch: Seq<Seq<char>>,
)
    requires
        edges_of_walk(job, w),
    ensures
        edges_of_walk(build_round(job, nodes, w, batch).0, w),
    decreases batch.len(),
{
    if batch.len() > 0 {
        lemma_build_round_edges(job, nodes, w, batch.drop_last());
        let prev = build_round(job, nodes, w, batch.drop_last());
        lemma_job_visit_all_edges(prev.0, w, batch.last(), commands_in_order(w));
    }
}

/// The walk over the packages adds only the edges it may add: from a job to
/// the job of the same package for a command that requires the job's command,
/// and, from the job of the command after which the packages that require a
/// package may start, to the jobs of those packages for the commands that
/// require nothing.
pub proof fn lemma_build_from_edges(
    job: JobModel,
    nodes: Map<Seq<char>, DependencyNode>,
    w: Walk,
    keys: Seq<Seq<char>>,
)
    requires
        edges_of_walk(job, w),
    ensures
        edges_of_walk(build_from(job, nodes, w, keys).0, w),
    decreases unvisited_dependencies(nodes, keys),
{
    let batch = ready_dependencies(nodes, keys);
    if batch.len() > 0 {
        lemma_dependency_round_progress(job, nodes, w, keys);
        lemma_build_round_edges(job, nodes, w, batch);
        let next = build_round(job, nodes, w, batch);
        lemma_build_from_edges(next.0, next.1, w, keys);
    }
}

/// `rank` rises along every edge of the adjacency: each name is ranked below
/// the names that require it. A finite graph has such a ranking exactly when it
/// has no cycle.
pub open spec fn rises_along(adj: Map<Seq<char>, Vec<String>>, rank: spec_fn(Seq<char>) -> nat) -> bool {
    forall|a: Seq<char>, b: Seq<char>| #[trigger] targets_of(adj, a).contains(b) ==> rank(a) < rank(b)
}

/// The rank of a job: its package's rank, then its command's rank.
pub open spec fn job_rank(
    rank_dep: spec_fn(Seq<char>) -> nat,
    rank_cmd: spec_fn(Seq<char>) -> nat,
    n: nat,
    k: JobKey,
) -> nat {
    n * rank_dep(k.0) + rank_cmd(k.1)
}

/// A path of jobs, each joined to the next by an edge.
pub open spec fn job_path(job: JobModel, p: Seq<JobKey>) -> bool {
    forall|i: int|
        1 <= i < p.len() ==> job.1.contains_key(p[i - 1]) && job.1[p[i - 1]].contains(#[trigger] p[i])
}

proof fn lemma_path_rises(job: JobModel, p: Seq<JobKey>, rank: spec_fn(JobKey) -> nat, m: int)
    requires
        job_path(job, p),
        1 <= m < p.len(),
        forall|k: JobKey, t: JobKey| job.1.contains_key(k) && #[trigger] job.1[k].contains(t) ==> rank(k) < rank(t),
    ensures
        rank(p[0]) < rank(p[m]),
    decreases m,
{
    let pm = p[m];
    assert(job.1.contains_key(p[m - 1]) && job.1[p[m - 1]].contains(pm));
    if m > 1 {
        lemma_path_rises(job, p, rank, m - 1);
    }
}

/// Where the command graph and the package graph have rankings that rise along
/// their requirements, the rank of a job rises along every edge that the walk
/// may add.
pub proof fn lemma_job_rank_rises(
    job: JobModel,
    w: Walk,
    rank_cmd: spec_fn(Seq<char>) -> nat,
    rank_dep: spec_fn(Seq<char>) -> nat,
    n: nat,
)
    requires
        edges_of_walk(job, w),
        rises_along(w.2, rank_cmd),
        rises_along(w.3, rank_dep),
        forall|c: Seq<char>| #[trigger] rank_cmd(c) < n,
    ensures
        forall|k: JobKey, t: JobKey|
            job.1.contains_key(k) && #[trigger] job.1[k].contains(t) ==> job_rank(rank_dep, rank_cmd, n, k)
                < job_rank(rank_dep, rank_cmd, n, t),
{
    assert forall|k: JobKey, t: JobKey| job.1.contains_key(k) && #[trigger] job.1[k].contains(t) implies job_rank(
        rank_dep,
        rank_cmd,
        n,
        k,
    ) < job_rank(rank_dep, rank_cmd, n, t) by {
        let i = choose|i: int| 0 <= i < job.1[k].len() && job.1[k][i] == t;
        assert(edge_of_walk(w, k, job.1[k][i]));
        if t.0 == k.0 && targets_of(w.2, k.1).contains(t.1) {
            assert(rank_cmd(k.1) < rank_cmd(t.1));
        } else {
            assert(rank_dep(k.0) < rank_dep(t.0));
            let a = rank_dep(k.0);
            let b = rank_dep(t.0);
            let x = rank_cmd(k.1);
            let y = rank_cmd(t.1);
            assert(x < n);
            assert(n * a + x < n * b + y) by (nonlinear_arith)
                requires
                    a < b,
                    x < n,
                    0 <= y,
            ;
        }
    }
}

/// Where the command graph and the package graph have no cycle (each has a
/// ranking that rises along its requirements), the job graph that the walk
/// builds has none either: no path of edges leads from a job back to itself.
pub proof fn lemma_build_from_acyclic(
    nodes: Map<Seq<char>, DependencyNode>,
    w: Walk,
    keys: Seq<Seq<char>>,
    rank_cmd: spec_fn(Seq<char>) -> nat,
    rank_dep: spec_fn(Seq<char>) -> nat,
    n: nat,
    p: Seq<JobKey>,
)
    requires
        rises_along(w.2, rank_cmd),
        rises_along(w.3, rank_dep),
        forall|c: Seq<char>| #[trigger] rank_cmd(c) < n,
        job_path(
            build_from((Map::<JobKey, u32>::empty(), Map::<JobKey, Seq<JobKey>>::empty()), nodes, w, keys).0,
            p,
        ),
        p.len() >= 2,
    ensures
        p[0] != p[p.len() - 1],
{
    let job = build_from((Map::<JobKey, u32>::empty(), Map::<JobKey, Seq<JobKey>>::empty()), nodes, w, keys).0;
    lemma_build_from_edges((Map::<JobKey, u32>::empty(), Map::<JobKey, Seq<JobKey>>::empty()), nodes, w, keys);
    lemma_job_rank_rises(job, w, rank_cmd, rank_dep, n);
    let rank = |k: JobKey| job_rank(rank_dep, rank_cmd, n, k);
    assert forall|k: JobKey, t: JobKey| job.1.contains_key(k) && #[trigger] job.1[k].contains(t) implies rank(k)
        < rank(t) by {}
    lemma_path_rises(job, p, rank, p.len() - 1);
}

/// The ready commands are exactly the keys whose command is ready.
pub proof fn lemma_ready_commands_exact(nodes: Map<Seq<char>, CommandNode>, keys: Seq<Seq<char>>)
    ensures
        forall|k: Seq<char>|
            #[trigger] ready_commands(nodes, keys).contains(k) <==> (keys.contains(k) && cmd_ready(nodes, k)),
    decreases keys.len(),
{
    lemma_ready_commands(nodes, keys);
    if keys.len() > 0 {
        let prev = keys.drop_last();
        lemma_ready_commands_exact(nodes, prev);
        let rest = ready_commands(nodes, prev);
        let r = ready_commands(nodes, keys);
        assert forall|k: Seq<char>| #[trigger] r.contains(k) <==> (keys.contains(k) && cmd_ready(nodes, k)) by {
            if r.contains(k) {
                let i = choose|i: int| 0 <= i < r.len() && r[i] == k;
                assert(keys.contains(r[i]));
                assert(cmd_ready(nodes, r[i]));
            }
            if keys.contains(k) && cmd_ready(nodes, k) {
                let j = choose|j: int| 0 <= j < keys.len() && keys[j] == k;
                if j < keys.len() - 1 {
                    assert(prev[j] == k);
                    assert(rest.contains(k));
                    let i = choose|i: int| 0 <= i < rest.len() && rest[i] == k;
                    assert(r[i] == k);
                } else {
                    assert(r[r.len() - 1] == k);
                }
            }
        }
    }
}

/// The jobs of each package of `sds` for each command of `roots` are all there.
proof fn lemma_cross_targets_complete(sds: Seq<Seq<char>>, roots: Seq<Seq<char>>, s: Seq<char>, r: Seq<char>)
    requires
        sds.contains(s),
        roots.contains(r),
    ensures
        cross_targets(sds, roots).contains((s, r)),
    decreases sds.len(),
{
    let prev = sds.drop_last();
    let a = cross_targets(prev, roots);
    let b = pair_all(sds.last(), roots);
    lemma_pair_all(sds.last(), roots);
    let j = choose|j: int| 0 <= j < sds.len() && sds[j] == s;
    if j < sds.len() - 1 {
        assert(prev[j] == s);
        lemma_cross_targets_complete(prev, roots, s, r);
        let i = choose|i: int| 0 <= i < a.len() && a[i] == (s, r);
        assert((a + b)[i] == (s, r));
    } else {
        let i = choose|i: int| 0 <= i < roots.len() && roots[i] == r;
        assert(b[i] == (s, r));
        assert((a + b)[a.len() + i] == (s, r));
    }
}

/// Adding edges from `src` appends their targets to the jobs after `src`.
proof fn lemma_job_add_edges_appends(job: JobModel, src: JobKey, ts: Seq<JobKey>)
    requires
        job.1.contains_key(src),
    ensures
        job_add_edges(job, src, ts).1.contains_key(src),
        job_add_edges(job, src, ts).1[src] == job.1[src] + ts,
    decreases ts.len(),
{
    if ts.len() == 0 {
        assert(job.1[src] + ts =~= job.1[src]);
    } else {
        lemma_job_add_edges_appends(job, src, ts.drop_last());
        assert(job.1[src] + ts =~= (job.1[src] + ts.drop_last()).push(ts.last()));
    }
}

/// Visiting command `c` for package `x` keeps the jobs already after (`x`, `c`)
/// and adds after them an edge to (`x`, `c2`) for every command `c2` that
/// requires `c`; where `c` is the command after which the packages that require
/// `x` may start, it adds an edge to (`s`, `r`) for every package `s` that
/// requires `x` and every command `r` of the walk that is ready (requires
/// nothing and is not visited), every one of them.
pub proof fn lemma_job_visit_edges(job: JobModel, w: Walk, x: Seq<char>, c: Seq<char>)
    ensures
        job_visit(job, w, x, c).1.contains_key((x, c)),
        job.1.contains_key((x, c)) ==> job_visit(job, w, x, c).1[(x, c)].take(job.1[(x, c)].len() as int)
            == job.1[(x, c)],
        forall|c2: Seq<char>|
            #[trigger] targets_of(w.2, c).contains(c2) ==> job_visit(job, w, x, c).1[(x, c)].contains((x, c2)),
        c == w.4 ==> forall|s: Seq<char>, r: Seq<char>|
            #[trigger] targets_of(w.3, x).contains(s) && w.1.contains(r) && #[trigger] cmd_ready(w.0, r)
                ==> job_visit(job, w, x, c).1[(x, c)].contains((s, r)),
{
    let src = (x, c);
    let opened = job_open(job, src);
    let ts = job_targets(w, x, c);
    lemma_job_add_edges_appends(opened, src, ts);
    let res = job_visit(job, w, x, c).1[src];
    assert(res == opened.1[src] + ts);
    if job.1.contains_key(src) {
        assert(res.take(job.1[src].len() as int) =~= job.1[src]);
    }
    let a = pair_all(x, targets_of(w.2, c));
    let b = if c == w.4 {
        cross_targets(targets_of(w.3, x), root_commands(w))
    } else {
        Seq::empty()
    };
    assert(ts == a + b);
    lemma_pair_all(x, targets_of(w.2, c));
    assert forall|c2: Seq<char>| #[trigger] targets_of(w.2, c).contains(c2) implies res.contains((x, c2)) by {
        let j = choose|j: int| 0 <= j < targets_of(w.2, c).len() && targets_of(w.2, c)[j] == c2;
        assert(a[j] == (x, c2));
        assert(res[opened.1[src].len() + j] == (x, c2));
    }
    if c == w.4 {
        lemma_ready_commands_exact(w.0, w.1);
        assert forall|s: Seq<char>, r: Seq<char>|
            #[trigger] targets_of(w.3, x).contains(s) && w.1.contains(r) && #[trigger] cmd_ready(w.0, r)
                implies res.contains((s, r)) by {
            assert(root_commands(w).contains(r));
            lemma_cross_targets_complete(targets_of(w.3, x), root_commands(w), s, r);
            let i = choose|i: int| 0 <= i < b.len() && b[i] == (s, r);
            assert(res[opened.1[src].len() + a.len() + i] == (s, r));
        }
    }
}

/// The targets of a name are the names of its adjacency list, and none where
/// it has no list.
pub proof fn lemma_targets_of(adj: Map<Seq<char>, Vec<String>>, k: Seq<char>, s: Seq<char>)
    ensures
        targets_of(adj, k).contains(s) <==> (adj.contains_key(k) && exists|i: int|
            0 <= i < adj[k]@.len() && #[trigger] adj[k]@[i]@ == s),
{
    if adj.contains_key(k) {
        if targets_of(adj, k).contains(s) {
            let i = choose|i: int| 0 <= i < targets_of(adj, k).len() && targets_of(adj, k)[i] == s;
            assert(adj[k]@[i]@ == s);
        }
        if exists|i: int| 0 <= i < adj[k]@.len() && #[trigger] adj[k]@[i]@ == s {
            let i = choose|i: int| 0 <= i < adj[k]@.len() && #[trigger] adj[k]@[i]@ == s;
            assert(targets_of(adj, k)[i] == s);
        }
    }
}

} // verus!
