//! Running the jobs: batch after batch, the jobs that have no job left before
//! them, each turned into a task for the command's wrapper in the package.
use crate::graph::BuiltContextGraphs;
use crate::job::{
    build_from, cmd_keys, edges_of_walk, cmd_vertices, count_of, dep_keys, dep_vertices, indegree_law,
    keys_name_vertices, same_walk, slots_into, walk_of, JobGraph, JobGraphBuilder, JobKey,
    JobModel,
};
use crate::keys::{sorted_strict, OrderedKey};
use crate::ordmap::{key_views, OrdMap};
use vstd::prelude::*;

verus! {

/// A task to hand to the scheduler: the wrapper's uri, the method and its
/// arguments, and the package's path and name as the environment.
#[derive(Clone, Debug)]
pub struct ConcurrentTask {
    pub uri: String,
    pub method: String,
    pub args: String,
    pub cwd: String,
    pub process_id: String,
}

/// The task of job (package, command).
pub open spec fn task_of(ctx: BuiltContextGraphs, job: JobKey) -> ConcurrentTask {
    let c = cmd_vertices(ctx)[job.1];
    let d = dep_vertices(ctx)[job.0];
    ConcurrentTask { uri: c.uri, method: c.method, args: c.args, cwd: d.path, process_id: d.name }
}

fn create_task(ctx: &BuiltContextGraphs, dep: &String, cmd: &String) -> (t: ConcurrentTask)
    requires
        ctx.wf(),
        cmd_vertices(*ctx).contains_key(cmd@),
        dep_vertices(*ctx).contains_key(dep@),
    ensures
        t == task_of(*ctx, (dep@, cmd@)),
{
    let cmd_node = ctx.command_graph.vertices.get(cmd).unwrap();
    let dep_node = ctx.dependency_graph.vertices.get(dep).unwrap();
    ConcurrentTask {
        uri: cmd_node.uri.clone(),
        method: cmd_node.method.clone(),
        args: cmd_node.args.clone(),
        cwd: dep_node.path.clone(),
        process_id: dep_node.name.clone(),
    }
}

/// The jobs with no job left before them, in key order.
pub open spec fn ready_jobs(counts: Map<JobKey, u32>, keys: Seq<JobKey>) -> Seq<JobKey>
    decreases keys.len(),
{
    if keys.len() == 0 {
        Seq::empty()
    } else {
        let rest = ready_jobs(counts, keys.drop_last());
        if counts.contains_key(keys.last()) && counts[keys.last()] == 0 {
            rest.push(keys.last())
        } else {
            rest
        }
    }
}

pub open spec fn edges_from(edges: Map<JobKey, Seq<JobKey>>, k: JobKey) -> Seq<JobKey> {
    if edges.contains_key(k) {
        edges[k]
    } else {
        Seq::empty()
    }
}

/// One job before `t` has run.
pub open spec fn job_done(counts: Map<JobKey, u32>, t: JobKey) -> Map<JobKey, u32> {
    if counts.contains_key(t) {
        counts.insert(t, (counts[t] - 1) as u32)
    } else {
        counts
    }
}

pub open spec fn job_done_all(counts: Map<JobKey, u32>, ts: Seq<JobKey>) -> Map<JobKey, u32>
    decreases ts.len(),
{
    if ts.len() == 0 {
        counts
    } else {
        job_done(job_done_all(counts, ts.drop_last()), ts.last())
    }
}

/// Running job `p`: it is marked as run (its count becomes `u32::MAX`) and one
/// job before each job after it has run.
pub open spec fn run_job(counts: Map<JobKey, u32>, edges: Map<JobKey, Seq<JobKey>>, p: JobKey) -> Map<
    JobKey,
    u32,
> {
    job_done_all(counts.insert(p, u32::MAX), edges_from(edges, p))
}

pub open spec fn run_batch(
    counts: Map<JobKey, u32>,
    edges: Map<JobKey, Seq<JobKey>>,
    batch: Seq<JobKey>,
) -> Map<JobKey, u32>
    decreases batch.len(),
{
    if batch.len() == 0 {
        counts
    } else {
        run_job(run_batch(counts, edges, batch.drop_last()), edges, batch.last())
    }
}

/// The jobs that have not run.
pub open spec fn pending_jobs(counts: Map<JobKey, u32>) -> Set<JobKey> {
    counts.dom().filter(|k: JobKey| counts[k] != u32::MAX)
}

/// Job `k` has not run.
pub open spec fn job_pending(counts: Map<JobKey, u32>, k: JobKey) -> bool {
    counts.contains_key(k) && counts[k] != u32::MAX
}

/// The edges into `v` from jobs that have not run.
pub open spec fn pending_slots(job: JobModel, v: JobKey) -> Set<(JobKey, int)> {
    Set::new(
        |s: (JobKey, int)|
            job.1.contains_key(s.0) && 0 <= s.1 < job.1[s.0].len() && job.1[s.0][s.1] == v
                && job_pending(job.0, s.0),
    )
}

/// Every edge joins jobs; a job that has run has no edge into it from a job
/// that has not; any other job counts exactly the edges into it from jobs
/// that have not run.
pub open spec fn schedule_invariant(job: JobModel) -> bool {
    &&& forall|v: JobKey| #[trigger] slots_into(job.1, v).finite()
    &&& forall|k: JobKey| #[trigger] job.1.contains_key(k) ==> job.0.contains_key(k)
    &&& forall|k: JobKey, i: int|
        job.1.contains_key(k) && 0 <= i < job.1[k].len() ==> job.0.contains_key(
            #[trigger] job.1[k][i],
        )
    &&& forall|v: JobKey| #[trigger]
        job.0.contains_key(v) ==> if job.0[v] == u32::MAX {
            pending_slots(job, v).len() == 0
        } else {
            job.0[v] == pending_slots(job, v).len()
        }
}

/// The edges still pending into a job are finitely many, and among all the
/// edges into it.
pub proof fn lemma_pending_finite(job: JobModel, v: JobKey)
    requires
        slots_into(job.1, v).finite(),
    ensures
        pending_slots(job, v).finite(),
        pending_slots(job, v).subset_of(slots_into(job.1, v)),
{
    assert(pending_slots(job, v).subset_of(slots_into(job.1, v)));
    vstd::set_lib::lemma_set_subset_finite(slots_into(job.1, v), pending_slots(job, v));
}

/// A job that is ready has no edge into it from a job that has not run: every
/// job before it has run.
pub proof fn lemma_ready_job_predecessors_ran(job: JobModel, v: JobKey)
    requires
        schedule_invariant(job),
        job.0.contains_key(v),
        job.0[v] == 0,
    ensures
        forall|k: JobKey, i: int|
            job.1.contains_key(k) && 0 <= i < job.1[k].len() && #[trigger] job.1[k][i] == v
                ==> job.0.contains_key(k) && job.0[k] == u32::MAX,
{
    lemma_pending_finite(job, v);
    assert forall|k: JobKey, i: int|
        job.1.contains_key(k) && 0 <= i < job.1[k].len() && #[trigger] job.1[k][i] == v implies job.0.contains_key(
        k,
    ) && job.0[k] == u32::MAX by {
        if job.0[k] != u32::MAX {
            assert(pending_slots(job, v).contains((k, i)));
        }
    }
}

/// A job graph whose counts are the numbers of edges into each job, with
/// every count below `u32::MAX`, can be scheduled.
pub proof fn lemma_schedule_from_indegree(job: JobModel)
    requires
        indegree_law(job),
        forall|v: JobKey| #[trigger] job.0.contains_key(v) ==> job.0[v] < u32::MAX,
    ensures
        schedule_invariant(job),
{
    assert forall|v: JobKey| #[trigger] job.0.contains_key(v) implies if job.0[v] == u32::MAX {
        pending_slots(job, v).len() == 0
    } else {
        job.0[v] == pending_slots(job, v).len()
    } by {
        assert(pending_slots(job, v) =~= slots_into(job.1, v));
        assert(count_of(job.0, v) == slots_into(job.1, v).len());
    }
}

pub proof fn lemma_ready_jobs(counts: Map<JobKey, u32>, keys: Seq<JobKey>)
    ensures
        forall|i: int|
            0 <= i < ready_jobs(counts, keys).len() ==> counts.contains_key(
                #[trigger] ready_jobs(counts, keys)[i],
            ) && counts[ready_jobs(counts, keys)[i]] == 0,
        keys.no_duplicates() ==> ready_jobs(counts, keys).no_duplicates(),
        forall|i: int|
            0 <= i < ready_jobs(counts, keys).len() ==> keys.contains(
                #[trigger] ready_jobs(counts, keys)[i],
            ),
    decreases keys.len(),
{
    if keys.len() > 0 {
        let prev = keys.drop_last();
        lemma_ready_jobs(counts, prev);
        let rest = ready_jobs(counts, prev);
        assert forall|i: int| 0 <= i < ready_jobs(counts, keys).len() implies keys.contains(
            #[trigger] ready_jobs(counts, keys)[i],
        ) by {
            if i < rest.len() {
                let r = rest[i];
                let j = choose|j: int| 0 <= j < prev.len() && prev[j] == r;
                assert(keys[j] == r);
            } else {
                assert(keys[keys.len() - 1] == keys.last());
            }
        }
        if keys.no_duplicates() {
            assert(prev.no_duplicates());
            if counts.contains_key(keys.last()) && counts[keys.last()] == 0 {
                assert forall|i: int| 0 <= i < rest.len() implies rest[i] != keys.last() by {
                    let j = choose|j: int| 0 <= j < prev.len() && prev[j] == rest[i];
                    assert(keys[j] == prev[j]);
                }
                assert(rest.push(keys.last()).no_duplicates());
            }
        }
    }
}

/// The ready jobs are exactly the keys whose job counts 0: every such key is
/// among them, whatever other jobs of its package are ready too.
pub proof fn lemma_ready_jobs_exact(counts: Map<JobKey, u32>, keys: Seq<JobKey>)
    ensures
        forall|k: JobKey|
            #[trigger] ready_jobs(counts, keys).contains(k) <==> (keys.contains(k) && counts.contains_key(k)
                && counts[k] == 0),
    decreases keys.len(),
{
    lemma_ready_jobs(counts, keys);
    if keys.len() > 0 {
        let prev = keys.drop_last();
        lemma_ready_jobs_exact(counts, prev);
        let rest = ready_jobs(counts, prev);
        let r = ready_jobs(counts, keys);
        assert forall|k: JobKey| #[trigger] r.contains(k) <==> (keys.contains(k) && counts.contains_key(k)
            && counts[k] == 0) by {
            if r.contains(k) {
                let i = choose|i: int| 0 <= i < r.len() && r[i] == k;
                assert(keys.contains(r[i]));
            }
            if keys.contains(k) && counts.contains_key(k) && counts[k] == 0 {
                let j = choose|j: int| 0 <= j < keys.len() && keys[j] == k;
                if j < keys.len() - 1 {
                    assert(prev[j] == k);
                    assert(rest.contains(k));
                    let i = choose|i: int| 0 <= i < rest.len() && rest[i] == k;
                    assert(r[i] == k);
                } else {
                    assert(r[r.len() - 1] == k);
                }
            }
        }
    }
}

/// The jobs with no job left before them, in key order.
fn get_ready_jobs(vertices: &OrdMap<(String, String), u32>) -> (r: Vec<(String, String)>)
    requires
        vertices.wf(),
    ensures
        key_views(r@) == ready_jobs(vertices.as_map(), vertices.key_seq()),
{
    let mut r: Vec<(String, String)> = Vec::new();
    let n = vertices.len();
    let mut i: usize = 0;
    while i < n
        invariant
            n == vertices.spec_len(),
            vertices.wf(),
            i <= n,
            key_views(r@) == ready_jobs(vertices.as_map(), vertices.key_seq().take(i as int)),
        decreases n - i,
    {
        proof {
            vertices.lemma_entry(i as int);
            assert(vertices.key_seq().take(i + 1).drop_last() =~= vertices.key_seq().take(i as int));
            assert(vertices.key_seq().take(i + 1).last() == vertices.key_seq()[i as int]);
        }
        if *vertices.value_at(i) == 0 {
            let k = vertices.key_at(i).clone_key();
            let ghost before = r@;
            r.push(k);
            proof {
                assert(key_views(r@) =~= key_views(before).push(k@));
            }
        }
        i = i + 1;
    }
    proof {
        assert(vertices.key_seq().take(n as int) =~= vertices.key_seq());
    }
    r
}

/// The edges into `v` from jobs that have not run, while job `p` runs: its
/// edges from position `j` on still count.
pub open spec fn pending_during(
    status: Map<JobKey, u32>,
    edges: Map<JobKey, Seq<JobKey>>,
    p: JobKey,
    j: int,
    v: JobKey,
) -> Set<(JobKey, int)> {
    Set::new(
        |s: (JobKey, int)|
            edges.contains_key(s.0) && 0 <= s.1 < edges[s.0].len() && edges[s.0][s.1] == v && ((
            s.0 != p && job_pending(status, s.0)) || (s.0 == p && s.1 >= j)),
    )
}

/// Runs the jobs of the graph batch by batch, handing out their tasks.
pub struct JobScheduler {
    job_graph: JobGraph,
    context_graph: BuiltContextGraphs,
}

impl JobScheduler {
    pub closed spec fn jobs(&self) -> JobGraph {
        self.job_graph
    }

    pub closed spec fn context(&self) -> BuiltContextGraphs {
        self.context_graph
    }

    pub open spec fn wf(&self) -> bool {
        &&& self.jobs().wf()
        &&& self.context().wf()
        &&& schedule_invariant(self.jobs().model())
        &&& keys_name_vertices(
            self.jobs().model().0,
            walk_of(self.context()),
            dep_keys(self.context()),
        )
    }

    pub fn new(job_graph: JobGraph, context_graph: BuiltContextGraphs) -> (s: JobScheduler)
        requires
            job_graph.wf(),
            context_graph.wf(),
            schedule_invariant(job_graph.model()),
            keys_name_vertices(
                job_graph.model().0,
                walk_of(context_graph),
                dep_keys(context_graph),
            ),
        ensures
            s.wf(),
            s.jobs() == job_graph,
            s.context() == context_graph,
    {
        JobScheduler { job_graph, context_graph }
    }

    /// Runs job `p`, which is ready.
    fn run_one(&mut self, p: &(String, String))
        requires
            old(self).wf(),
            old(self).jobs().model().0.contains_key(p@),
            old(self).jobs().model().0[p@] == 0,
        ensures
            final(self).wf(),
            final(self).context() == old(self).context(),
            final(self).jobs().model().1 == old(self).jobs().model().1,
            final(self).jobs().vertices.key_seq() == old(self).jobs().vertices.key_seq(),
            final(self).jobs().model().0 == run_job(
                old(self).jobs().model().0,
                old(self).jobs().model().1,
                p@,
            ),
            final(self).jobs().model().0[p@] == u32::MAX,
            forall|v: JobKey|
                old(self).jobs().model().0.contains_key(v) && v != p@ && #[trigger] old(
                    self,
                ).jobs().model().0[v] == 0 ==> final(self).jobs().model().0[v] == 0,
            forall|v: JobKey|
                old(self).jobs().model().0.contains_key(v) && #[trigger] old(
                    self,
                ).jobs().model().0[v] == u32::MAX ==> final(self).jobs().model().0[v] == u32::MAX,
    {
        let ghost job0 = self.job_graph.model();
        let ghost c0 = job0.0;
        let ghost edges = job0.1;
        let ghost pv = p@;
        let ghost keys0 = self.job_graph.vertices.key_seq();
        proof {
            lemma_pending_finite(job0, pv);
        }
        self.job_graph.vertices.insert(p.clone_key(), u32::MAX);
        let ghost c1 = self.job_graph.vertices.as_map();
        let ghost es = edges_from(edges, pv);
        proof {
            assert forall|v: JobKey| #[trigger] pending_during(c1, edges, pv, 0, v)
                == pending_slots(job0, v) by {
                assert(pending_during(c1, edges, pv, 0, v) =~= pending_slots(job0, v));
            }
            assert(pending_slots(job0, pv).len() == 0);
        }
        let ghost mut j_done: int = 0;
        match self.job_graph.adj_list.get(p) {
            Some(targets) => {
                let n = targets.len();
                let mut j: usize = 0;
                proof {
                    assert(key_views(targets@) == es);
                }
                while j < n
                    invariant
                        n == targets@.len(),
                        key_views(targets@) == es,
                        es == edges_from(edges, pv),
                        edges.contains_key(pv),
                        j <= n,
                        self.job_graph.wf(),
                        self.job_graph.model().1 == edges,
                        self.job_graph.vertices.key_seq() == keys0,
                        self.job_graph.model().0 == job_done_all(c1, es.take(j as int)),
                        self.context_graph == old(self).context_graph,
                        c1 == c0.insert(pv, u32::MAX),
                        job0.0 == c0,
                        job0.1 == edges,
                        pv == p@,
                        schedule_invariant(job0),
                        forall|v: JobKey| #[trigger] slots_into(edges, v).finite(),
                        self.job_graph.model().0.dom() == c1.dom(),
                        forall|v: JobKey| #[trigger]
                            c1.contains_key(v) ==> (self.job_graph.model().0[v] == u32::MAX
                                <==> c1[v] == u32::MAX),
                        forall|v: JobKey| #[trigger]
                            self.job_graph.model().0.contains_key(v) ==> if self.job_graph.model().0[v]
                                == u32::MAX {
                                pending_during(c1, edges, pv, j as int, v).len() == 0
                            } else {
                                self.job_graph.model().0[v] == pending_during(
                                    c1,
                                    edges,
                                    pv,
                                    j as int,
                                    v,
                                ).len()
                            },
                        forall|v: JobKey|
                            c0.contains_key(v) && v != pv && #[trigger] c0[v] == 0
                                ==> self.job_graph.model().0[v] == 0,
                    decreases n - j,
                {
                    let t = &targets[j];
                    let ghost tv = t@;
                    let ghost cj = self.job_graph.model().0;
                    let ghost pd = pending_during(c1, edges, pv, j as int, tv);
                    proof {
                        assert(tv == es[j as int]);
                        assert(edges[pv][j as int] == tv);
                        assert(c0.contains_key(tv));
                        assert(pd.contains((pv, j as int)));
                        assert(pd.subset_of(slots_into(edges, tv)));
                        vstd::set_lib::lemma_set_subset_finite(slots_into(edges, tv), pd);
                        assert(pd.len() >= 1);
                        assert(cj.contains_key(tv));
                        assert(cj[tv] != u32::MAX);
                        assert(cj[tv] >= 1);
                    }
                    let count: u32 = *self.job_graph.vertices.get(t).unwrap();
                    self.job_graph.vertices.insert(t.clone_key(), count - 1);
                    proof {
                        let cn = self.job_graph.model().0;
                        assert(es.take(j + 1).drop_last() =~= es.take(j as int));
                        assert(es.take(j + 1).last() == tv);
                        assert(cn == job_done(cj, tv));
                        assert(pending_during(c1, edges, pv, j + 1, tv) =~= pd.remove((pv, j as int)));
                        assert(pd.remove((pv, j as int)).len() == pd.len() - 1);
                        assert forall|v: JobKey| v != tv implies #[trigger] pending_during(c1, edges, pv, j + 1, v)
                            == pending_during(c1, edges, pv, j as int, v) by {
                            assert(pending_during(c1, edges, pv, j + 1, v) =~= pending_during(c1, edges, pv, j as int, v));
                        }
                        assert forall|v: JobKey| #[trigger] cn.contains_key(v) implies if cn[v] == u32::MAX {
                            pending_during(c1, edges, pv, j + 1, v).len() == 0
                        } else {
                            cn[v] == pending_during(c1, edges, pv, j + 1, v).len()
                        } by {
                            if v != tv {
                                assert(cn[v] == cj[v]);
                            }
                        }
                        assert forall|v: JobKey| #[trigger]
                            c1.contains_key(v) implies (cn[v] == u32::MAX <==> c1[v] == u32::MAX) by {
                            if v == tv {
                                assert(cj[tv] != u32::MAX);
                            }
                        }
                        assert forall|v: JobKey|
                            c0.contains_key(v) && v != pv && #[trigger] c0[v] == 0 implies cn[v] == 0 by {
                            if v == tv {
                                assert(cj[v] == 0);
                            }
                        }
                        assert(cn.dom() =~= c1.dom());
                    }
                    j = j + 1;
                }
                proof {
                    assert(es.take(n as int) =~= es);
                    j_done = n as int;
                }
            },
            None => {
                proof {
                    assert(es =~= Seq::<JobKey>::empty());
                    assert(es.take(0) =~= es);
                }
            },
        }
        proof {
            let cf = self.job_graph.model().0;
            let jf = self.job_graph.model();
            assert(jf.1 == edges);
            assert(c1.contains_key(pv));
            assert forall|v: JobKey| #[trigger] pending_slots(jf, v) == pending_during(c1, edges, pv, j_done, v) by {
                assert forall|k: JobKey| #[trigger] job_pending(cf, k) == job_pending(c1, k) by {}
                assert(pending_slots(jf, v) =~= pending_during(c1, edges, pv, j_done, v));
            }
            assert(schedule_invariant(jf));
            assert forall|v: JobKey| #[trigger] cf.contains_key(v) implies dep_keys(self.context_graph).contains(v.0)
                && walk_of(self.context_graph).1.contains(v.1) by {
                assert(c0.contains_key(v));
            }
        }
    }
}

impl JobScheduler {
    /// The jobs that the next batch runs.
    pub open spec fn next_jobs(&self) -> Seq<JobKey> {
        ready_jobs(self.jobs().model().0, self.jobs().vertices.key_seq())
    }

    /// The jobs that the next batch runs, as (package, command), in key order.
    pub fn next_job_keys(&self) -> (r: Vec<(String, String)>)
        requires
            self.wf(),
        ensures
            key_views(r@) == self.next_jobs(),
            forall|k: JobKey|
                #[trigger] key_views(r@).contains(k) <==> (self.jobs().model().0.contains_key(k)
                    && self.jobs().model().0[k] == 0),
    {
        let r = get_ready_jobs(&self.job_graph.vertices);
        proof {
            lemma_ready_jobs_exact(self.job_graph.model().0, self.job_graph.vertices.key_seq());
            self.job_graph.vertices.lemma_dom();
            assert forall|k: JobKey| #[trigger] key_views(r@).contains(k) <==> (self.jobs().model().0.contains_key(k)
                && self.jobs().model().0[k] == 0) by {
                if self.jobs().model().0.contains_key(k) {
                    assert(self.job_graph.vertices.key_seq().to_set().contains(k));
                }
            }
        }
        r
    }

    /// Runs the jobs that have no job left before them, in key order: each is
    /// marked as run and one job before each job after it has run. Returns their
    /// tasks, or `None` where no job is ready.
    pub fn next_batch(&mut self) -> (r: Option<Vec<ConcurrentTask>>)
        requires
            old(self).wf(),
        ensures
            final(self).wf(),
            final(self).context() == old(self).context(),
            final(self).jobs().model().1 == old(self).jobs().model().1,
            final(self).jobs().vertices.key_seq() == old(self).jobs().vertices.key_seq(),
            final(self).jobs().model().0 == run_batch(
                old(self).jobs().model().0,
                old(self).jobs().model().1,
                old(self).next_jobs(),
            ),
            (old(self).next_jobs().len() == 0) == (r is None),
            r matches Some(tasks) ==> {
                &&& tasks@.len() == old(self).next_jobs().len()
                &&& forall|i: int|
                    0 <= i < tasks@.len() ==> #[trigger] tasks@[i] == task_of(
                        old(self).context(),
                        old(self).next_jobs()[i],
                    )
            },
            forall|i: int, k: JobKey, e: int|
                0 <= i < old(self).next_jobs().len() && old(self).jobs().model().1.contains_key(k)
                    && 0 <= e < old(self).jobs().model().1[k].len()
                    && #[trigger] old(self).jobs().model().1[k][e] == #[trigger] old(
                    self,
                ).next_jobs()[i] ==> old(self).jobs().model().0[k] == u32::MAX,
            forall|i: int|
                0 <= i < old(self).next_jobs().len() ==> final(self).jobs().model().0[#[trigger] old(
                    self,
                ).next_jobs()[i]] == u32::MAX,
            forall|v: JobKey|
                old(self).jobs().model().0.contains_key(v) && #[trigger] old(
                    self,
                ).jobs().model().0[v] == u32::MAX ==> final(self).jobs().model().0[v] == u32::MAX,
            pending_jobs(final(self).jobs().model().0).finite(),
            r is Some ==> pending_jobs(final(self).jobs().model().0).len() < pending_jobs(
                old(self).jobs().model().0,
            ).len(),
            r is None <==> forall|k: JobKey|
                #[trigger] old(self).jobs().model().0.contains_key(k) ==> old(self).jobs().model().0[k]
                    != 0,
            r matches Some(tasks) ==> forall|k: JobKey|
                #[trigger] old(self).jobs().model().0.contains_key(k) && old(self).jobs().model().0[k]
                    == 0 ==> tasks@.contains(task_of(old(self).context(), k))
                    && final(self).jobs().model().0[k] == u32::MAX,
            r matches Some(tasks) ==> forall|i: int|
                0 <= i < tasks@.len() ==> ready_task(
                    old(self).jobs().model().0,
                    old(self).context(),
                    #[trigger] tasks@[i],
                ),
    {
        let ghost job0 = self.job_graph.model();
        let ghost c0 = job0.0;
        let ghost edges = job0.1;
        let ghost keys0 = self.job_graph.vertices.key_seq();
        let ghost batch = ready_jobs(c0, keys0);
        let ghost ctx = self.context_graph;
        let ready = get_ready_jobs(&self.job_graph.vertices);
        proof {
            lemma_ready_jobs(c0, keys0);
            crate::job::lemma_sorted_no_duplicates::<(String, String)>(keys0);
            self.job_graph.vertices.lemma_dom();
            ctx.command_graph.vertices.lemma_dom();
            ctx.dependency_graph.vertices.lemma_dom();
            assert forall|i: int, k: JobKey, e: int|
                0 <= i < batch.len() && edges.contains_key(k) && 0 <= e < edges[k].len()
                    && #[trigger] edges[k][e] == #[trigger] batch[i] implies c0[k] == u32::MAX by {
                lemma_ready_job_predecessors_ran(job0, batch[i]);
            }
        }
        proof {
            lemma_ready_jobs_exact(c0, keys0);
        }
        if ready.len() == 0 {
            proof {
                assert(c0.dom().finite());
                vstd::set_lib::lemma_set_subset_finite(c0.dom(), pending_jobs(c0));
                assert forall|k: JobKey| #[trigger] c0.contains_key(k) implies c0[k] != 0 by {
                    assert(keys0.to_set().contains(k));
                    if c0[k] == 0 {
                        assert(batch.contains(k));
                    }
                }
            }
            return None;
        }
        let mut tasks: Vec<ConcurrentTask> = Vec::new();
        let n = ready.len();
        let mut i: usize = 0;
        proof {
            assert(batch.take(0) =~= Seq::<JobKey>::empty());
        }
        while i < n
            invariant
                n == ready@.len(),
                key_views(ready@) == batch,
                batch == ready_jobs(c0, keys0),
                batch.no_duplicates(),
                forall|j: int| 0 <= j < batch.len() ==> keys0.contains(#[trigger] batch[j]),
                keys0.to_set() == c0.dom(),
                i <= n,
                self.wf(),
                self.context_graph == ctx,
                self.job_graph.model().1 == edges,
                self.job_graph.vertices.key_seq() == keys0,
                self.job_graph.model().0 == run_batch(c0, edges, batch.take(i as int)),
                forall|j: int|
                    i <= j < n ==> self.job_graph.model().0.contains_key(#[trigger] batch[j])
                        && self.job_graph.model().0[batch[j]] == 0,
                forall|j: int|
                    0 <= j < i ==> self.job_graph.model().0[#[trigger] batch[j]] == u32::MAX,
                forall|v: JobKey|
                    c0.contains_key(v) && #[trigger] c0[v] == u32::MAX
                        ==> self.job_graph.model().0[v] == u32::MAX,
                self.job_graph.model().0.dom() == c0.dom(),
                tasks@.len() == i,
                forall|j: int| 0 <= j < i ==> #[trigger] tasks@[j] == task_of(ctx, batch[j]),
                ctx.command_graph.vertices.as_map().dom() == ctx.command_graph.vertices.key_seq().to_set(),
                ctx.dependency_graph.vertices.as_map().dom() == ctx.dependency_graph.vertices.key_seq().to_set(),
            decreases n - i,
        {
            let job = &ready[i];
            let ghost jv = job@;
            let ghost before = self.job_graph.model().0;
            proof {
                assert(jv == batch[i as int]);
                assert(keys_name_vertices(before, walk_of(ctx), dep_keys(ctx)));
                assert(before.contains_key(jv));
                assert(dep_keys(ctx).contains(jv.0));
                assert(walk_of(ctx).1.contains(jv.1));
            }
            self.run_one(job);
            let task = create_task(&self.context_graph, &job.0, &job.1);
            tasks.push(task);
            proof {
                let after = self.job_graph.model().0;
                assert(batch.take(i + 1).drop_last() =~= batch.take(i as int));
                assert(batch.take(i + 1).last() == jv);
                assert forall|j: int| i + 1 <= j < n implies after.contains_key(#[trigger] batch[j])
                    && after[batch[j]] == 0 by {
                    assert(batch[j] != batch[i as int]);
                }
                assert forall|j: int| 0 <= j < i + 1 implies after[#[trigger] batch[j]] == u32::MAX by {
                    if j < i {
                        assert(before[batch[j]] == u32::MAX);
                    }
                }
                assert(after.dom() =~= c0.dom());
            }
            i = i + 1;
        }
        proof {
            assert(batch.take(n as int) =~= batch);
            let c1 = self.job_graph.model().0;
            let p0 = pending_jobs(c0);
            let p1 = pending_jobs(c1);
            let first = batch[0];
            assert(c0.dom().finite());
            assert(p0 =~= c0.dom().filter(|k: JobKey| c0[k] != u32::MAX));
            vstd::set_lib::lemma_set_subset_finite(c0.dom(), p0);
            assert(c0[first] == 0);
            assert(p0.contains(first));
            assert(p1.subset_of(p0.remove(first))) by {
                assert forall|k: JobKey| p1.contains(k) implies p0.remove(first).contains(k) by {
                    assert(c1.contains_key(k));
                    if c0[k] == u32::MAX {
                        assert(c1[k] == u32::MAX);
                    }
                    assert(c1[first] == u32::MAX);
                }
            }
            vstd::set_lib::lemma_len_subset(p1, p0.remove(first));
            assert(batch.len() > 0);
            assert(c0.contains_key(batch[0]) && c0[batch[0]] == 0);
            assert forall|k: JobKey| #[trigger] c0.contains_key(k) && c0[k] == 0 implies tasks@.contains(
                task_of(ctx, k),
            ) && c1[k] == u32::MAX by {
                assert(keys0.to_set().contains(k));
                assert(batch.contains(k));
                let i = choose|i: int| 0 <= i < batch.len() && batch[i] == k;
                assert(tasks@[i] == task_of(ctx, batch[i]));
            }
            assert forall|i: int| 0 <= i < tasks@.len() implies ready_task(c0, ctx, #[trigger] tasks@[i]) by {
                assert(tasks@[i] == task_of(ctx, batch[i]));
                assert(c0.contains_key(batch[i]) && c0[batch[i]] == 0);
            }
        }
        Some(tasks)
    }
}

/// Builds the job graph of a context and readies it to run, where the numbers
/// of commands and packages add up to less than `u32::MAX`; `None` otherwise.
pub fn plan_jobs(context_graph: BuiltContextGraphs) -> (r: Option<JobScheduler>)
    requires
        context_graph.wf(),
    ensures
        r is Some == (cmd_keys(context_graph).len() + dep_keys(context_graph).len() < u32::MAX),
        r matches Some(s) ==> {
            &&& s.wf()
            &&& indegree_law(s.jobs().model())
            &&& edges_of_walk(s.jobs().model(), walk_of(context_graph))
            &&& same_walk(s.context(), context_graph)
            &&& (s.jobs().model(), s.context().dependency_graph.vertices.as_map()) == build_from(
                (Map::<JobKey, u32>::empty(), Map::<JobKey, Seq<JobKey>>::empty()),
                context_graph.dependency_graph.vertices.as_map(),
                walk_of(context_graph),
                dep_keys(context_graph),
            )
        },
{
    let n_cmds = context_graph.command_graph.vertices.len();
    let n_deps = context_graph.dependency_graph.vertices.len();
    if n_cmds >= 0xffff_ffff || n_deps >= 0xffff_ffff {
        return None;
    }
    let total: u64 = n_cmds as u64 + n_deps as u64;
    if total >= 0xffff_ffff {
        return None;
    }
    let ghost ctx0 = context_graph;
    let mut builder = JobGraphBuilder::new(context_graph);
    proof {
        builder.lemma_fresh_room();
        crate::job::lemma_law_empty();
    }
    let g = builder.build();
    let ctx = builder.into_context();
    proof {
        let m = g.model();
        let nc = cmd_keys(ctx0).len() as int;
        let nd = dep_keys(ctx0).len() as int;
        assert forall|v: JobKey| #[trigger] m.0.contains_key(v) implies m.0[v] < u32::MAX by {
            assert(count_of(m.0, v) + crate::job::unvisited_dependencies(
                ctx.dependency_graph.vertices.as_map(),
                dep_keys(ctx),
            ) + (if crate::job::dep_unvisited(ctx.dependency_graph.vertices.as_map(), v.0) {
                nc
            } else {
                0
            }) <= nc + nd);
        }
        lemma_schedule_from_indegree(m);
        crate::job::lemma_build_from_edges(
            (Map::<JobKey, u32>::empty(), Map::<JobKey, Seq<JobKey>>::empty()),
            ctx0.dependency_graph.vertices.as_map(),
            walk_of(ctx0),
            dep_keys(ctx0),
        );
        assert(walk_of(ctx) == walk_of(ctx0));
    }
    Some(JobScheduler::new(g, ctx))
}

/// Whether `path` matches the glob pattern `glob`, as `glob_match::glob_match`
/// answers.
pub uninterp spec fn glob_matches(glob: Seq<char>, path: Seq<char>) -> bool;

/// `glob_match::glob_match`. The contract names the answer; it does not state
/// the syntax of the patterns.
#[verifier::external_body]
fn glob_match_str(glob: &str, path: &str) -> (r: bool)
    ensures
        r == glob_matches(glob@, path@),
{
    glob_match::glob_match(glob, path)
}

/// Some pattern of the scope matches `name`.
pub open spec fn in_scope(scope: Seq<Seq<char>>, name: Seq<char>) -> bool {
    exists|i: int| 0 <= i < scope.len() && glob_matches(#[trigger] scope[i], name)
}

/// The names that some pattern of the scope matches, in order.
pub open spec fn scoped(names: Seq<Seq<char>>, scope: Seq<Seq<char>>) -> Seq<Seq<char>>
    decreases names.len(),
{
    if names.len() == 0 {
        Seq::empty()
    } else {
        let rest = scoped(names.drop_last(), scope);
        if in_scope(scope, names.last()) {
            rest.push(names.last())
        } else {
            rest
        }
    }
}

/// Whether some pattern of the scope matches `name`.
pub fn matches_scope(scope: &Vec<String>, name: &String) -> (b: bool)
    ensures
        b == in_scope(crate::graph::names_view(*scope), name@),
{
    let ghost globs = crate::graph::names_view(*scope);
    let m = scope.len();
    let mut j: usize = 0;
    let mut hit = false;
    while j < m
        invariant
            m == globs.len(),
            globs == crate::graph::names_view(*scope),
            j <= m,
            hit == exists|g: int| 0 <= g < j && glob_matches(#[trigger] globs[g], name@),
        decreases m - j,
    {
        if glob_match_str(scope[j].as_str(), name.as_str()) {
            hit = true;
        }
        proof {
            assert(globs[j as int] == scope@[j as int]@);
        }
        j = j + 1;
    }
    hit
}

/// The packages, in name order, whose name some pattern of the scope matches.
pub fn scoped_dependencies(context_graph: &BuiltContextGraphs, scope: &Vec<String>) -> (r: Vec<
    String,
>)
    requires
        context_graph.wf(),
    ensures
        crate::graph::names_view(r) == scoped(dep_keys(*context_graph), crate::graph::names_view(*scope)),
{
    let ghost globs = crate::graph::names_view(*scope);
    let ghost keys = dep_keys(*context_graph);
    let deps = &context_graph.dependency_graph.vertices;
    let mut r: Vec<String> = Vec::new();
    let n = deps.len();
    let mut i: usize = 0;
    while i < n
        invariant
            n == keys.len(),
            keys == deps.key_seq(),
            globs == crate::graph::names_view(*scope),
            i <= n,
            crate::graph::names_view(r) == scoped(keys.take(i as int), globs),
        decreases n - i,
    {
        let dep = deps.key_at(i);
        let hit = matches_scope(scope, dep);
        proof {
            assert(keys.take(i + 1).drop_last() =~= keys.take(i as int));
            assert(keys.take(i + 1).last() == dep@);
        }
        if hit {
            let ghost before = r@;
            r.push(dep.clone());
            proof {
                assert(key_views(r@) =~= key_views(before).push(dep@));
            }
        }
        i = i + 1;
    }
    proof {
        assert(keys.take(n as int) =~= keys);
    }
    r
}

/// For each package of `deps`, the number of commands to run in it.
pub fn dependency_command_counts(deps: &Vec<String>, commands: &Vec<String>) -> (r: OrdMap<
    String,
    u32,
>)
    requires
        commands.len() <= u32::MAX,
    ensures
        r.wf(),
        r.as_map() == Map::new(
            |d: Seq<char>| crate::graph::names_view(*deps).contains(d),
            |d: Seq<char>| commands.len() as u32,
        ),
{
    let count = commands.len() as u32;
    let mut r: OrdMap<String, u32> = OrdMap::new();
    let n = deps.len();
    let mut i: usize = 0;
    while i < n
        invariant
            n == deps@.len(),
            count == commands.len() as u32,
            i <= n,
            r.wf(),
            r.as_map() == Map::new(
                |d: Seq<char>| crate::graph::names_view(*deps).take(i as int).contains(d),
                |d: Seq<char>| count,
            ),
        decreases n - i,
    {
        r.insert(deps[i].clone(), count);
        proof {
            let vs = crate::graph::names_view(*deps);
            assert(vs.take(i + 1) =~= vs.take(i as int).push(vs[i as int]));
            assert(r.as_map() =~= Map::new(
                |d: Seq<char>| vs.take(i + 1).contains(d),
                |d: Seq<char>| count,
            )) by {
                assert forall|d: Seq<char>| #[trigger] vs.take(i + 1).contains(d) == (vs.take(
                    i as int,
                ).contains(d) || d == vs[i as int]) by {
                    if vs.take(i + 1).contains(d) {
                        let k = choose|k: int| 0 <= k < i + 1 && #[trigger] vs.take(i + 1)[k] == d;
                        if k < i {
                            assert(vs.take(i as int)[k] == d);
                        }
                    }
                    if vs.take(i as int).contains(d) {
                        let k = choose|k: int| 0 <= k < i && #[trigger] vs.take(i as int)[k] == d;
                        assert(vs.take(i + 1)[k] == d);
                    }
                    if d == vs[i as int] {
                        assert(vs.take(i + 1)[i as int] == d);
                    }
                }
            }
        }
        i = i + 1;
    }
    proof {
        assert(crate::graph::names_view(*deps).take(n as int) =~= crate::graph::names_view(*deps));
        assert(r.as_map() =~= Map::new(
            |d: Seq<char>| crate::graph::names_view(*deps).contains(d),
            |d: Seq<char>| commands.len() as u32,
        ));
    }
    r
}

/// A job that counts 0 and is among the keys makes the ready jobs non-empty.
proof fn lemma_ready_jobs_nonempty(counts: Map<JobKey, u32>, keys: Seq<JobKey>, u: JobKey)
    requires
        keys.contains(u),
        counts.contains_key(u),
        counts[u] == 0,
    ensures
        ready_jobs(counts, keys).len() > 0,
    decreases keys.len(),
{
    if keys.last() != u {
        let prev = keys.drop_last();
        let j = choose|j: int| 0 <= j < keys.len() && keys[j] == u;
        assert(prev[j] == u);
        lemma_ready_jobs_nonempty(counts, prev, u);
    }
}

/// Walking back along the edges from jobs that have not run, from a job that
/// has not run, reaches a job with no job left before it, where the rank of
/// a job rises along every edge.
proof fn lemma_pending_reaches_ready(job: JobModel, rank: spec_fn(JobKey) -> nat, v: JobKey) -> (u: JobKey)
    requires
        schedule_invariant(job),
        job_pending(job.0, v),
        forall|k: JobKey, t: JobKey|
            job.1.contains_key(k) && #[trigger] job.1[k].contains(t) ==> rank(k) < rank(t),
    ensures
        job.0.contains_key(u),
        job.0[u] == 0,
    decreases rank(v),
{
    if job.0[v] == 0 {
        v
    } else {
        lemma_pending_finite(job, v);
        let slots = pending_slots(job, v);
        assert(slots.len() > 0);
        if !slots.contains(slots.choose()) {
            assert(slots =~= Set::<(JobKey, int)>::empty());
        }
        let sl = slots.choose();
        let k = sl.0;
        assert(job.1[k][sl.1] == v);
        assert(job.1[k].contains(v));
        assert(rank(k) < rank(v));
        lemma_pending_reaches_ready(job, rank, k)
    }
}

impl JobScheduler {
    /// Where the rank of a job rises along every edge (the job graph has no
    /// cycle), a batch is ready while some job has not run: when no job is
    /// ready, every job has run. With `next_batch`, which runs each job at most
    /// once and runs at least one job while it returns a batch, every job runs
    /// exactly once.
    pub proof fn lemma_all_run_when_none_ready(&self, rank: spec_fn(JobKey) -> nat)
        requires
            self.wf(),
            forall|k: JobKey, t: JobKey|
                self.jobs().model().1.contains_key(k) && #[trigger] self.jobs().model().1[k].contains(t)
                    ==> rank(k) < rank(t),
        ensures
            self.next_jobs().len() == 0 ==> pending_jobs(self.jobs().model().0) == Set::<JobKey>::empty(),
    {
        let job = self.jobs().model();
        if self.next_jobs().len() == 0 {
            assert forall|v: JobKey| !pending_jobs(job.0).contains(v) by {
                if pending_jobs(job.0).contains(v) {
                    let u = lemma_pending_reaches_ready(job, rank, v);
                    self.jobs().vertices.lemma_dom();
                    assert(self.jobs().vertices.key_seq().to_set().contains(u));
                    lemma_ready_jobs_nonempty(job.0, self.jobs().vertices.key_seq(), u);
                }
            }
            assert(pending_jobs(job.0) =~= Set::<JobKey>::empty());
        }
    }

    /// For the job graph of a context whose command graph and package graph have
    /// no cycle (rankings that rise along their requirements), every job has run
    /// once no job is ready.
    pub proof fn lemma_context_jobs_all_run(
        &self,
        ctx: BuiltContextGraphs,
        rank_cmd: spec_fn(Seq<char>) -> nat,
        rank_dep: spec_fn(Seq<char>) -> nat,
        n: nat,
    )
        requires
            self.wf(),
            edges_of_walk(self.jobs().model(), walk_of(ctx)),
            crate::job::rises_along(walk_of(ctx).2, rank_cmd),
            crate::job::rises_along(walk_of(ctx).3, rank_dep),
            forall|c: Seq<char>| #[trigger] rank_cmd(c) < n,
        ensures
            self.next_jobs().len() == 0 ==> pending_jobs(self.jobs().model().0) == Set::<JobKey>::empty(),
    {
        crate::job::lemma_job_rank_rises(self.jobs().model(), walk_of(ctx), rank_cmd, rank_dep, n);
        let rank = |k: JobKey| crate::job::job_rank(rank_dep, rank_cmd, n, k);
        assert forall|k: JobKey, t: JobKey|
            self.jobs().model().1.contains_key(k) && #[trigger] self.jobs().model().1[k].contains(t)
                implies rank(k) < rank(t) by {}
        self.lemma_all_run_when_none_ready(rank);
    }
}

/// The jobs whose package some pattern of the scope matches, in order.
pub open spec fn jobs_in_scope(jobs: Seq<JobKey>, scope: Seq<Seq<char>>) -> Seq<JobKey>
    decreases jobs.len(),
{
    if jobs.len() == 0 {
        Seq::empty()
    } else {
        let rest = jobs_in_scope(jobs.drop_last(), scope);
        if in_scope(scope, jobs.last().0) {
            rest.push(jobs.last())
        } else {
            rest
        }
    }
}

/// The tasks of the jobs, in order.
pub open spec fn tasks_of(ctx: BuiltContextGraphs, jobs: Seq<JobKey>) -> Seq<ConcurrentTask> {
    jobs.map_values(|j: JobKey| task_of(ctx, j))
}

impl JobScheduler {
    /// Runs the next batch as `next_batch` does, and hands out the tasks of the
    /// batch's jobs whose package some pattern of the scope matches, in key
    /// order. The jobs of the other packages count as run, with no task.
    /// Returns `None` where no job is ready.
    pub fn next_batch_in_scope(&mut self, scope: &Vec<String>) -> (r: Option<Vec<ConcurrentTask>>)
        requires
            old(self).wf(),
        ensures
            final(self).wf(),
            final(self).context() == old(self).context(),
            final(self).jobs().model().1 == old(self).jobs().model().1,
            final(self).jobs().vertices.key_seq() == old(self).jobs().vertices.key_seq(),
            final(self).jobs().model().0 == run_batch(
                old(self).jobs().model().0,
                old(self).jobs().model().1,
                old(self).next_jobs(),
            ),
            (old(self).next_jobs().len() == 0) == (r is None),
            r matches Some(tasks) ==> tasks@ == tasks_of(
                old(self).context(),
                jobs_in_scope(old(self).next_jobs(), crate::graph::names_view(*scope)),
            ),
            r matches Some(tasks) ==> forall|i: int|
                0 <= i < tasks@.len() ==> in_scope(
                    crate::graph::names_view(*scope),
                    #[trigger] tasks@[i].process_id@,
                ),
            r matches Some(tasks) ==> forall|k: JobKey|
                #[trigger] old(self).jobs().model().0.contains_key(k) && old(self).jobs().model().0[k]
                    == 0 && in_scope(crate::graph::names_view(*scope), k.0) ==> tasks@.contains(
                    task_of(old(self).context(), k),
                ),
            r matches Some(tasks) ==> forall|i: int|
                0 <= i < tasks@.len() ==> ready_task_in_scope(
                    old(self).jobs().model().0,
                    old(self).context(),
                    crate::graph::names_view(*scope),
                    #[trigger] tasks@[i],
                ),
            r matches Some(tasks) ==> tasks@.len() == old(self).jobs().model().0.dom().filter(
                |k: JobKey|
                    old(self).jobs().model().0[k] == 0 && in_scope(crate::graph::names_view(*scope), k.0),
            ).len(),
            pending_jobs(final(self).jobs().model().0).finite(),
            r is Some ==> pending_jobs(final(self).jobs().model().0).len() < pending_jobs(
                old(self).jobs().model().0,
            ).len(),
    {
        let ghost s0 = *self;
        let ghost ctx = self.context_graph;
        let ghost jobs = self.next_jobs();
        let ghost c0 = self.job_graph.model().0;
        let ghost keys0 = self.job_graph.vertices.key_seq();
        let ghost globs = crate::graph::names_view(*scope);
        proof {
            lemma_ready_jobs(c0, keys0);
            self.job_graph.vertices.lemma_dom();
            ctx.dependency_graph.vertices.lemma_dom();
            assert forall|i: int| 0 <= i < jobs.len() implies #[trigger] task_of(ctx, jobs[i]).process_id@
                == jobs[i].0 by {
                assert(keys0.contains(jobs[i]));
                assert(keys0.to_set().contains(jobs[i]));
                assert(c0.contains_key(jobs[i]));
                assert(dep_keys(ctx).contains(jobs[i].0));
                assert(dep_keys(ctx).to_set().contains(jobs[i].0));
                assert(dep_vertices(ctx).contains_key(jobs[i].0));
            }
        }
        let all = self.next_batch();
        match all {
            None => None,
            Some(tasks) => {
                let mut out: Vec<ConcurrentTask> = Vec::new();
                let n = tasks.len();
                let mut i: usize = 0;
                proof {
                    assert(jobs.take(0) =~= Seq::<JobKey>::empty());
                    assert(tasks_of(ctx, Seq::<JobKey>::empty()) =~= Seq::<ConcurrentTask>::empty());
                }
                while i < n
                    invariant
                        n == tasks@.len(),
                        n == jobs.len(),
                        globs == crate::graph::names_view(*scope),
                        forall|k: int| 0 <= k < n ==> #[trigger] tasks@[k] == task_of(ctx, jobs[k]),
                        forall|k: int| 0 <= k < n ==> #[trigger] task_of(ctx, jobs[k]).process_id@ == jobs[k].0,
                        i <= n,
                        out@ == tasks_of(ctx, jobs_in_scope(jobs.take(i as int), globs)),
                    decreases n - i,
                {
                    let t = &tasks[i];
                    let keep = matches_scope(scope, &t.process_id);
                    proof {
                        assert(jobs.take(i + 1).drop_last() =~= jobs.take(i as int));
                        assert(jobs.take(i + 1).last() == jobs[i as int]);
                        assert(tasks@[i as int] == task_of(ctx, jobs[i as int]));
                    }
                    if keep {
                        let ghost before = out@;
                        out.push(copy_task(t));
                        proof {
                            let f = jobs_in_scope(jobs.take(i as int), globs);
                            assert(out@ =~= tasks_of(ctx, f.push(jobs[i as int])));
                        }
                    }
                    i = i + 1;
                }
                proof {
                    assert(jobs.take(n as int) =~= jobs);
                    lemma_ready_jobs_exact(c0, keys0);
                    crate::job::lemma_sorted_no_duplicates::<(String, String)>(keys0);
                    lemma_jobs_in_scope_exact(jobs, globs);
                    let f = jobs_in_scope(jobs, globs);
                    let want = c0.dom().filter(|k: JobKey| c0[k] == 0 && in_scope(globs, k.0));
                    assert forall|k: JobKey| #[trigger] c0.contains_key(k) && c0[k] == 0 && in_scope(globs, k.0)
                        implies out@.contains(task_of(ctx, k)) by {
                        assert(keys0.to_set().contains(k));
                        assert(jobs.contains(k));
                        assert(f.contains(k));
                        let i = choose|i: int| 0 <= i < f.len() && f[i] == k;
                        assert(out@[i] == task_of(ctx, f[i]));
                    }
                    assert forall|i: int| 0 <= i < out@.len() implies ready_task_in_scope(
                        c0,
                        ctx,
                        globs,
                        #[trigger] out@[i],
                    ) by {
                        assert(f.contains(f[i]));
                        assert(jobs.contains(f[i]));
                        assert(out@[i] == task_of(ctx, f[i]));
                        assert(s0.jobs().model().0.contains_key(f[i]));
                    }
                    assert(f.to_set() =~= want) by {
                        assert forall|k: JobKey| f.to_set().contains(k) <==> want.contains(k) by {
                            if c0.contains_key(k) {
                                assert(keys0.to_set().contains(k));
                            }
                        }
                    }
                    f.unique_seq_to_set();
                    assert forall|i: int| 0 <= i < out@.len() implies in_scope(globs, #[trigger] out@[i].process_id@) by {
                        lemma_jobs_in_scope(jobs, globs);
                        let f = jobs_in_scope(jobs, globs);
                        assert(out@[i] == task_of(ctx, f[i]));
                        assert(jobs.contains(f[i]));
                        let k = choose|k: int| 0 <= k < jobs.len() && jobs[k] == f[i];
                        assert(task_of(ctx, jobs[k]).process_id@ == jobs[k].0);
                    }
                }
                Some(out)
            },
        }
    }
}

fn copy_task(t: &ConcurrentTask) -> (r: ConcurrentTask)
    ensures
        r == *t,
{
    ConcurrentTask {
        uri: t.uri.clone(),
        method: t.method.clone(),
        args: t.args.clone(),
        cwd: t.cwd.clone(),
        process_id: t.process_id.clone(),
    }
}

/// `t` is the task of a job with no job left before it.
pub open spec fn ready_task(counts: Map<JobKey, u32>, ctx: BuiltContextGraphs, t: ConcurrentTask) -> bool {
    exists|k: JobKey| #[trigger] counts.contains_key(k) && counts[k] == 0 && t == task_of(ctx, k)
}

/// `t` is the task of a job with no job left before it, of a package that some
/// pattern of the scope matches.
pub open spec fn ready_task_in_scope(
    counts: Map<JobKey, u32>,
    ctx: BuiltContextGraphs,
    scope: Seq<Seq<char>>,
    t: ConcurrentTask,
) -> bool {
    exists|k: JobKey|
        #[trigger] counts.contains_key(k) && counts[k] == 0 && in_scope(scope, k.0) && t == task_of(ctx, k)
}

/// The jobs in scope are exactly the jobs whose package some pattern of the
/// scope matches, each once where the jobs name each job once: no other job of
/// the same package keeps one out.
pub proof fn lemma_jobs_in_scope_exact(jobs: Seq<JobKey>, scope: Seq<Seq<char>>)
    ensures
        forall|k: JobKey|
            #[trigger] jobs_in_scope(jobs, scope).contains(k) <==> (jobs.contains(k) && in_scope(scope, k.0)),
        jobs.no_duplicates() ==> jobs_in_scope(jobs, scope).no_duplicates(),
    decreases jobs.len(),
{
    lemma_jobs_in_scope(jobs, scope);
    if jobs.len() > 0 {
        let prev = jobs.drop_last();
        lemma_jobs_in_scope_exact(prev, scope);
        let rest = jobs_in_scope(prev, scope);
        let r = jobs_in_scope(jobs, scope);
        assert forall|k: JobKey| #[trigger] r.contains(k) <==> (jobs.contains(k) && in_scope(scope, k.0)) by {
            if r.contains(k) {
                let i = choose|i: int| 0 <= i < r.len() && r[i] == k;
                assert(jobs.contains(r[i]));
            }
            if jobs.contains(k) && in_scope(scope, k.0) {
                let j = choose|j: int| 0 <= j < jobs.len() && jobs[j] == k;
                if j < jobs.len() - 1 {
                    assert(prev[j] == k);
                    assert(rest.contains(k));
                    let i = choose|i: int| 0 <= i < rest.len() && rest[i] == k;
                    assert(r[i] == k);
                } else {
                    assert(r[r.len() - 1] == k);
                }
            }
        }
        if jobs.no_duplicates() {
            assert(prev.no_duplicates());
            if in_scope(scope, jobs.last().0) {
                assert forall|i: int| 0 <= i < rest.len() implies rest[i] != jobs.last() by {
                    assert(rest.contains(rest[i]));
                    let j = choose|j: int| 0 <= j < prev.len() && prev[j] == rest[i];
                    assert(jobs[j] == prev[j]);
                }
                assert(rest.push(jobs.last()).no_duplicates());
            }
        }
    }
}

/// The jobs in scope are jobs of the batch, each of a package in scope.
proof fn lemma_jobs_in_scope(jobs: Seq<JobKey>, scope: Seq<Seq<char>>)
    ensures
        forall|i: int|
            0 <= i < jobs_in_scope(jobs, scope).len() ==> jobs.contains(
                #[trigger] jobs_in_scope(jobs, scope)[i],
            ) && in_scope(scope, jobs_in_scope(jobs, scope)[i].0),
    decreases jobs.len(),
{
    if jobs.len() > 0 {
        let prev = jobs.drop_last();
        lemma_jobs_in_scope(prev, scope);
        let rest = jobs_in_scope(prev, scope);
        assert forall|i: int| 0 <= i < jobs_in_scope(jobs, scope).len() implies jobs.contains(
            #[trigger] jobs_in_scope(jobs, scope)[i],
        ) && in_scope(scope, jobs_in_scope(jobs, scope)[i].0) by {
            if i < rest.len() {
                let x = rest[i];
                assert(jobs_in_scope(jobs, scope)[i] == x);
                let k = choose|k: int| 0 <= k < prev.len() && prev[k] == x;
                assert(jobs[k] == x);
            } else {
                assert(jobs[jobs.len() - 1] == jobs.last());
            }
        }
    }
}

/// The ready jobs come in key order: where the keys ascend strictly, so do the
/// ready jobs.
pub proof fn lemma_ready_jobs_in_key_order(counts: Map<JobKey, u32>, keys: Seq<JobKey>)
    requires
        sorted_strict::<(String, String)>(keys),
    ensures
        sorted_strict::<(String, String)>(ready_jobs(counts, keys)),
    decreases keys.len(),
{
    if keys.len() > 0 {
        let prev = keys.drop_last();
        assert(sorted_strict::<(String, String)>(prev));
        lemma_ready_jobs_in_key_order(counts, prev);
        lemma_ready_jobs(counts, prev);
        let rest = ready_jobs(counts, prev);
        if counts.contains_key(keys.last()) && counts[keys.last()] == 0 {
            let r = rest.push(keys.last());
            assert forall|i: int, j: int| 0 <= i < j < r.len() implies <(String, String) as OrderedKey>::key_lt(
                r[i],
                r[j],
            ) by {
                if j == r.len() - 1 {
                    assert(prev.contains(rest[i]));
                    let m = choose|m: int| 0 <= m < prev.len() && prev[m] == rest[i];
                    assert(keys[m] == rest[i]);
                } else {
                    assert(r[i] == rest[i] && r[j] == rest[j]);
                }
            }
        }
    }
}

/// The jobs in scope keep the order of the jobs.
pub proof fn lemma_jobs_in_scope_in_order(jobs: Seq<JobKey>, scope: Seq<Seq<char>>)
    requires
        sorted_strict::<(String, String)>(jobs),
    ensures
        sorted_strict::<(String, String)>(jobs_in_scope(jobs, scope)),
    decreases jobs.len(),
{
    if jobs.len() > 0 {
        let prev = jobs.drop_last();
        assert(sorted_strict::<(String, String)>(prev));
        lemma_jobs_in_scope_in_order(prev, scope);
        lemma_jobs_in_scope(prev, scope);
        let rest = jobs_in_scope(prev, scope);
        if in_scope(scope, jobs.last().0) {
            let r = rest.push(jobs.last());
            assert forall|i: int, j: int| 0 <= i < j < r.len() implies <(String, String) as OrderedKey>::key_lt(
                r[i],
                r[j],
            ) by {
                if j == r.len() - 1 {
                    assert(prev.contains(rest[i]));
                    let m = choose|m: int| 0 <= m < prev.len() && prev[m] == rest[i];
                    assert(jobs[m] == rest[i]);
                } else {
                    assert(r[i] == rest[i] && r[j] == rest[j]);
                }
            }
        }
    }
}

} // verus!
