//! Builds the command and dependency graphs of a monorepo manifest, derives the
//! graph of jobs (one per dependency and command), and schedules the jobs in
//! batches whose prerequisites have all run.
pub mod keys;
pub mod ordmap;
pub mod manifest;
pub mod graph;
pub mod job;
pub mod execute;
pub mod logger;
pub mod arg_parse;

use crate::graph::{build_context, context_of, BuiltContextGraphs};
use crate::manifest::MonowrapManifest;
use vstd::prelude::*;

verus! {

/// The arguments of `build_context_graphs`.
pub struct ArgsBuildContextGraphs {
    pub manifest: MonowrapManifest,
}

/// Builds the command graph and the dependency graph of the manifest.
pub fn build_context_graphs(args: ArgsBuildContextGraphs) -> (g: BuiltContextGraphs)
    ensures
        g.wf(),
        context_of(args.manifest, g),
{
    build_context(&args.manifest)
}

} // verus!
