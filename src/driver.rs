use vstd::prelude::*;

use crate::args::{AllCliArgs, CGArgs};
use crate::builder::perform_mono_analysis;
use crate::graph::CallGraph;
use crate::instance::FunctionInstance;
use crate::model::ProgramModel;

verus! {

/// Which crates the analysis runs on.
#[derive(Debug)]
pub enum CrateFilter {
    /// Every crate in the workspace and all transitive dependencies.
    AllCrates,
    /// Just crates in the workspace.
    OnlyWorkspace,
    /// Only the crate containing a specific file.
    CrateContainingFile(String),
}

/// Arguments handed from the command line to the compiler driver.
#[derive(Debug)]
pub struct RustcPluginArgs<CargoArgs, PluginArgs> {
    /// Arguments passed on to cargo.
    pub cargo_args: CargoArgs,
    pub plugin_args: PluginArgs,
    /// Which crates to analyze.
    pub filter: CrateFilter,
}

/// The call-graph plugin.
#[derive(Debug)]
pub struct CGDriver;

impl CGDriver {
    /// Splits the command line into cargo's arguments and the analysis options;
    /// every crate is analyzed.
    pub fn args(&self, args: AllCliArgs) -> (r: RustcPluginArgs<Vec<String>, CGArgs>)
        ensures
            r.cargo_args == args.cargo_args,
            r.plugin_args == args.cg_args,
            r.filter is AllCrates,
    {
        RustcPluginArgs { cargo_args: args.cargo_args, plugin_args: args.cg_args, filter: CrateFilter::AllCrates }
    }
}

/// What runs once the compiler has analyzed a crate.
#[derive(Debug)]
pub struct CGCallbacks {
    pub cg_args: CGArgs,
}

impl CGCallbacks {
    pub fn new(cg_args: CGArgs) -> (r: CGCallbacks)
        ensures
            r.cg_args == cg_args,
    {
        CGCallbacks { cg_args }
    }

    /// Builds the call graph of the analyzed program from its roots.
    pub fn after_analysis(&self, m: &ProgramModel) -> (g: CallGraph)
        requires
            m.wf(),
        ensures
            crate::builder::is_call_graph(*m, crate::instance::views(m.roots@), crate::instance::views(g.visited@), crate::graph::edge_views(g.call_sites@)),
            !self.cg_args.no_dedup ==> crate::graph::unique_pairs(crate::graph::edge_views(g.call_sites@)),
    {
        analyze_crate(m, &self.cg_args)
    }
}

/// Builds the call graph of the program from its roots.
pub fn analyze_crate(m: &ProgramModel, args: &CGArgs) -> (g: CallGraph)
    requires
        m.wf(),
    ensures
        crate::builder::is_call_graph(*m, crate::instance::views(m.roots@), crate::instance::views(g.visited@), crate::graph::edge_views(g.call_sites@)),
        !args.no_dedup ==> crate::graph::unique_pairs(crate::graph::edge_views(g.call_sites@)),
        args.no_dedup ==> crate::builder::edges_by_instance(*m, crate::instance::views(g.visited@), crate::graph::edge_views(g.call_sites@)),
        args.no_dedup ==> crate::builder::is_worklist_result(*m, crate::instance::views(m.roots@), crate::instance::views(g.visited@), crate::graph::edge_views(g.call_sites@)),
        g.without_args == args.without_args,
{
    let instances = collect_generic_instances(m);
    perform_mono_analysis(m, instances, args)
}

/// The program's roots: the instances its entry points reach first.
pub fn collect_generic_instances(m: &ProgramModel) -> (r: Vec<FunctionInstance>)
    ensures
        crate::instance::views(r@) == crate::instance::views(m.roots@),
{
    let mut r: Vec<FunctionInstance> = Vec::new();
    let mut i: usize = 0;
    while i < m.roots.len()
        invariant
            i <= m.roots@.len(),
            r@.len() == i,
            forall|k: int| 0 <= k < i ==> r@[k]@ == m.roots@[k]@,
        decreases m.roots@.len() - i,
    {
        r.push(m.roots[i].copy());
        i += 1;
    }
    assert(crate::instance::views(r@) =~= crate::instance::views(m.roots@));
    r
}

} // verus!
