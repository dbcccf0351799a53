use vstd::prelude::*;

verus! {

/// Options of the call-graph analysis.
#[derive(Debug)]
pub struct CGArgs {
    /// Show all functions.
    pub show_all_funcs: bool,
    /// Show all MIR.
    pub show_all_mir: bool,
    /// Emit MIR.
    pub emit_mir: bool,
    /// Entry point of the program.
    pub entry_point: Option<String>,
    /// Output directory.
    pub output_dir: Option<String>,
    /// Keep every call site of a caller-callee pair instead of the least constrained one.
    pub no_dedup: bool,
    /// Function paths whose direct and indirect callers are reported.
    pub find_callers: Vec<String>,
    /// Stable hashes of functions whose direct and indirect callers are reported.
    pub find_callers_hash: Vec<String>,
    /// Write the call graph as JSON.
    pub json_output: bool,
    /// Leave generic type arguments out of function paths.
    pub without_args: bool,
    /// Output file for timing information.
    pub timer_output: Option<String>,
    /// Print debug information.
    pub cg_debug: bool,
    /// Path to the manifest (Cargo.toml).
    pub manifest_path: Option<String>,
    /// Root path of the repository to analyze.
    pub root_path: Option<String>,
}

impl Default for CGArgs {
    fn default() -> (r: CGArgs)
        ensures
            !r.show_all_funcs && !r.show_all_mir && !r.emit_mir,
            r.entry_point is None && r.output_dir is None,
            !r.no_dedup && !r.json_output && !r.without_args && !r.cg_debug,
            r.find_callers@.len() == 0,
            r.find_callers_hash@.len() == 0,
            r.timer_output is None && r.manifest_path is None && r.root_path is None,
    {
        CGArgs {
            show_all_funcs: false,
            show_all_mir: false,
            emit_mir: false,
            entry_point: None,
            output_dir: None,
            no_dedup: false,
            find_callers: Vec::new(),
            find_callers_hash: Vec::new(),
            json_output: false,
            without_args: false,
            timer_output: None,
            cg_debug: false,
            manifest_path: None,
            root_path: None,
        }
    }
}

/// The whole command line: arguments handed on to cargo, and the analysis options.
#[derive(Debug)]
pub struct AllCliArgs {
    pub cargo_args: Vec<String>,
    pub cg_args: CGArgs,
}

} // verus!
