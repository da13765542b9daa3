//! Status and diagnostics records shared by the command line and the TUI.
use vstd::prelude::*;
use vstd::string::StringExecFns;

verus! {

pub const VERSION: &'static str = "0.1.0";

pub const ENGINE: &'static str = "moredata-core";

#[derive(Debug, Clone)]
pub struct StatusReport {
    pub engine: &'static str,
    pub version: &'static str,
    pub phase: &'static str,
    pub realtime_plane: &'static str,
    pub control_plane: &'static str,
    pub pd_coupled: bool,
}

impl StatusReport {
    pub fn current() -> (r: Self)
        ensures
            r.engine@ == "moredata-core"@,
            r.version@ == VERSION@,
            r.phase@ == "prototype"@,
            r.realtime_plane@ == "compiled-graph"@,
            r.control_plane@ == "cli-json"@,
            !r.pd_coupled,
    {
        Self {
            engine: "moredata-core",
            version: VERSION,
            phase: "prototype",
            realtime_plane: "compiled-graph",
            control_plane: "cli-json",
            pd_coupled: false,
        }
    }
}

#[derive(Debug, Clone)]
pub struct Diagnostics {
    pub blocks: u64,
    pub frames: u64,
    pub xruns: u64,
    pub last_block_ns: u64,
    pub sample_rate: u32,
    pub max_block: usize,
    pub nodes: usize,
    pub backend: String,
}

impl Default for Diagnostics {
    fn default() -> (r: Self)
        ensures
            r.blocks == 0,
            r.frames == 0,
            r.xruns == 0,
            r.last_block_ns == 0,
            r.sample_rate == 0,
            r.max_block == 0,
            r.nodes == 0,
            r.backend@ == "none"@,
    {
        Self {
            blocks: 0,
            frames: 0,
            xruns: 0,
            last_block_ns: 0,
            sample_rate: 0,
            max_block: 0,
            nodes: 0,
            backend: String::from_str("none"),
        }
    }
}

} // verus!
