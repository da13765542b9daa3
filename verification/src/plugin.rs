//! Plugin capability model. Only native nodes exist; hosts for other
//! formats would be adapters.
use vstd::prelude::*;
use vstd::string::StringExecFns;

verus! {

#[derive(Debug, Clone, Copy, PartialEq, Eq, Structural)]
pub enum PluginFormat {
    Native,
    Clap,
    Lv2,
    Vst3,
}

#[derive(Debug, Clone, Copy, PartialEq, Eq, Structural)]
pub enum RealtimeSafety {
    Safe,
    Unknown,
    Unsafe,
}

#[derive(Debug, Clone)]
pub struct PluginInfo {
    pub id: String,
    pub name: String,
    pub format: PluginFormat,
    pub realtime: RealtimeSafety,
    pub headless_safe: bool,
    pub gui_required: bool,
    pub sandboxable: bool,
    pub stateful: bool,
    pub latency_frames: u32,
    pub tail_frames: u32,
}

/// What a native node declares of itself.
pub open spec fn is_native(p: PluginInfo, id: Seq<char>, name: Seq<char>) -> bool {
    &&& p.id@ == id
    &&& p.name@ == name
    &&& p.format == PluginFormat::Native
    &&& p.realtime == RealtimeSafety::Safe
    &&& p.headless_safe
    &&& !p.gui_required
    &&& p.sandboxable
    &&& p.stateful
    &&& p.latency_frames == 0
    &&& p.tail_frames == 0
}

/// A plugin can be loaded when it runs headless, needs no GUI and is not
/// known to be unsafe in realtime.
pub open spec fn compatible_spec(p: PluginInfo) -> bool {
    p.headless_safe && !p.gui_required && p.realtime != RealtimeSafety::Unsafe
}

impl PluginInfo {
    pub fn native(id: &str, name: &str) -> (r: Self)
        ensures
            is_native(r, id@, name@),
    {
        Self {
            id: String::from_str(id),
            name: String::from_str(name),
            format: PluginFormat::Native,
            realtime: RealtimeSafety::Safe,
            headless_safe: true,
            gui_required: false,
            sandboxable: true,
            stateful: true,
            latency_frames: 0,
            tail_frames: 0,
        }
    }

    pub fn compatible(&self) -> (r: bool)
        ensures
            r == compatible_spec(*self),
    {
        self.headless_safe && !self.gui_required && self.realtime != RealtimeSafety::Unsafe
    }
}

/// The native nodes: oscillator, gain, mixer and output.
pub fn builtin_catalog() -> (r: Vec<PluginInfo>)
    ensures
        r@.len() == 4,
        is_native(r@[0], "oscillator"@, "Oscillator"@),
        is_native(r@[1], "gain"@, "Gain"@),
        is_native(r@[2], "mixer"@, "Mixer"@),
        is_native(r@[3], "output"@, "Output"@),
{
    let mut v: Vec<PluginInfo> = Vec::new();
    v.push(PluginInfo::native("oscillator", "Oscillator"));
    v.push(PluginInfo::native("gain", "Gain"));
    v.push(PluginInfo::native("mixer", "Mixer"));
    v.push(PluginInfo::native("output", "Output"));
    v
}

/// Every native plugin is compatible.
pub proof fn lemma_native_compatible(p: PluginInfo, id: Seq<char>, name: Seq<char>)
    requires
        is_native(p, id, name),
    ensures
        compatible_spec(p),
{
}

} // verus!
