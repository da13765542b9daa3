use vstd::prelude::*;

use vstd::string::StringExecFns;

use crate::graph::PortDir;
use crate::text::{decimal, decimal_string};

verus! {

/// Why a graph could not be built, edited, checked or compiled.
#[derive(Debug, Clone, PartialEq, Eq)]
pub enum GraphError {
    UnknownNode(String),
    DuplicateNode(String),
    UnknownPort { node: String, port: String },
    DirectionMismatch { from: String, from_dir: PortDir, to: String, to_dir: PortDir },
    ChannelMismatch { from: String, to: String, from_ch: u16, to_ch: u16 },
    UnknownParam { node: String, param: String },
    ParamRange { node: String, param: String },
    Cycle(String),
    NoOutput,
    EmptyId,
    Project(String),
    BadSampleRate,
}

/// `GraphError` with every text payload taken by its characters.
pub ghost enum ErrorView {
    UnknownNode(Seq<char>),
    DuplicateNode(Seq<char>),
    UnknownPort { node: Seq<char>, port: Seq<char> },
    DirectionMismatch { from: Seq<char>, from_dir: PortDir, to: Seq<char>, to_dir: PortDir },
    ChannelMismatch { from: Seq<char>, to: Seq<char>, from_ch: u16, to_ch: u16 },
    UnknownParam { node: Seq<char>, param: Seq<char> },
    ParamRange { node: Seq<char>, param: Seq<char> },
    Cycle(Seq<char>),
    NoOutput,
    EmptyId,
    Project(Seq<char>),
    BadSampleRate,
}

impl View for GraphError {
    type V = ErrorView;

    open spec fn view(&self) -> ErrorView {
        match self {
            GraphError::UnknownNode(s) => ErrorView::UnknownNode(s@),
            GraphError::DuplicateNode(s) => ErrorView::DuplicateNode(s@),
            GraphError::UnknownPort { node, port } => ErrorView::UnknownPort {
                node: node@,
                port: port@,
            },
            GraphError::DirectionMismatch { from, from_dir, to, to_dir } =>
                ErrorView::DirectionMismatch {
                from: from@,
                from_dir: *from_dir,
                to: to@,
                to_dir: *to_dir,
            },
            GraphError::ChannelMismatch { from, to, from_ch, to_ch } =>
                ErrorView::ChannelMismatch {
                from: from@,
                to: to@,
                from_ch: *from_ch,
                to_ch: *to_ch,
            },
            GraphError::UnknownParam { node, param } => ErrorView::UnknownParam {
                node: node@,
                param: param@,
            },
            GraphError::ParamRange { node, param } => ErrorView::ParamRange {
                node: node@,
                param: param@,
            },
            GraphError::Cycle(s) => ErrorView::Cycle(s@),
            GraphError::NoOutput => ErrorView::NoOutput,
            GraphError::EmptyId => ErrorView::EmptyId,
            GraphError::Project(s) => ErrorView::Project(s@),
            GraphError::BadSampleRate => ErrorView::BadSampleRate,
        }
    }
}

/// How a port direction is written in messages.
pub open spec fn dir_name(d: PortDir) -> Seq<char> {
    match d {
        PortDir::In => "In"@,
        PortDir::Out => "Out"@,
    }
}

fn dir_str(d: PortDir) -> (r: &'static str)
    ensures
        r@ == dir_name(d),
{
    match d {
        PortDir::In => "In",
        PortDir::Out => "Out",
    }
}

/// The message an error is shown with.
pub open spec fn message_of(e: ErrorView) -> Seq<char> {
    match e {
        ErrorView::UnknownNode(n) => "unknown node `"@ + n + "`"@,
        ErrorView::DuplicateNode(n) => "duplicate node id `"@ + n + "`"@,
        ErrorView::UnknownPort { node, port } => "unknown port `"@ + port + "` on node `"@ + node
            + "`"@,
        ErrorView::DirectionMismatch { from, from_dir, to, to_dir } => "cannot connect "@ + dir_name(
            from_dir,
        ) + " port `"@ + from + "` to "@ + dir_name(to_dir) + " port `"@ + to + "`"@,
        ErrorView::ChannelMismatch { from, to, from_ch, to_ch } => "channel mismatch "@ + decimal(
            from_ch as nat,
        ) + " → "@ + decimal(to_ch as nat) + " ("@ + from + " → "@ + to + ")"@,
        ErrorView::UnknownParam { node, param } => "unknown parameter `"@ + param + "` on `"@ + node
            + "`"@,
        ErrorView::ParamRange { node, param } => "parameter `"@ + param + "` out of range on `"@
            + node + "`"@,
        ErrorView::Cycle(n) => "cycle detected involving `"@ + n + "`"@,
        ErrorView::NoOutput => "graph has no output node"@,
        ErrorView::EmptyId => "empty node id"@,
        ErrorView::Project(m) => "invalid project: "@ + m,
        ErrorView::BadSampleRate => "sample rate must be > 0"@,
    }
}

impl GraphError {
    /// The message the error is shown with.
    pub fn message(&self) -> (r: String)
        ensures
            r@ == message_of(self@),
    {
        match self {
            GraphError::UnknownNode(n) => {
                let mut s = String::from_str("unknown node `");
                s.append(n.as_str());
                s.append("`");
                s
            },
            GraphError::DuplicateNode(n) => {
                let mut s = String::from_str("duplicate node id `");
                s.append(n.as_str());
                s.append("`");
                s
            },
            GraphError::UnknownPort { node, port } => {
                let mut s = String::from_str("unknown port `");
                s.append(port.as_str());
                s.append("` on node `");
                s.append(node.as_str());
                s.append("`");
                s
            },
            GraphError::DirectionMismatch { from, from_dir, to, to_dir } => {
                let mut s = String::from_str("cannot connect ");
                s.append(dir_str(*from_dir));
                s.append(" port `");
                s.append(from.as_str());
                s.append("` to ");
                s.append(dir_str(*to_dir));
                s.append(" port `");
                s.append(to.as_str());
                s.append("`");
                s
            },
            GraphError::ChannelMismatch { from, to, from_ch, to_ch } => {
                let mut s = String::from_str("channel mismatch ");
                let a = decimal_string(*from_ch as u32);
                let b = decimal_string(*to_ch as u32);
                s.append(a.as_str());
                s.append(" → ");
                s.append(b.as_str());
                s.append(" (");
                s.append(from.as_str());
                s.append(" → ");
                s.append(to.as_str());
                s.append(")");
                s
            },
            GraphError::UnknownParam { node, param } => {
                let mut s = String::from_str("unknown parameter `");
                s.append(param.as_str());
                s.append("` on `");
                s.append(node.as_str());
                s.append("`");
                s
            },
            GraphError::ParamRange { node, param } => {
                let mut s = String::from_str("parameter `");
                s.append(param.as_str());
                s.append("` out of range on `");
                s.append(node.as_str());
                s.append("`");
                s
            },
            GraphError::Cycle(n) => {
                let mut s = String::from_str("cycle detected involving `");
                s.append(n.as_str());
                s.append("`");
                s
            },
            GraphError::NoOutput => String::from_str("graph has no output node"),
            GraphError::EmptyId => String::from_str("empty node id"),
            GraphError::Project(m) => {
                let mut s = String::from_str("invalid project: ");
                s.append(m.as_str());
                s
            },
            GraphError::BadSampleRate => String::from_str("sample rate must be > 0"),
        }
    }
}

/// The result is an error whose view is `e`.
pub open spec fn fails_with<T>(r: Result<T, GraphError>, e: ErrorView) -> bool {
    r matches Err(x) && x@ == e
}

} // verus!
