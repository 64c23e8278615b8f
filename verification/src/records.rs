//! Data model of the engine: raw listener records, per-port aggregates,
//! per-process aggregates, and the configurable rule set driving
//! classification.

use vstd::prelude::*;

verus! {

/// One observed socket-process pair, as delivered by the (external)
/// socket inspector. Immutable input of the pipeline.
pub struct ListenerRecord {
    pub port: u16,
    pub process_name: String,
    /// Opaque process identifier; not assumed numeric.
    pub pid: String,
    pub command_line: String,
    /// Platform-formatted timestamp, ordered lexically when sorting.
    pub start_time: String,
    /// Textual bind address, e.g. `127.0.0.1`, `*`, `::`.
    pub address: String,
}

/// Aggregate of all listener records sharing one port.
pub struct PortGroup {
    pub port: u16,
    /// One entry per contributing record, in encounter order; duplicates kept.
    pub process_names: Vec<String>,
    /// Distinct pids in first-seen order.
    pub pids: Vec<String>,
    /// Command line of the first record seen for this port.
    pub representative_command: String,
    /// Start time of the first record seen for this port.
    pub representative_start_time: String,
    /// Whether the first record's address is a loopback or wildcard form.
    pub is_local: bool,
    /// Classification score of the first record against the rule set.
    pub dev_score: u32,
}

/// Aggregate of all ports owned by one process name; built only from the
/// multi-port tier.
pub struct ProcessGroup {
    pub process_name: String,
    /// Every `(port, pid)` combination contributed by the folded groups.
    pub port_pid_pairs: Vec<(u16, String)>,
    pub representative_command: String,
    pub representative_start_time: String,
    pub is_local: bool,
}

/// Configuration of the classification heuristic. All pattern lists are
/// matched as case-insensitive substrings.
pub struct RuleSet {
    pub dev_process_names: Vec<String>,
    pub dev_keywords: Vec<String>,
    pub exclude_process_names: Vec<String>,
    pub score_threshold: u32,
}

/// Mathematical image of a [`RuleSet`]: each pattern list as a sequence
/// of character sequences.
pub struct RuleSetView {
    pub dev_process_names: Seq<Seq<char>>,
    pub dev_keywords: Seq<Seq<char>>,
    pub exclude_process_names: Seq<Seq<char>>,
    pub score_threshold: u32,
}

impl View for RuleSet {
    type V = RuleSetView;

    open spec fn view(&self) -> RuleSetView {
        RuleSetView {
            dev_process_names: self.dev_process_names.deep_view(),
            dev_keywords: self.dev_keywords.deep_view(),
            exclude_process_names: self.exclude_process_names.deep_view(),
            score_threshold: self.score_threshold,
        }
    }
}

/// The name of the process owning a port group: the first entry of
/// `process_names`, or the empty sequence if there is none. Both the
/// tier partitioner and the process re-grouper bucket by this key.
pub open spec fn first_name(g: PortGroup) -> Seq<char> {
    if g.process_names@.len() == 0 {
        Seq::empty()
    } else {
        g.process_names@[0]@
    }
}

/// The `(port, pid)` pairs a port group contributes when folded into a
/// process group.
pub open spec fn group_pairs(g: PortGroup) -> Seq<(u16, Seq<char>)> {
    g.pids@.map_values(|p: String| (g.port, p@))
}

/// The owning process name of `g`, as a fresh string.
pub fn owning_name(g: &PortGroup) -> (r: String)
    ensures
        r@ == first_name(*g),
{
    if g.process_names.len() == 0 {
        String::new()
    } else {
        g.process_names[0].clone()
    }
}

} // verus!
