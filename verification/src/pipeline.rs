//! The full classification pipeline: aggregate raw records by port,
//! partition the groups into tiers, fold the multi-port seed into
//! process groups, then sort and cap each tier independently.

use vstd::prelude::*;
use crate::aggregate::group_by_port;
use crate::aggregate::group_matches;
use crate::aggregate::lemma_dedup_first_len;
use crate::aggregate::ports_of;
use crate::buckets::bucket_keys;
use crate::buckets::bucket_of;
use crate::order::PortOrder;
use crate::order::ProcessOrder;
use crate::order::sort_and_limit_ports;
use crate::order::sort_and_limit_procs;
use crate::order::sorted_limited_ports;
use crate::order::sorted_limited_procs;
use crate::order::sorted_ports;
use crate::order::sorted_procs;
use crate::partition::dev_tier_spec;
use crate::partition::multis_tier_spec;
use crate::partition::others_tier_spec;
use crate::partition::partition;
use crate::partition::remainder_spec;
use crate::partition::seed_tier_spec;
use crate::records::ListenerRecord;
use crate::records::PortGroup;
use crate::records::ProcessGroup;
use crate::records::RuleSet;
use crate::records::RuleSetView;
use crate::records::first_name;
use crate::regroup::group_by_process;
use crate::regroup::pg_matches;

verus! {

/// The two orderings the caller can ask for: most recent start time
/// first, or the per-tier default (score, port or name).
#[derive(Clone, Copy)]
pub enum SortMode {
    Recent,
    Standard,
}

/// What the pipeline hands to the presentation layer: the four tiers,
/// each sorted and capped, and the total number of entries.
pub struct ClassifiedPorts {
    pub dev_tier: Vec<PortGroup>,
    pub others_tier: Vec<PortGroup>,
    pub multis_tier: Vec<PortGroup>,
    pub process_groups: Vec<ProcessGroup>,
    pub total_count: usize,
}

/// The development tier's ordering under `mode`.
pub open spec fn dev_order(mode: SortMode) -> PortOrder {
    match mode {
        SortMode::Recent => PortOrder::RecentFirst,
        SortMode::Standard => PortOrder::ScoreThenPort,
    }
}

/// The single-owner and contended tiers' ordering under `mode`.
pub open spec fn plain_order(mode: SortMode) -> PortOrder {
    match mode {
        SortMode::Recent => PortOrder::RecentFirst,
        SortMode::Standard => PortOrder::PortAscending,
    }
}

/// The process groups' ordering under `mode`.
pub open spec fn process_order(mode: SortMode) -> ProcessOrder {
    match mode {
        SortMode::Recent => ProcessOrder::RecentFirst,
        SortMode::Standard => ProcessOrder::NameAscending,
    }
}

/// `gs` is exactly the per-port aggregation of `rs` under `rules`.
pub open spec fn is_aggregate(gs: Seq<PortGroup>, rs: Seq<ListenerRecord>, rules: RuleSetView) -> bool {
    &&& gs.len() == ports_of(rs).len()
    &&& forall|i: int| 0 <= i < gs.len() ==> (#[trigger] gs[i]).port == ports_of(rs)[i]
    &&& forall|i: int| 0 <= i < gs.len() ==> group_matches(#[trigger] gs[i], rs, rules)
}

/// `out` is exactly the per-process fold of the seed `seed`.
pub open spec fn is_regroup(out: Seq<ProcessGroup>, seed: Seq<PortGroup>) -> bool {
    &&& out.len() == bucket_keys(seed).len()
    &&& forall|i: int|
        0 <= i < out.len() ==> pg_matches(
            #[trigger] out[i],
            bucket_of(seed, bucket_keys(seed)[i]),
            bucket_keys(seed)[i],
        )
}

/// The four collections of `r` present the tiers that the partition of
/// `gs` produces: each one sorted by its mode's ordering and capped at
/// `limit`.
pub open spec fn tiers_from(
    gs: Seq<PortGroup>,
    r: ClassifiedPorts,
    threshold: u32,
    show_all: bool,
    mode: SortMode,
    limit: usize,
) -> bool {
    let rem = remainder_spec(gs, threshold, show_all);
    &&& sorted_limited_ports(r.dev_tier@, dev_tier_spec(gs, threshold), dev_order(mode), limit)
    &&& sorted_limited_ports(r.others_tier@, others_tier_spec(rem), plain_order(mode), limit)
    &&& sorted_limited_ports(r.multis_tier@, multis_tier_spec(rem), plain_order(mode), limit)
    &&& exists|po: Seq<ProcessGroup>|
        (#[trigger] is_regroup(po, seed_tier_spec(rem))) && sorted_limited_procs(
            r.process_groups@,
            po,
            process_order(mode),
            limit,
        )
}

/// Runs the whole pipeline: aggregates `records` by port under
/// `rule_set`, partitions the groups by the rule set's threshold,
/// folds the multi-port seed into process groups, sorts every
/// collection by `mode`'s ordering and caps each one at `limit`
/// entries (zero: no cap). The reported total is the sum of the four
/// capped sizes.
pub fn classify(
    records: Vec<ListenerRecord>,
    rule_set: &RuleSet,
    show_all: bool,
    mode: SortMode,
    limit: usize,
) -> (r: ClassifiedPorts)
    ensures
        r.total_count == r.dev_tier@.len() + r.others_tier@.len() + r.multis_tier@.len()
            + r.process_groups@.len(),
        sorted_ports(r.dev_tier@, dev_order(mode)),
        sorted_ports(r.others_tier@, plain_order(mode)),
        sorted_ports(r.multis_tier@, plain_order(mode)),
        sorted_procs(r.process_groups@, process_order(mode)),
        exists|gs: Seq<PortGroup>|
            (#[trigger] is_aggregate(gs, records@, rule_set@)) && tiers_from(
                gs,
                r,
                rule_set@.score_threshold,
                show_all,
                mode,
                limit,
            ),
{
    let ghost rsv = records@;
    let groups = group_by_port(records, rule_set);
    let ghost gs = groups@;
    let glen = groups.len();
    proof {
        assert(is_aggregate(gs, rsv, rule_set@));
    }
    let tiers = partition(groups, rule_set.score_threshold, show_all);
    let (dev, others, multis, seed) = tiers;
    let ghost devv = dev@;
    let ghost othersv = others@;
    let ghost multisv = multis@;
    let ghost seedv = seed@;
    let procs = group_by_process(seed);
    let ghost procsv = procs@;
    proof {
        // The process groups cannot outnumber the seed groups.
        lemma_dedup_first_len(seedv.map_values(|g: PortGroup| first_name(g)));
        assert(procsv.len() <= seedv.len());
        assert(devv.len() + othersv.len() + multisv.len() + seedv.len() <= glen);
    }
    let dev_ord = match mode {
        SortMode::Recent => PortOrder::RecentFirst,
        SortMode::Standard => PortOrder::ScoreThenPort,
    };
    let plain_ord = match mode {
        SortMode::Recent => PortOrder::RecentFirst,
        SortMode::Standard => PortOrder::PortAscending,
    };
    let proc_ord = match mode {
        SortMode::Recent => ProcessOrder::RecentFirst,
        SortMode::Standard => ProcessOrder::NameAscending,
    };
    proof {
        assert(dev_ord == dev_order(mode));
        assert(plain_ord == plain_order(mode));
        assert(proc_ord == process_order(mode));
    }
    let dev_tier = sort_and_limit_ports(dev, dev_ord, limit);
    let others_tier = sort_and_limit_ports(others, plain_ord, limit);
    let multis_tier = sort_and_limit_ports(multis, plain_ord, limit);
    let process_groups = sort_and_limit_procs(procs, proc_ord, limit);
    proof {
        assert(dev_tier@.len() + others_tier@.len() + multis_tier@.len() + process_groups@.len()
            <= glen);
    }
    let total_count = dev_tier.len() + others_tier.len() + multis_tier.len()
        + process_groups.len();
    let r = ClassifiedPorts { dev_tier, others_tier, multis_tier, process_groups, total_count };
    proof {
        let ghost rem = remainder_spec(gs, rule_set@.score_threshold, show_all);
        assert(othersv == others_tier_spec(rem));
        assert(multisv == multis_tier_spec(rem));
        assert(seedv == seed_tier_spec(rem));
        assert(is_regroup(procsv, seed_tier_spec(rem)));
        assert(tiers_from(gs, r, rule_set@.score_threshold, show_all, mode, limit));
    }
    r
}

} // verus!
