//! The record filter: keeps the listener records that pass an optional
//! exact port filter, an optional case-insensitive process-name filter,
//! and — unless everything was requested — the monitored-port patterns
//! of the configuration.

use vstd::prelude::*;
use crate::config::Config;
use crate::config::PortEntry;
use crate::config::monitored_spec;
use crate::records::ListenerRecord;
use crate::text::contains_ci;
use crate::text::contains_ci_spec;

verus! {

/// The characters of an optional filter string.
pub open spec fn opt_chars(o: Option<&str>) -> Option<Seq<char>> {
    match o {
        Some(s) => Some(s@),
        None => None,
    }
}

/// Whether one record passes all three filters.
pub open spec fn keeps_record(
    r: ListenerRecord,
    port_filter: Option<u16>,
    process_filter: Option<Seq<char>>,
    all: bool,
    entries: Seq<PortEntry>,
) -> bool {
    &&& match port_filter {
        Some(p) => r.port == p,
        None => true,
    }
    &&& match process_filter {
        Some(q) => contains_ci_spec(r.process_name@, q),
        None => true,
    }
    &&& (all || monitored_spec(entries, r.port))
}

/// The records of `rs` that pass all three filters, in input order.
pub open spec fn filtered_records(
    rs: Seq<ListenerRecord>,
    port_filter: Option<u16>,
    process_filter: Option<Seq<char>>,
    all: bool,
    entries: Seq<PortEntry>,
) -> Seq<ListenerRecord> {
    rs.filter(|r: ListenerRecord| keeps_record(r, port_filter, process_filter, all, entries))
}

/// Appending one record extends the filtered sequence exactly when the
/// record passes the filters.
proof fn lemma_filtered_push(
    rs: Seq<ListenerRecord>,
    x: ListenerRecord,
    port_filter: Option<u16>,
    process_filter: Option<Seq<char>>,
    all: bool,
    entries: Seq<PortEntry>,
)
    ensures
        filtered_records(rs.push(x), port_filter, process_filter, all, entries) == (if keeps_record(
            x,
            port_filter,
            process_filter,
            all,
            entries,
        ) {
            filtered_records(rs, port_filter, process_filter, all, entries).push(x)
        } else {
            filtered_records(rs, port_filter, process_filter, all, entries)
        }),
{
    rs.lemma_filter_push(
        x,
        |r: ListenerRecord| keeps_record(r, port_filter, process_filter, all, entries),
    );
}

/// Keeps the records that match the optional port filter, the optional
/// process-name filter (case-insensitive containment), and — unless
/// `all` is set — the configuration's monitored-port patterns.
pub fn filter_port_infos(
    port_infos: Vec<ListenerRecord>,
    port_filter: Option<u16>,
    process_filter: Option<&str>,
    all: bool,
    config: &Config,
) -> (kept: Vec<ListenerRecord>)
    ensures
        kept@ == filtered_records(
            port_infos@,
            port_filter,
            opt_chars(process_filter),
            all,
            config.ports@,
        ),
{
    let ghost rs = port_infos@;
    let ghost pf = opt_chars(process_filter);
    let mut kept: Vec<ListenerRecord> = Vec::new();
    let mut idx: usize = 0;
    proof {
        assert(rs.take(0) =~= Seq::<ListenerRecord>::empty());
        assert(filtered_records(Seq::<ListenerRecord>::empty(), port_filter, pf, all, config.ports@)
            =~= Seq::<ListenerRecord>::empty()) by {
            Seq::<ListenerRecord>::empty().lemma_filter_len(
                |r: ListenerRecord| keeps_record(r, port_filter, pf, all, config.ports@),
            );
        }
    }
    while idx < port_infos.len()
        invariant
            port_infos@ == rs,
            pf == opt_chars(process_filter),
            idx <= rs.len(),
            kept@ == filtered_records(rs.take(idx as int), port_filter, pf, all, config.ports@),
        decreases rs.len() - idx,
    {
        let ghost prefix = rs.take(idx as int);
        let ghost rec = rs[idx as int];
        proof {
            rs.lemma_take_succ_push(idx as int);
            lemma_filtered_push(prefix, rec, port_filter, pf, all, config.ports@);
        }
        let r = &port_infos[idx];
        let mut keep = true;
        match port_filter {
            Some(p) => {
                if r.port != p {
                    keep = false;
                }
            },
            None => {},
        }
        if keep {
            match process_filter {
                Some(q) => {
                    if !contains_ci(r.process_name.as_str(), q) {
                        keep = false;
                    }
                },
                None => {},
            }
        }
        if keep && !all {
            keep = config.is_monitored(r.port);
        }
        proof {
            assert(keep == keeps_record(rec, port_filter, pf, all, config.ports@));
        }
        if keep {
            kept.push(
                ListenerRecord {
                    port: r.port,
                    process_name: r.process_name.clone(),
                    pid: r.pid.clone(),
                    command_line: r.command_line.clone(),
                    start_time: r.start_time.clone(),
                    address: r.address.clone(),
                },
            );
            proof {
                assert(kept@.last() == rec);
                assert(kept@ =~= kept@.drop_last().push(rec));
            }
        }
        idx += 1;
    }
    proof {
        assert(rs.take(rs.len() as int) =~= rs);
    }
    kept
}

} // verus!
