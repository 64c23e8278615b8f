//! The sort-and-limit stage: total orderings over port and process
//! groups, a verified selection sort for each, and the per-tier cap.
//!
//! The `recent` orderings compare the platform-formatted start-time
//! strings lexically, by character scalar value. On timestamps whose
//! text does not sort chronologically (month or weekday names) this
//! disagrees with true recency; that literal behaviour is kept
//! deliberately, and the contracts state exactly it.

use vstd::prelude::*;
use vstd::multiset::Multiset;
use crate::lex::lemma_lex_le_total;
use crate::lex::lemma_lex_le_trans;
use crate::lex::lex_le;
use crate::lex::str_lex_le;
use crate::records::PortGroup;
use crate::records::ProcessGroup;

verus! {

broadcast use {
    vstd::multiset::group_multiset_axioms,
    vstd::seq_lib::group_to_multiset_ensures,
};

/// The orderings a tier of port groups can be sorted by.
#[derive(Clone, Copy)]
pub enum PortOrder {
    /// Descending score, then ascending port: the development tier's
    /// default ordering.
    ScoreThenPort,
    /// Ascending port: the default for the single-owner and contended
    /// tiers.
    PortAscending,
    /// Most recent representative start time first, comparing the
    /// timestamp strings lexically.
    RecentFirst,
}

/// The orderings process groups can be sorted by.
#[derive(Clone, Copy)]
pub enum ProcessOrder {
    /// Ascending process name.
    NameAscending,
    /// Most recent representative start time first, comparing the
    /// timestamp strings lexically.
    RecentFirst,
}

/// `a` may stand before `b` under the ordering `o`.
pub open spec fn pg_le(o: PortOrder, a: PortGroup, b: PortGroup) -> bool {
    match o {
        PortOrder::ScoreThenPort => a.dev_score > b.dev_score || (a.dev_score == b.dev_score
            && a.port <= b.port),
        PortOrder::PortAscending => a.port <= b.port,
        PortOrder::RecentFirst => lex_le(
            b.representative_start_time@,
            a.representative_start_time@,
        ),
    }
}

/// `a` may stand before `b` under the ordering `o`.
pub open spec fn proc_le(o: ProcessOrder, a: ProcessGroup, b: ProcessGroup) -> bool {
    match o {
        ProcessOrder::NameAscending => lex_le(a.process_name@, b.process_name@),
        ProcessOrder::RecentFirst => lex_le(
            b.representative_start_time@,
            a.representative_start_time@,
        ),
    }
}

/// The sequence is ordered by `o`.
pub open spec fn sorted_ports(s: Seq<PortGroup>, o: PortOrder) -> bool {
    forall|i: int, j: int| 0 <= i < j < s.len() ==> pg_le(o, s[i], s[j])
}

/// The sequence is ordered by `o`.
pub open spec fn sorted_procs(s: Seq<ProcessGroup>, o: ProcessOrder) -> bool {
    forall|i: int, j: int| 0 <= i < j < s.len() ==> proc_le(o, s[i], s[j])
}

/// Any two port groups are comparable under every ordering.
pub proof fn lemma_pg_le_total(o: PortOrder, a: PortGroup, b: PortGroup)
    ensures
        pg_le(o, a, b) || pg_le(o, b, a),
{
    match o {
        PortOrder::RecentFirst => {
            lemma_lex_le_total(b.representative_start_time@, a.representative_start_time@);
        },
        _ => {},
    }
}

/// Each port ordering is transitive.
pub proof fn lemma_pg_le_trans(o: PortOrder, a: PortGroup, b: PortGroup, c: PortGroup)
    requires
        pg_le(o, a, b),
        pg_le(o, b, c),
    ensures
        pg_le(o, a, c),
{
    match o {
        PortOrder::RecentFirst => {
            lemma_lex_le_trans(
                c.representative_start_time@,
                b.representative_start_time@,
                a.representative_start_time@,
            );
        },
        _ => {},
    }
}

/// Any two process groups are comparable under every ordering.
pub proof fn lemma_proc_le_total(o: ProcessOrder, a: ProcessGroup, b: ProcessGroup)
    ensures
        proc_le(o, a, b) || proc_le(o, b, a),
{
    match o {
        ProcessOrder::NameAscending => {
            lemma_lex_le_total(a.process_name@, b.process_name@);
        },
        ProcessOrder::RecentFirst => {
            lemma_lex_le_total(b.representative_start_time@, a.representative_start_time@);
        },
    }
}

/// Each process ordering is transitive.
pub proof fn lemma_proc_le_trans(o: ProcessOrder, a: ProcessGroup, b: ProcessGroup, c: ProcessGroup)
    requires
        proc_le(o, a, b),
        proc_le(o, b, c),
    ensures
        proc_le(o, a, c),
{
    match o {
        ProcessOrder::NameAscending => {
            lemma_lex_le_trans(a.process_name@, b.process_name@, c.process_name@);
        },
        ProcessOrder::RecentFirst => {
            lemma_lex_le_trans(
                c.representative_start_time@,
                b.representative_start_time@,
                a.representative_start_time@,
            );
        },
    }
}

/// The development tier's default ordering leaves no tie unresolved
/// when ports differ: two groups each allowed before the other must
/// agree on both score and port.
pub proof fn lemma_dev_order_resolves_ties(a: PortGroup, b: PortGroup)
    ensures
        pg_le(PortOrder::ScoreThenPort, a, b) || pg_le(PortOrder::ScoreThenPort, b, a),
        pg_le(PortOrder::ScoreThenPort, a, b) && pg_le(PortOrder::ScoreThenPort, b, a)
            ==> a.dev_score == b.dev_score && a.port == b.port,
{
}

/// Whether `a` may stand before `b` under `o`.
fn pg_le_exec(o: PortOrder, a: &PortGroup, b: &PortGroup) -> (r: bool)
    ensures
        r == pg_le(o, *a, *b),
{
    match o {
        PortOrder::ScoreThenPort => a.dev_score > b.dev_score || (a.dev_score == b.dev_score
            && a.port <= b.port),
        PortOrder::PortAscending => a.port <= b.port,
        PortOrder::RecentFirst => str_lex_le(
            b.representative_start_time.as_str(),
            a.representative_start_time.as_str(),
        ),
    }
}

/// Whether `a` may stand before `b` under `o`.
fn proc_le_exec(o: ProcessOrder, a: &ProcessGroup, b: &ProcessGroup) -> (r: bool)
    ensures
        r == proc_le(o, *a, *b),
{
    match o {
        ProcessOrder::NameAscending => str_lex_le(a.process_name.as_str(), b.process_name.as_str()),
        ProcessOrder::RecentFirst => str_lex_le(
            b.representative_start_time.as_str(),
            a.representative_start_time.as_str(),
        ),
    }
}

/// Sorts a tier of port groups by `o`: the result is ordered and holds
/// exactly the input groups. Groups the ordering does not tell apart
/// may come out in either order.
pub fn sort_port_groups(tier: Vec<PortGroup>, o: PortOrder) -> (sorted: Vec<PortGroup>)
    ensures
        sorted@.to_multiset() == tier@.to_multiset(),
        sorted@.len() == tier@.len(),
        sorted_ports(sorted@, o),
{
    let mut src = tier;
    let ghost orig = src@;
    let mut out: Vec<PortGroup> = Vec::new();
    proof {
        assert(out@.to_multiset() =~= Multiset::<PortGroup>::empty());
        assert(out@.to_multiset().add(src@.to_multiset()) =~= src@.to_multiset());
    }
    while src.len() > 0
        invariant
            out@.to_multiset().add(src@.to_multiset()) == orig.to_multiset(),
            sorted_ports(out@, o),
            forall|i: int, j: int|
                0 <= i < out@.len() && 0 <= j < src@.len() ==> pg_le(o, out@[i], src@[j]),
        decreases src@.len(),
    {
        let mut m: usize = 0;
        let mut t: usize = 1;
        proof {
            lemma_pg_le_total(o, src@[0], src@[0]);
        }
        while t < src.len()
            invariant
                m < t <= src@.len(),
                src@.len() > 0,
                forall|j: int| 0 <= j < t ==> pg_le(o, src@[m as int], #[trigger] src@[j]),
            decreases src@.len() - t,
        {
            if pg_le_exec(o, &src[t], &src[m]) {
                proof {
                    assert forall|j: int| 0 <= j < t + 1 implies pg_le(
                        o,
                        src@[t as int],
                        #[trigger] src@[j],
                    ) by {
                        if j < t {
                            lemma_pg_le_trans(o, src@[t as int], src@[m as int], src@[j]);
                        } else {
                            lemma_pg_le_total(o, src@[t as int], src@[t as int]);
                        }
                    }
                }
                m = t;
            } else {
                proof {
                    lemma_pg_le_total(o, src@[t as int], src@[m as int]);
                }
            }
            t += 1;
        }
        let ghost spre = src@;
        let x = src.remove(m);
        proof {
            assert(x == spre[m as int]);
            assert(spre.contains(x)) by {
                assert(spre[m as int] == x);
            }
            assert(spre.remove(m as int).to_multiset() == spre.to_multiset().remove(x));
        }
        let ghost opre = out@;
        out.push(x);
        proof {
            assert(out@ =~= opre.push(x));
            assert(opre.push(x).to_multiset() =~= opre.to_multiset().insert(x));
            // The removed minimum keeps both invariants.
            assert(out@.to_multiset().add(src@.to_multiset()) =~= orig.to_multiset());
            assert forall|i: int, j: int|
                0 <= i < out@.len() && 0 <= j < src@.len() implies pg_le(o, out@[i], src@[j]) by {
                if i < opre.len() {
                    if j < m {
                        assert(src@[j] == spre[j]);
                    } else {
                        assert(src@[j] == spre[j + 1]);
                    }
                } else {
                    assert(out@[i] == x);
                    if j < m {
                        assert(src@[j] == spre[j]);
                    } else {
                        assert(src@[j] == spre[j + 1]);
                    }
                }
            }
            assert forall|i: int, j: int| 0 <= i < j < out@.len() implies pg_le(
                o,
                out@[i],
                out@[j],
            ) by {
                if j == out@.len() - 1 {
                    assert(out@[j] == x);
                }
            }
        }
    }
    proof {
        out@.to_multiset_ensures();
        orig.to_multiset_ensures();
        src@.to_multiset_ensures();
    }
    out
}

/// Sorts process groups by `o`: the result is ordered and holds exactly
/// the input groups.
pub fn sort_process_groups(tier: Vec<ProcessGroup>, o: ProcessOrder) -> (sorted: Vec<ProcessGroup>)
    ensures
        sorted@.to_multiset() == tier@.to_multiset(),
        sorted@.len() == tier@.len(),
        sorted_procs(sorted@, o),
{
    let mut src = tier;
    let ghost orig = src@;
    let mut out: Vec<ProcessGroup> = Vec::new();
    proof {
        assert(out@.to_multiset() =~= Multiset::<ProcessGroup>::empty());
        assert(out@.to_multiset().add(src@.to_multiset()) =~= src@.to_multiset());
    }
    while src.len() > 0
        invariant
            out@.to_multiset().add(src@.to_multiset()) == orig.to_multiset(),
            sorted_procs(out@, o),
            forall|i: int, j: int|
                0 <= i < out@.len() && 0 <= j < src@.len() ==> proc_le(o, out@[i], src@[j]),
        decreases src@.len(),
    {
        let mut m: usize = 0;
        let mut t: usize = 1;
        proof {
            lemma_proc_le_total(o, src@[0], src@[0]);
        }
        while t < src.len()
            invariant
                m < t <= src@.len(),
                src@.len() > 0,
                forall|j: int| 0 <= j < t ==> proc_le(o, src@[m as int], #[trigger] src@[j]),
            decreases src@.len() - t,
        {
            if proc_le_exec(o, &src[t], &src[m]) {
                proof {
                    assert forall|j: int| 0 <= j < t + 1 implies proc_le(
                        o,
                        src@[t as int],
                        #[trigger] src@[j],
                    ) by {
                        if j < t {
                            lemma_proc_le_trans(o, src@[t as int], src@[m as int], src@[j]);
                        } else {
                            lemma_proc_le_total(o, src@[t as int], src@[t as int]);
                        }
                    }
                }
                m = t;
            } else {
                proof {
                    lemma_proc_le_total(o, src@[t as int], src@[m as int]);
                }
            }
            t += 1;
        }
        let ghost spre = src@;
        let x = src.remove(m);
        proof {
            assert(x == spre[m as int]);
            assert(spre.contains(x)) by {
                assert(spre[m as int] == x);
            }
            assert(spre.remove(m as int).to_multiset() == spre.to_multiset().remove(x));
        }
        let ghost opre = out@;
        out.push(x);
        proof {
            assert(out@ =~= opre.push(x));
            assert(opre.push(x).to_multiset() =~= opre.to_multiset().insert(x));
            assert(out@.to_multiset().add(src@.to_multiset()) =~= orig.to_multiset());
            assert forall|i: int, j: int|
                0 <= i < out@.len() && 0 <= j < src@.len() implies proc_le(o, out@[i], src@[j]) by {
                if j < m {
                    assert(src@[j] == spre[j]);
                } else {
                    assert(src@[j] == spre[j + 1]);
                }
                if i == opre.len() {
                    assert(out@[i] == x);
                }
            }
            assert forall|i: int, j: int| 0 <= i < j < out@.len() implies proc_le(
                o,
                out@[i],
                out@[j],
            ) by {
                if j == out@.len() - 1 {
                    assert(out@[j] == x);
                }
            }
        }
    }
    proof {
        out@.to_multiset_ensures();
        orig.to_multiset_ensures();
        src@.to_multiset_ensures();
    }
    out
}

/// The first `limit` entries of `s`; all of them when `limit` is zero
/// or not smaller than the length.
pub open spec fn limited<A>(s: Seq<A>, limit: usize) -> Seq<A> {
    if limit == 0 || limit >= s.len() {
        s
    } else {
        s.take(limit as int)
    }
}

/// Truncates one tier to its first `limit` entries; zero means no cap.
/// Applied to one tier at a time, so no tier's cap can affect another.
pub fn limit_tier<T>(tier: &mut Vec<T>, limit: usize)
    ensures
        final(tier)@ == limited(old(tier)@, limit),
{
    if limit > 0 && limit < tier.len() {
        tier.truncate(limit);
        proof {
            assert(tier@ =~= old(tier)@.take(limit as int));
        }
    }
}

/// `out` is `tier` sorted by `o` and then capped at `limit` entries.
pub open spec fn sorted_limited_ports(
    out: Seq<PortGroup>,
    tier: Seq<PortGroup>,
    o: PortOrder,
    limit: usize,
) -> bool {
    exists|s: Seq<PortGroup>|
        {
            &&& (#[trigger] s.to_multiset()) == tier.to_multiset()
            &&& sorted_ports(s, o)
            &&& out == limited(s, limit)
        }
}

/// `out` is `tier` sorted by `o` and then capped at `limit` entries.
pub open spec fn sorted_limited_procs(
    out: Seq<ProcessGroup>,
    tier: Seq<ProcessGroup>,
    o: ProcessOrder,
    limit: usize,
) -> bool {
    exists|s: Seq<ProcessGroup>|
        {
            &&& (#[trigger] s.to_multiset()) == tier.to_multiset()
            &&& sorted_procs(s, o)
            &&& out == limited(s, limit)
        }
}

/// Sorts one tier of port groups by `o` and truncates it to `limit`
/// entries (zero: no cap).
pub fn sort_and_limit_ports(tier: Vec<PortGroup>, o: PortOrder, limit: usize) -> (out: Vec<
    PortGroup,
>)
    ensures
        sorted_limited_ports(out@, tier@, o, limit),
        sorted_ports(out@, o),
        out@.len() <= tier@.len(),
{
    let ghost tv = tier@;
    let mut s = sort_port_groups(tier, o);
    let ghost sv = s@;
    limit_tier(&mut s, limit);
    proof {
        sv.to_multiset_ensures();
        tv.to_multiset_ensures();
        assert(sv.len() == tv.len());
        assert forall|i: int, j: int| 0 <= i < j < s@.len() implies pg_le(o, s@[i], s@[j]) by {
            if limit != 0 && limit < sv.len() {
                assert(s@[i] == sv[i]);
                assert(s@[j] == sv[j]);
            }
        }
        assert(sorted_limited_ports(s@, tv, o, limit));
    }
    s
}

/// Sorts the process groups by `o` and truncates them to `limit`
/// entries (zero: no cap).
pub fn sort_and_limit_procs(tier: Vec<ProcessGroup>, o: ProcessOrder, limit: usize) -> (out: Vec<
    ProcessGroup,
>)
    ensures
        sorted_limited_procs(out@, tier@, o, limit),
        sorted_procs(out@, o),
        out@.len() <= tier@.len(),
{
    let ghost tv = tier@;
    let mut s = sort_process_groups(tier, o);
    let ghost sv = s@;
    limit_tier(&mut s, limit);
    proof {
        sv.to_multiset_ensures();
        tv.to_multiset_ensures();
        assert(sv.len() == tv.len());
        assert forall|i: int, j: int| 0 <= i < j < s@.len() implies proc_le(o, s@[i], s@[j]) by {
            if limit != 0 && limit < sv.len() {
                assert(s@[i] == sv[i]);
                assert(s@[j] == sv[j]);
            }
        }
        assert(sorted_limited_procs(s@, tv, o, limit));
    }
    s
}

} // verus!
