//! The port aggregator: folds raw listener records into one
//! [`PortGroup`] per distinct port, in first-seen port order. The first
//! record of a port supplies the representative fields and the score
//! basis; process names accumulate with duplicates, pids are
//! deduplicated keeping first occurrences.

use vstd::prelude::*;
use crate::records::ListenerRecord;
use crate::records::PortGroup;
use crate::records::RuleSet;
use crate::records::RuleSetView;
use crate::score::is_local_addr;
use crate::score::is_local_address;
use crate::score::score;
use crate::score::score_spec;

verus! {

/// No two entries of `s` are equal.
pub open spec fn distinct_seq<A>(s: Seq<A>) -> bool {
    forall|i: int, j: int| 0 <= i < j < s.len() ==> s[i] != s[j]
}

/// The distinct values of `s`, each at the position of its first
/// occurrence.
pub open spec fn dedup_first<A>(s: Seq<A>) -> Seq<A>
    decreases s.len(),
{
    if s.len() == 0 {
        Seq::empty()
    } else {
        let d = dedup_first(s.drop_last());
        if d.contains(s.last()) {
            d
        } else {
            d.push(s.last())
        }
    }
}

/// Deduplication keeps exactly the values of the input.
pub proof fn lemma_dedup_first_membership<A>(s: Seq<A>, x: A)
    ensures
        dedup_first(s).contains(x) <==> s.contains(x),
    decreases s.len(),
{
    broadcast use vstd::seq_lib::lemma_seq_contains_after_push;

    if s.len() == 0 {
    } else {
        let d0 = dedup_first(s.drop_last());
        lemma_dedup_first_membership(s.drop_last(), x);
        assert(s.drop_last().push(s.last()) =~= s);
        if d0.contains(s.last())
            && x == s.last() {
            assert(dedup_first(s) == d0);
            assert(s.drop_last().contains(x));
        }
    }
}

/// Deduplication leaves no duplicates.
pub proof fn lemma_dedup_first_distinct<A>(s: Seq<A>)
    ensures
        distinct_seq(dedup_first(s)),
    decreases s.len(),
{
    if s.len() == 0 {
    } else {
        let d0 = dedup_first(s.drop_last());
        lemma_dedup_first_distinct(s.drop_last());
        if !d0.contains(s.last()) {
            let d = d0.push(s.last());
            assert forall|i: int, j: int| 0 <= i < j < d.len() implies d[i] != d[j] by {
                if j == d.len() - 1 {
                    assert(d0.contains(d0[i]));
                }
            }
        }
    }
}

/// Deduplication cannot lengthen a sequence.
pub proof fn lemma_dedup_first_len<A>(s: Seq<A>)
    ensures
        dedup_first(s).len() <= s.len(),
    decreases s.len(),
{
    if s.len() > 0 {
        lemma_dedup_first_len(s.drop_last());
    }
}

/// The ports mentioned by `rs`, in first-seen order.
pub open spec fn ports_of(rs: Seq<ListenerRecord>) -> Seq<u16> {
    dedup_first(rs.map_values(|r: ListenerRecord| r.port))
}

/// The records of `rs` listening on port `p`, in input order.
pub open spec fn recs_for(rs: Seq<ListenerRecord>, p: u16) -> Seq<ListenerRecord> {
    rs.filter(|r: ListenerRecord| r.port == p)
}

/// The process names contributed to port `p`, duplicates kept.
pub open spec fn names_for(rs: Seq<ListenerRecord>, p: u16) -> Seq<Seq<char>> {
    recs_for(rs, p).map_values(|r: ListenerRecord| r.process_name@)
}

/// The distinct pids contributed to port `p`, in first-seen order.
pub open spec fn pids_for(rs: Seq<ListenerRecord>, p: u16) -> Seq<Seq<char>> {
    dedup_first(recs_for(rs, p).map_values(|r: ListenerRecord| r.pid@))
}

/// `g` is exactly the aggregate that the records `rs` and the rule set
/// `rules` produce for `g.port`.
pub open spec fn group_matches(g: PortGroup, rs: Seq<ListenerRecord>, rules: RuleSetView) -> bool {
    let rep = recs_for(rs, g.port)[0];
    &&& recs_for(rs, g.port).len() > 0
    &&& g.process_names.deep_view() == names_for(rs, g.port)
    &&& g.pids.deep_view() == pids_for(rs, g.port)
    &&& g.representative_command@ == rep.command_line@
    &&& g.representative_start_time@ == rep.start_time@
    &&& g.is_local == is_local_addr(rep.address@)
    &&& g.dev_score == score_spec(rep.process_name@, rep.command_line@, g.port, rep.address@, rules)
}

/// Pid deduplication: a port group built by the aggregator holds each
/// pid at most once, whatever records contributed to it.
pub proof fn lemma_group_pids_distinct(g: PortGroup, rs: Seq<ListenerRecord>, rules: RuleSetView)
    requires
        group_matches(g, rs, rules),
    ensures
        distinct_seq(g.pids.deep_view()),
{
    lemma_dedup_first_distinct(recs_for(rs, g.port).map_values(|r: ListenerRecord| r.pid@));
}

/// A port that never occurs in `rs` owns no records.
proof fn lemma_port_absent_no_recs(rs: Seq<ListenerRecord>, p: u16)
    requires
        !ports_of(rs).contains(p),
    ensures
        recs_for(rs, p) =~= Seq::<ListenerRecord>::empty(),
{
    broadcast use vstd::seq_lib::group_filter_ensures;

    if recs_for(rs, p).len() > 0 {
        let r0 = recs_for(rs, p)[0];
        assert(recs_for(rs, p).contains(r0));
        rs.lemma_filter_contains_rev(|r: ListenerRecord| r.port == p, r0);
        let k = choose|k: int| 0 <= k < rs.len() && rs[k] == r0;
        assert(rs.map_values(|r: ListenerRecord| r.port)[k] == p);
        assert(rs.map_values(|r: ListenerRecord| r.port).contains(p));
        lemma_dedup_first_membership(rs.map_values(|r: ListenerRecord| r.port), p);
    }
}

/// Whether some entry of `v` has the characters of `x`.
fn vec_contains_string(v: &Vec<String>, x: &String) -> (r: bool)
    ensures
        r == v.deep_view().contains(x@),
{
    let mut i: usize = 0;
    while i < v.len()
        invariant
            i <= v@.len(),
            forall|k: int| 0 <= k < i ==> v@[k]@ != x@,
        decreases v@.len() - i,
    {
        if v[i].eq(x) {
            proof {
                assert(v.deep_view()[i as int] == x@);
            }
            return true;
        }
        i += 1;
    }
    proof {
        assert(forall|k: int| 0 <= k < v.deep_view().len() ==> v.deep_view()[k] != x@);
    }
    false
}

/// The index of the group owning `port`, if one exists yet.
fn find_group_index(groups: &Vec<PortGroup>, port: u16) -> (r: Option<usize>)
    ensures
        match r {
            Some(j) => j < groups@.len() && groups@[j as int].port == port,
            None => forall|j: int| 0 <= j < groups@.len() ==> groups@[j].port != port,
        },
{
    let mut i: usize = 0;
    while i < groups.len()
        invariant
            i <= groups@.len(),
            forall|k: int| 0 <= k < i ==> groups@[k].port != port,
        decreases groups@.len() - i,
    {
        if groups[i].port == port {
            return Some(i);
        }
        i += 1;
    }
    None
}

/// The distinct pids of `records`, in first-seen order.
pub fn deduplicate_pids(records: &Vec<ListenerRecord>) -> (pids: Vec<String>)
    ensures
        pids.deep_view() == dedup_first(records@.map_values(|r: ListenerRecord| r.pid@)),
{
    broadcast use vstd::prelude::Seq::lemma_push_map_commute;

    let ghost rs = records@;
    let mut pids: Vec<String> = Vec::new();
    let mut idx: usize = 0;
    proof {
        assert(rs.take(0) =~= Seq::<ListenerRecord>::empty());
        assert(rs.take(0).map_values(|r: ListenerRecord| r.pid@) =~= Seq::<Seq<char>>::empty());
        assert(pids.deep_view() =~= Seq::<Seq<char>>::empty());
        assert(dedup_first(Seq::<Seq<char>>::empty()) =~= Seq::<Seq<char>>::empty());
    }
    while idx < records.len()
        invariant
            records@ == rs,
            idx <= rs.len(),
            pids.deep_view() == dedup_first(rs.take(idx as int).map_values(|r: ListenerRecord| r.pid@)),
        decreases rs.len() - idx,
    {
        let ghost prefix = rs.take(idx as int);
        let ghost mapped = prefix.map_values(|r: ListenerRecord| r.pid@);
        proof {
            rs.lemma_take_succ_push(idx as int);
            assert(rs.take(idx as int + 1).map_values(|r: ListenerRecord| r.pid@) =~= mapped.push(
                rs[idx as int].pid@,
            ));
            assert(mapped.push(rs[idx as int].pid@).drop_last() =~= mapped);
        }
        let r = &records[idx];
        if !vec_contains_string(&pids, &r.pid) {
            let ghost old_pids = pids.deep_view();
            pids.push(r.pid.clone());
            proof {
                assert(pids.deep_view() =~= old_pids.push(r.pid@));
            }
        }
        idx += 1;
    }
    proof {
        assert(rs.take(rs.len() as int) =~= rs);
    }
    pids
}

/// Groups records by port, in first-seen port order. Each group's
/// representative fields and score come from the first record of its
/// port; `process_names` keeps every contribution in encounter order,
/// `pids` keeps the first occurrence of each distinct pid.
pub fn group_by_port(records: Vec<ListenerRecord>, rule_set: &RuleSet) -> (groups: Vec<PortGroup>)
    ensures
        groups@.len() == ports_of(records@).len(),
        forall|i: int| 0 <= i < groups@.len() ==> #[trigger] groups@[i].port == ports_of(records@)[i],
        forall|i: int|
            0 <= i < groups@.len() ==> group_matches(#[trigger] groups@[i], records@, rule_set@),
        distinct_seq(ports_of(records@)),
{
    broadcast use vstd::prelude::Seq::lemma_push_map_commute;
    broadcast use vstd::prelude::Seq::lemma_filter_push;

    let ghost rs = records@;
    let mut groups: Vec<PortGroup> = Vec::new();
    let mut idx: usize = 0;
    proof {
        assert(rs.take(0) =~= Seq::<ListenerRecord>::empty());
        assert(rs.take(0).map_values(|r: ListenerRecord| r.port) =~= Seq::<u16>::empty());
        assert(dedup_first(Seq::<u16>::empty()) =~= Seq::<u16>::empty());
    }
    while idx < records.len()
        invariant
            records@ == rs,
            idx <= rs.len(),
            groups@.len() == ports_of(rs.take(idx as int)).len(),
            forall|i: int|
                0 <= i < groups@.len() ==> #[trigger] groups@[i].port == ports_of(
                    rs.take(idx as int),
                )[i],
            forall|i: int|
                0 <= i < groups@.len() ==> group_matches(
                    #[trigger] groups@[i],
                    rs.take(idx as int),
                    rule_set@,
                ),
        decreases rs.len() - idx,
    {
        let ghost prefix = rs.take(idx as int);
        let ghost prefix1 = rs.take(idx as int + 1);
        let ghost rec = rs[idx as int];
        proof {
            rs.lemma_take_succ_push(idx as int);
            assert(prefix1 =~= prefix.push(rec));
            assert(prefix1.map_values(|r: ListenerRecord| r.port) =~= prefix.map_values(
                |r: ListenerRecord| r.port,
            ).push(rec.port));
            assert(prefix1.map_values(|r: ListenerRecord| r.port).drop_last() =~= prefix.map_values(
                |r: ListenerRecord| r.port,
            ));
        }
        let r = &records[idx];
        match find_group_index(&groups, r.port) {
            Some(j) => {
                let ghost gpre = groups@;
                proof {
                    // The port is already present, so the port list is unchanged.
                    assert(ports_of(prefix).contains(rec.port)) by {
                        assert(ports_of(prefix)[j as int] == rec.port);
                    }
                    assert(ports_of(prefix1) == ports_of(prefix));
                    lemma_dedup_first_distinct(prefix.map_values(|r: ListenerRecord| r.port));
                }
                let mut g = groups.remove(j);
                let ghost old_g = g;
                g.process_names.push(r.process_name.clone());
                if !vec_contains_string(&g.pids, &r.pid) {
                    g.pids.push(r.pid.clone());
                }
                proof {
                    // The updated group matches the extended prefix.
                    let p = old_g.port;
                    assert(p == rec.port);
                    assert(recs_for(prefix, p) == prefix.filter(|r: ListenerRecord| r.port == p));
                    prefix.lemma_filter_push(rec, |r: ListenerRecord| r.port == p);
                    assert(recs_for(prefix1, p) =~= recs_for(prefix, p).push(rec));
                    assert(recs_for(prefix1, p)[0] == recs_for(prefix, p)[0]);
                    assert(names_for(prefix1, p) =~= names_for(prefix, p).push(rec.process_name@));
                    assert(g.process_names.deep_view() =~= old_g.process_names.deep_view().push(
                        rec.process_name@,
                    ));
                    let m1 = recs_for(prefix1, p).map_values(|r: ListenerRecord| r.pid@);
                    let m0 = recs_for(prefix, p).map_values(|r: ListenerRecord| r.pid@);
                    assert(m1 =~= m0.push(rec.pid@));
                    assert(m1.drop_last() =~= m0);
                    if old_g.pids.deep_view().contains(rec.pid@) {
                        assert(pids_for(prefix1, p) == pids_for(prefix, p));
                        assert(g.pids.deep_view() == old_g.pids.deep_view());
                    } else {
                        assert(pids_for(prefix1, p) =~= pids_for(prefix, p).push(rec.pid@));
                        assert(g.pids.deep_view() =~= old_g.pids.deep_view().push(rec.pid@));
                    }
                    assert(group_matches(g, prefix1, rule_set@));
                }
                groups.insert(j, g);
                proof {
                    assert(groups@ =~= gpre.update(j as int, g));
                    // Groups at other indices are untouched by the new record.
                    assert forall|i: int|
                        0 <= i < groups@.len() && i != j implies group_matches(
                        #[trigger] groups@[i],
                        prefix1,
                        rule_set@,
                    ) by {
                        assert(groups@[i] == gpre[i]);
                        assert(group_matches(gpre[i], prefix, rule_set@));
                        let q = gpre[i].port;
                        assert(gpre[i].port == ports_of(prefix)[i]);
                        assert(gpre[j as int].port == ports_of(prefix)[j as int]);
                        assert(q != rec.port);
                        assert(recs_for(prefix, q) == prefix.filter(
                            |r: ListenerRecord| r.port == q,
                        ));
                        prefix.lemma_filter_push(rec, |r: ListenerRecord| r.port == q);
                        assert(recs_for(prefix1, q) == recs_for(prefix, q));
                        assert(names_for(prefix1, q) == names_for(prefix, q));
                        assert(pids_for(prefix1, q) == pids_for(prefix, q));
                    }
                    assert forall|i: int|
                        0 <= i < groups@.len() implies #[trigger] groups@[i].port == ports_of(
                        prefix1,
                    )[i] by {
                        if i == j {
                            assert(groups@[i] == g);
                            assert(gpre[j as int].port == ports_of(prefix)[j as int]);
                        } else {
                            assert(groups@[i] == gpre[i]);
                            assert(gpre[i].port == ports_of(prefix)[i]);
                        }
                    }
                }
            },
            None => {
                proof {
                    // A new port: it was absent from the prefix.
                    assert(!ports_of(prefix).contains(rec.port)) by {
                        if ports_of(prefix).contains(rec.port) {
                            let k = choose|k: int|
                                0 <= k < ports_of(prefix).len() && ports_of(prefix)[k] == rec.port;
                            assert(groups@[k].port == rec.port);
                        }
                    }
                    assert(ports_of(prefix1) =~= ports_of(prefix).push(rec.port));
                    let p = rec.port;
                    lemma_port_absent_no_recs(prefix, p);
                    assert(recs_for(prefix, p) == prefix.filter(|r: ListenerRecord| r.port == p));
                    prefix.lemma_filter_push(rec, |r: ListenerRecord| r.port == p);
                    assert(recs_for(prefix1, p) =~= Seq::<ListenerRecord>::empty().push(rec));
                }
                let sc = score(
                    r.process_name.as_str(),
                    r.command_line.as_str(),
                    r.port,
                    r.address.as_str(),
                    rule_set,
                );
                let loc = is_local_address(r.address.as_str());
                let mut names: Vec<String> = Vec::new();
                names.push(r.process_name.clone());
                let mut pids: Vec<String> = Vec::new();
                pids.push(r.pid.clone());
                let g = PortGroup {
                    port: r.port,
                    process_names: names,
                    pids: pids,
                    representative_command: r.command_line.clone(),
                    representative_start_time: r.start_time.clone(),
                    is_local: loc,
                    dev_score: sc,
                };
                proof {
                    let p = rec.port;
                    let single = Seq::<ListenerRecord>::empty().push(rec);
                    assert(recs_for(prefix1, p) =~= single);
                    assert(names_for(prefix1, p) =~= Seq::<Seq<char>>::empty().push(
                        rec.process_name@,
                    ));
                    let m1 = recs_for(prefix1, p).map_values(|r: ListenerRecord| r.pid@);
                    assert(m1 =~= Seq::<Seq<char>>::empty().push(rec.pid@));
                    assert(m1.drop_last() =~= Seq::<Seq<char>>::empty());
                    assert(dedup_first(Seq::<Seq<char>>::empty()) =~= Seq::<Seq<char>>::empty());
                    assert(pids_for(prefix1, p) =~= Seq::<Seq<char>>::empty().push(rec.pid@));
                    assert(g.process_names.deep_view() =~= Seq::<Seq<char>>::empty().push(
                        rec.process_name@,
                    ));
                    assert(g.pids.deep_view() =~= Seq::<Seq<char>>::empty().push(rec.pid@));
                    assert(group_matches(g, prefix1, rule_set@));
                }
                let ghost groups_before = groups@;
                groups.push(g);
                proof {
                    assert(groups@ =~= groups_before.push(g));
                    // Old groups are untouched: the new record's port is new.
                    assert forall|i: int|
                        0 <= i < groups_before.len() implies group_matches(
                        #[trigger] groups@[i],
                        prefix1,
                        rule_set@,
                    ) by {
                        assert(groups@[i] == groups_before[i]);
                        assert(group_matches(groups_before[i], prefix, rule_set@));
                        let q = groups_before[i].port;
                        assert(groups_before[i].port == ports_of(prefix)[i]);
                        if q == rec.port {
                            assert(ports_of(prefix)[i] == rec.port);
                            assert(ports_of(prefix).contains(rec.port));
                            assert(false);
                        }
                        assert(recs_for(prefix, q) == prefix.filter(
                            |r: ListenerRecord| r.port == q,
                        ));
                        prefix.lemma_filter_push(rec, |r: ListenerRecord| r.port == q);
                        assert(recs_for(prefix1, q) == recs_for(prefix, q));
                        assert(names_for(prefix1, q) == names_for(prefix, q));
                        assert(pids_for(prefix1, q) == pids_for(prefix, q));
                    }
                    assert forall|i: int|
                        0 <= i < groups@.len() implies #[trigger] groups@[i].port == ports_of(
                        prefix1,
                    )[i] by {
                        if i < groups_before.len() {
                            assert(groups@[i] == groups_before[i]);
                            assert(groups_before[i].port == ports_of(prefix)[i]);
                        }
                    }
                }
            },
        }
        idx += 1;
    }
    proof {
        assert(rs.take(rs.len() as int) =~= rs);
        lemma_dedup_first_distinct(rs.map_values(|r: ListenerRecord| r.port));
    }
    groups
}

} // verus!
