//! The process re-grouper: folds the multi-port seed into one
//! [`ProcessGroup`] per owning process name, using the same bucketing
//! key as the tier partitioner, so that every seed group lands in a
//! process group and every `(port, pid)` pair is carried over exactly
//! once.

use vstd::prelude::*;
use vstd::multiset::Multiset;
use crate::buckets::bucket_by_first_name;
use crate::buckets::bucket_keys;
use crate::buckets::bucket_of;
use crate::buckets::buckets_pairs;
use crate::buckets::seq_pairs;
use crate::records::PortGroup;
use crate::records::ProcessGroup;
use crate::records::first_name;
use crate::records::group_pairs;
use crate::records::owning_name;

verus! {

broadcast use {
    vstd::multiset::group_multiset_axioms,
    vstd::seq_lib::group_to_multiset_ensures,
    vstd::seq_lib::group_filter_ensures,
};

/// `p` is exactly the fold of the bucket `b` under `key`: its name is
/// the key, its pairs are every `(port, pid)` of every group of `b` in
/// order, and its representative fields come from the bucket's first
/// group.
pub open spec fn pg_matches(p: ProcessGroup, b: Seq<PortGroup>, key: Seq<char>) -> bool {
    &&& b.len() > 0
    &&& p.process_name@ == key
    &&& p.port_pid_pairs.deep_view() == seq_pairs(b)
    &&& p.representative_command@ == b[0].representative_command@
    &&& p.representative_start_time@ == b[0].representative_start_time@
    &&& p.is_local == b[0].is_local
}

/// All `(port, pid)` pairs of the process groups `ps`, in order.
pub open spec fn out_pairs(ps: Seq<ProcessGroup>) -> Seq<(u16, Seq<char>)>
    decreases ps.len(),
{
    if ps.len() == 0 {
        Seq::empty()
    } else {
        out_pairs(ps.drop_last()) + ps.last().port_pid_pairs.deep_view()
    }
}

/// Folds the seed into one process group per owning process name, in
/// first-seen key order. Every `(port, pid)` pair contributed by every
/// seed group appears in the output exactly once.
pub fn group_by_process(port_infos: Vec<PortGroup>) -> (out: Vec<ProcessGroup>)
    ensures
        out@.len() == bucket_keys(port_infos@).len(),
        forall|i: int|
            0 <= i < out@.len() ==> pg_matches(
                #[trigger] out@[i],
                bucket_of(port_infos@, bucket_keys(port_infos@)[i]),
                bucket_keys(port_infos@)[i],
            ),
        out_pairs(out@).to_multiset() == seq_pairs(port_infos@).to_multiset(),
{
    let ghost seedv = port_infos@;
    let buckets = bucket_by_first_name(port_infos);
    let ghost allb = buckets@;
    let mut bs = buckets;
    let total = bs.len();
    let mut out: Vec<ProcessGroup> = Vec::new();
    let mut k: usize = 0;
    proof {
        assert(allb.len() == total);
        assert(allb.skip(0) =~= allb);
        assert(allb.take(0) =~= Seq::<Vec<PortGroup>>::empty());
        assert(allb.take(0).map_values(|b: Vec<PortGroup>| seq_pairs(b@).to_multiset()) =~= Seq::<
            Multiset<(u16, Seq<char>)>,
        >::empty());
        assert(out_pairs(out@).to_multiset() =~= buckets_pairs(allb.take(0)));
    }
    while bs.len() > 0
        invariant
            k as int + bs@.len() == allb.len(),
            allb.len() == total,
            bs@ == allb.skip(k as int),
            allb.len() == bucket_keys(seedv).len(),
            forall|i: int|
                0 <= i < allb.len() ==> (#[trigger] allb[i])@ == bucket_of(
                    seedv,
                    bucket_keys(seedv)[i],
                ),
            forall|i: int| 0 <= i < allb.len() ==> (#[trigger] allb[i])@.len() > 0,
            buckets_pairs(allb) == seq_pairs(seedv).to_multiset(),
            out@.len() == k as int,
            forall|i: int|
                0 <= i < out@.len() ==> pg_matches(
                    #[trigger] out@[i],
                    bucket_of(seedv, bucket_keys(seedv)[i]),
                    bucket_keys(seedv)[i],
                ),
            out_pairs(out@).to_multiset() == buckets_pairs(allb.take(k as int)),
        decreases bs@.len(),
    {
        let ghost bk = allb[k as int]@;
        let ghost kk = bucket_keys(seedv)[k as int];
        proof {
            assert(bs@[0] == allb[k as int]);
            assert(allb.skip(k as int).remove(0) =~= allb.skip(k as int + 1));
            // The bucket's first group carries the bucket's key.
            assert(bk == bucket_of(seedv, kk));
            assert(bk[0] == seedv.filter(|g: PortGroup| first_name(g) == kk)[0]);
            seedv.lemma_filter_pred(|g: PortGroup| first_name(g) == kk, 0);
            assert(first_name(bk[0]) == kk);
            // One more bucket enters the running pair sum.
            let pm = allb.take(k as int).map_values(|b: Vec<PortGroup>| seq_pairs(b@).to_multiset());
            let pm1 = allb.take(k as int + 1).map_values(
                |b: Vec<PortGroup>| seq_pairs(b@).to_multiset(),
            );
            assert(pm1 =~= pm.push(seq_pairs(bk).to_multiset()));
            assert(pm1.drop_last() =~= pm);
            assert(buckets_pairs(allb.take(k as int + 1)) == buckets_pairs(allb.take(k as int)).add(
                seq_pairs(bk).to_multiset(),
            ));
        }
        let b = bs.remove(0);
        let name = owning_name(&b[0]);
        let rep_command = b[0].representative_command.clone();
        let rep_start = b[0].representative_start_time.clone();
        let local = b[0].is_local;
        let mut pairs: Vec<(u16, String)> = Vec::new();
        let mut bi: usize = 0;
        proof {
            assert(bk.take(0) =~= Seq::<PortGroup>::empty());
            assert(seq_pairs(Seq::<PortGroup>::empty()) =~= Seq::<(u16, Seq<char>)>::empty());
            assert(pairs.deep_view() =~= Seq::<(u16, Seq<char>)>::empty());
        }
        while bi < b.len()
            invariant
                bi <= b@.len(),
                b@ == bk,
                pairs.deep_view() == seq_pairs(bk.take(bi as int)),
            decreases b@.len() - bi,
        {
            let ghost gv = bk[bi as int];
            let mut pj: usize = 0;
            proof {
                assert(gv.pids@.take(0) =~= Seq::<String>::empty());
                assert(gv.pids@.take(0).map_values(|p: String| (gv.port, p@)) =~= Seq::<
                    (u16, Seq<char>),
                >::empty());
                assert(pairs.deep_view() =~= seq_pairs(bk.take(bi as int)) + gv.pids@.take(
                    0,
                ).map_values(|p: String| (gv.port, p@)));
            }
            while pj < b[bi].pids.len()
                invariant
                    bi < b@.len(),
                    b@ == bk,
                    gv == bk[bi as int],
                    pj <= gv.pids@.len(),
                    pairs.deep_view() == seq_pairs(bk.take(bi as int)) + gv.pids@.take(
                        pj as int,
                    ).map_values(|p: String| (gv.port, p@)),
                decreases gv.pids@.len() - pj,
            {
                let ghost pv = pairs.deep_view();
                let port = b[bi].port;
                let pid = b[bi].pids[pj].clone();
                pairs.push((port, pid));
                proof {
                    assert(pairs.deep_view() =~= pv.push((gv.port, gv.pids@[pj as int]@)));
                    assert(gv.pids@.take(pj as int + 1).map_values(|p: String| (gv.port, p@))
                        =~= gv.pids@.take(pj as int).map_values(|p: String| (gv.port, p@)).push(
                        (gv.port, gv.pids@[pj as int]@),
                    ));
                    assert(pairs.deep_view() =~= seq_pairs(bk.take(bi as int)) + gv.pids@.take(
                        pj as int + 1,
                    ).map_values(|p: String| (gv.port, p@)));
                }
                pj += 1;
            }
            proof {
                assert(gv.pids@.take(gv.pids@.len() as int) =~= gv.pids@);
                assert(pairs.deep_view() =~= seq_pairs(bk.take(bi as int)) + group_pairs(gv));
                assert(bk.take(bi as int + 1).drop_last() =~= bk.take(bi as int));
                assert(bk.take(bi as int + 1).last() == gv);
                assert(seq_pairs(bk.take(bi as int + 1)) =~= seq_pairs(bk.take(bi as int))
                    + group_pairs(gv));
            }
            bi += 1;
        }
        proof {
            assert(bk.take(bk.len() as int) =~= bk);
        }
        let pg = ProcessGroup {
            process_name: name,
            port_pid_pairs: pairs,
            representative_command: rep_command,
            representative_start_time: rep_start,
            is_local: local,
        };
        let ghost ov = out@;
        out.push(pg);
        proof {
            assert(out@ =~= ov.push(pg));
            assert(pg_matches(pg, bucket_of(seedv, kk), kk));
            assert(out@.drop_last() =~= ov);
            assert(out_pairs(out@) =~= out_pairs(ov) + pg.port_pid_pairs.deep_view());
            vstd::seq_lib::lemma_multiset_commutative(
                out_pairs(ov),
                pg.port_pid_pairs.deep_view(),
            );
            assert(out_pairs(out@).to_multiset() =~= buckets_pairs(allb.take(k as int + 1)));
        }
        k += 1;
    }
    proof {
        assert(allb.take(allb.len() as int) =~= allb);
    }
    out
}

} // verus!
