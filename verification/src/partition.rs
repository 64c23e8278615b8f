//! The tier partitioner: splits port groups into the development tier
//! (score at or above the threshold) and a remainder, hides the
//! remainder unless everything was requested, and routes each
//! remainder bucket — by owning process name — to the single-owner
//! tier, the contended tier, or the multi-port seed.

use vstd::prelude::*;
use vstd::multiset::Multiset;
use crate::buckets::bucket_by_first_name;
use crate::buckets::bucket_keys;
use crate::buckets::bucket_of;
use crate::buckets::buckets_content;
use crate::records::PortGroup;

verus! {

broadcast use {
    vstd::multiset::group_multiset_axioms,
    vstd::seq_lib::group_to_multiset_ensures,
};

/// The groups classified as development: score at or above `threshold`.
pub open spec fn dev_tier_spec(s: Seq<PortGroup>, threshold: u32) -> Seq<PortGroup> {
    s.filter(|g: PortGroup| g.dev_score >= threshold)
}

/// The groups under the threshold, kept only when `show_all` is set.
pub open spec fn remainder_spec(s: Seq<PortGroup>, threshold: u32, show_all: bool) -> Seq<
    PortGroup,
> {
    if show_all {
        s.filter(|g: PortGroup| g.dev_score < threshold)
    } else {
        Seq::empty()
    }
}

/// The single-owner tier collected from the first `n` buckets of `rem`:
/// buckets of exactly one group whose `pids` has exactly one entry.
pub open spec fn others_upto(rem: Seq<PortGroup>, n: int) -> Seq<PortGroup>
    decreases n,
{
    if n <= 0 {
        Seq::empty()
    } else {
        let b = bucket_of(rem, bucket_keys(rem)[n - 1]);
        others_upto(rem, n - 1) + (if b.len() == 1 && b[0].pids@.len() == 1 {
            seq![b[0]]
        } else {
            Seq::empty()
        })
    }
}

/// The contended tier collected from the first `n` buckets of `rem`:
/// buckets of exactly one group owned by several process instances.
pub open spec fn multis_upto(rem: Seq<PortGroup>, n: int) -> Seq<PortGroup>
    decreases n,
{
    if n <= 0 {
        Seq::empty()
    } else {
        let b = bucket_of(rem, bucket_keys(rem)[n - 1]);
        multis_upto(rem, n - 1) + (if b.len() == 1 && b[0].pids@.len() != 1 {
            seq![b[0]]
        } else {
            Seq::empty()
        })
    }
}

/// The multi-port seed collected from the first `n` buckets of `rem`:
/// the whole contents of every bucket of more than one group.
pub open spec fn seed_upto(rem: Seq<PortGroup>, n: int) -> Seq<PortGroup>
    decreases n,
{
    if n <= 0 {
        Seq::empty()
    } else {
        let b = bucket_of(rem, bucket_keys(rem)[n - 1]);
        seed_upto(rem, n - 1) + (if b.len() != 1 {
            b
        } else {
            Seq::empty()
        })
    }
}

/// The single-owner tier of `rem`.
pub open spec fn others_tier_spec(rem: Seq<PortGroup>) -> Seq<PortGroup> {
    others_upto(rem, bucket_keys(rem).len() as int)
}

/// The contended tier of `rem`.
pub open spec fn multis_tier_spec(rem: Seq<PortGroup>) -> Seq<PortGroup> {
    multis_upto(rem, bucket_keys(rem).len() as int)
}

/// The multi-port seed of `rem`.
pub open spec fn seed_tier_spec(rem: Seq<PortGroup>) -> Seq<PortGroup> {
    seed_upto(rem, bucket_keys(rem).len() as int)
}

/// Appending a group extends the two score filters in the expected way.
proof fn lemma_split_push(s: Seq<PortGroup>, x: PortGroup, threshold: u32)
    ensures
        dev_tier_spec(s.push(x), threshold) == (if x.dev_score >= threshold {
            dev_tier_spec(s, threshold).push(x)
        } else {
            dev_tier_spec(s, threshold)
        }),
        s.push(x).filter(|g: PortGroup| g.dev_score < threshold) == (if x.dev_score < threshold {
            s.filter(|g: PortGroup| g.dev_score < threshold).push(x)
        } else {
            s.filter(|g: PortGroup| g.dev_score < threshold)
        }),
{
    s.lemma_filter_push(x, |g: PortGroup| g.dev_score >= threshold);
    s.lemma_filter_push(x, |g: PortGroup| g.dev_score < threshold);
}

/// Splits `groups` into the four presentation collections: the
/// development tier, the single-owner tier, the contended tier, and the
/// multi-port seed. With `show_all` the four together hold every input
/// group exactly once; without it the three non-development collections
/// are empty.
pub fn partition(groups: Vec<PortGroup>, threshold: u32, show_all: bool) -> (tiers: (
    Vec<PortGroup>,
    Vec<PortGroup>,
    Vec<PortGroup>,
    Vec<PortGroup>,
))
    ensures
        tiers.0@ == dev_tier_spec(groups@, threshold),
        tiers.1@ == others_tier_spec(remainder_spec(groups@, threshold, show_all)),
        tiers.2@ == multis_tier_spec(remainder_spec(groups@, threshold, show_all)),
        tiers.3@ == seed_tier_spec(remainder_spec(groups@, threshold, show_all)),
        tiers.0@.to_multiset().add(tiers.1@.to_multiset()).add(tiers.2@.to_multiset()).add(
            tiers.3@.to_multiset(),
        ) == (if show_all {
            groups@.to_multiset()
        } else {
            dev_tier_spec(groups@, threshold).to_multiset()
        }),
        tiers.0@.len() + tiers.1@.len() + tiers.2@.len() + tiers.3@.len() <= groups@.len(),
{
    let ghost all = groups@;
    let mut rest = groups;
    let total = rest.len();
    let mut dev: Vec<PortGroup> = Vec::new();
    let mut rem: Vec<PortGroup> = Vec::new();
    let mut k: usize = 0;
    proof {
        assert(all.len() == total);
        assert(all.take(0) =~= Seq::<PortGroup>::empty());
        assert(all.skip(0) =~= all);
        Seq::<PortGroup>::empty().lemma_filter_len(|g: PortGroup| g.dev_score >= threshold);
        Seq::<PortGroup>::empty().lemma_filter_len(|g: PortGroup| g.dev_score < threshold);
        assert(dev_tier_spec(all.take(0), threshold) =~= Seq::<PortGroup>::empty());
        assert(all.take(0).filter(|g: PortGroup| g.dev_score < threshold) =~= Seq::<
            PortGroup,
        >::empty());
        assert(Seq::<PortGroup>::empty().to_multiset() =~= Multiset::<PortGroup>::empty());
    }
    while rest.len() > 0
        invariant
            k as int + rest@.len() == all.len(),
            all.len() == total,
            rest@ == all.skip(k as int),
            dev@ == dev_tier_spec(all.take(k as int), threshold),
            rem@ == (if show_all {
                all.take(k as int).filter(|g: PortGroup| g.dev_score < threshold)
            } else {
                Seq::<PortGroup>::empty()
            }),
            dev@.to_multiset().add(rem@.to_multiset()) == (if show_all {
                all.take(k as int).to_multiset()
            } else {
                dev@.to_multiset()
            }),
        decreases rest@.len(),
    {
        let ghost prefix = all.take(k as int);
        let ghost rec = all[k as int];
        proof {
            all.lemma_take_succ_push(k as int);
            assert(all.take(k as int + 1) =~= prefix.push(rec));
            lemma_split_push(prefix, rec, threshold);
            assert(prefix.push(rec).to_multiset() =~= prefix.to_multiset().insert(rec));
        }
        let g = rest.remove(0);
        proof {
            assert(g == rec);
            assert(all.skip(k as int).remove(0) =~= all.skip(k as int + 1));
        }
        if g.dev_score >= threshold {
            let ghost dv = dev@;
            dev.push(g);
            proof {
                assert(dev@ =~= dv.push(rec));
                assert(dv.push(rec).to_multiset() =~= dv.to_multiset().insert(rec));
            }
        } else {
            if show_all {
                let ghost rv = rem@;
                rem.push(g);
                proof {
                    assert(rem@ =~= rv.push(rec));
                    assert(rv.push(rec).to_multiset() =~= rv.to_multiset().insert(rec));
                }
            }
        }
        k += 1;
    }
    proof {
        assert(all.take(all.len() as int) =~= all);
        assert(rem@ == remainder_spec(all, threshold, show_all));
    }
    let ghost remv = rem@;
    let ghost devv = dev@;
    let buckets = bucket_by_first_name(rem);
    let ghost allb = buckets@;
    let mut bs = buckets;
    let total2 = bs.len();
    let mut others: Vec<PortGroup> = Vec::new();
    let mut multis: Vec<PortGroup> = Vec::new();
    let mut seed: Vec<PortGroup> = Vec::new();
    let mut k2: usize = 0;
    proof {
        assert(allb.len() == total2);
        assert(allb.skip(0) =~= allb);
        assert(allb.take(0) =~= Seq::<Vec<PortGroup>>::empty());
        assert(allb.take(0).map_values(|b: Vec<PortGroup>| b@.to_multiset()) =~= Seq::<
            Multiset<PortGroup>,
        >::empty());
        assert(Seq::<PortGroup>::empty().to_multiset() =~= Multiset::<PortGroup>::empty());
        assert(others@.to_multiset().add(multis@.to_multiset()).add(seed@.to_multiset())
            =~= buckets_content(allb.take(0)));
    }
    while bs.len() > 0
        invariant
            k2 as int + bs@.len() == allb.len(),
            allb.len() == total2,
            bs@ == allb.skip(k2 as int),
            allb.len() == bucket_keys(remv).len(),
            forall|i: int|
                0 <= i < allb.len() ==> (#[trigger] allb[i])@ == bucket_of(
                    remv,
                    bucket_keys(remv)[i],
                ),
            forall|i: int| 0 <= i < allb.len() ==> (#[trigger] allb[i])@.len() > 0,
            buckets_content(allb) == remv.to_multiset(),
            others@ == others_upto(remv, k2 as int),
            multis@ == multis_upto(remv, k2 as int),
            seed@ == seed_upto(remv, k2 as int),
            others@.to_multiset().add(multis@.to_multiset()).add(seed@.to_multiset())
                == buckets_content(allb.take(k2 as int)),
        decreases bs@.len(),
    {
        let ghost bk = allb[k2 as int]@;
        proof {
            assert(bs@[0] == allb[k2 as int]);
            assert(allb.skip(k2 as int).remove(0) =~= allb.skip(k2 as int + 1));
            // One more bucket enters the running content sum.
            let cm = allb.take(k2 as int).map_values(|b: Vec<PortGroup>| b@.to_multiset());
            let cm1 = allb.take(k2 as int + 1).map_values(|b: Vec<PortGroup>| b@.to_multiset());
            assert(cm1 =~= cm.push(bk.to_multiset()));
            assert(cm1.drop_last() =~= cm);
            assert(buckets_content(allb.take(k2 as int + 1)) == buckets_content(
                allb.take(k2 as int),
            ).add(bk.to_multiset()));
        }
        let mut b = bs.remove(0);
        if b.len() == 1 {
            let g = b.remove(0);
            proof {
                assert(g == bk[0]);
                assert(bk =~= Seq::<PortGroup>::empty().push(bk[0]));
                assert(Seq::<PortGroup>::empty().push(bk[0]).to_multiset() =~= Multiset::<
                    PortGroup,
                >::empty().insert(bk[0]));
            }
            if g.pids.len() == 1 {
                let ghost ov = others@;
                others.push(g);
                proof {
                    assert(others@ =~= ov.push(bk[0]));
                    assert(ov.push(bk[0]).to_multiset() =~= ov.to_multiset().insert(bk[0]));
                    assert(others@ =~= others_upto(remv, k2 as int) + seq![bk[0]]);
                    assert(multis@ =~= multis_upto(remv, k2 as int) + Seq::<PortGroup>::empty());
                    assert(seed@ =~= seed_upto(remv, k2 as int) + Seq::<PortGroup>::empty());
                }
            } else {
                let ghost mv = multis@;
                multis.push(g);
                proof {
                    assert(multis@ =~= mv.push(bk[0]));
                    assert(mv.push(bk[0]).to_multiset() =~= mv.to_multiset().insert(bk[0]));
                    assert(others@ =~= others_upto(remv, k2 as int) + Seq::<PortGroup>::empty());
                    assert(multis@ =~= multis_upto(remv, k2 as int) + seq![bk[0]]);
                    assert(seed@ =~= seed_upto(remv, k2 as int) + Seq::<PortGroup>::empty());
                }
            }
        } else {
            let ghost sv = seed@;
            seed.append(&mut b);
            proof {
                assert(seed@ == sv + bk);
                vstd::seq_lib::lemma_multiset_commutative(sv, bk);
                assert(others@ =~= others_upto(remv, k2 as int) + Seq::<PortGroup>::empty());
                assert(multis@ =~= multis_upto(remv, k2 as int) + Seq::<PortGroup>::empty());
                assert(seed@ =~= seed_upto(remv, k2 as int) + bk);
            }
        }
        k2 += 1;
    }
    proof {
        assert(allb.take(allb.len() as int) =~= allb);
        assert(others@ == others_tier_spec(remv));
        assert(multis@ == multis_tier_spec(remv));
        assert(seed@ == seed_tier_spec(remv));
        assert(others@.to_multiset().add(multis@.to_multiset()).add(seed@.to_multiset())
            == remv.to_multiset());
        // The four collections together hold the split exactly once.
        if show_all {
            assert(devv.to_multiset().add(others@.to_multiset()).add(multis@.to_multiset()).add(
                seed@.to_multiset(),
            ) =~= all.to_multiset());
            // Equal multisets have equal sizes.
            assert(devv.len() + others@.len() + multis@.len() + seed@.len() == all.len()) by {
                devv.to_multiset_ensures();
                others@.to_multiset_ensures();
                multis@.to_multiset_ensures();
                seed@.to_multiset_ensures();
                all.to_multiset_ensures();
            }
        } else {
            assert(remv.len() == 0);
            assert(remv.to_multiset() =~= Multiset::<PortGroup>::empty());
            assert(others@.to_multiset().len() == 0);
            assert(multis@.to_multiset().len() == 0);
            assert(seed@.to_multiset().len() == 0);
            assert(others@.len() == 0 && multis@.len() == 0 && seed@.len() == 0) by {
                others@.to_multiset_ensures();
                multis@.to_multiset_ensures();
                seed@.to_multiset_ensures();
            }
            assert(devv.to_multiset().add(others@.to_multiset()).add(multis@.to_multiset()).add(
                seed@.to_multiset(),
            ) =~= devv.to_multiset());
            assert(devv.len() <= all.len()) by {
                all.lemma_filter_len(|g: PortGroup| g.dev_score >= threshold);
            }
        }
    }
    (dev, others, multis, seed)
}

} // verus!
