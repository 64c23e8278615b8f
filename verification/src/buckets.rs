//! Bucketing of port groups by owning process name (the first entry of
//! `process_names`). Both the tier partitioner and the process
//! re-grouper use the same key, so every group lands in exactly one
//! bucket, in first-seen key order.

use vstd::prelude::*;
use vstd::multiset::Multiset;
use crate::aggregate::dedup_first;
use crate::aggregate::lemma_dedup_first_distinct;
use crate::aggregate::lemma_dedup_first_membership;
use crate::records::PortGroup;
use crate::records::first_name;
use crate::records::group_pairs;
use crate::records::owning_name;

verus! {

broadcast use {
    vstd::multiset::group_multiset_axioms,
    vstd::seq_lib::group_to_multiset_ensures,
    vstd::seq_lib::lemma_multiset_commutative,
};

/// The distinct owning process names of `s`, in first-seen order.
pub open spec fn bucket_keys(s: Seq<PortGroup>) -> Seq<Seq<char>> {
    dedup_first(s.map_values(|g: PortGroup| first_name(g)))
}

/// The groups of `s` owned by `key`, in input order.
pub open spec fn bucket_of(s: Seq<PortGroup>, key: Seq<char>) -> Seq<PortGroup> {
    s.filter(|g: PortGroup| first_name(g) == key)
}

/// All `(port, pid)` pairs of the groups of `s`, in order.
pub open spec fn seq_pairs(s: Seq<PortGroup>) -> Seq<(u16, Seq<char>)>
    decreases s.len(),
{
    if s.len() == 0 {
        Seq::empty()
    } else {
        seq_pairs(s.drop_last()) + group_pairs(s.last())
    }
}

/// The sum of a sequence of multisets.
pub open spec fn sum_multisets<A>(ms: Seq<Multiset<A>>) -> Multiset<A>
    decreases ms.len(),
{
    if ms.len() == 0 {
        Multiset::empty()
    } else {
        sum_multisets(ms.drop_last()).add(ms.last())
    }
}

/// The contents of all buckets, as one multiset of groups.
pub open spec fn buckets_content(bs: Seq<Vec<PortGroup>>) -> Multiset<PortGroup> {
    sum_multisets(bs.map_values(|b: Vec<PortGroup>| b@.to_multiset()))
}

/// The `(port, pid)` pairs of all buckets, as one multiset.
pub open spec fn buckets_pairs(bs: Seq<Vec<PortGroup>>) -> Multiset<(u16, Seq<char>)> {
    sum_multisets(bs.map_values(|b: Vec<PortGroup>| seq_pairs(b@).to_multiset()))
}

/// Growing the multiset at one index grows the sum by the same amount.
pub proof fn lemma_sum_multisets_update<A>(ms: Seq<Multiset<A>>, j: int, m2: Multiset<A>, d: Multiset<A>)
    requires
        0 <= j < ms.len(),
        m2 == ms[j].add(d),
    ensures
        sum_multisets(ms.update(j, m2)) =~= sum_multisets(ms).add(d),
    decreases ms.len(),
{
    broadcast use vstd::multiset::group_multiset_axioms;

    if j == ms.len() - 1 {
        assert(ms.update(j, m2).drop_last() =~= ms.drop_last());
        assert(ms.update(j, m2).last() == m2);
    } else {
        assert(ms.update(j, m2).drop_last() =~= ms.drop_last().update(j, m2));
        assert(ms.update(j, m2).last() == ms.last());
        lemma_sum_multisets_update(ms.drop_last(), j, m2, d);
    }
}

/// A key that occurs nowhere in `s` owns no groups.
proof fn lemma_key_absent_empty(s: Seq<PortGroup>, k: Seq<char>)
    requires
        !bucket_keys(s).contains(k),
    ensures
        bucket_of(s, k) =~= Seq::<PortGroup>::empty(),
{
    broadcast use vstd::seq_lib::group_filter_ensures;

    if bucket_of(s, k).len() > 0 {
        let g0 = bucket_of(s, k)[0];
        assert(bucket_of(s, k).contains(g0));
        s.lemma_filter_contains_rev(|g: PortGroup| first_name(g) == k, g0);
        let i = choose|i: int| 0 <= i < s.len() && s[i] == g0;
        assert(s.map_values(|g: PortGroup| first_name(g))[i] == k);
        assert(s.map_values(|g: PortGroup| first_name(g)).contains(k));
        lemma_dedup_first_membership(s.map_values(|g: PortGroup| first_name(g)), k);
    }
}

/// The index of `x` among `keys`, if present.
fn find_string_index(keys: &Vec<String>, x: &String) -> (r: Option<usize>)
    ensures
        match r {
            Some(j) => j < keys@.len() && keys@[j as int]@ == x@,
            None => forall|i: int| 0 <= i < keys@.len() ==> keys@[i]@ != x@,
        },
{
    let mut i: usize = 0;
    while i < keys.len()
        invariant
            i <= keys@.len(),
            forall|k: int| 0 <= k < i ==> keys@[k]@ != x@,
        decreases keys@.len() - i,
    {
        if keys[i].eq(x) {
            return Some(i);
        }
        i += 1;
    }
    None
}

/// Buckets `groups` by owning process name, in first-seen key order.
/// Every group lands in the bucket of its key, order within a bucket is
/// input order, and nothing is lost or invented: the buckets' combined
/// contents — and their combined `(port, pid)` pairs — are exactly
/// those of the input.
pub fn bucket_by_first_name(groups: Vec<PortGroup>) -> (buckets: Vec<Vec<PortGroup>>)
    ensures
        buckets@.len() == bucket_keys(groups@).len(),
        forall|i: int|
            0 <= i < buckets@.len() ==> (#[trigger] buckets@[i])@ == bucket_of(
                groups@,
                bucket_keys(groups@)[i],
            ),
        forall|i: int| 0 <= i < buckets@.len() ==> (#[trigger] buckets@[i])@.len() > 0,
        buckets_content(buckets@) == groups@.to_multiset(),
        buckets_pairs(buckets@) == seq_pairs(groups@).to_multiset(),
{
    let ghost all = groups@;
    let mut rest = groups;
    let total = rest.len();
    let mut buckets: Vec<Vec<PortGroup>> = Vec::new();
    let mut keys: Vec<String> = Vec::new();
    let mut k: usize = 0;
    proof {
        assert(all.len() == total);
    }
    proof {
        assert(all.take(0) =~= Seq::<PortGroup>::empty());
        assert(all.skip(0) =~= all);
        assert(all.take(0).map_values(|g: PortGroup| first_name(g)) =~= Seq::<Seq<char>>::empty());
        assert(dedup_first(Seq::<Seq<char>>::empty()) =~= Seq::<Seq<char>>::empty());
        assert(keys.deep_view() =~= Seq::<Seq<char>>::empty());
        assert(buckets@.map_values(|b: Vec<PortGroup>| b@.to_multiset()) =~= Seq::<
            Multiset<PortGroup>,
        >::empty());
        assert(buckets@.map_values(|b: Vec<PortGroup>| seq_pairs(b@).to_multiset()) =~= Seq::<
            Multiset<(u16, Seq<char>)>,
        >::empty());
        assert(all.take(0).to_multiset() =~= Multiset::<PortGroup>::empty());
        assert(seq_pairs(all.take(0)).to_multiset() =~= Multiset::<(u16, Seq<char>)>::empty());
    }
    while rest.len() > 0
        invariant
            k as int + rest@.len() == all.len(),
            all.len() == total,
            rest@ == all.skip(k as int),
            keys.deep_view() == bucket_keys(all.take(k as int)),
            buckets@.len() == keys@.len(),
            forall|i: int|
                0 <= i < buckets@.len() ==> (#[trigger] buckets@[i])@ == bucket_of(
                    all.take(k as int),
                    keys.deep_view()[i],
                ),
            forall|i: int| 0 <= i < buckets@.len() ==> (#[trigger] buckets@[i])@.len() > 0,
            buckets_content(buckets@) == all.take(k as int).to_multiset(),
            buckets_pairs(buckets@) == seq_pairs(all.take(k as int)).to_multiset(),
        decreases rest@.len(),
    {
        let ghost prefix = all.take(k as int);
        let ghost prefix1 = all.take(k as int + 1);
        let ghost rec = all[k as int];
        proof {
            all.lemma_take_succ_push(k as int);
            assert(prefix1 =~= prefix.push(rec));
            assert(prefix1.map_values(|g: PortGroup| first_name(g)) =~= prefix.map_values(
                |g: PortGroup| first_name(g),
            ).push(first_name(rec)));
            assert(prefix1.map_values(|g: PortGroup| first_name(g)).drop_last() =~= prefix.map_values(
                |g: PortGroup| first_name(g),
            ));
            // The record extends the content and pair multisets.
            assert(prefix.push(rec).to_multiset() =~= prefix.to_multiset().insert(rec));
            assert(prefix1.drop_last() =~= prefix);
            assert(seq_pairs(prefix1) =~= seq_pairs(prefix) + group_pairs(rec));
            vstd::seq_lib::lemma_multiset_commutative(
                seq_pairs(prefix),
                group_pairs(rec),
            );
            assert((seq_pairs(prefix) + group_pairs(rec)).to_multiset() =~= seq_pairs(
                prefix,
            ).to_multiset().add(group_pairs(rec).to_multiset()));
        }
        let g = rest.remove(0);
        proof {
            assert(g == rec);
            assert(all.skip(k as int).remove(0) =~= all.skip(k as int + 1));
        }
        let key = owning_name(&g);
        let ghost kv = key@;
        match find_string_index(&keys, &key) {
            Some(j) => {
                proof {
                    assert(keys.deep_view()[j as int] == kv);
                    assert(bucket_keys(prefix).contains(first_name(rec))) by {
                        assert(bucket_keys(prefix)[j as int] == kv);
                    }
                    assert(bucket_keys(prefix1) == bucket_keys(prefix));
                    lemma_dedup_first_distinct(prefix.map_values(|g: PortGroup| first_name(g)));
                }
                let ghost bpre = buckets@;
                let mut bj = buckets.remove(j);
                let ghost bj_old = bj;
                bj.push(g);
                proof {
                    // The bucket of the record's key gains the record.
                    let q = kv;
                    assert(bucket_of(prefix, q) == prefix.filter(
                        |g: PortGroup| first_name(g) == q,
                    ));
                    prefix.lemma_filter_push(rec, |g: PortGroup| first_name(g) == q);
                    assert(bucket_of(prefix1, q) =~= bucket_of(prefix, q).push(rec));
                    assert(bj@ =~= bj_old@.push(rec));
                }
                buckets.insert(j, bj);
                proof {
                    assert(buckets@ =~= bpre.update(j as int, bj));
                    // Other buckets are untouched: their keys differ.
                    assert forall|i: int|
                        0 <= i < buckets@.len() && i != j implies (#[trigger] buckets@[i])@
                        == bucket_of(prefix1, keys.deep_view()[i]) by {
                        assert(buckets@[i] == bpre[i]);
                        assert(bpre[i]@ == bucket_of(prefix, keys.deep_view()[i]));
                        let q = keys.deep_view()[i];
                        assert(bucket_keys(prefix)[i] == q);
                        assert(bucket_keys(prefix)[j as int] == kv);
                        assert(q != kv);
                        assert(bucket_of(prefix, q) == prefix.filter(
                            |g: PortGroup| first_name(g) == q,
                        ));
                        prefix.lemma_filter_push(rec, |g: PortGroup| first_name(g) == q);
                        assert(bucket_of(prefix1, q) == bucket_of(prefix, q));
                    }
                    // The content and pair sums gain exactly the record.
                    let cm = bpre.map_values(|b: Vec<PortGroup>| b@.to_multiset());
                    assert(bj@.to_multiset() =~= bj_old@.to_multiset().add(
                        Multiset::<PortGroup>::empty().insert(rec),
                    ));
                    lemma_sum_multisets_update(
                        cm,
                        j as int,
                        bj@.to_multiset(),
                        Multiset::<PortGroup>::empty().insert(rec),
                    );
                    assert(buckets@.map_values(|b: Vec<PortGroup>| b@.to_multiset()) =~= cm.update(
                        j as int,
                        bj@.to_multiset(),
                    ));
                    assert(buckets_content(buckets@) =~= prefix1.to_multiset());
                    let pm = bpre.map_values(|b: Vec<PortGroup>| seq_pairs(b@).to_multiset());
                    assert(bj@.drop_last() =~= bj_old@);
                    assert(seq_pairs(bj@) =~= seq_pairs(bj_old@) + group_pairs(rec));
                    vstd::seq_lib::lemma_multiset_commutative(
                        seq_pairs(bj_old@),
                        group_pairs(rec),
                    );
                    assert((seq_pairs(bj_old@) + group_pairs(rec)).to_multiset() =~= seq_pairs(
                        bj_old@,
                    ).to_multiset().add(group_pairs(rec).to_multiset()));
                    lemma_sum_multisets_update(
                        pm,
                        j as int,
                        seq_pairs(bj@).to_multiset(),
                        group_pairs(rec).to_multiset(),
                    );
                    assert(buckets@.map_values(|b: Vec<PortGroup>| seq_pairs(b@).to_multiset())
                        =~= pm.update(j as int, seq_pairs(bj@).to_multiset()));
                    assert(buckets_pairs(buckets@) =~= seq_pairs(prefix1).to_multiset());
                }
            },
            None => {
                proof {
                    assert(!bucket_keys(prefix).contains(kv)) by {
                        if bucket_keys(prefix).contains(kv) {
                            let i = choose|i: int|
                                0 <= i < bucket_keys(prefix).len() && bucket_keys(prefix)[i] == kv;
                            assert(keys.deep_view()[i] == kv);
                            assert(keys@[i]@ == kv);
                        }
                    }
                    assert(bucket_keys(prefix1) =~= bucket_keys(prefix).push(kv));
                    lemma_key_absent_empty(prefix, kv);
                    assert(bucket_of(prefix, kv) == prefix.filter(
                        |g: PortGroup| first_name(g) == kv,
                    ));
                    prefix.lemma_filter_push(rec, |g: PortGroup| first_name(g) == kv);
                    assert(bucket_of(prefix1, kv) =~= Seq::<PortGroup>::empty().push(rec));
                }
                let ghost bpre = buckets@;
                let ghost kpre = keys.deep_view();
                let mut nb: Vec<PortGroup> = Vec::new();
                nb.push(g);
                keys.push(key);
                buckets.push(nb);
                proof {
                    assert(keys.deep_view() =~= kpre.push(kv));
                    assert(buckets@ =~= bpre.push(nb));
                    assert(nb@ =~= Seq::<PortGroup>::empty().push(rec));
                    // Old buckets are untouched: the record's key is new.
                    assert forall|i: int|
                        0 <= i < bpre.len() implies (#[trigger] buckets@[i])@ == bucket_of(
                        prefix1,
                        keys.deep_view()[i],
                    ) by {
                        assert(buckets@[i] == bpre[i]);
                        assert(keys.deep_view()[i] == kpre[i]);
                        assert(bpre[i]@ == bucket_of(prefix, kpre[i]));
                        let q = kpre[i];
                        assert(bucket_keys(prefix)[i] == q);
                        if q == kv {
                            assert(bucket_keys(prefix).contains(kv));
                            assert(false);
                        }
                        assert(bucket_of(prefix, q) == prefix.filter(
                            |g: PortGroup| first_name(g) == q,
                        ));
                        prefix.lemma_filter_push(rec, |g: PortGroup| first_name(g) == q);
                        assert(bucket_of(prefix1, q) == bucket_of(prefix, q));
                    }
                    // The content and pair sums gain exactly the record.
                    let cm = bpre.map_values(|b: Vec<PortGroup>| b@.to_multiset());
                    assert(buckets@.map_values(|b: Vec<PortGroup>| b@.to_multiset()) =~= cm.push(
                        nb@.to_multiset(),
                    ));
                    assert(cm.push(nb@.to_multiset()).drop_last() =~= cm);
                    assert(nb@.to_multiset() =~= Multiset::<PortGroup>::empty().insert(rec));
                    assert(Seq::<PortGroup>::empty().to_multiset() =~= Multiset::<
                        PortGroup,
                    >::empty());
                    assert(buckets_content(buckets@) =~= prefix1.to_multiset());
                    let pm = bpre.map_values(|b: Vec<PortGroup>| seq_pairs(b@).to_multiset());
                    assert(buckets@.map_values(|b: Vec<PortGroup>| seq_pairs(b@).to_multiset())
                        =~= pm.push(seq_pairs(nb@).to_multiset()));
                    assert(pm.push(seq_pairs(nb@).to_multiset()).drop_last() =~= pm);
                    assert(nb@.drop_last() =~= Seq::<PortGroup>::empty());
                    assert(seq_pairs(Seq::<PortGroup>::empty()) =~= Seq::<(u16, Seq<char>)>::empty());
                    assert(seq_pairs(nb@) =~= Seq::<(u16, Seq<char>)>::empty() + group_pairs(rec));
                    assert(seq_pairs(nb@) =~= group_pairs(rec));
                    assert(buckets_pairs(buckets@) =~= seq_pairs(prefix1).to_multiset());
                }
            },
        }
        k += 1;
    }
    proof {
        assert(all.take(all.len() as int) =~= all);
    }
    buckets
}

} // verus!
