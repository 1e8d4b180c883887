//! Membership index builder: groups raw (entity id, tag) pairs into a
//! membership mapping, entity id -> tags in first-seen order.

use crate::types::{entry_views, find_entry, map_has_key, MembershipMap};
use vstd::prelude::*;

verus! {

/// The model of a raw pair list: each id replaced by its character sequence.
pub open spec fn pair_views(ps: Seq<(String, u64)>) -> Seq<(Seq<char>, u64)> {
    ps.map_values(|p: (String, u64)| (p.0@, p.1))
}

/// Whether some pair in `ps` has first component `k`.
pub open spec fn has_pair_key(ps: Seq<(Seq<char>, u64)>, k: Seq<char>) -> bool {
    exists|i: int| 0 <= i < ps.len() && ps[i].0 == k
}

/// The keys of the index built from `ps`: the distinct first components of
/// the pairs, in first-seen order.
pub open spec fn index_keys(ps: Seq<(Seq<char>, u64)>) -> Seq<Seq<char>>
    decreases ps.len(),
{
    if ps.len() == 0 {
        Seq::empty()
    } else {
        let prefix = index_keys(ps.drop_last());
        if has_pair_key(ps.drop_last(), ps.last().0) {
            prefix
        } else {
            prefix.push(ps.last().0)
        }
    }
}

/// The tags the index built from `ps` associates with key `k`: the second
/// components of the pairs whose first component is `k`, in input order,
/// duplicates preserved.
pub open spec fn index_tags(ps: Seq<(Seq<char>, u64)>, k: Seq<char>) -> Seq<u64>
    decreases ps.len(),
{
    if ps.len() == 0 {
        Seq::empty()
    } else {
        let prefix = index_tags(ps.drop_last(), k);
        if ps.last().0 == k {
            prefix.push(ps.last().1)
        } else {
            prefix
        }
    }
}

/// The index keys are exactly the distinct first components of the input
/// pairs: every pair's key appears, nothing else does, and no key repeats.
pub proof fn lemma_index_keys_exact(ps: Seq<(Seq<char>, u64)>)
    ensures
        forall|k: Seq<char>| index_keys(ps).contains(k) <==> has_pair_key(ps, k),
        index_keys(ps).no_duplicates(),
    decreases ps.len(),
{
    if ps.len() > 0 {
        lemma_index_keys_exact(ps.drop_last());
        let prefix = index_keys(ps.drop_last());
        assert forall|k: Seq<char>| index_keys(ps).contains(k) implies has_pair_key(ps, k) by {
            if prefix.contains(k) {
                assert(has_pair_key(ps.drop_last(), k));
                let i = choose|i: int| 0 <= i < ps.drop_last().len() && ps.drop_last()[i].0 == k;
                assert(ps[i].0 == k);
            } else {
                assert(ps[ps.len() - 1].0 == k);
            }
        }
        assert forall|k: Seq<char>| has_pair_key(ps, k) implies index_keys(ps).contains(k) by {
            let i = choose|i: int| 0 <= i < ps.len() && ps[i].0 == k;
            if i < ps.len() - 1 {
                assert(ps.drop_last()[i].0 == k);
                assert(has_pair_key(ps.drop_last(), k));
                assert(prefix.contains(k));
                let j = choose|j: int| 0 <= j < prefix.len() && prefix[j] == k;
                assert(index_keys(ps)[j] == k);
            } else {
                if has_pair_key(ps.drop_last(), k) {
                    let j = choose|j: int| 0 <= j < prefix.len() && prefix[j] == k;
                    assert(index_keys(ps)[j] == k);
                } else {
                    assert(index_keys(ps).last() == k);
                }
            }
        }
    }
}

/// A key occurring among the pairs has at least one tag in the index.
pub proof fn lemma_index_tags_nonempty(ps: Seq<(Seq<char>, u64)>, k: Seq<char>)
    requires
        has_pair_key(ps, k),
    ensures
        index_tags(ps, k).len() > 0,
    decreases ps.len(),
{
    if ps.last().0 != k {
        let i = choose|i: int| 0 <= i < ps.len() && ps[i].0 == k;
        assert(ps.drop_last()[i].0 == k);
        lemma_index_tags_nonempty(ps.drop_last(), k);
    }
}

/// The tags for a key are the order-preserving projection of the input:
/// exactly the second components of the pairs carrying that key.
pub proof fn lemma_index_tags_projection(ps: Seq<(Seq<char>, u64)>, k: Seq<char>)
    ensures
        index_tags(ps, k) == ps.filter(|p: (Seq<char>, u64)| p.0 == k).map_values(
            |p: (Seq<char>, u64)| p.1,
        ),
    decreases ps.len(),
{
    reveal(Seq::filter);
    let pred = |p: (Seq<char>, u64)| p.0 == k;
    let proj = |p: (Seq<char>, u64)| p.1;
    if ps.len() == 0 {
        assert(index_tags(ps, k) =~= ps.filter(pred).map_values(proj));
    } else {
        lemma_index_tags_projection(ps.drop_last(), k);
        let sub = ps.drop_last().filter(pred);
        if pred(ps.last()) {
            assert(ps.filter(pred) == sub.push(ps.last()));
            assert(sub.push(ps.last()).map_values(proj) =~= sub.map_values(proj).push(
                ps.last().1,
            ));
        } else {
            assert(ps.filter(pred) == sub);
        }
    }
}

/// Builds the membership mapping from a raw pair list. Every pair is kept:
/// for each distinct entity id (keys in first-seen order) the entry holds
/// the tags of all its pairs, in input order, duplicates preserved.
pub fn list_entities_components(list: Vec<(String, u64)>) -> (m: MembershipMap)
    ensures
        m.wf(),
        m@.map_values(|e: (Seq<char>, Seq<u64>)| e.0) == index_keys(pair_views(list@)),
        forall|i: int|
            0 <= i < m@.len() ==> (#[trigger] m@[i]).1 == index_tags(pair_views(list@), m@[i].0),
        forall|k: Seq<char>| map_has_key(m@, k) <==> has_pair_key(pair_views(list@), k),
{
    let ghost pv = pair_views(list@);
    let mut entries: Vec<(String, Vec<u64>)> = Vec::new();
    let mut idx: usize = 0;
    while idx < list.len()
        invariant
            idx <= list.len(),
            pv == pair_views(list@),
            entry_views(entries@).map_values(|e: (Seq<char>, Seq<u64>)| e.0) == index_keys(
                pv.take(idx as int),
            ),
            forall|i: int|
                0 <= i < entries@.len() ==> (#[trigger] entry_views(entries@)[i]).1 == index_tags(
                    pv,
                    entry_views(entries@)[i].0,
                ),
            forall|k: Seq<char>|
                map_has_key(entry_views(entries@), k) <==> has_pair_key(pv.take(idx as int), k),
            forall|i: int, j: int|
                0 <= i < j < entries@.len() ==> entry_views(entries@)[i].0 != entry_views(
                    entries@,
                )[j].0,
            forall|i: int|
                0 <= i < entries@.len() ==> (#[trigger] entry_views(entries@)[i]).1.len() > 0,
        decreases list.len() - idx,
    {
        proof {
            assert(pv.take(idx as int).push(pv[idx as int]) =~= pv.take(idx + 1));
            assert(pv.take(idx + 1).drop_last() =~= pv.take(idx as int));
            assert(pv.take(idx + 1).last() == pv[idx as int]);
        }
        let already = match find_entry(&entries, &list[idx].0) {
            Some(j) => {
                proof {
                    assert(entry_views(entries@)[j as int].0 == list@[idx as int].0@);
                }
                true
            },
            None => false,
        };
        proof {
            assert(already == map_has_key(entry_views(entries@), list@[idx as int].0@));
        }
        proof {
            assert(pv[idx as int].0 == list@[idx as int].0@);
            assert forall|k: Seq<char>|
                has_pair_key(pv.take(idx + 1), k) <==> (has_pair_key(pv.take(idx as int), k) || k
                    == pv[idx as int].0) by {
                if has_pair_key(pv.take(idx + 1), k) {
                    let i = choose|i: int|
                        0 <= i < pv.take(idx + 1).len() && (#[trigger] pv.take(idx + 1)[i]).0
                            == k;
                    if i < idx {
                        assert(pv.take(idx as int)[i].0 == k);
                    }
                }
                if has_pair_key(pv.take(idx as int), k) {
                    let i = choose|i: int|
                        0 <= i < pv.take(idx as int).len() && (#[trigger] pv.take(
                            idx as int,
                        )[i]).0 == k;
                    assert(pv.take(idx + 1)[i].0 == k);
                }
                if k == pv[idx as int].0 {
                    assert(pv.take(idx + 1)[idx as int].0 == k);
                }
            }
        }
        if !already {
            // First occurrence of this id: collect all its tags at once.
            let key = list[idx].0.clone();
            let mut tags: Vec<u64> = Vec::new();
            let mut j: usize = 0;
            while j < list.len()
                invariant
                    j <= list.len(),
                    pv == pair_views(list@),
                    key@ == pv[idx as int].0,
                    idx < list.len(),
                    tags@ == index_tags(pv.take(j as int), key@),
                decreases list.len() - j,
            {
                proof {
                    assert(pv.take(j as int).push(pv[j as int]) =~= pv.take(j + 1));
                    assert(pv.take(j + 1).drop_last() =~= pv.take(j as int));
                }
                if list[j].0 == key {
                    tags.push(list[j].1);
                }
                j += 1;
            }
            proof {
                assert(pv.take(list@.len() as int) =~= pv);
                assert(key@ == pv[idx as int].0);
                assert(has_pair_key(pv, key@)) by {
                    assert(pv[idx as int].0 == key@);
                }
                lemma_index_tags_nonempty(pv, key@);
            }
            let ghost old_entries = entries@;
            entries.push((key, tags));
            proof {
                let old_m = entry_views(old_entries);
                let new_m = entry_views(entries@);
                let keys_of = |e: (Seq<char>, Seq<u64>)| e.0;
                assert(entries@ == old_entries.push((key, tags)));
                assert(new_m =~= old_m.push((key@, tags@)));
                // The loop found no entry for this key, so the prefix has none.
                assert(!has_pair_key(pv.take(idx as int), key@));
                assert(index_keys(pv.take(idx + 1)) == index_keys(pv.take(idx as int)).push(
                    key@,
                ));
                assert(new_m.map_values(keys_of) =~= old_m.map_values(keys_of).push(key@));
                assert forall|i: int| 0 <= i < new_m.len() implies (#[trigger] new_m[i]).1
                    == index_tags(pv, new_m[i].0) by {
                    if i < old_m.len() {
                        assert(new_m[i] == old_m[i]);
                    } else {
                        assert(new_m[i] == (key@, tags@));
                    }
                }
                assert forall|i: int| 0 <= i < new_m.len() implies (#[trigger] new_m[i]).1.len()
                    > 0 by {
                    if i < old_m.len() {
                        assert(new_m[i] == old_m[i]);
                    } else {
                        assert(new_m[i] == (key@, tags@));
                    }
                }
                assert forall|k: Seq<char>|
                    map_has_key(new_m, k) <==> has_pair_key(pv.take(idx + 1), k) by {
                    if map_has_key(new_m, k) {
                        let i = choose|i: int| 0 <= i < new_m.len() && new_m[i].0 == k;
                        if i < old_m.len() {
                            assert(map_has_key(old_m, k));
                        } else {
                            assert(k == key@);
                        }
                    }
                    if has_pair_key(pv.take(idx + 1), k) {
                        if has_pair_key(pv.take(idx as int), k) {
                            assert(map_has_key(old_m, k));
                            let i = choose|i: int|
                                0 <= i < old_m.len() && (#[trigger] old_m[i]).0 == k;
                            assert(new_m[i].0 == k);
                        } else {
                            assert(k == pv[idx as int].0);
                            assert(new_m[old_m.len() as int].0 == k);
                        }
                    }
                }
                assert forall|i: int, j: int| 0 <= i < j < new_m.len() implies new_m[i].0
                    != new_m[j].0 by {
                    if j < old_m.len() {
                        assert(old_m[i].0 != old_m[j].0);
                    } else {
                        assert(new_m[j].0 == key@);
                        assert(!map_has_key(old_m, key@));
                        assert(new_m[i] == old_m[i]);
                        assert(old_m[i].0 != key@) by {
                            if old_m[i].0 == key@ {
                                assert(map_has_key(old_m, key@));
                            }
                        }
                    }
                }
            }
        } else {
            proof {
                let m = entry_views(entries@);
                assert(map_has_key(m, pv[idx as int].0));
                assert(has_pair_key(pv.take(idx as int), pv[idx as int].0));
                assert(index_keys(pv.take(idx + 1)) == index_keys(pv.take(idx as int)));
            }
        }
        idx += 1;
    }
    proof {
        assert(pv.take(list@.len() as int) =~= pv);
    }
    MembershipMap { entries }
}

} // verus!
