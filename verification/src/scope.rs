//! Entity scope filter: restricts a membership mapping to an explicit
//! allow-list of entity ids, or removes an explicit deny-list.

use crate::types::{
    copy_tags, entry_views, find_entry, id_listed, map_has_key, Entity, MembershipMap,
};
use vstd::prelude::*;

verus! {

/// The model of removing a deny-list: the entries whose key is listed in
/// `reject` are deleted, everything else is kept in order.
pub open spec fn exclude_model(
    m: Seq<(Seq<char>, Seq<u64>)>,
    reject: Seq<Entity>,
) -> Seq<(Seq<char>, Seq<u64>)>
    decreases m.len(),
{
    if m.len() == 0 {
        m
    } else {
        let prefix = exclude_model(m.drop_last(), reject);
        if id_listed(reject, m.last().0) {
            prefix
        } else {
            prefix.push(m.last())
        }
    }
}

/// What excluding keeps: exactly the input entries whose key is not on
/// the deny-list, each kept verbatim.
pub proof fn lemma_exclude_model_entries(m: Seq<(Seq<char>, Seq<u64>)>, reject: Seq<Entity>)
    ensures
        forall|t: int|
            0 <= t < exclude_model(m, reject).len() ==> m.contains(
                #[trigger] exclude_model(m, reject)[t],
            ) && !id_listed(reject, exclude_model(m, reject)[t].0),
        forall|j: int|
            0 <= j < m.len() && !id_listed(reject, (#[trigger] m[j]).0) ==> exclude_model(
                m,
                reject,
            ).contains(m[j]),
    decreases m.len(),
{
    if m.len() > 0 {
        lemma_exclude_model_entries(m.drop_last(), reject);
        let ex = exclude_model(m, reject);
        let prefix = exclude_model(m.drop_last(), reject);
        assert forall|t: int| 0 <= t < ex.len() implies m.contains(#[trigger] ex[t])
            && !id_listed(reject, ex[t].0) by {
            if t < prefix.len() {
                assert(ex[t] == prefix[t]);
                assert(m.drop_last().contains(prefix[t]));
                let j = choose|j: int|
                    0 <= j < m.drop_last().len() && #[trigger] m.drop_last()[j] == prefix[t];
                assert(m[j] == ex[t]);
                assert(m.contains(ex[t]));
            } else {
                assert(ex[t] == m.last());
                assert(m[m.len() - 1] == m.last());
                assert(m.contains(m.last()));
            }
        }
        assert forall|j: int|
            0 <= j < m.len() && !id_listed(reject, (#[trigger] m[j]).0) implies ex.contains(
            m[j],
        ) by {
            if j < m.len() - 1 {
                assert(m.drop_last()[j] == m[j]);
                assert(prefix.contains(m[j]));
                let t = choose|t: int| 0 <= t < prefix.len() && #[trigger] prefix[t] == m[j];
                assert(ex[t] == m[j]);
                assert(ex.contains(m[j]));
            } else {
                assert(ex.last() == m.last());
                assert(ex.contains(m.last()));
            }
        }
    }
}

/// Which keys survive excluding: a key of the result iff a key of the
/// input that the deny-list does not name.
pub proof fn lemma_exclude_model_keys(m: Seq<(Seq<char>, Seq<u64>)>, reject: Seq<Entity>)
    ensures
        forall|k: Seq<char>|
            map_has_key(exclude_model(m, reject), k) <==> (map_has_key(m, k) && !id_listed(
                reject,
                k,
            )),
{
    lemma_exclude_model_entries(m, reject);
    let ex = exclude_model(m, reject);
    assert forall|k: Seq<char>|
        map_has_key(ex, k) <==> (map_has_key(m, k) && !id_listed(reject, k)) by {
        if map_has_key(ex, k) {
            let t = choose|t: int| 0 <= t < ex.len() && (#[trigger] ex[t]).0 == k;
            assert(m.contains(ex[t]) && !id_listed(reject, ex[t].0));
            let j = choose|j: int| 0 <= j < m.len() && #[trigger] m[j] == ex[t];
            assert(m[j].0 == k);
        }
        if map_has_key(m, k) && !id_listed(reject, k) {
            let j = choose|j: int| 0 <= j < m.len() && (#[trigger] m[j]).0 == k;
            assert(ex.contains(m[j]));
            let t = choose|t: int| 0 <= t < ex.len() && #[trigger] ex[t] == m[j];
            assert(ex[t].0 == k);
        }
    }
}

/// Excluding keeps the keys distinct.
pub proof fn lemma_exclude_model_distinct(m: Seq<(Seq<char>, Seq<u64>)>, reject: Seq<Entity>)
    requires
        forall|i: int, j: int| 0 <= i < j < m.len() ==> m[i].0 != m[j].0,
    ensures
        forall|i: int, j: int|
            0 <= i < j < exclude_model(m, reject).len() ==> exclude_model(m, reject)[i].0
                != exclude_model(m, reject)[j].0,
    decreases m.len(),
{
    if m.len() > 0 {
        assert forall|i: int, j: int| 0 <= i < j < m.drop_last().len() implies m.drop_last()[i].0
            != m.drop_last()[j].0 by {
            assert(m[i].0 != m[j].0);
        }
        lemma_exclude_model_distinct(m.drop_last(), reject);
        lemma_exclude_model_entries(m.drop_last(), reject);
        let ex = exclude_model(m, reject);
        let prefix = exclude_model(m.drop_last(), reject);
        if !id_listed(reject, m.last().0) {
            assert forall|i: int, j: int| 0 <= i < j < ex.len() implies ex[i].0 != ex[j].0 by {
                if j < prefix.len() {
                    assert(prefix[i].0 != prefix[j].0);
                } else {
                    assert(ex[j] == m.last());
                    assert(ex[i] == prefix[i]);
                    assert(m.drop_last().contains(prefix[i]));
                    let t = choose|t: int|
                        0 <= t < m.drop_last().len() && #[trigger] m.drop_last()[t] == prefix[i];
                    assert(m[t] == prefix[i]);
                    assert(m[t].0 != m[m.len() - 1].0);
                }
            }
        }
    }
}

/// Excluding is idempotent: applying the same deny-list a second time
/// removes nothing more.
pub proof fn lemma_exclude_idempotent(m: Seq<(Seq<char>, Seq<u64>)>, reject: Seq<Entity>)
    ensures
        exclude_model(exclude_model(m, reject), reject) == exclude_model(m, reject),
    decreases m.len(),
{
    if m.len() > 0 {
        lemma_exclude_idempotent(m.drop_last(), reject);
        let prefix = exclude_model(m.drop_last(), reject);
        if !id_listed(reject, m.last().0) {
            assert(exclude_model(m, reject) == prefix.push(m.last()));
            assert(prefix.push(m.last()).drop_last() =~= prefix);
            assert(prefix.push(m.last()).last() == m.last());
        }
    }
}

/// Whether some entity in `es` has id `k`.
fn id_in_list(es: &Vec<Entity>, k: &String) -> (r: bool)
    ensures
        r == id_listed(es@, k@),
{
    let mut j: usize = 0;
    while j < es.len()
        invariant
            j <= es.len(),
            forall|t: int| 0 <= t < j ==> (#[trigger] es@[t]).id@ != k@,
        decreases es.len() - j,
    {
        if es[j].id == *k {
            assert(es@[j as int].id@ == k@);
            return true;
        }
        j += 1;
    }
    false
}

/// Restricts a membership mapping to an allow-list of entities.
///
/// An empty allow-list means the filter is inactive: the mapping comes back
/// unchanged, not emptied. A non-empty allow-list keeps exactly the keys
/// that are both present in the mapping and named in the list, each entry
/// verbatim from the input.
pub fn query_filter_for_entities(
    entities_components: MembershipMap,
    filter_entities: Vec<Entity>,
) -> (m: MembershipMap)
    requires
        entities_components.wf(),
    ensures
        m.wf(),
        filter_entities@.len() == 0 ==> m == entities_components,
        filter_entities@.len() > 0 ==> forall|k: Seq<char>|
            map_has_key(m@, k) <==> (map_has_key(entities_components@, k) && id_listed(
                filter_entities@,
                k,
            )),
        forall|t: int| 0 <= t < m@.len() ==> entities_components@.contains(#[trigger] m@[t]),
{
    if filter_entities.len() == 0 {
        proof {
            assert forall|t: int| 0 <= t < entities_components@.len() implies entities_components@
                .contains(#[trigger] entities_components@[t]) by {}
        }
        return entities_components;
    }
    let ghost mv = entities_components@;
    let ghost fv = filter_entities@;
    let mut out: Vec<(String, Vec<u64>)> = Vec::new();
    let mut i: usize = 0;
    while i < filter_entities.len()
        invariant
            i <= fv.len(),
            mv == entities_components@,
            fv == filter_entities@,
            entities_components.wf(),
            forall|k: Seq<char>|
                #![trigger map_has_key(entry_views(out@), k)]
                #![trigger id_listed(fv.take(i as int), k)]
                map_has_key(entry_views(out@), k) <==> (map_has_key(mv, k) && id_listed(
                    fv.take(i as int),
                    k,
                )),
            forall|t: int| 0 <= t < out@.len() ==> mv.contains(#[trigger] entry_views(out@)[t]),
            forall|t1: int, t2: int|
                0 <= t1 < t2 < out@.len() ==> entry_views(out@)[t1].0 != entry_views(out@)[t2].0,
            forall|t: int|
                0 <= t < out@.len() ==> (#[trigger] entry_views(out@)[t]).1.len() > 0,
        decreases fv.len() - i,
    {
        proof {
            assert(fv.take(i as int).push(fv[i as int]) =~= fv.take(i + 1));
            assert forall|k: Seq<char>|
                id_listed(fv.take(i + 1), k) <==> (id_listed(fv.take(i as int), k) || k
                    == fv[i as int].id@) by {
                if id_listed(fv.take(i + 1), k) {
                    let t = choose|t: int|
                        0 <= t < fv.take(i + 1).len() && (#[trigger] fv.take(i + 1)[t]).id@ == k;
                    if t < i {
                        assert(fv.take(i as int)[t].id@ == k);
                    }
                }
                if id_listed(fv.take(i as int), k) {
                    let t = choose|t: int|
                        0 <= t < fv.take(i as int).len() && (#[trigger] fv.take(i as int)[t]).id@
                            == k;
                    assert(fv.take(i + 1)[t].id@ == k);
                }
                if k == fv[i as int].id@ {
                    assert(fv.take(i + 1)[i as int].id@ == k);
                }
            }
        }
        let found = find_entry(&entities_components.entries, &filter_entities[i].id);
        match found {
            Some(j) => {
                let dup = find_entry(&out, &filter_entities[i].id);
                if dup.is_none() {
                    let key = filter_entities[i].id.clone();
                    let tags = copy_tags(&entities_components.entries[j].1);
                    let ghost old_out = out@;
                    out.push((key, tags));
                    proof {
                        let old_m = entry_views(old_out);
                        let new_m = entry_views(out@);
                        let ghost k0 = fv[i as int].id@;
                        assert(mv[j as int] == (k0, mv[j as int].1));
                        assert(new_m =~= old_m.push(mv[j as int]));
                        assert forall|k: Seq<char>|
                            map_has_key(new_m, k) <==> (map_has_key(mv, k) && id_listed(
                                fv.take(i + 1),
                                k,
                            )) by {
                            if map_has_key(new_m, k) {
                                let t = choose|t: int|
                                    0 <= t < new_m.len() && (#[trigger] new_m[t]).0 == k;
                                if t < old_m.len() {
                                    assert(old_m[t].0 == k);
                                    assert(map_has_key(old_m, k));
                                } else {
                                    assert(k == k0);
                                    assert(mv[j as int].0 == k);
                                }
                            }
                            if map_has_key(mv, k) && id_listed(fv.take(i + 1), k) {
                                if id_listed(fv.take(i as int), k) {
                                    assert(map_has_key(old_m, k));
                                    let t = choose|t: int|
                                        0 <= t < old_m.len() && (#[trigger] old_m[t]).0 == k;
                                    assert(new_m[t].0 == k);
                                } else {
                                    assert(k == k0);
                                    assert(new_m[old_m.len() as int].0 == k);
                                }
                            }
                        }
                        assert forall|t: int| 0 <= t < out@.len() implies mv.contains(
                            #[trigger] entry_views(out@)[t],
                        ) by {
                            if t < old_m.len() {
                                assert(new_m[t] == old_m[t]);
                            } else {
                                assert(new_m[t] == mv[j as int]);
                                assert(mv.contains(mv[j as int]));
                            }
                        }
                        assert forall|t1: int, t2: int|
                            0 <= t1 < t2 < out@.len() implies entry_views(out@)[t1].0
                            != entry_views(out@)[t2].0 by {
                            if t2 < old_m.len() {
                                assert(old_m[t1].0 != old_m[t2].0);
                            } else {
                                assert(new_m[t2].0 == k0);
                                assert(new_m[t1] == old_m[t1]);
                                assert(!map_has_key(old_m, k0));
                                assert(old_m[t1].0 != k0) by {
                                    if old_m[t1].0 == k0 {
                                        assert(map_has_key(old_m, k0));
                                    }
                                }
                            }
                        }
                        assert forall|t: int| 0 <= t < out@.len() implies (#[trigger] entry_views(
                            out@,
                        )[t]).1.len() > 0 by {
                            if t < old_m.len() {
                                assert(new_m[t] == old_m[t]);
                            } else {
                                assert(new_m[t] == mv[j as int]);
                            }
                        }
                    }
                } else {
                    proof {
                        let k0 = fv[i as int].id@;
                        assert(map_has_key(entry_views(out@), k0));
                        assert forall|k: Seq<char>|
                            map_has_key(entry_views(out@), k) <==> (map_has_key(mv, k)
                                && id_listed(fv.take(i + 1), k)) by {
                            assert(id_listed(fv.take(i + 1), k) <==> (id_listed(
                                fv.take(i as int),
                                k,
                            ) || k == k0));
                            if map_has_key(mv, k) && id_listed(fv.take(i + 1), k) && !id_listed(
                                fv.take(i as int),
                                k,
                            ) {
                                assert(k == k0);
                            }
                        }
                    }
                }
            },
            None => {
                proof {
                    let k0 = fv[i as int].id@;
                    assert(!map_has_key(mv, k0));
                    assert forall|k: Seq<char>|
                        map_has_key(entry_views(out@), k) <==> (map_has_key(mv, k) && id_listed(
                            fv.take(i + 1),
                            k,
                        )) by {
                        assert(id_listed(fv.take(i + 1), k) <==> (id_listed(fv.take(i as int), k)
                            || k == k0));
                        if map_has_key(mv, k) && id_listed(fv.take(i + 1), k) && !id_listed(
                            fv.take(i as int),
                            k,
                        ) {
                            assert(k == k0);
                        }
                    }
                }
            },
        }
        i += 1;
    }
    proof {
        assert(fv.take(fv.len() as int) =~= fv);
    }
    MembershipMap { entries: out }
}

/// Removes a deny-list of entities from a membership mapping.
///
/// Exactly the listed keys are deleted; ids not present, or an empty list,
/// change nothing. The surviving entries are kept verbatim and in order.
pub fn query_filter_not_for_entities(
    entities_components: MembershipMap,
    reject_entities: Vec<Entity>,
) -> (m: MembershipMap)
    requires
        entities_components.wf(),
    ensures
        m.wf(),
        m@ == exclude_model(entities_components@, reject_entities@),
        forall|k: Seq<char>|
            map_has_key(m@, k) <==> (map_has_key(entities_components@, k) && !id_listed(
                reject_entities@,
                k,
            )),
        forall|t: int| 0 <= t < m@.len() ==> entities_components@.contains(#[trigger] m@[t]),
{
    let ghost mv = entities_components@;
    let mut out: Vec<(String, Vec<u64>)> = Vec::new();
    let mut i: usize = 0;
    while i < entities_components.entries.len()
        invariant
            i <= mv.len(),
            mv == entities_components@,
            entities_components.wf(),
            entities_components.entries@.len() == mv.len(),
            entry_views(out@) == exclude_model(mv.take(i as int), reject_entities@),
        decreases mv.len() - i,
    {
        proof {
            assert(mv.take(i as int).push(mv[i as int]) =~= mv.take(i + 1));
            assert(mv.take(i + 1).drop_last() =~= mv.take(i as int));
            assert(mv.take(i + 1).last() == mv[i as int]);
        }
        let listed = id_in_list(&reject_entities, &entities_components.entries[i].0);
        proof {
            assert(mv[i as int].0 == entities_components.entries@[i as int].0@);
        }
        if !listed {
            let key = entities_components.entries[i].0.clone();
            let tags = copy_tags(&entities_components.entries[i].1);
            let ghost old_out = out@;
            out.push((key, tags));
            proof {
                assert(entry_views(out@) =~= entry_views(old_out).push(mv[i as int]));
            }
        }
        i += 1;
    }
    proof {
        assert(mv.take(mv.len() as int) =~= mv);
    }
    let m = MembershipMap { entries: out };
    proof {
        lemma_exclude_model_entries(mv, reject_entities@);
        lemma_exclude_model_keys(mv, reject_entities@);
        lemma_exclude_model_distinct(mv, reject_entities@);
        assert forall|t: int| 0 <= t < m@.len() implies (#[trigger] m@[t]).1.len() > 0 by {
            assert(mv.contains(m@[t]));
            let j = choose|j: int| 0 <= j < mv.len() && #[trigger] mv[j] == m@[t];
            assert(mv[j].1.len() > 0);
        }
    }
    m
}

} // verus!
