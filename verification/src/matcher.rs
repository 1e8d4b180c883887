//! Component set matcher: evaluates with/without clauses against a
//! membership mapping and returns the deduplicated union of the matching
//! entity ids.

use crate::types::{id_views, map_has_key, InputError, MembershipMap, QueryWithComponents};
use vstd::prelude::*;

verus! {

/// Whether a tag sequence satisfies one clause: it contains every tag in
/// `with` and none of the tags in `without`.
pub open spec fn clause_matches(tags: Seq<u64>, with: Seq<u64>, without: Seq<u64>) -> bool {
    (forall|i: int| 0 <= i < with.len() ==> tags.contains(with[i])) && (forall|i: int|
        0 <= i < without.len() ==> !tags.contains(without[i]))
}

/// The set of entity ids selected from mapping `m` by the clause list `cs`:
/// the keys of the entries whose tags satisfy at least one clause.
pub open spec fn selected(
    m: Seq<(Seq<char>, Seq<u64>)>,
    cs: Seq<QueryWithComponents>,
) -> Set<Seq<char>> {
    Set::new(
        |k: Seq<char>|
            exists|i: int, j: int|
                #![trigger m[i], cs[j]]
                0 <= i < m.len() && 0 <= j < cs.len() && m[i].0 == k && clause_matches(
                    m[i].1,
                    cs[j].with@,
                    cs[j].without@,
                ),
    )
}

/// The keys of the entries of `m` that one clause `c` matches, in mapping
/// order.
pub open spec fn clause_matched_keys(
    m: Seq<(Seq<char>, Seq<u64>)>,
    c: QueryWithComponents,
) -> Seq<Seq<char>>
    decreases m.len(),
{
    if m.len() == 0 {
        Seq::empty()
    } else {
        let prefix = clause_matched_keys(m.drop_last(), c);
        if clause_matches(m.last().1, c.with@, c.without@) {
            prefix.push(m.last().0)
        } else {
            prefix
        }
    }
}

/// Which keys one clause selects: exactly those with an entry whose tags
/// the clause matches.
pub proof fn lemma_clause_matched_keys_char(m: Seq<(Seq<char>, Seq<u64>)>, c: QueryWithComponents)
    ensures
        forall|k: Seq<char>|
            clause_matched_keys(m, c).contains(k) <==> exists|i: int|
                0 <= i < m.len() && (#[trigger] m[i]).0 == k && clause_matches(
                    m[i].1,
                    c.with@,
                    c.without@,
                ),
    decreases m.len(),
{
    if m.len() > 0 {
        lemma_clause_matched_keys_char(m.drop_last(), c);
        let ck = clause_matched_keys(m, c);
        let prefix = clause_matched_keys(m.drop_last(), c);
        assert forall|k: Seq<char>| ck.contains(k) implies exists|i: int|
            0 <= i < m.len() && (#[trigger] m[i]).0 == k && clause_matches(
                m[i].1,
                c.with@,
                c.without@,
            ) by {
            let t = choose|t: int| 0 <= t < ck.len() && #[trigger] ck[t] == k;
            if t < prefix.len() {
                assert(prefix.contains(k));
                let i = choose|i: int|
                    0 <= i < m.drop_last().len() && (#[trigger] m.drop_last()[i]).0 == k
                        && clause_matches(m.drop_last()[i].1, c.with@, c.without@);
                assert(m[i].0 == k && clause_matches(m[i].1, c.with@, c.without@));
            } else {
                assert(ck[t] == m.last().0);
                assert(m[m.len() - 1].0 == k && clause_matches(
                    m[m.len() - 1].1,
                    c.with@,
                    c.without@,
                ));
            }
        }
        assert forall|k: Seq<char>|
            (exists|i: int|
                0 <= i < m.len() && (#[trigger] m[i]).0 == k && clause_matches(
                    m[i].1,
                    c.with@,
                    c.without@,
                )) implies ck.contains(k) by {
            let i = choose|i: int|
                0 <= i < m.len() && (#[trigger] m[i]).0 == k && clause_matches(
                    m[i].1,
                    c.with@,
                    c.without@,
                );
            if i < m.len() - 1 {
                assert(m.drop_last()[i].0 == k && clause_matches(
                    m.drop_last()[i].1,
                    c.with@,
                    c.without@,
                ));
                assert(prefix.contains(k));
                let t = choose|t: int| 0 <= t < prefix.len() && #[trigger] prefix[t] == k;
                assert(ck[t] == k);
                assert(ck.contains(k));
            } else {
                assert(clause_matches(m.last().1, c.with@, c.without@));
                assert(ck.last() == k);
                assert(ck.contains(k));
            }
        }
    }
}

/// Extending the clause list by one clause extends the selected set by
/// exactly the keys that clause matches.
pub proof fn lemma_selected_step(m: Seq<(Seq<char>, Seq<u64>)>, cs: Seq<QueryWithComponents>, n: int)
    requires
        0 <= n < cs.len(),
    ensures
        forall|k: Seq<char>|
            selected(m, cs.take(n + 1)).contains(k) <==> (selected(m, cs.take(n)).contains(k)
                || clause_matched_keys(m, cs[n]).contains(k)),
{
    lemma_clause_matched_keys_char(m, cs[n]);
    assert forall|k: Seq<char>|
        selected(m, cs.take(n + 1)).contains(k) <==> (selected(m, cs.take(n)).contains(k)
            || clause_matched_keys(m, cs[n]).contains(k)) by {
        if selected(m, cs.take(n + 1)).contains(k) {
            let (i, j) = choose|i: int, j: int|
                #![trigger m[i], cs.take(n + 1)[j]]
                0 <= i < m.len() && 0 <= j < cs.take(n + 1).len() && m[i].0 == k
                    && clause_matches(m[i].1, cs.take(n + 1)[j].with@, cs.take(n + 1)[j].without@);
            if j < n {
                assert(cs.take(n as int)[j] == cs[j]);
                assert(selected(m, cs.take(n as int)).contains(k));
            } else {
                assert(cs.take(n + 1)[j] == cs[n]);
                assert(clause_matched_keys(m, cs[n]).contains(k));
            }
        }
        if selected(m, cs.take(n as int)).contains(k) {
            let (i, j) = choose|i: int, j: int|
                #![trigger m[i], cs.take(n as int)[j]]
                0 <= i < m.len() && 0 <= j < cs.take(n as int).len() && m[i].0 == k
                    && clause_matches(
                    m[i].1,
                    cs.take(n as int)[j].with@,
                    cs.take(n as int)[j].without@,
                );
            assert(cs.take(n + 1)[j] == cs[j]);
            assert(selected(m, cs.take(n + 1)).contains(k));
        }
        if clause_matched_keys(m, cs[n]).contains(k) {
            let i = choose|i: int|
                0 <= i < m.len() && (#[trigger] m[i]).0 == k && clause_matches(
                    m[i].1,
                    cs[n].with@,
                    cs[n].without@,
                );
            assert(cs.take(n + 1)[n] == cs[n]);
            assert(selected(m, cs.take(n + 1)).contains(k));
        }
    }
}

/// Whether the clause list `cs` holds a clause with exactly the given
/// `with` and `without` tag sequences.
pub open spec fn clause_in(cs: Seq<QueryWithComponents>, w: Seq<u64>, wo: Seq<u64>) -> bool {
    exists|j: int| 0 <= j < cs.len() && (#[trigger] cs[j]).with@ == w && cs[j].without@ == wo
}

/// Whether the mapping `m` holds an entry with exactly the given key and
/// tag sequence.
pub open spec fn entry_in(m: Seq<(Seq<char>, Seq<u64>)>, k: Seq<char>, tags: Seq<u64>) -> bool {
    exists|i: int| 0 <= i < m.len() && (#[trigger] m[i]).0 == k && m[i].1 == tags
}

/// Clause-order law: two clause lists holding the same clauses - in any
/// order, with any duplication - select the same entity set.
pub proof fn lemma_selected_clause_order(
    m: Seq<(Seq<char>, Seq<u64>)>,
    cs1: Seq<QueryWithComponents>,
    cs2: Seq<QueryWithComponents>,
)
    requires
        forall|w: Seq<u64>, wo: Seq<u64>| clause_in(cs1, w, wo) <==> clause_in(cs2, w, wo),
    ensures
        selected(m, cs1) == selected(m, cs2),
{
    assert forall|k: Seq<char>| selected(m, cs1).contains(k) implies selected(m, cs2).contains(
        k,
    ) by {
        lemma_selected_swap(m, cs1, cs2, k);
    }
    assert forall|k: Seq<char>| selected(m, cs2).contains(k) implies selected(m, cs1).contains(
        k,
    ) by {
        lemma_selected_swap(m, cs2, cs1, k);
    }
    assert(selected(m, cs1) =~= selected(m, cs2));
}

/// One direction of the clause-order law.
proof fn lemma_selected_swap(
    m: Seq<(Seq<char>, Seq<u64>)>,
    cs1: Seq<QueryWithComponents>,
    cs2: Seq<QueryWithComponents>,
    k: Seq<char>,
)
    requires
        forall|w: Seq<u64>, wo: Seq<u64>| clause_in(cs1, w, wo) ==> clause_in(cs2, w, wo),
        selected(m, cs1).contains(k),
    ensures
        selected(m, cs2).contains(k),
{
    let (i, j) = choose|i: int, j: int|
        #![trigger m[i], cs1[j]]
        0 <= i < m.len() && 0 <= j < cs1.len() && m[i].0 == k && clause_matches(
            m[i].1,
            cs1[j].with@,
            cs1[j].without@,
        );
    assert(clause_in(cs1, cs1[j].with@, cs1[j].without@));
    assert(clause_in(cs2, cs1[j].with@, cs1[j].without@));
    let j2 = choose|j2: int|
        0 <= j2 < cs2.len() && (#[trigger] cs2[j2]).with@ == cs1[j].with@ && cs2[j2].without@
            == cs1[j].without@;
    assert(clause_matches(m[i].1, cs2[j2].with@, cs2[j2].without@));
}

/// Entity-order law: two mappings holding the same entries - in any order,
/// with any duplication - give the same selected set for any clause list.
pub proof fn lemma_selected_entry_order(
    m1: Seq<(Seq<char>, Seq<u64>)>,
    m2: Seq<(Seq<char>, Seq<u64>)>,
    cs: Seq<QueryWithComponents>,
)
    requires
        forall|k: Seq<char>, tags: Seq<u64>| entry_in(m1, k, tags) <==> entry_in(m2, k, tags),
    ensures
        selected(m1, cs) == selected(m2, cs),
{
    assert forall|k: Seq<char>| selected(m1, cs).contains(k) implies selected(m2, cs).contains(
        k,
    ) by {
        lemma_selected_entry_swap(m1, m2, cs, k);
    }
    assert forall|k: Seq<char>| selected(m2, cs).contains(k) implies selected(m1, cs).contains(
        k,
    ) by {
        lemma_selected_entry_swap(m2, m1, cs, k);
    }
    assert(selected(m1, cs) =~= selected(m2, cs));
}

/// One direction of the entity-order law.
proof fn lemma_selected_entry_swap(
    m1: Seq<(Seq<char>, Seq<u64>)>,
    m2: Seq<(Seq<char>, Seq<u64>)>,
    cs: Seq<QueryWithComponents>,
    k: Seq<char>,
)
    requires
        forall|k2: Seq<char>, tags: Seq<u64>| entry_in(m1, k2, tags) ==> entry_in(m2, k2, tags),
        selected(m1, cs).contains(k),
    ensures
        selected(m2, cs).contains(k),
{
    let (i, j) = choose|i: int, j: int|
        #![trigger m1[i], cs[j]]
        0 <= i < m1.len() && 0 <= j < cs.len() && m1[i].0 == k && clause_matches(
            m1[i].1,
            cs[j].with@,
            cs[j].without@,
        );
    assert(entry_in(m1, k, m1[i].1));
    assert(entry_in(m2, k, m1[i].1));
    let i2 = choose|i2: int|
        0 <= i2 < m2.len() && (#[trigger] m2[i2]).0 == k && m2[i2].1 == m1[i].1;
    assert(clause_matches(m2[i2].1, cs[j].with@, cs[j].without@));
}

/// Empty-clause law: when some clause requires nothing and excludes
/// nothing, the selected set is exactly the keys of the mapping.
pub proof fn lemma_empty_clause_selects_all(
    m: Seq<(Seq<char>, Seq<u64>)>,
    cs: Seq<QueryWithComponents>,
    j: int,
)
    requires
        0 <= j < cs.len(),
        cs[j].with@.len() == 0,
        cs[j].without@.len() == 0,
    ensures
        forall|k: Seq<char>| selected(m, cs).contains(k) <==> map_has_key(m, k),
{
    assert forall|k: Seq<char>| selected(m, cs).contains(k) <==> map_has_key(m, k) by {
        if map_has_key(m, k) {
            let i = choose|i: int| 0 <= i < m.len() && (#[trigger] m[i]).0 == k;
            assert(clause_matches(m[i].1, cs[j].with@, cs[j].without@));
            assert(selected(m, cs).contains(k));
        }
        if selected(m, cs).contains(k) {
            let (i, j2) = choose|i: int, j2: int|
                #![trigger m[i], cs[j2]]
                0 <= i < m.len() && 0 <= j2 < cs.len() && m[i].0 == k && clause_matches(
                    m[i].1,
                    cs[j2].with@,
                    cs[j2].without@,
                );
            assert(map_has_key(m, k));
        }
    }
}

/// Whether `tags` holds the tag `t`.
fn contains_tag(tags: &Vec<u64>, t: u64) -> (r: bool)
    ensures
        r == tags@.contains(t),
{
    let mut j: usize = 0;
    while j < tags.len()
        invariant
            j <= tags.len(),
            forall|i: int| 0 <= i < j ==> tags@[i] != t,
        decreases tags.len() - j,
    {
        if tags[j] == t {
            return true;
        }
        j += 1;
    }
    false
}

/// Whether one entity's tags satisfy one clause.
fn entity_matches(tags: &Vec<u64>, clause: &QueryWithComponents) -> (r: bool)
    ensures
        r == clause_matches(tags@, clause.with@, clause.without@),
{
    let mut j: usize = 0;
    while j < clause.with.len()
        invariant
            j <= clause.with@.len(),
            forall|i: int| 0 <= i < j ==> tags@.contains(clause.with@[i]),
        decreases clause.with@.len() - j,
    {
        if !contains_tag(tags, clause.with[j]) {
            return false;
        }
        j += 1;
    }
    let mut j: usize = 0;
    while j < clause.without.len()
        invariant
            j <= clause.without@.len(),
            forall|i: int| 0 <= i < clause.with@.len() ==> tags@.contains(clause.with@[i]),
            forall|i: int| 0 <= i < j ==> !tags@.contains(clause.without@[i]),
        decreases clause.without@.len() - j,
    {
        if contains_tag(tags, clause.without[j]) {
            return false;
        }
        j += 1;
    }
    true
}

/// Scans the whole mapping with a single clause and returns the matching
/// entity ids, in mapping order. Splitting a query by clause and merging
/// the per-clause results afterwards gives the same selected set, so this
/// scan is the unit of work a parallel driver may hand out.
pub fn match_entities_for_clause(
    entities_components: &MembershipMap,
    clause: &QueryWithComponents,
) -> (ids: Vec<String>)
    ensures
        id_views(ids@) == clause_matched_keys(entities_components@, *clause),
{
    let ghost mv = entities_components@;
    let mut ids: Vec<String> = Vec::new();
    let mut i: usize = 0;
    while i < entities_components.entries.len()
        invariant
            i <= mv.len(),
            mv == entities_components@,
            entities_components.entries@.len() == mv.len(),
            id_views(ids@) == clause_matched_keys(mv.take(i as int), *clause),
        decreases mv.len() - i,
    {
        proof {
            assert(mv.take(i as int).push(mv[i as int]) =~= mv.take(i + 1));
            assert(mv.take(i + 1).drop_last() =~= mv.take(i as int));
            assert(mv.take(i + 1).last() == mv[i as int]);
            assert(mv[i as int].1 == entities_components.entries@[i as int].1@);
        }
        let matched = entity_matches(&entities_components.entries[i].1, clause);
        if matched {
            let ghost old_ids = ids@;
            ids.push(entities_components.entries[i].0.clone());
            proof {
                assert(id_views(ids@) =~= id_views(old_ids).push(mv[i as int].0));
            }
        }
        i += 1;
    }
    proof {
        assert(mv.take(mv.len() as int) =~= mv);
    }
    ids
}

/// Whether the id list already holds id `k`.
fn id_known(ids: &Vec<String>, k: &String) -> (r: bool)
    ensures
        r == id_views(ids@).contains(k@),
{
    let mut j: usize = 0;
    while j < ids.len()
        invariant
            j <= ids.len(),
            forall|t: int| 0 <= t < j ==> (#[trigger] id_views(ids@)[t]) != k@,
        decreases ids.len() - j,
    {
        if ids[j] == *k {
            assert(id_views(ids@)[j as int] == k@);
            return true;
        }
        j += 1;
    }
    false
}

/// Whether some list in `lists` holds the id `k`.
pub open spec fn id_in_lists(lists: Seq<Vec<String>>, k: Seq<char>) -> bool {
    exists|i: int| 0 <= i < lists.len() && id_views((#[trigger] lists[i])@).contains(k)
}

/// Merges per-clause result lists into one deduplicated id list holding
/// exactly their union. The per-clause scans read only shared immutable
/// input, so a driver may produce the lists concurrently, in any order:
/// the merged set does not depend on it.
pub fn merge_unique_ids(lists: &Vec<Vec<String>>) -> (ids: Vec<String>)
    ensures
        id_views(ids@).no_duplicates(),
        forall|k: Seq<char>|
            #![trigger id_views(ids@).contains(k)]
            id_views(ids@).contains(k) <==> id_in_lists(lists@, k),
{
    let ghost lv = lists@;
    let mut ids: Vec<String> = Vec::new();
    let mut li: usize = 0;
    while li < lists.len()
        invariant
            li <= lv.len(),
            lv == lists@,
            id_views(ids@).no_duplicates(),
            forall|k: Seq<char>|
                #![trigger id_views(ids@).contains(k)]
                id_views(ids@).contains(k) <==> id_in_lists(lv.take(li as int), k),
        decreases lv.len() - li,
    {
        let ghost ckeys = id_views(lv[li as int]@);
        proof {
            assert(lv.take(li as int).push(lv[li as int]) =~= lv.take(li + 1));
            assert forall|k: Seq<char>|
                id_in_lists(lv.take(li + 1), k) <==> (id_in_lists(lv.take(li as int), k)
                    || ckeys.contains(k)) by {
                if id_in_lists(lv.take(li + 1), k) {
                    let u = choose|u: int|
                        0 <= u < lv.take(li + 1).len() && id_views(
                            (#[trigger] lv.take(li + 1)[u])@,
                        ).contains(k);
                    if u < li {
                        assert(lv.take(li as int)[u] == lv[u]);
                        assert(id_in_lists(lv.take(li as int), k));
                    }
                }
                if id_in_lists(lv.take(li as int), k) {
                    let u = choose|u: int|
                        0 <= u < lv.take(li as int).len() && id_views(
                            (#[trigger] lv.take(li as int)[u])@,
                        ).contains(k);
                    assert(lv.take(li + 1)[u] == lv[u]);
                }
                if ckeys.contains(k) {
                    assert(id_views(lv.take(li + 1)[li as int]@).contains(k));
                }
            }
        }
        let cur = &lists[li];
        let mut t: usize = 0;
        while t < cur.len()
            invariant
                t <= cur@.len(),
                li < lv.len(),
                lv == lists@,
                cur@ == lv[li as int]@,
                ckeys == id_views(lv[li as int]@),
                id_views(ids@).no_duplicates(),
                forall|k: Seq<char>|
                    #![trigger id_views(ids@).contains(k)]
                    id_views(ids@).contains(k) <==> (id_in_lists(lv.take(li as int), k)
                        || ckeys.take(t as int).contains(k)),
            decreases cur@.len() - t,
        {
            proof {
                assert(ckeys.take(t as int).push(ckeys[t as int]) =~= ckeys.take(t + 1));
                assert(id_views(cur@)[t as int] == cur@[t as int]@);
                assert forall|k: Seq<char>|
                    ckeys.take(t + 1).contains(k) <==> (ckeys.take(t as int).contains(k) || k
                        == ckeys[t as int]) by {
                    if ckeys.take(t + 1).contains(k) {
                        let u = choose|u: int|
                            0 <= u < ckeys.take(t + 1).len() && #[trigger] ckeys.take(t + 1)[u]
                                == k;
                        if u < t {
                            assert(ckeys.take(t as int)[u] == k);
                        }
                    }
                    if ckeys.take(t as int).contains(k) {
                        let u = choose|u: int|
                            0 <= u < ckeys.take(t as int).len() && #[trigger] ckeys.take(
                                t as int,
                            )[u] == k;
                        assert(ckeys.take(t + 1)[u] == k);
                    }
                    if k == ckeys[t as int] {
                        assert(ckeys.take(t + 1)[t as int] == k);
                    }
                }
            }
            let known = id_known(&ids, &cur[t]);
            if !known {
                let ghost old_ids = ids@;
                ids.push(cur[t].clone());
                proof {
                    let k0 = ckeys[t as int];
                    assert(cur@[t as int]@ == k0);
                    assert(id_views(ids@) =~= id_views(old_ids).push(k0));
                    assert(!id_views(old_ids).contains(k0));
                    assert forall|a: int, b: int|
                        0 <= a < b < id_views(ids@).len() implies id_views(ids@)[a] != id_views(
                        ids@,
                    )[b] by {
                        if b < id_views(old_ids).len() {
                            assert(id_views(ids@)[a] == id_views(old_ids)[a]);
                            assert(id_views(ids@)[b] == id_views(old_ids)[b]);
                        } else {
                            assert(id_views(ids@)[b] == k0);
                            assert(id_views(ids@)[a] == id_views(old_ids)[a]);
                            if id_views(old_ids)[a] == k0 {
                                assert(id_views(old_ids).contains(k0));
                            }
                        }
                    }
                    assert forall|k: Seq<char>|
                        id_views(ids@).contains(k) <==> (id_in_lists(lv.take(li as int), k)
                            || ckeys.take(t + 1).contains(k)) by {
                        if id_views(ids@).contains(k) {
                            let u = choose|u: int|
                                0 <= u < id_views(ids@).len() && #[trigger] id_views(ids@)[u]
                                    == k;
                            if u < id_views(old_ids).len() {
                                assert(id_views(old_ids)[u] == k);
                                assert(id_views(old_ids).contains(k));
                            } else {
                                assert(k == k0);
                            }
                        }
                        if id_in_lists(lv.take(li as int), k) || ckeys.take(t as int).contains(
                            k,
                        ) {
                            assert(id_views(old_ids).contains(k));
                            let u = choose|u: int|
                                0 <= u < id_views(old_ids).len() && #[trigger] id_views(
                                    old_ids,
                                )[u] == k;
                            assert(id_views(ids@)[u] == k);
                        }
                        if k == k0 {
                            assert(id_views(ids@)[id_views(old_ids).len() as int] == k);
                        }
                    }
                }
            } else {
                proof {
                    assert forall|k: Seq<char>|
                        id_views(ids@).contains(k) <==> (id_in_lists(lv.take(li as int), k)
                            || ckeys.take(t + 1).contains(k)) by {
                        if k == ckeys[t as int] {
                            assert(id_views(ids@).contains(ckeys[t as int]));
                        }
                    }
                }
            }
            t += 1;
        }
        proof {
            assert(ckeys.take(ckeys.len() as int) =~= ckeys);
            assert forall|k: Seq<char>|
                id_views(ids@).contains(k) <==> id_in_lists(lv.take(li + 1), k) by {
                assert(id_views(ids@).contains(k) <==> (id_in_lists(lv.take(li as int), k)
                    || ckeys.take(cur@.len() as int).contains(k)));
                assert(ckeys.take(cur@.len() as int) == ckeys);
            }
        }
        li += 1;
    }
    proof {
        assert(lv.take(lv.len() as int) =~= lv);
    }
    ids
}

/// Evaluates a clause list against a membership mapping: the deduplicated
/// union, over all clauses, of the entities each clause matches.
///
/// An empty clause list is a malformed query and is rejected; the order of
/// the returned ids is unspecified and carries no meaning.
pub fn query_filter_by_components(
    entities_components: &MembershipMap,
    components: &Vec<QueryWithComponents>,
) -> (r: Result<Vec<String>, InputError>)
    ensures
        match r {
            Ok(ids) => components@.len() > 0 && id_views(ids@).no_duplicates() && forall|
                k: Seq<char>,
            |
                id_views(ids@).contains(k) <==> selected(entities_components@, components@)
                    .contains(k),
            Err(e) => components@.len() == 0 && e == InputError,
        },
{
    if components.len() == 0 {
        return Err(InputError);
    }
    let ghost mv = entities_components@;
    let ghost cv = components@;
    let mut ids: Vec<String> = Vec::new();
    let mut ci: usize = 0;
    proof {
        assert forall|k: Seq<char>| !selected(mv, cv.take(0)).contains(k) by {
            if selected(mv, cv.take(0)).contains(k) {
                let (i, j) = choose|i: int, j: int|
                    #![trigger mv[i], cv.take(0)[j]]
                    0 <= i < mv.len() && 0 <= j < cv.take(0).len() && mv[i].0 == k
                        && clause_matches(mv[i].1, cv.take(0)[j].with@, cv.take(0)[j].without@);
            }
        }
    }
    while ci < components.len()
        invariant
            ci <= cv.len(),
            mv == entities_components@,
            cv == components@,
            components@.len() == cv.len(),
            id_views(ids@).no_duplicates(),
            forall|k: Seq<char>|
                #![trigger id_views(ids@).contains(k)]
                #![trigger selected(mv, cv.take(ci as int)).contains(k)]
                id_views(ids@).contains(k) <==> selected(mv, cv.take(ci as int)).contains(k),
        decreases cv.len() - ci,
    {
        let clause_ids = match_entities_for_clause(entities_components, &components[ci]);
        let ghost ckeys = clause_matched_keys(mv, cv[ci as int]);
        proof {
            lemma_selected_step(mv, cv, ci as int);
        }
        let mut t: usize = 0;
        while t < clause_ids.len()
            invariant
                t <= clause_ids@.len(),
                ci < cv.len(),
                mv == entities_components@,
                cv == components@,
                ckeys == clause_matched_keys(mv, cv[ci as int]),
                id_views(clause_ids@) == ckeys,
                id_views(ids@).no_duplicates(),
                forall|k: Seq<char>|
                    #![trigger id_views(ids@).contains(k)]
                    id_views(ids@).contains(k) <==> (selected(mv, cv.take(ci as int)).contains(k)
                        || ckeys.take(t as int).contains(k)),
            decreases clause_ids@.len() - t,
        {
            proof {
                assert(ckeys.take(t as int).push(ckeys[t as int]) =~= ckeys.take(t + 1));
                assert(id_views(clause_ids@)[t as int] == clause_ids@[t as int]@);
                assert forall|k: Seq<char>|
                    ckeys.take(t + 1).contains(k) <==> (ckeys.take(t as int).contains(k) || k
                        == ckeys[t as int]) by {
                    if ckeys.take(t + 1).contains(k) {
                        let u = choose|u: int|
                            0 <= u < ckeys.take(t + 1).len() && #[trigger] ckeys.take(t + 1)[u]
                                == k;
                        if u < t {
                            assert(ckeys.take(t as int)[u] == k);
                        }
                    }
                    if ckeys.take(t as int).contains(k) {
                        let u = choose|u: int|
                            0 <= u < ckeys.take(t as int).len() && #[trigger] ckeys.take(
                                t as int,
                            )[u] == k;
                        assert(ckeys.take(t + 1)[u] == k);
                    }
                    if k == ckeys[t as int] {
                        assert(ckeys.take(t + 1)[t as int] == k);
                    }
                }
            }
            let known = id_known(&ids, &clause_ids[t]);
            if !known {
                let ghost old_ids = ids@;
                ids.push(clause_ids[t].clone());
                proof {
                    let k0 = ckeys[t as int];
                    assert(clause_ids@[t as int]@ == k0);
                    assert(id_views(ids@) =~= id_views(old_ids).push(k0));
                    assert(!id_views(old_ids).contains(k0));
                    assert forall|a: int, b: int|
                        0 <= a < b < id_views(ids@).len() implies id_views(ids@)[a] != id_views(
                        ids@,
                    )[b] by {
                        if b < id_views(old_ids).len() {
                            assert(id_views(ids@)[a] == id_views(old_ids)[a]);
                            assert(id_views(ids@)[b] == id_views(old_ids)[b]);
                        } else {
                            assert(id_views(ids@)[b] == k0);
                            assert(id_views(ids@)[a] == id_views(old_ids)[a]);
                            if id_views(old_ids)[a] == k0 {
                                assert(id_views(old_ids).contains(k0));
                            }
                        }
                    }
                    assert forall|k: Seq<char>|
                        id_views(ids@).contains(k) <==> (selected(mv, cv.take(ci as int))
                            .contains(k) || ckeys.take(t + 1).contains(k)) by {
                        if id_views(ids@).contains(k) {
                            let u = choose|u: int|
                                0 <= u < id_views(ids@).len() && #[trigger] id_views(ids@)[u]
                                    == k;
                            if u < id_views(old_ids).len() {
                                assert(id_views(old_ids)[u] == k);
                                assert(id_views(old_ids).contains(k));
                            } else {
                                assert(k == k0);
                            }
                        }
                        if selected(mv, cv.take(ci as int)).contains(k) || ckeys.take(
                            t as int,
                        ).contains(k) {
                            assert(id_views(old_ids).contains(k));
                            let u = choose|u: int|
                                0 <= u < id_views(old_ids).len() && #[trigger] id_views(
                                    old_ids,
                                )[u] == k;
                            assert(id_views(ids@)[u] == k);
                        }
                        if k == k0 {
                            assert(id_views(ids@)[id_views(old_ids).len() as int] == k);
                        }
                    }
                }
            } else {
                proof {
                    assert forall|k: Seq<char>|
                        id_views(ids@).contains(k) <==> (selected(mv, cv.take(ci as int))
                            .contains(k) || ckeys.take(t + 1).contains(k)) by {
                        if k == ckeys[t as int] {
                            assert(id_views(ids@).contains(ckeys[t as int]));
                        }
                    }
                }
            }
            t += 1;
        }
        proof {
            assert(ckeys.take(ckeys.len() as int) =~= ckeys);
            assert(id_views(clause_ids@).len() == ckeys.len());
            assert forall|k: Seq<char>|
                id_views(ids@).contains(k) <==> selected(mv, cv.take(ci + 1)).contains(k) by {
                assert(id_views(ids@).contains(k) <==> (selected(mv, cv.take(ci as int)).contains(
                    k,
                ) || ckeys.take(clause_ids@.len() as int).contains(k)));
                assert(ckeys.take(clause_ids@.len() as int) == ckeys);
            }
        }
        ci += 1;
    }
    proof {
        assert(cv.take(cv.len() as int) =~= cv);
    }
    Ok(ids)
}

} // verus!
