//! Result tuple builder: materializes one ordered tuple per qualifying
//! entity, joining the entity list with the sparse component value table.

use crate::types::{id_views, table_has, table_value, Slot, SlotModel, ValueTable};
use vstd::prelude::*;

verus! {

/// Whether entity `k` has a value in the table for every tag in `mand`.
pub open spec fn has_mandatory(t: Seq<(Seq<char>, u64, u64)>, k: Seq<char>, mand: Seq<u64>) -> bool {
    forall|i: int| 0 <= i < mand.len() ==> table_has(t, k, mand[i])
}

/// The mandatory slots of an entity's tuple: one value per tag, in order.
pub open spec fn mand_slots(
    t: Seq<(Seq<char>, u64, u64)>,
    k: Seq<char>,
    mand: Seq<u64>,
) -> Seq<SlotModel> {
    mand.map_values(|c: u64| SlotModel::Value(table_value(t, k, c)))
}

/// The optional slots of an entity's tuple: the value where one exists,
/// the absent sentinel where none does.
pub open spec fn opt_slots(
    t: Seq<(Seq<char>, u64, u64)>,
    k: Seq<char>,
    opt: Seq<u64>,
) -> Seq<SlotModel> {
    opt.map_values(
        |c: u64|
            if table_has(t, k, c) {
                SlotModel::Value(table_value(t, k, c))
            } else {
                SlotModel::Absent
            },
    )
}

/// The tuple built for entity `k`: the id first when requested, then the
/// mandatory values in order, then the optional slots in order.
pub open spec fn row_model(
    t: Seq<(Seq<char>, u64, u64)>,
    k: Seq<char>,
    flag: bool,
    mand: Seq<u64>,
    opt: Seq<u64>,
) -> Seq<SlotModel> {
    (if flag {
        seq![SlotModel::Id(k)]
    } else {
        Seq::empty()
    }) + mand_slots(t, k, mand) + opt_slots(t, k, opt)
}

/// The tuples built for an entity list: one per entity that has every
/// mandatory value, in entity-list order; entities missing a mandatory
/// value contribute nothing.
pub open spec fn rows_model(
    t: Seq<(Seq<char>, u64, u64)>,
    ids: Seq<Seq<char>>,
    flag: bool,
    mand: Seq<u64>,
    opt: Seq<u64>,
) -> Seq<Seq<SlotModel>>
    decreases ids.len(),
{
    if ids.len() == 0 {
        Seq::empty()
    } else {
        let prefix = rows_model(t, ids.drop_last(), flag, mand, opt);
        if has_mandatory(t, ids.last(), mand) {
            prefix.push(row_model(t, ids.last(), flag, mand, opt))
        } else {
            prefix
        }
    }
}

/// The model of one built tuple: each slot replaced by its model.
pub open spec fn slot_views(r: Seq<Slot>) -> Seq<SlotModel> {
    r.map_values(|s: Slot| s@)
}

/// The model of a built tuple list.
pub open spec fn rows_views(rs: Seq<Vec<Slot>>) -> Seq<Seq<SlotModel>> {
    rs.map_values(|r: Vec<Slot>| slot_views(r@))
}

/// Mandatory-absence law: the output is exactly one tuple for each entity
/// that has a value for every mandatory tag, in entity order; an entity
/// missing any mandatory value is dropped entirely, never emitted with a
/// filler.
pub proof fn lemma_rows_are_complete_entities(
    t: Seq<(Seq<char>, u64, u64)>,
    ids: Seq<Seq<char>>,
    flag: bool,
    mand: Seq<u64>,
    opt: Seq<u64>,
)
    ensures
        rows_model(t, ids, flag, mand, opt) == ids.filter(|k: Seq<char>| has_mandatory(t, k, mand))
            .map_values(|k: Seq<char>| row_model(t, k, flag, mand, opt)),
    decreases ids.len(),
{
    reveal(Seq::filter);
    let pred = |k: Seq<char>| has_mandatory(t, k, mand);
    let to_row = |k: Seq<char>| row_model(t, k, flag, mand, opt);
    if ids.len() == 0 {
        assert(rows_model(t, ids, flag, mand, opt) =~= ids.filter(pred).map_values(to_row));
    } else {
        lemma_rows_are_complete_entities(t, ids.drop_last(), flag, mand, opt);
        let sub = ids.drop_last().filter(pred);
        if pred(ids.last()) {
            assert(ids.filter(pred) == sub.push(ids.last()));
            assert(sub.push(ids.last()).map_values(to_row) =~= sub.map_values(to_row).push(
                to_row(ids.last()),
            ));
        } else {
            assert(ids.filter(pred) == sub);
        }
    }
}

/// Optional-absence law: a tuple always has one slot per requested column;
/// every mandatory slot holds the table's value, and an optional slot holds
/// the value where the table has one and the absent sentinel where it does
/// not - never a dropped slot.
pub proof fn lemma_row_slots(
    t: Seq<(Seq<char>, u64, u64)>,
    k: Seq<char>,
    flag: bool,
    mand: Seq<u64>,
    opt: Seq<u64>,
)
    ensures
        row_model(t, k, flag, mand, opt).len() == (if flag {
            1int
        } else {
            0int
        }) + mand.len() + opt.len(),
        flag ==> row_model(t, k, flag, mand, opt)[0] == SlotModel::Id(k),
        forall|i: int|
            0 <= i < mand.len() ==> row_model(t, k, flag, mand, opt)[(if flag {
                1int
            } else {
                0int
            }) + i] == SlotModel::Value(table_value(t, k, mand[i])),
        forall|i: int|
            0 <= i < opt.len() ==> row_model(t, k, flag, mand, opt)[(if flag {
                1int
            } else {
                0int
            }) + mand.len() + i] == (if table_has(t, k, opt[i]) {
                SlotModel::Value(table_value(t, k, opt[i]))
            } else {
                SlotModel::Absent
            }),
{
}

/// Looks up the value the table holds for `(k, tag)`, if any.
fn table_get(table: &ValueTable, k: &String, tag: u64) -> (r: Option<u64>)
    requires
        table.wf(),
    ensures
        match r {
            Some(v) => table_has(table@, k@, tag) && v == table_value(table@, k@, tag),
            None => !table_has(table@, k@, tag),
        },
{
    let ghost tv = table@;
    let mut j: usize = 0;
    while j < table.entries.len()
        invariant
            j <= tv.len(),
            tv == table@,
            table.wf(),
            table.entries@.len() == tv.len(),
            forall|i: int| 0 <= i < j ==> !((#[trigger] tv[i]).0 == k@ && tv[i].1 == tag),
        decreases tv.len() - j,
    {
        if table.entries[j].0 == *k && table.entries[j].1 == tag {
            proof {
                assert(tv[j as int].0 == k@ && tv[j as int].1 == tag);
                assert(table_has(tv, k@, tag));
                let i = choose|i: int|
                    0 <= i < tv.len() && (#[trigger] tv[i]).0 == k@ && tv[i].1 == tag;
                assert((tv[i].0, tv[i].1) == (tv[j as int].0, tv[j as int].1));
                assert(i == j as int);
            }
            return Some(table.entries[j].2);
        }
        j += 1;
    }
    None
}

/// Builds the return tuples for the qualifying entities.
///
/// One tuple per entity in input order: the entity id first when
/// `return_entity` is set, then one slot per mandatory tag, then one per
/// optional tag. An entity missing any mandatory value is dropped from the
/// output entirely; a missing optional value becomes the absent sentinel.
pub fn build_return_vectors(
    return_entity: bool,
    select_components: &Vec<u64>,
    select_optional_components: &Vec<u64>,
    entity_ids: &Vec<String>,
    filtered_components_map: &ValueTable,
) -> (result: Vec<Vec<Slot>>)
    requires
        filtered_components_map.wf(),
    ensures
        rows_views(result@) == rows_model(
            filtered_components_map@,
            id_views(entity_ids@),
            return_entity,
            select_components@,
            select_optional_components@,
        ),
{
    let ghost tv = filtered_components_map@;
    let ghost idv = id_views(entity_ids@);
    let ghost mandv = select_components@;
    let ghost optv = select_optional_components@;
    let mut result: Vec<Vec<Slot>> = Vec::new();
    let mut e: usize = 0;
    while e < entity_ids.len()
        invariant
            e <= idv.len(),
            tv == filtered_components_map@,
            idv == id_views(entity_ids@),
            mandv == select_components@,
            optv == select_optional_components@,
            entity_ids@.len() == idv.len(),
            filtered_components_map.wf(),
            rows_views(result@) == rows_model(tv, idv.take(e as int), return_entity, mandv, optv),
        decreases idv.len() - e,
    {
        proof {
            assert(idv.take(e as int).push(idv[e as int]) =~= idv.take(e + 1));
            assert(idv.take(e + 1).drop_last() =~= idv.take(e as int));
            assert(idv.take(e + 1).last() == idv[e as int]);
            assert(idv[e as int] == entity_ids@[e as int]@);
        }
        let entity_id = &entity_ids[e];
        let ghost k0 = entity_id@;
        let mut record: Vec<Slot> = Vec::new();
        if return_entity {
            record.push(Slot::Id(entity_id.clone()));
        }
        let ghost head = (if return_entity {
            seq![SlotModel::Id(k0)]
        } else {
            Seq::<SlotModel>::empty()
        });
        proof {
            assert(slot_views(record@) =~= head);
        }
        let mut ok = true;
        let mut c: usize = 0;
        while c < select_components.len()
            invariant
                c <= mandv.len(),
                tv == filtered_components_map@,
                mandv == select_components@,
                filtered_components_map.wf(),
                select_components@.len() == mandv.len(),
                k0 == entity_id@,
                ok == (forall|i: int| 0 <= i < c ==> table_has(tv, k0, mandv[i])),
                ok ==> slot_views(record@) == head + mand_slots(tv, k0, mandv.take(c as int)),
            decreases mandv.len() - c,
        {
            let found = table_get(filtered_components_map, entity_id, select_components[c]);
            match found {
                Some(v) => {
                    if ok {
                        let ghost old_rec = record@;
                        record.push(Slot::Value(v));
                        proof {
                            assert(slot_views(record@) =~= slot_views(old_rec).push(
                                SlotModel::Value(table_value(tv, k0, mandv[c as int])),
                            ));
                            assert(head + mand_slots(tv, k0, mandv.take(c + 1)) =~= (head
                                + mand_slots(tv, k0, mandv.take(c as int))).push(
                                SlotModel::Value(table_value(tv, k0, mandv[c as int])),
                            ));
                        }
                    }
                },
                None => {
                    ok = false;
                },
            }
            proof {
                if ok {
                    assert forall|i: int| 0 <= i < c + 1 implies table_has(
                        tv,
                        k0,
                        mandv[i],
                    ) by {}
                }
            }
            c += 1;
        }
        if ok {
            proof {
                assert(mandv.take(mandv.len() as int) =~= mandv);
                assert(has_mandatory(tv, k0, mandv));
            }
            let mut c: usize = 0;
            while c < select_optional_components.len()
                invariant
                    c <= optv.len(),
                    tv == filtered_components_map@,
                    optv == select_optional_components@,
                    mandv == select_components@,
                    filtered_components_map.wf(),
                    select_optional_components@.len() == optv.len(),
                    k0 == entity_id@,
                    slot_views(record@) == head + mand_slots(tv, k0, mandv) + opt_slots(
                        tv,
                        k0,
                        optv.take(c as int),
                    ),
                decreases optv.len() - c,
            {
                let found = table_get(
                    filtered_components_map,
                    entity_id,
                    select_optional_components[c],
                );
                let ghost old_rec = record@;
                let ghost new_slot = (if table_has(tv, k0, optv[c as int]) {
                    SlotModel::Value(table_value(tv, k0, optv[c as int]))
                } else {
                    SlotModel::Absent
                });
                match found {
                    Some(v) => {
                        record.push(Slot::Value(v));
                    },
                    None => {
                        record.push(Slot::Absent);
                    },
                }
                proof {
                    assert(slot_views(record@) =~= slot_views(old_rec).push(new_slot));
                    assert(head + mand_slots(tv, k0, mandv) + opt_slots(tv, k0, optv.take(c + 1))
                        =~= (head + mand_slots(tv, k0, mandv) + opt_slots(
                        tv,
                        k0,
                        optv.take(c as int),
                    )).push(new_slot));
                }
                c += 1;
            }
            let ghost old_result = result@;
            result.push(record);
            proof {
                assert(optv.take(optv.len() as int) =~= optv);
                assert(slot_views(record@) == row_model(tv, k0, return_entity, mandv, optv));
                assert(rows_views(result@) =~= rows_views(old_result).push(
                    row_model(tv, k0, return_entity, mandv, optv),
                ));
            }
        } else {
            proof {
                assert(!has_mandatory(tv, k0, mandv));
            }
        }
        e += 1;
    }
    proof {
        assert(idv.take(idv.len() as int) =~= idv);
    }
    result
}

} // verus!
