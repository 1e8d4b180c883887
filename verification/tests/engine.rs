//! End-to-end and per-stage tests of the query engine, on concrete values.

use ecspanse::index::list_entities_components;
use ecspanse::matcher::{match_entities_for_clause, query_filter_by_components};
use ecspanse::scope::{query_filter_for_entities, query_filter_not_for_entities};
use ecspanse::tuples::build_return_vectors;
use ecspanse::types::{Entity, InputError, MembershipMap, QueryWithComponents, Slot, ValueTable};

const A: u64 = 1;
const B: u64 = 2;
const C: u64 = 3;

fn pairs(ps: &[(&str, u64)]) -> Vec<(String, u64)> {
    ps.iter().map(|(e, t)| (e.to_string(), *t)).collect()
}

fn entity_list(ids: &[&str]) -> Vec<Entity> {
    ids.iter().map(|e| Entity { id: e.to_string() }).collect()
}

fn clause(with: &[u64], without: &[u64]) -> QueryWithComponents {
    QueryWithComponents { with: with.to_vec(), without: without.to_vec() }
}

fn table(vs: &[(&str, u64, u64)]) -> ValueTable {
    ValueTable { entries: vs.iter().map(|(e, t, v)| (e.to_string(), *t, *v)).collect() }
}

fn scenario_map() -> MembershipMap {
    // e1: [A, B], e2: [A], e3: [B, C]
    list_entities_components(pairs(&[
        ("e1", A),
        ("e1", B),
        ("e2", A),
        ("e3", B),
        ("e3", C),
    ]))
}

fn sorted(mut ids: Vec<String>) -> Vec<String> {
    ids.sort();
    ids
}

#[test]
fn index_groups_pairs_in_first_seen_order() {
    let m = list_entities_components(pairs(&[("e1", A), ("e2", A), ("e1", B), ("e1", A)]));
    assert_eq!(
        m.entries,
        vec![
            ("e1".to_string(), vec![A, B, A]),
            ("e2".to_string(), vec![A]),
        ]
    );
}

#[test]
fn index_of_empty_input_is_empty() {
    let m = list_entities_components(Vec::new());
    assert!(m.entries.is_empty());
}

#[test]
fn index_keeps_duplicate_pairs() {
    let m = list_entities_components(pairs(&[("e1", A), ("e1", A), ("e1", A)]));
    assert_eq!(m.entries, vec![("e1".to_string(), vec![A, A, A])]);
}

#[test]
fn restrict_with_empty_list_is_inactive() {
    let m = scenario_map();
    let before = m.entries.clone();
    let r = query_filter_for_entities(m, Vec::new());
    assert_eq!(r.entries, before);
}

#[test]
fn restrict_keeps_only_listed_present_keys() {
    let m = scenario_map();
    let r = query_filter_for_entities(m, entity_list(&["e3", "e1", "missing"]));
    assert_eq!(
        r.entries,
        vec![
            ("e3".to_string(), vec![B, C]),
            ("e1".to_string(), vec![A, B]),
        ]
    );
}

#[test]
fn restrict_ignores_duplicate_allow_entries() {
    let m = scenario_map();
    let r = query_filter_for_entities(m, entity_list(&["e2", "e2"]));
    assert_eq!(r.entries, vec![("e2".to_string(), vec![A])]);
}

#[test]
fn exclude_removes_exactly_the_listed_keys() {
    let m = scenario_map();
    let r = query_filter_not_for_entities(m, entity_list(&["e2", "missing"]));
    assert_eq!(
        r.entries,
        vec![
            ("e1".to_string(), vec![A, B]),
            ("e3".to_string(), vec![B, C]),
        ]
    );
}

#[test]
fn exclude_with_empty_list_changes_nothing() {
    let m = scenario_map();
    let before = m.entries.clone();
    let r = query_filter_not_for_entities(m, Vec::new());
    assert_eq!(r.entries, before);
}

#[test]
fn exclude_twice_equals_exclude_once() {
    let deny = ["e1", "e3"];
    let once = query_filter_not_for_entities(scenario_map(), entity_list(&deny));
    let twice = query_filter_not_for_entities(
        query_filter_not_for_entities(scenario_map(), entity_list(&deny)),
        entity_list(&deny),
    );
    assert_eq!(once.entries, twice.entries);
}

#[test]
fn match_selects_superset_and_disjoint_entities() {
    // clause with={A}, without={C} over e1:[A,B], e2:[A], e3:[B,C]
    let ids = query_filter_by_components(&scenario_map(), &vec![clause(&[A], &[C])]).unwrap();
    assert_eq!(sorted(ids), vec!["e1".to_string(), "e2".to_string()]);
}

#[test]
fn match_zero_clauses_is_an_input_error() {
    let r = query_filter_by_components(&scenario_map(), &Vec::new());
    assert_eq!(r, Err(InputError));
}

#[test]
fn match_empty_clause_selects_every_entity() {
    let ids = query_filter_by_components(&scenario_map(), &vec![clause(&[], &[])]).unwrap();
    assert_eq!(
        sorted(ids),
        vec!["e1".to_string(), "e2".to_string(), "e3".to_string()]
    );
}

#[test]
fn match_is_invariant_under_clause_permutation_and_duplication() {
    let m = scenario_map();
    let one = sorted(
        query_filter_by_components(&m, &vec![clause(&[A], &[]), clause(&[C], &[])]).unwrap(),
    );
    let permuted = sorted(
        query_filter_by_components(&m, &vec![clause(&[C], &[]), clause(&[A], &[])]).unwrap(),
    );
    let duplicated = sorted(
        query_filter_by_components(
            &m,
            &vec![clause(&[A], &[]), clause(&[C], &[]), clause(&[A], &[])],
        )
        .unwrap(),
    );
    assert_eq!(one, permuted);
    assert_eq!(one, duplicated);
}

#[test]
fn match_is_invariant_under_entity_order() {
    let forward = scenario_map();
    let reversed = list_entities_components(pairs(&[
        ("e3", B),
        ("e3", C),
        ("e2", A),
        ("e1", A),
        ("e1", B),
    ]));
    let cs = vec![clause(&[B], &[A])];
    let a = sorted(query_filter_by_components(&forward, &cs).unwrap());
    let b = sorted(query_filter_by_components(&reversed, &cs).unwrap());
    assert_eq!(a, b);
    assert_eq!(a, vec!["e3".to_string()]);
}

#[test]
fn match_deduplicates_across_overlapping_clauses() {
    let m = scenario_map();
    // e1 matches both clauses but must be listed once.
    let ids =
        query_filter_by_components(&m, &vec![clause(&[A], &[]), clause(&[B], &[C])]).unwrap();
    assert_eq!(sorted(ids), vec!["e1".to_string(), "e2".to_string()]);
}

#[test]
fn match_without_only_clause_excludes_carriers() {
    let ids = query_filter_by_components(&scenario_map(), &vec![clause(&[], &[B])]).unwrap();
    assert_eq!(ids, vec!["e2".to_string()]);
}

#[test]
fn single_clause_scan_returns_mapping_order() {
    let ids = match_entities_for_clause(&scenario_map(), &clause(&[B], &[]));
    assert_eq!(ids, vec!["e1".to_string(), "e3".to_string()]);
}

#[test]
fn end_to_end_scenario_builds_expected_tuples() {
    // entities e1:[A,B], e2:[A], e3:[B,C]; clause with={A}, without={C}
    let m = scenario_map();
    let selected =
        sorted(query_filter_by_components(&m, &vec![clause(&[A], &[C])]).unwrap());
    assert_eq!(selected, vec!["e1".to_string(), "e2".to_string()]);
    // mandatory=[A], optional=[B], entity flag set,
    // values {(e1,A)=1, (e1,B)=2, (e2,A)=3}; no value for (e2,B).
    let t = table(&[("e1", A, 1), ("e1", B, 2), ("e2", A, 3)]);
    let rows = build_return_vectors(true, &vec![A], &vec![B], &selected, &t);
    assert_eq!(
        rows,
        vec![
            vec![Slot::Id("e1".to_string()), Slot::Value(1), Slot::Value(2)],
            vec![Slot::Id("e2".to_string()), Slot::Value(3), Slot::Absent],
        ]
    );
}

#[test]
fn entity_missing_mandatory_value_is_dropped_entirely() {
    // e2 passes the clause filter but has no value for mandatory B.
    let m = scenario_map();
    let selected =
        sorted(query_filter_by_components(&m, &vec![clause(&[A], &[C])]).unwrap());
    assert_eq!(selected, vec!["e1".to_string(), "e2".to_string()]);
    let t = table(&[("e1", A, 1), ("e1", B, 2), ("e2", A, 3)]);
    let rows = build_return_vectors(true, &vec![B], &vec![], &selected, &t);
    assert_eq!(
        rows,
        vec![vec![Slot::Id("e1".to_string()), Slot::Value(2)]]
    );
    for row in &rows {
        assert!(!row.contains(&Slot::Id("e2".to_string())));
    }
}

#[test]
fn missing_optional_value_becomes_absent_sentinel() {
    let ids = vec!["e1".to_string(), "e2".to_string()];
    let t = table(&[("e1", A, 7), ("e2", A, 8), ("e1", B, 9)]);
    let rows = build_return_vectors(false, &vec![A], &vec![B, C], &ids, &t);
    assert_eq!(
        rows,
        vec![
            vec![Slot::Value(7), Slot::Value(9), Slot::Absent],
            vec![Slot::Value(8), Slot::Absent, Slot::Absent],
        ]
    );
}

#[test]
fn builder_without_entity_flag_omits_the_id_slot() {
    let ids = vec!["e1".to_string()];
    let t = table(&[("e1", A, 4)]);
    let rows = build_return_vectors(false, &vec![A], &vec![], &ids, &t);
    assert_eq!(rows, vec![vec![Slot::Value(4)]]);
}

#[test]
fn builder_with_no_columns_emits_id_only_tuples() {
    let ids = vec!["e1".to_string(), "e2".to_string()];
    let t = table(&[]);
    let rows = build_return_vectors(true, &vec![], &vec![], &ids, &t);
    assert_eq!(
        rows,
        vec![
            vec![Slot::Id("e1".to_string())],
            vec![Slot::Id("e2".to_string())],
        ]
    );
}

#[test]
fn builder_preserves_entity_list_order() {
    let ids = vec!["e2".to_string(), "e1".to_string()];
    let t = table(&[("e1", A, 1), ("e2", A, 3)]);
    let rows = build_return_vectors(true, &vec![A], &vec![], &ids, &t);
    assert_eq!(
        rows,
        vec![
            vec![Slot::Id("e2".to_string()), Slot::Value(3)],
            vec![Slot::Id("e1".to_string()), Slot::Value(1)],
        ]
    );
}
