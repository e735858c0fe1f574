use ecs_iter::cursor::IterOperations;
use ecs_iter::id::Id;
use ecs_iter::query::{Query, Term};
use ecs_iter::storage::{FieldColumn, Table, World};
use ecs_iter::visit::{
    ContextFieldEqualsPredicate, ContextRowCollector, EntityEqualsPredicate, EntityRowCollector,
    FieldEqualsPredicate, MatchCollector, RowCollector, SliceCollector, TermCollector,
};

fn plain_query(matched: Vec<usize>, n_fields: usize) -> Query {
    Query {
        entity: 100,
        terms: vec![Term { id: Id::new(5) }],
        n_fields,
        var_names: Vec::new(),
        matched,
    }
}

fn owned_table(entities: Vec<u64>, cols: Vec<Vec<u64>>) -> Table {
    Table {
        entities,
        fields: cols.into_iter().map(FieldColumn::Owned).collect(),
    }
}

#[test]
fn id_pair_decomposition() {
    let id = Id::new_pair(3, 7);
    assert!(id.is_pair());
    assert_eq!(id.first(), 3);
    assert_eq!(id.second(), 7);
}

#[test]
fn id_plain_decomposition() {
    let id = Id::new(42);
    assert!(!id.is_pair());
    assert_eq!(id.entity(), 42);
}

#[test]
fn count_sums_all_matches() {
    let mut w = World::new();
    let a = w.add_table(owned_table(vec![1, 2, 3, 4, 5], vec![vec![0; 5]]));
    let b = w.add_table(owned_table(vec![6, 7], vec![vec![0; 2]]));
    let q = plain_query(vec![a, b], 1);
    assert_eq!(q.count(&w), 7);
}

#[test]
fn count_matches_manual_cursor_loop() {
    let mut w = World::new();
    let a = w.add_table(owned_table(vec![1, 2, 3, 4, 5], vec![vec![0; 5]]));
    let b = w.add_table(owned_table(vec![6, 7], vec![vec![0; 2]]));
    let q = plain_query(vec![a, b], 1);
    let mut it = q.retrieve_iter();
    let mut total: usize = 0;
    while q.iter_next(&mut it) {
        let tidx = q.matched[it.pos - 1];
        total += w.tables[tidx].entities.len();
    }
    assert_eq!(total as i32, q.count(&w));
    assert_eq!(total, 7);
}

#[test]
fn cursor_exhausts_and_stays_exhausted() {
    let mut w = World::new();
    let a = w.add_table(owned_table(vec![1], vec![]));
    let b = w.add_table(owned_table(vec![2], vec![]));
    let q = plain_query(vec![a, b], 0);
    let mut it = q.retrieve_iter();
    assert!(q.iter_next(&mut it));
    assert!(q.iter_next(&mut it));
    assert!(!q.iter_next(&mut it));
    assert!(it.done);
    let snapshot = it;
    assert!(!q.iter_next(&mut it));
    assert_eq!(it, snapshot);
}

#[test]
fn each_visits_every_row_in_order() {
    let mut w = World::new();
    let a = w.add_table(owned_table(vec![1, 2], vec![vec![10, 20], vec![30, 40]]));
    let b = w.add_table(owned_table(vec![3], vec![vec![50], vec![60]]));
    let q = plain_query(vec![a, b], 2);
    let mut v = RowCollector::new();
    q.each(&mut w, &mut v);
    assert_eq!(v.rows, vec![vec![10, 30], vec![20, 40], vec![50, 60]]);
}

#[test]
fn shared_field_broadcasts_to_every_row() {
    let mut w = World::new();
    let t = Table {
        entities: vec![1, 2, 3],
        fields: vec![
            FieldColumn::Owned(vec![11, 12, 13]),
            FieldColumn::Shared(9),
        ],
    };
    let a = w.add_table(t);
    let q = plain_query(vec![a], 2);
    let mut v = RowCollector::new();
    q.each(&mut w, &mut v);
    assert_eq!(v.rows, vec![vec![11, 9], vec![12, 9], vec![13, 9]]);
    for row in &v.rows {
        assert_eq!(row[1], v.rows[0][1]);
    }
}

#[test]
fn zero_count_match_visited_once_with_identity() {
    let mut w = World::new();
    let t = Table {
        entities: vec![],
        fields: vec![FieldColumn::Shared(5)],
    };
    let a = w.add_table(t);
    let q = plain_query(vec![a], 1);
    let mut v = EntityRowCollector::new();
    q.each_entity(&mut w, &mut v);
    assert_eq!(v.items.len(), 1);
    assert_eq!(v.items[0], (0, vec![5]));
    let mut plain = RowCollector::new();
    q.each(&mut w, &mut plain);
    assert_eq!(plain.rows, vec![vec![5]]);
}

#[test]
fn each_entity_hands_out_identities() {
    let mut w = World::new();
    let a = w.add_table(owned_table(vec![7, 8], vec![vec![1, 2]]));
    let q = plain_query(vec![a], 1);
    let mut v = EntityRowCollector::new();
    q.each_entity(&mut w, &mut v);
    assert_eq!(v.items, vec![(7, vec![1]), (8, vec![2])]);
}

#[test]
fn find_short_circuits_on_third_row() {
    let mut w = World::new();
    let a = w.add_table(owned_table(
        vec![10, 11, 12, 13, 14],
        vec![vec![0, 0, 1, 0, 1]],
    ));
    let q = plain_query(vec![a], 1);
    let mut p = FieldEqualsPredicate::new(0, 1);
    let r = q.find(&mut w, &mut p);
    assert_eq!(r, Some(12));
    assert_eq!(p.seen.len(), 3);
    assert_eq!(p.seen, vec![vec![0], vec![0], vec![1]]);
}

#[test]
fn find_visits_zero_count_match_once() {
    let mut w = World::new();
    let t = Table {
        entities: vec![],
        fields: vec![FieldColumn::Shared(5)],
    };
    let a = w.add_table(t);
    let q = plain_query(vec![a], 1);
    let mut p = FieldEqualsPredicate::new(0, 5);
    let r = q.find(&mut w, &mut p);
    assert_eq!(r, Some(0));
    assert_eq!(p.seen, vec![vec![5]]);
}

#[test]
fn find_returns_none_after_full_scan() {
    let mut w = World::new();
    let a = w.add_table(owned_table(vec![10, 11], vec![vec![0, 0]]));
    let q = plain_query(vec![a], 1);
    let mut p = FieldEqualsPredicate::new(0, 1);
    let r = q.find(&mut w, &mut p);
    assert_eq!(r, None);
    assert_eq!(p.seen.len(), 2);
}

#[test]
fn find_crosses_match_boundaries() {
    let mut w = World::new();
    let a = w.add_table(owned_table(vec![10, 11], vec![vec![0, 0]]));
    let b = w.add_table(owned_table(vec![20, 21], vec![vec![0, 1]]));
    let q = plain_query(vec![a, b], 1);
    let mut p = FieldEqualsPredicate::new(0, 1);
    let r = q.find(&mut w, &mut p);
    assert_eq!(r, Some(21));
    assert_eq!(p.seen.len(), 4);
}

#[test]
fn find_entity_by_identity() {
    let mut w = World::new();
    let a = w.add_table(owned_table(vec![10, 11, 12], vec![vec![1, 2, 3]]));
    let q = plain_query(vec![a], 1);
    let mut p = EntityEqualsPredicate::new(11);
    let r = q.find_entity(&mut w, &mut p);
    assert_eq!(r, Some(11));
    assert_eq!(p.seen.len(), 2);
}

#[test]
fn find_iter_reports_context() {
    let mut w = World::new();
    let a = w.add_table(owned_table(vec![10, 11], vec![vec![0, 4]]));
    let q = plain_query(vec![a], 1);
    let mut p = ContextFieldEqualsPredicate::new(0, 4);
    let r = q.find_iter(&mut w, &mut p);
    assert_eq!(r, Some(11));
    assert_eq!(p.seen.len(), 2);
    let (ctx, idx, row) = &p.seen[1];
    assert_eq!(ctx.table, a);
    assert_eq!(ctx.count, 2);
    assert_eq!(*idx, 1);
    assert_eq!(*row, vec![4]);
}

#[test]
fn each_iter_reports_indices_and_flags() {
    let mut w = World::new();
    let a = w.add_table(owned_table(vec![5, 6], vec![vec![1, 2]]));
    let q = plain_query(vec![a], 1);
    let mut v = ContextRowCollector::new();
    q.each_iter(&mut w, &mut v);
    assert_eq!(v.items.len(), 2);
    assert_eq!(v.items[0].1, 0);
    assert_eq!(v.items[1].1, 1);
    assert_eq!(v.items[0].0.flags, ecs_iter::cursor::ITER_FLAG_EACH);
    assert_eq!(v.items[0].0.count, 2);
}

#[test]
fn iter_hands_out_whole_table_slices() {
    let mut w = World::new();
    let t = Table {
        entities: vec![1, 2, 3],
        fields: vec![
            FieldColumn::Owned(vec![7, 8, 9]),
            FieldColumn::Shared(4),
        ],
    };
    let a = w.add_table(t);
    let q = plain_query(vec![a], 2);
    let mut v = SliceCollector::new();
    q.iter(&mut w, &mut v);
    assert_eq!(v.items.len(), 1);
    assert_eq!(v.items[0].1, vec![vec![7, 8, 9], vec![4]]);
    assert_eq!(v.items[0].0.count, 3);
}

#[test]
fn iter_only_visits_once_per_match() {
    let mut w = World::new();
    let a = w.add_table(owned_table(vec![1, 2], vec![]));
    let b = w.add_table(owned_table(vec![], vec![]));
    let q = plain_query(vec![a, b], 0);
    let mut v = MatchCollector::new();
    q.iter_only(&mut w, &mut v);
    assert_eq!(v.infos.len(), 2);
    assert_eq!(v.infos[0].table, a);
    assert_eq!(v.infos[0].count, 2);
    assert_eq!(v.infos[1].table, b);
    assert_eq!(v.infos[1].count, 0);
}

#[test]
fn locks_are_released_on_every_path() {
    let mut w = World::new();
    let a = w.add_table(owned_table(vec![10, 11], vec![vec![0, 1]]));
    let b = w.add_table(owned_table(vec![20], vec![vec![0]]));
    let q = plain_query(vec![a, b], 1);
    let mut v = RowCollector::new();
    q.each(&mut w, &mut v);
    assert_eq!(w.lock_depth, vec![0, 0]);
    let mut p = FieldEqualsPredicate::new(0, 1);
    let r = q.find(&mut w, &mut p);
    assert_eq!(r, Some(11));
    assert_eq!(w.lock_depth, vec![0, 0]);
}

#[test]
fn to_string_renders_plain_and_pair_terms() {
    let q = Query {
        entity: 1,
        terms: vec![
            Term { id: Id::new(5) },
            Term { id: Id::new_pair(3, 7) },
        ],
        n_fields: 2,
        var_names: Vec::new(),
        matched: Vec::new(),
    };
    let s = q.to_string();
    assert_eq!(s, "5, (3,7)");
    assert!(s.contains("5"));
    assert!(s.contains("(3,7)"));
}

#[test]
fn plan_renders_one_line_per_term() {
    let q = Query {
        entity: 1,
        terms: vec![
            Term { id: Id::new(12) },
            Term { id: Id::new_pair(3, 7) },
        ],
        n_fields: 2,
        var_names: Vec::new(),
        matched: Vec::new(),
    };
    assert_eq!(q.plan(), "0 12\n1 (3,7)\n");
}

#[test]
fn find_var_reports_index_or_absence() {
    let q = Query {
        entity: 1,
        terms: Vec::new(),
        n_fields: 0,
        var_names: vec![String::from("alpha"), String::from("beta")],
        matched: Vec::new(),
    };
    assert_eq!(q.find_var("alpha"), Some(0));
    assert_eq!(q.find_var("beta"), Some(1));
    assert_eq!(q.find_var("gamma"), None);
}

#[test]
fn first_entity_skips_empty_matches() {
    let mut w = World::new();
    let a = w.add_table(owned_table(vec![], vec![]));
    let b = w.add_table(owned_table(vec![8, 9], vec![]));
    let q = plain_query(vec![a, b], 0);
    assert_eq!(q.first_entity(&w), Some(8));
    let empty_q = plain_query(vec![a], 0);
    assert_eq!(empty_q.first_entity(&w), None);
}

#[test]
fn is_true_reflects_matches() {
    let mut w = World::new();
    let a = w.add_table(owned_table(vec![1], vec![]));
    let q = plain_query(vec![a], 0);
    assert!(q.is_true());
    let empty_q = plain_query(Vec::new(), 0);
    assert!(!empty_q.is_true());
}

#[test]
fn iterable_walks_matches_independently() {
    let mut w = World::new();
    let a = w.add_table(owned_table(vec![1, 2], vec![]));
    let b = w.add_table(owned_table(vec![3], vec![]));
    let q = plain_query(vec![a, b], 0);
    let mut adapter = q.iterable();
    let mut visited: Vec<usize> = Vec::new();
    while adapter.next_match() {
        visited.push(adapter.matched[adapter.it.pos - 1]);
    }
    assert_eq!(visited, vec![a, b]);
    assert!(adapter.it.done);
}

#[test]
fn empty_query_yields_nothing() {
    let mut w = World::new();
    let q = plain_query(Vec::new(), 1);
    assert_eq!(q.count(&w), 0);
    let mut v = RowCollector::new();
    q.each(&mut w, &mut v);
    assert!(v.rows.is_empty());
    let mut p = FieldEqualsPredicate::new(0, 1);
    assert_eq!(q.find(&mut w, &mut p), None);
    assert!(p.seen.is_empty());
}

#[test]
fn term_introspection() {
    let q = Query {
        entity: 77,
        terms: vec![
            Term { id: Id::new(5) },
            Term { id: Id::new_pair(3, 7) },
        ],
        n_fields: 2,
        var_names: Vec::new(),
        matched: Vec::new(),
    };
    assert_eq!(q.as_entity(), 77);
    assert_eq!(q.field_count(), 2);
    assert_eq!(q.term_count(), 2);
    assert_eq!(q.term(0).id, Id::new(5));
    assert!(q.term(1).id.is_pair());
    let mut v = TermCollector::new();
    q.each_term(&mut v);
    assert_eq!(v.terms.len(), 2);
    assert_eq!(v.terms[0].id.entity(), 5);
}
