use std::cmp::Ordering;
use tagger::compare::CompareResult;
use tagger::matrix::Matrix;
use tagger::ordpaths::OrdPaths;
use tagger::persist::PlainRow;

fn group(path: &str) -> OrdPaths {
    OrdPaths::new(vec![path.to_string()])
}

fn all_results() -> [CompareResult; 5] {
    [
        CompareResult::MuchBetter,
        CompareResult::Better,
        CompareResult::Same,
        CompareResult::Worse,
        CompareResult::MuchWorse,
    ]
}

#[test]
fn weights_are_minus_two_to_two() {
    assert_eq!(CompareResult::MuchBetter.to_i8(), 2);
    assert_eq!(CompareResult::Better.to_i8(), 1);
    assert_eq!(CompareResult::Same.to_i8(), 0);
    assert_eq!(CompareResult::Worse.to_i8(), -1);
    assert_eq!(CompareResult::MuchWorse.to_i8(), -2);
    assert_eq!(CompareResult::default(), CompareResult::Same);
    assert_eq!(CompareResult::zero(), CompareResult::Same);
}

#[test]
fn reverse_negates_the_weight() {
    for m in all_results() {
        assert_eq!(m.reverse().to_i8(), -m.to_i8());
        assert_eq!(m.reverse().reverse(), m);
    }
    assert_eq!(CompareResult::Better.reverse(), CompareResult::Worse);
    assert_eq!(CompareResult::MuchWorse.reverse(), CompareResult::MuchBetter);
    assert_eq!(CompareResult::Same.reverse(), CompareResult::Same);
}

#[test]
fn from_i8_accepts_only_the_five_weights() {
    for m in all_results() {
        assert_eq!(CompareResult::from_i8(m.to_i8()), Some(m));
    }
    assert_eq!(CompareResult::from_i8(3), None);
    assert_eq!(CompareResult::from_i8(-3), None);
    assert_eq!(CompareResult::from_i8(i8::MIN), None);
    assert_eq!(CompareResult::from_i8(i8::MAX), None);
}

#[test]
fn ordering_uses_the_sign_only() {
    assert_eq!(CompareResult::MuchBetter.ordering(), Ordering::Greater);
    assert_eq!(CompareResult::Better.ordering(), Ordering::Greater);
    assert_eq!(CompareResult::Same.ordering(), Ordering::Equal);
    assert_eq!(CompareResult::Worse.ordering(), Ordering::Less);
    assert_eq!(CompareResult::MuchWorse.ordering(), Ordering::Less);
}

#[test]
fn empty_cache_knows_nothing_but_reflexivity() {
    let m = Matrix::new();
    assert_eq!(m.get(&group("a"), &group("b")), None);
    assert_eq!(m.get(&group("a"), &group("a")), Some(CompareResult::Same));
    assert_eq!(m.rows_len(), 0);
    assert!(m.get_paths(&"a".to_string()).is_none());
}

#[test]
fn insert_stores_the_pair_and_its_mirror() {
    for v in all_results() {
        let mut m = Matrix::new();
        m.insert(&group("a"), &group("b"), v);
        assert_eq!(m.get(&group("a"), &group("b")), Some(v));
        assert_eq!(m.get(&group("b"), &group("a")), Some(v.reverse()));
        assert_eq!(m.get(&group("a"), &group("c")), None);
        assert_eq!(m.get(&group("c"), &group("a")), None);
    }
}

#[test]
fn get_is_symmetric_after_many_inserts() {
    let keys = ["a", "b", "c", "d", "e"];
    let mut m = Matrix::new();
    m.insert(&group("a"), &group("b"), CompareResult::Better);
    m.insert(&group("c"), &group("b"), CompareResult::Same);
    m.insert(&group("d"), &group("a"), CompareResult::MuchWorse);
    m.insert(&group("e"), &group("d"), CompareResult::Same);
    m.insert(&group("e"), &group("c"), CompareResult::Worse);
    for x in keys {
        for y in keys {
            let forth = m.get(&group(x), &group(y));
            let back = m.get(&group(y), &group(x));
            assert_eq!(forth, back.map(|v| v.reverse()), "{x} {y}");
        }
    }
    assert!(m.is_closed());
}

#[test]
fn get_is_reflexive_without_a_stored_entry() {
    let mut m = Matrix::new();
    m.insert(&group("a"), &group("b"), CompareResult::Worse);
    assert_eq!(m.get(&group("a"), &group("a")), Some(CompareResult::Same));
    assert_eq!(m.get(&group("zz"), &group("zz")), Some(CompareResult::Same));
    assert_eq!(m.raw(&"a".to_string(), &"a".to_string()), None);
}

#[test]
fn insert_of_equal_keys_changes_nothing() {
    let mut m = Matrix::new();
    m.insert(&group("a"), &group("a"), CompareResult::Better);
    assert_eq!(m.rows_len(), 0);
    assert_eq!(m.get(&group("a"), &group("a")), Some(CompareResult::Same));
}

#[test]
fn tie_then_result_reaches_the_tied_key() {
    for v in all_results() {
        let mut m = Matrix::new();
        m.insert(&group("a"), &group("b"), CompareResult::Same);
        m.insert(&group("a"), &group("c"), v);
        assert_eq!(m.get(&group("b"), &group("c")), Some(v));
        assert_eq!(m.get(&group("c"), &group("b")), Some(v.reverse()));
    }
}

#[test]
fn result_then_tie_reaches_the_tied_key() {
    for v in all_results() {
        let mut m = Matrix::new();
        m.insert(&group("a"), &group("c"), v);
        m.insert(&group("a"), &group("b"), CompareResult::Same);
        assert_eq!(m.get(&group("b"), &group("c")), Some(v));
        assert_eq!(m.get(&group("c"), &group("b")), Some(v.reverse()));
    }
}

#[test]
fn result_reaches_the_ties_of_both_keys() {
    let mut m = Matrix::new();
    m.insert(&group("a1"), &group("a2"), CompareResult::Same);
    m.insert(&group("b1"), &group("b2"), CompareResult::Same);
    m.insert(&group("a1"), &group("b1"), CompareResult::MuchBetter);
    for x in ["a1", "a2"] {
        for y in ["b1", "b2"] {
            assert_eq!(m.get(&group(x), &group(y)), Some(CompareResult::MuchBetter));
            assert_eq!(m.get(&group(y), &group(x)), Some(CompareResult::MuchWorse));
        }
    }
    assert!(m.is_closed());
}

#[test]
fn tie_joins_the_rows_and_the_first_key_decides() {
    let mut m = Matrix::new();
    m.insert(&group("a"), &group("x"), CompareResult::Better);
    m.insert(&group("b"), &group("x"), CompareResult::Worse);
    m.insert(&group("b"), &group("y"), CompareResult::MuchBetter);
    m.insert(&group("a"), &group("b"), CompareResult::Same);
    assert_eq!(m.get(&group("a"), &group("b")), Some(CompareResult::Same));
    assert_eq!(m.get(&group("b"), &group("x")), Some(CompareResult::Better));
    assert_eq!(m.get(&group("x"), &group("b")), Some(CompareResult::Worse));
    assert_eq!(m.get(&group("a"), &group("y")), Some(CompareResult::MuchBetter));
    assert_eq!(m.get(&group("y"), &group("a")), Some(CompareResult::MuchWorse));
    assert!(m.is_closed());
}

#[test]
fn another_result_replaces_a_tie() {
    for v in all_results() {
        let mut m = Matrix::new();
        m.insert(&group("a"), &group("b"), CompareResult::Same);
        m.insert(&group("a"), &group("b"), v);
        assert_eq!(m.get(&group("a"), &group("b")), Some(v));
        assert_eq!(m.get(&group("b"), &group("a")), Some(v.reverse()));
        assert!(m.is_closed());
    }
}

#[test]
fn the_second_key_leaves_its_class_when_a_tie_is_replaced() {
    let mut m = Matrix::new();
    m.insert(&group("a"), &group("b"), CompareResult::Same);
    m.insert(&group("c"), &group("a"), CompareResult::Same);
    m.insert(&group("a"), &group("x"), CompareResult::Worse);
    // a, b and c are one class. Now c is judged better than b.
    m.insert(&group("c"), &group("b"), CompareResult::Better);
    assert_eq!(m.get(&group("c"), &group("b")), Some(CompareResult::Better));
    assert_eq!(m.get(&group("a"), &group("b")), Some(CompareResult::Better));
    assert_eq!(m.get(&group("b"), &group("a")), Some(CompareResult::Worse));
    assert_eq!(m.get(&group("a"), &group("c")), Some(CompareResult::Same));
    // What b knew of keys outside the class stays.
    assert_eq!(m.get(&group("b"), &group("x")), Some(CompareResult::Worse));
    assert_eq!(m.get(&group("c"), &group("x")), Some(CompareResult::Worse));
    assert!(m.is_closed());
}

#[test]
fn a_tie_replaces_another_result() {
    let mut m = Matrix::new();
    m.insert(&group("b"), &group("c"), CompareResult::Same);
    m.insert(&group("a"), &group("c"), CompareResult::Better);
    // b is tied to c, so a is better than b as well. Now a and b are tied:
    // b leaves c and has what a has.
    assert_eq!(m.get(&group("a"), &group("b")), Some(CompareResult::Better));
    m.insert(&group("a"), &group("b"), CompareResult::Same);
    assert_eq!(m.get(&group("a"), &group("b")), Some(CompareResult::Same));
    assert_eq!(m.get(&group("b"), &group("a")), Some(CompareResult::Same));
    assert_eq!(m.get(&group("a"), &group("c")), Some(CompareResult::Better));
    assert_eq!(m.get(&group("b"), &group("c")), Some(CompareResult::Better));
    assert_eq!(m.get(&group("c"), &group("b")), Some(CompareResult::Worse));
    assert!(m.is_closed());
}

#[test]
fn result_reaches_a_key_that_was_tied_to_both() {
    // a ties with b and with c; then a is much worse than c.
    let mut m = Matrix::new();
    m.insert(&group("a"), &group("b"), CompareResult::Same);
    m.insert(&group("a"), &group("c"), CompareResult::Same);
    m.insert(&group("a"), &group("c"), CompareResult::MuchWorse);
    assert_eq!(m.get(&group("a"), &group("c")), Some(CompareResult::MuchWorse));
    assert_eq!(m.get(&group("b"), &group("c")), Some(CompareResult::MuchWorse));
    assert_eq!(m.get(&group("c"), &group("b")), Some(CompareResult::MuchBetter));
    assert_eq!(m.get(&group("a"), &group("b")), Some(CompareResult::Same));
}

#[test]
fn result_then_tie_reaches_a_key_tied_to_the_third() {
    for v in all_results() {
        let mut m = Matrix::new();
        m.insert(&group("b"), &group("c"), CompareResult::Same);
        m.insert(&group("a"), &group("c"), v);
        m.insert(&group("a"), &group("b"), CompareResult::Same);
        assert_eq!(m.get(&group("b"), &group("c")), Some(v));
        assert_eq!(m.get(&group("c"), &group("b")), Some(v.reverse()));
        assert!(m.is_closed());
    }
}

#[test]
fn a_result_can_be_replaced() {
    let mut m = Matrix::new();
    m.insert(&group("a"), &group("b"), CompareResult::Better);
    m.insert(&group("a"), &group("b"), CompareResult::MuchWorse);
    assert_eq!(m.get(&group("a"), &group("b")), Some(CompareResult::MuchWorse));
    assert_eq!(m.get(&group("b"), &group("a")), Some(CompareResult::MuchBetter));
}

#[test]
fn inserting_a_tie_again_changes_nothing() {
    let mut m = Matrix::new();
    m.insert(&group("a"), &group("b"), CompareResult::Same);
    let before = m.rows();
    m.insert(&group("a"), &group("b"), CompareResult::Same);
    m.insert(&group("b"), &group("a"), CompareResult::Same);
    assert_eq!(m.rows(), before);
}

#[test]
fn answers_persist_through_later_inserts() {
    let mut m = Matrix::new();
    m.insert(&group("a"), &group("b"), CompareResult::Better);
    m.insert(&group("c"), &group("d"), CompareResult::Worse);
    m.insert(&group("a"), &group("c"), CompareResult::Same);
    m.insert(&group("b"), &group("d"), CompareResult::Same);
    for (x, y) in [("a", "b"), ("c", "d"), ("a", "c"), ("b", "d"), ("a", "d"), ("c", "b")] {
        assert!(m.get(&group(x), &group(y)).is_some(), "{x} {y}");
        assert!(m.get(&group(y), &group(x)).is_some(), "{y} {x}");
    }
}

#[test]
fn tie_merges_the_first_group_into_the_second() {
    let mut m = Matrix::new();
    let a = OrdPaths::new(vec!["a".to_string(), "a2".to_string()]);
    let b = OrdPaths::new(vec!["b".to_string()]);
    m.insert(&a, &b, CompareResult::Same);
    let merged = m.get_paths(&"b".to_string()).unwrap();
    assert_eq!(
        merged.members(),
        &vec!["b".to_string(), "a".to_string(), "a2".to_string()]
    );
    let left = m.get_paths(&"a".to_string()).unwrap();
    assert_eq!(left.members(), &vec!["a".to_string()]);
}

#[test]
fn other_results_keep_the_groups_apart() {
    let mut m = Matrix::new();
    let a = OrdPaths::new(vec!["a".to_string(), "a2".to_string()]);
    m.insert(&a, &group("b"), CompareResult::Better);
    assert_eq!(
        m.get_paths(&"a".to_string()).unwrap().members(),
        &vec!["a".to_string(), "a2".to_string()]
    );
    assert_eq!(m.get_paths(&"b".to_string()).unwrap().members(), &vec!["b".to_string()]);
    assert!(m.get_paths(&"a2".to_string()).is_none());
}

#[test]
fn a_known_key_keeps_its_group() {
    let mut m = Matrix::new();
    let a = OrdPaths::new(vec!["a".to_string(), "a2".to_string()]);
    m.insert(&a, &group("b"), CompareResult::Better);
    m.insert(&group("a"), &group("c"), CompareResult::Worse);
    assert_eq!(
        m.get_paths(&"a".to_string()).unwrap().members(),
        &vec!["a".to_string(), "a2".to_string()]
    );
}

#[test]
fn remove_takes_row_and_column() {
    let mut m = Matrix::new();
    m.insert(&group("a"), &group("b"), CompareResult::Better);
    m.insert(&group("a"), &group("c"), CompareResult::Worse);
    m.insert(&group("b"), &group("c"), CompareResult::MuchWorse);
    m.remove(&group("a"));
    assert_eq!(m.get(&group("a"), &group("b")), None);
    assert_eq!(m.get(&group("b"), &group("a")), None);
    assert_eq!(m.get(&group("c"), &group("a")), None);
    assert_eq!(m.get(&group("b"), &group("c")), Some(CompareResult::MuchWorse));
    assert!(m.get_paths(&"a".to_string()).is_none());
    assert!(m.get_paths(&"b".to_string()).is_some());
    assert_eq!(m.rows_len(), 2);
    assert!(m.is_closed());
}

#[test]
fn remove_of_an_unknown_key_changes_nothing() {
    let mut m = Matrix::new();
    m.insert(&group("a"), &group("b"), CompareResult::Better);
    let before = m.rows();
    m.remove(&group("zz"));
    assert_eq!(m.rows(), before);
}

#[test]
fn rows_hold_groups_and_weights() {
    let mut m = Matrix::new();
    m.insert(&group("a"), &group("b"), CompareResult::MuchBetter);
    let rows = m.rows();
    let expected: Vec<PlainRow> = vec![
        (vec!["a".to_string()], vec![("b".to_string(), 2)]),
        (vec!["b".to_string()], vec![("a".to_string(), -2)]),
    ];
    assert_eq!(rows, expected);
}

#[test]
fn saved_rows_load_to_the_same_cache() {
    let mut m = Matrix::new();
    let a = OrdPaths::new(vec!["a".to_string(), "a2".to_string()]);
    m.insert(&a, &group("b"), CompareResult::Same);
    m.insert(&group("c"), &group("a"), CompareResult::Better);
    m.insert(&group("d"), &group("c"), CompareResult::MuchWorse);
    let rows = m.rows();
    let loaded = Matrix::from_rows(&rows).unwrap();
    assert_eq!(loaded.rows(), rows);
    for x in ["a", "b", "c", "d", "e"] {
        for y in ["a", "b", "c", "d", "e"] {
            assert_eq!(loaded.get(&group(x), &group(y)), m.get(&group(x), &group(y)));
        }
        let mine = m.get_paths(&x.to_string()).map(|g| g.members().clone());
        let theirs = loaded.get_paths(&x.to_string()).map(|g| g.members().clone());
        assert_eq!(mine, theirs);
    }
}

#[test]
fn rows_in_another_order_load_to_the_same_cache() {
    let mut m = Matrix::new();
    let a = OrdPaths::new(vec!["a".to_string(), "a2".to_string()]);
    m.insert(&a, &group("b"), CompareResult::Same);
    m.insert(&group("c"), &group("a"), CompareResult::Better);
    m.insert(&group("d"), &group("c"), CompareResult::MuchWorse);
    m.insert(&group("e"), &group("b"), CompareResult::Worse);
    let mut rows = m.rows();
    rows.reverse();
    rows.swap(0, 2);
    for row in rows.iter_mut() {
        row.1.reverse();
    }
    assert_ne!(rows, m.rows());
    let loaded = Matrix::from_rows(&rows).unwrap();
    for x in ["a", "b", "c", "d", "e", "f"] {
        for y in ["a", "b", "c", "d", "e", "f"] {
            assert_eq!(loaded.get(&group(x), &group(y)), m.get(&group(x), &group(y)));
        }
        let mine = m.get_paths(&x.to_string()).map(|g| g.members().clone());
        let theirs = loaded.get_paths(&x.to_string()).map(|g| g.members().clone());
        assert_eq!(mine, theirs);
    }
}

#[test]
fn a_result_reaches_the_keys_tied_to_the_first() {
    for v in all_results() {
        let mut m = Matrix::new();
        m.insert(&group("a"), &group("b"), CompareResult::Same);
        m.insert(&group("b"), &group("c"), CompareResult::Same);
        m.insert(&group("a"), &group("c"), v);
        assert_eq!(m.get(&group("a"), &group("c")), Some(v));
        assert_eq!(m.get(&group("b"), &group("c")), Some(v));
        assert_eq!(m.get(&group("c"), &group("b")), Some(v.reverse()));
        assert_eq!(m.get(&group("a"), &group("b")), Some(CompareResult::Same));
    }
}

#[test]
fn the_first_tie_joins_the_groups_as_they_came() {
    let mut m = Matrix::new();
    let n = OrdPaths::new(vec!["p2".to_string(), "q2".to_string()]);
    let o = OrdPaths::new(vec!["p1".to_string(), "q1".to_string()]);
    m.insert(&n, &o, CompareResult::Same);
    let joined: Vec<String> = ["p1", "q1", "p2", "q2"].iter().map(|s| s.to_string()).collect();
    assert_eq!(m.get_paths(&"p1".to_string()).map(|g| g.members().clone()), Some(joined));
    assert_eq!(
        m.get_paths(&"p2".to_string()).map(|g| g.members().clone()),
        Some(vec!["p2".to_string()])
    );
    assert_eq!(m.get(&n, &o), Some(CompareResult::Same));

    let mut m = Matrix::new();
    m.insert(&n, &o, CompareResult::Worse);
    assert_eq!(m.get_paths(&"p1".to_string()).map(|g| g.members().clone()), Some(o.members().clone()));
    assert_eq!(m.get_paths(&"p2".to_string()).map(|g| g.members().clone()), Some(n.members().clone()));
    assert_eq!(m.get(&n, &o), Some(CompareResult::Worse));
    assert_eq!(m.get(&o, &n), Some(CompareResult::Better));
}

#[test]
fn empty_rows_load_to_the_empty_cache() {
    let loaded = Matrix::from_rows(&Vec::new()).unwrap();
    assert_eq!(loaded.rows_len(), 0);
}

#[test]
fn rows_without_mirror_are_refused() {
    let rows: Vec<PlainRow> = vec![
        (vec!["a".to_string()], vec![("b".to_string(), 1)]),
        (vec!["b".to_string()], vec![]),
    ];
    assert!(Matrix::from_rows(&rows).is_none());
    let rows: Vec<PlainRow> = vec![
        (vec!["a".to_string()], vec![("b".to_string(), 1)]),
        (vec!["b".to_string()], vec![("a".to_string(), 1)]),
    ];
    assert!(Matrix::from_rows(&rows).is_none());
    let rows: Vec<PlainRow> = vec![(vec!["a".to_string()], vec![("b".to_string(), 1)])];
    assert!(Matrix::from_rows(&rows).is_none());
}

#[test]
fn rows_with_a_weight_out_of_range_are_refused() {
    let rows: Vec<PlainRow> = vec![
        (vec!["a".to_string()], vec![("b".to_string(), 3)]),
        (vec!["b".to_string()], vec![("a".to_string(), -3)]),
    ];
    assert!(Matrix::from_rows(&rows).is_none());
}

#[test]
fn rows_with_a_repeated_key_are_refused() {
    let rows: Vec<PlainRow> = vec![
        (vec!["a".to_string()], vec![]),
        (vec!["a".to_string()], vec![]),
    ];
    assert!(Matrix::from_rows(&rows).is_none());
    let rows: Vec<PlainRow> = vec![
        (vec!["a".to_string()], vec![("b".to_string(), 1), ("b".to_string(), 1)]),
        (vec!["b".to_string()], vec![("a".to_string(), -1)]),
    ];
    assert!(Matrix::from_rows(&rows).is_none());
}

#[test]
fn rows_with_an_empty_group_are_refused() {
    let rows: Vec<PlainRow> = vec![(vec![], vec![])];
    assert!(Matrix::from_rows(&rows).is_none());
}

#[test]
fn rows_with_a_key_against_itself_are_refused() {
    let rows: Vec<PlainRow> = vec![(vec!["a".to_string()], vec![("a".to_string(), 0)])];
    assert!(Matrix::from_rows(&rows).is_none());
}

#[test]
fn rows_with_an_open_tie_are_refused() {
    // a ties with b and is better than c, but b knows nothing of c.
    let rows: Vec<PlainRow> = vec![
        (vec!["a".to_string()], vec![("b".to_string(), 0), ("c".to_string(), 1)]),
        (vec!["b".to_string()], vec![("a".to_string(), 0)]),
        (vec!["c".to_string()], vec![("a".to_string(), -1)]),
    ];
    assert!(Matrix::from_rows(&rows).is_none());
}

#[test]
fn is_closed_tells_a_broken_cache() {
    let mut m = Matrix::new();
    m.insert(&group("a"), &group("b"), CompareResult::Better);
    assert!(m.is_closed());
    let mut line = tagger::line::Line::new();
    line.push("a".to_string(), CompareResult::Better);
    m.push_row(group("c"), line);
    assert!(!m.is_closed());
}

#[test]
fn cache_stays_closed_under_any_inserts() {
    let keys = ["a", "b", "c", "d", "e", "f"];
    let results = all_results();
    // A fixed sequence of pseudo-random numbers.
    let mut seed: u64 = 0x9e37_79b9_7f4a_7c15;
    let mut next = || {
        seed = seed.wrapping_mul(6364136223846793005).wrapping_add(1442695040888963407);
        (seed >> 33) as usize
    };
    for _ in 0..20 {
        let mut m = Matrix::new();
        for _ in 0..30 {
            let a = keys[next() % keys.len()];
            let b = keys[next() % keys.len()];
            let v = results[next() % results.len()];
            m.insert(&group(a), &group(b), v);
            assert!(m.is_closed());
            let expected = if a == b { CompareResult::Same } else { v };
            assert_eq!(m.get(&group(a), &group(b)), Some(expected));
            assert_eq!(m.get(&group(b), &group(a)), Some(expected.reverse()));
            for x in keys {
                for y in keys {
                    let forth = m.get(&group(x), &group(y));
                    let back = m.get(&group(y), &group(x));
                    assert_eq!(forth, back.map(|r| r.reverse()));
                }
            }
        }
        let rows = m.rows();
        assert_eq!(Matrix::from_rows(&rows).unwrap().rows(), rows);
    }
}
