use tagger::ordpaths::OrdPaths;

fn paths(names: &[&str]) -> Vec<String> {
    names.iter().map(|n| n.to_string()).collect()
}

#[test]
fn new_keeps_the_paths_in_order() {
    let g = OrdPaths::new(paths(&["b", "a", "c"]));
    assert_eq!(g.members(), &paths(&["b", "a", "c"]));
    assert_eq!(g.len(), 3);
    assert!(!g.is_empty());
    assert_eq!(g.canonical_key(), "b");
    assert_eq!(g.index(0), "b");
    assert_eq!(g.index(2), "c");
}

#[test]
fn singleton_has_one_member() {
    let g = OrdPaths::singleton("x".to_string());
    assert_eq!(g.members(), &paths(&["x"]));
    assert_eq!(g.canonical_key(), "x");
}

#[test]
fn default_group_is_empty() {
    let g = OrdPaths::default();
    assert!(g.is_empty());
    assert_eq!(g.len(), 0);
    assert!(g.random_one().is_none());
}

#[test]
fn contains_finds_members_only() {
    let g = OrdPaths::new(paths(&["a", "b"]));
    assert!(g.contains(&"a".to_string()));
    assert!(g.contains(&"b".to_string()));
    assert!(!g.contains(&"c".to_string()));
    assert!(!g.contains(&"".to_string()));
}

#[test]
fn merge_preserves_membership() {
    let mut into = OrdPaths::new(paths(&["a", "b"]));
    let mut from = OrdPaths::new(paths(&["c", "d", "e"]));
    into.extend(&mut from);
    assert_eq!(into.members(), &paths(&["a", "b", "c", "d", "e"]));
    assert_eq!(from.members(), &paths(&["c"]));
    assert!(!from.is_empty());
    assert_eq!(into.canonical_key(), "a");
    assert_eq!(from.canonical_key(), "c");
}

#[test]
fn merge_of_a_singleton_leaves_it_as_it_is() {
    let mut into = OrdPaths::singleton("a".to_string());
    let mut from = OrdPaths::singleton("b".to_string());
    into.extend(&mut from);
    assert_eq!(into.members(), &paths(&["a", "b"]));
    assert_eq!(from.members(), &paths(&["b"]));
}

#[test]
fn merge_into_an_empty_group_takes_all() {
    let mut into = OrdPaths::default();
    let mut from = OrdPaths::new(paths(&["c", "d"]));
    into.extend(&mut from);
    assert_eq!(into.members(), &paths(&["c", "d"]));
    assert_eq!(from.members(), &paths(&["c"]));
}

#[test]
fn merged_group_keeps_duplicates() {
    let mut into = OrdPaths::new(paths(&["a", "b"]));
    let mut from = OrdPaths::new(paths(&["b", "a"]));
    into.extend(&mut from);
    assert_eq!(into.members(), &paths(&["a", "b", "b", "a"]));
}

#[test]
fn equality_reads_the_canonical_key_only() {
    let a = OrdPaths::new(paths(&["a", "b"]));
    let a2 = OrdPaths::new(paths(&["a", "z"]));
    let b = OrdPaths::new(paths(&["b", "a"]));
    assert!(a == a2);
    assert!(a != b);
    let empty = OrdPaths::default();
    assert!(empty == a);
    assert!(b == empty);
}

#[test]
fn equality_survives_a_merge() {
    let mut a = OrdPaths::singleton("a".to_string());
    let copy = a.clone();
    let mut b = OrdPaths::singleton("b".to_string());
    let b_copy = b.clone();
    a.extend(&mut b);
    assert!(a == copy);
    assert!(b == b_copy);
}

#[test]
fn clone_has_the_same_members() {
    let a = OrdPaths::new(paths(&["a", "b"]));
    assert_eq!(a.clone().members(), a.members());
}

#[test]
fn random_one_is_a_member() {
    let g = OrdPaths::new(paths(&["a", "b", "c"]));
    let mut seen = std::collections::BTreeSet::new();
    for _ in 0..200 {
        let p = g.random_one().unwrap();
        assert!(g.contains(p));
        seen.insert(p.clone());
    }
    assert!(seen.len() > 1);
}

#[test]
fn random_one_of_a_singleton_is_its_member() {
    let g = OrdPaths::singleton("only".to_string());
    assert_eq!(g.random_one().unwrap(), "only");
}
