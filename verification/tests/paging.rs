use tagger::components::{CheckBox, TagGrid};
use tagger::items::{Items, PreLoadDirection};
use tagger::state::{bit_length, complexity};

fn numbers(n: u32) -> Vec<u32> {
    (0..n).collect()
}

#[test]
fn new_list_is_on_its_first_page() {
    let items: Items<u32, 4> = Items::new(numbers(10));
    assert_eq!(items.page(), 0);
    assert_eq!(items.len(), 10);
    assert_eq!(items.current_items(), &[0, 1, 2, 3]);
}

#[test]
fn inc_page_stops_at_the_last_page() {
    let mut items: Items<u32, 4> = Items::new(numbers(10));
    assert!(!items.inc_page());
    assert_eq!(items.page(), 1);
    assert_eq!(items.current_items(), &[4, 5, 6, 7]);
    assert!(!items.inc_page());
    assert_eq!(items.page(), 2);
    assert_eq!(items.current_items(), &[8, 9]);
    assert!(items.inc_page());
    assert_eq!(items.page(), 2);
}

#[test]
fn inc_page_on_a_full_last_page_is_over() {
    let mut items: Items<u32, 4> = Items::new(numbers(8));
    assert!(!items.inc_page());
    assert!(items.inc_page());
    assert_eq!(items.page(), 1);
    assert_eq!(items.current_items(), &[4, 5, 6, 7]);
}

#[test]
fn dec_page_stops_at_the_first_page() {
    let mut items: Items<u32, 4> = Items::new(numbers(10));
    assert!(items.dec_page());
    assert_eq!(items.page(), 0);
    items.inc_page();
    items.inc_page();
    assert!(!items.dec_page());
    assert_eq!(items.page(), 1);
    assert!(!items.dec_page());
    assert!(items.dec_page());
}

#[test]
fn set_page_holds_the_page_to_the_list() {
    let mut items: Items<u32, 4> = Items::new(numbers(10));
    items.set_page(1);
    assert_eq!(items.page(), 1);
    items.set_page(2);
    assert_eq!(items.page(), 2);
    items.set_page(3);
    assert_eq!(items.page(), 2);
    items.set_page(usize::MAX);
    assert_eq!(items.page(), 2);
    items.set_page(0);
    assert_eq!(items.page(), 0);
    let mut full: Items<u32, 4> = Items::new(numbers(8));
    full.set_page(9);
    assert_eq!(full.page(), 1);
}

#[test]
fn empty_list_has_one_empty_page() {
    let mut items: Items<u32, 4> = Items::new(Vec::new());
    assert!(items.current_items().is_empty());
    assert!(items.preload_items().is_empty());
    assert!(items.inc_page());
    assert!(items.dec_page());
    items.set_page(5);
    assert_eq!(items.page(), 0);
}

#[test]
fn preload_follows_the_last_move() {
    let mut items: Items<u32, 4> = Items::new(numbers(10));
    assert_eq!(items.preload_items(), &[4, 5, 6, 7]);
    items.inc_page();
    assert_eq!(items.preload_items(), &[8, 9]);
    items.inc_page();
    // No page ahead: the one behind.
    assert_eq!(items.preload_items(), &[4, 5, 6, 7]);
    items.dec_page();
    assert_eq!(items.preload_items(), &[0, 1, 2, 3]);
    items.dec_page();
    // No page behind: the one ahead.
    assert_eq!(items.preload_items(), &[4, 5, 6, 7]);
}

#[test]
fn preload_of_a_single_page_is_empty() {
    let mut items: Items<u32, 4> = Items::new(numbers(3));
    assert!(items.preload_items().is_empty());
    items.dec_page();
    assert!(items.preload_items().is_empty());
}

#[test]
fn push_replaces_the_first_equal_item() {
    let mut items: Items<(u32, u32), 4> = Items::new(vec![(1, 1), (2, 2)]);
    items.push((3, 3));
    assert_eq!(items.current_items(), &[(1, 1), (2, 2), (3, 3)]);
    items.push((2, 2));
    assert_eq!(items.len(), 3);
    let mut names: Items<String, 2> = Items::new(vec!["a".to_string(), "b".to_string()]);
    names.push("a".to_string());
    assert_eq!(names.len(), 2);
    names.push("c".to_string());
    assert_eq!(names.len(), 3);
    names.inc_page();
    assert_eq!(names.current_items(), &["c".to_string()]);
}

#[test]
fn remove_takes_every_equal_item() {
    let mut items: Items<u32, 4> = Items::new(vec![1, 2, 1, 3, 1]);
    items.remove(&1);
    assert_eq!(items.current_items(), &[2, 3]);
    items.remove(&7);
    assert_eq!(items.current_items(), &[2, 3]);
    items.remove(&2);
    items.remove(&3);
    assert_eq!(items.len(), 0);
}

#[test]
fn remove_keeps_the_page() {
    let mut items: Items<u32, 2> = Items::new(vec![1, 2, 3, 4, 5]);
    items.set_page(2);
    items.remove(&5);
    assert_eq!(items.page(), 2);
    assert_eq!(items.len(), 4);
    assert!(items.current_items().is_empty());
    items.set_page(2);
    assert_eq!(items.page(), 1);
    assert_eq!(items.current_items(), &[3, 4]);
}

#[test]
fn direction_turns_round() {
    assert_eq!(PreLoadDirection::Forward.not(), PreLoadDirection::Backward);
    assert_eq!(PreLoadDirection::Backward.not(), PreLoadDirection::Forward);
    assert_eq!(PreLoadDirection::default(), PreLoadDirection::Forward);
}

#[test]
fn bit_length_counts_binary_digits() {
    assert_eq!(bit_length(0), 0);
    assert_eq!(bit_length(1), 1);
    assert_eq!(bit_length(2), 2);
    assert_eq!(bit_length(3), 2);
    assert_eq!(bit_length(4), 3);
    assert_eq!(bit_length(255), 8);
    assert_eq!(bit_length(256), 9);
    assert_eq!(bit_length(usize::MAX), usize::BITS as usize);
}

#[test]
fn complexity_of_small_runs() {
    assert_eq!(complexity(0, 0), 0);
    assert_eq!(complexity(0, 1), 0);
    assert_eq!(complexity(0, 2), 1);
    assert_eq!(complexity(5, 2), 1);
}

#[test]
fn complexity_sums_binary_searches() {
    // 1 + 2 for the items that follow one and two placed ones.
    assert_eq!(complexity(0, 3), 3);
    assert_eq!(complexity(1, 3), 3);
    assert_eq!(complexity(2, 3), 2);
    assert_eq!(complexity(3, 3), 0);
    assert_eq!(complexity(9, 3), 0);
    // 2 + 2 + 3
    assert_eq!(complexity(2, 5), 7);
    // 1 + 2 + 2 + 3 + 3 + 3 + 3 + 4 + 4
    assert_eq!(complexity(0, 10), 25);
}

#[test]
fn check_box_cells() {
    let items = ["a", "b", "c"];
    let marks = [false, true, false, false, false, false, false, false, true];
    let grid = CheckBox::new(&items, &marks);
    assert_eq!(grid.cells(), 9);
    assert_eq!(grid.title(0), 1);
    assert_eq!(grid.title(8), 9);
    assert!(!grid.highlighted(0));
    assert!(grid.highlighted(1));
    assert!(grid.highlighted(8));
    assert_eq!(grid.item(0), Some(&"a"));
    assert_eq!(grid.item(2), Some(&"c"));
    assert_eq!(grid.item(3), None);
}

#[test]
fn tag_grid_cells() {
    let items = [10, 20, 30, 40];
    let grid: TagGrid<'_, i32, 2, 3> = TagGrid::new(&items);
    assert_eq!(grid.cells(), Some(6));
    assert_eq!(grid.place(0), (0, 0));
    assert_eq!(grid.place(2), (0, 2));
    assert_eq!(grid.place(3), (1, 0));
    assert_eq!(grid.place(5), (1, 2));
    assert_eq!(grid.title(4), 5);
    assert_eq!(grid.item(3), Some(&40));
    assert_eq!(grid.item(4), None);
    let huge: TagGrid<'_, i32, { usize::MAX }, 2> = TagGrid::new(&items);
    assert_eq!(huge.cells(), None);
}
