use tagger::dataset::{
    divide_group, encode, locate, running_totals, split_point, BitFlags, DataSetDesc,
};
use tagger::images::{groups_for, images_only, is_image_type};
use tagger::compare::CompareResult;
use tagger::matrix::Matrix;
use tagger::ordpaths::OrdPaths;

fn names(list: &[&str]) -> Vec<String> {
    list.iter().map(|n| n.to_string()).collect()
}

#[test]
fn default_flags_are_empty() {
    let f = BitFlags::default();
    assert_eq!(f.bits(), 0);
    assert_eq!(f.to_vec(), vec![0i8; 64]);
}

#[test]
fn enable_sets_one_bit() {
    let mut f = BitFlags::default();
    f.enable(0);
    assert_eq!(f.bits(), 1);
    f.enable(5);
    assert_eq!(f.bits(), 0b100001);
    f.enable(5);
    assert_eq!(f.bits(), 0b100001);
    f.enable(62);
    assert_eq!(f.bits(), (1u64 << 62) | 0b100001);
}

#[test]
fn flags_from_a_word() {
    assert_eq!(BitFlags::from(6u64).bits(), 6);
    assert_eq!(BitFlags::from_bits(6), BitFlags::from(6u64));
    assert_eq!(BitFlags::from_bits(u64::MAX).to_vec(), vec![1i8; 64]);
}

#[test]
fn to_vec_lists_the_bits_from_the_lowest() {
    let v = BitFlags::from_bits(0b1010).to_vec();
    assert_eq!(v.len(), 64);
    assert_eq!(&v[..5], &[0, 1, 0, 1, 0]);
    assert!(v[5..].iter().all(|b| *b == 0));
    let top = BitFlags::from_bits(1u64 << 63).to_vec();
    assert_eq!(top[63], 1);
    assert!(top[..63].iter().all(|b| *b == 0));
}

#[test]
fn encode_marks_the_tags_that_an_item_has() {
    let all = names(&["bright", "dark", "sharp", "soft"]);
    assert_eq!(encode(&all, &names(&["dark", "soft"])).bits(), 0b1010);
    assert_eq!(encode(&all, &names(&[])).bits(), 0);
    assert_eq!(encode(&all, &names(&["soft", "soft", "unknown"])).bits(), 0b1000);
    assert_eq!(encode(&all, &all).bits(), 0b1111);
    assert_eq!(encode(&Vec::new(), &all).bits(), 0);
}

#[test]
fn split_point_is_the_share_for_validation() {
    assert_eq!(split_point(10, 9, 1), 1);
    assert_eq!(split_point(9, 9, 1), 0);
    assert_eq!(split_point(20, 9, 1), 2);
    assert_eq!(split_point(10, 1, 1), 5);
    assert_eq!(split_point(10, 0, 1), 10);
    assert_eq!(split_point(10, 1, 0), 0);
    assert_eq!(split_point(0, 9, 1), 0);
    assert_eq!(split_point(usize::MAX, u32::MAX, u32::MAX), usize::MAX / 2);
    assert_eq!(split_point(usize::MAX, 0, u32::MAX), usize::MAX);
}

#[test]
fn divide_group_splits_without_loss() {
    let all: Vec<String> = (0..50).map(|i| format!("img{i}")).collect();
    let mut valid = all.clone();
    let train = divide_group(&mut valid, 9, 1);
    assert_eq!(valid.len(), 5);
    assert_eq!(train.len(), 45);
    let mut joined: Vec<String> = valid.iter().chain(train.iter()).cloned().collect();
    joined.sort();
    let mut expected = all.clone();
    expected.sort();
    assert_eq!(joined, expected);
}

#[test]
fn divide_group_shuffles() {
    let all: Vec<String> = (0..50).map(|i| format!("img{i:02}")).collect();
    let mut orders = std::collections::BTreeSet::new();
    for _ in 0..20 {
        let mut valid = all.clone();
        let train = divide_group(&mut valid, 1, 0);
        assert!(valid.is_empty());
        orders.insert(train);
    }
    assert!(orders.len() > 1);
}

#[test]
fn new_description_is_empty() {
    let d = DataSetDesc::new(7);
    assert_eq!(d.num_classes, 7);
    assert!(d.up_sample.is_empty());
    assert!(d.binary_encodings.is_empty());
}

#[test]
fn add_collects_items_by_their_flags() {
    let mut d = DataSetDesc::new(2);
    d.add(BitFlags::from_bits(1), "a".to_string());
    d.add(BitFlags::from_bits(2), "b".to_string());
    d.add(BitFlags::from_bits(1), "c".to_string());
    assert_eq!(d.binary_encodings.len(), 2);
    assert_eq!(d.binary_encodings[&1], names(&["a", "c"]));
    assert_eq!(d.binary_encodings[&2], names(&["b"]));
    assert_eq!(d.num_classes, 2);
}

#[test]
fn images_are_told_by_their_extension() {
    let paths = names(&[
        "a.png", "notes.txt", "b.JPG", "dir/c.jpeg", "noext", "d.gif", "e.mp4", "f.webp", ".png",
        "g.tar.gz",
    ]);
    assert_eq!(
        images_only(paths),
        names(&["a.png", "b.JPG", "dir/c.jpeg", "d.gif", "f.webp"])
    );
    assert!(images_only(Vec::new()).is_empty());
}

#[test]
fn image_type_is_the_word_image() {
    assert!(is_image_type(&Some("image".to_string())));
    assert!(!is_image_type(&Some("video".to_string())));
    assert!(!is_image_type(&Some("images".to_string())));
    assert!(!is_image_type(&Some(String::new())));
    assert!(!is_image_type(&None));
}

#[test]
fn known_items_come_with_their_group() {
    let mut m = Matrix::new();
    m.insert(
        &OrdPaths::singleton("b.png".to_string()),
        &OrdPaths::singleton("a.png".to_string()),
        CompareResult::Same,
    );
    let found = groups_for(&names(&["a.png", "b.png", "c.png"]), &m);
    let members: Vec<Vec<String>> = found.iter().map(|g| g.members().clone()).collect();
    assert_eq!(
        members,
        vec![names(&["a.png", "b.png"]), names(&["b.png"]), names(&["c.png"])]
    );
}

#[test]
fn running_totals_add_up_the_counts() {
    assert_eq!(
        running_totals(&vec![(5, 3), (1, 0), (9, 4)]),
        Some(vec![(3, 5), (3, 1), (7, 9)])
    );
    assert_eq!(running_totals(&Vec::new()), Some(Vec::new()));
    assert_eq!(running_totals(&vec![(1, usize::MAX)]), Some(vec![(usize::MAX, 1)]));
    assert_eq!(running_totals(&vec![(1, usize::MAX), (2, 1)]), None);
    assert_eq!(running_totals(&vec![(1, 1), (2, usize::MAX), (3, 0)]), None);
}

#[test]
fn locate_finds_the_kind_of_a_sample() {
    let totals = running_totals(&vec![(5, 3), (1, 0), (9, 4)]).unwrap();
    assert_eq!(locate(&totals, 0), Some(5));
    assert_eq!(locate(&totals, 2), Some(5));
    assert_eq!(locate(&totals, 3), Some(9));
    assert_eq!(locate(&totals, 6), Some(9));
    assert_eq!(locate(&totals, 7), None);
    assert_eq!(locate(&Vec::new(), 0), None);
}
