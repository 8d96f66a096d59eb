use tagger::cmper::Command;
use tagger::input::InputBuffer;
use tagger::observer::{count_tag, count_tags, Observer};
use tagger::picker::{to_digit, typed_page, Method, PathSet, Picker, PickerCommand};
use tagger::state::{CurrentScreen, Input};
use tagger::tag::{without, Tag, TagRecord};
use tagger::tagger::{is_ascii_control, Tagger, TaggerCommand};

fn names(list: &[&str]) -> Vec<String> {
    list.iter().map(|n| n.to_string()).collect()
}

fn images(n: usize) -> Vec<String> {
    (0..n).map(|i| format!("img{i:02}.png")).collect()
}

fn picker(n: usize, picked: &[&str]) -> Picker {
    Picker::new(
        Method::default(),
        names(picked),
        "cache.json".to_string(),
        images(n),
        "out".to_string(),
    )
}

#[test]
fn default_method_is_a_soft_link() {
    assert_eq!(Method::default(), Method::SoftLink);
}

#[test]
fn digits_are_read_from_ascii_only() {
    assert_eq!(to_digit('0'), Some(0));
    assert_eq!(to_digit('7'), Some(7));
    assert_eq!(to_digit('9'), Some(9));
    assert_eq!(to_digit('a'), None);
    assert_eq!(to_digit('/'), None);
    assert_eq!(to_digit(':'), None);
    assert_eq!(to_digit('٣'), None);
}

#[test]
fn typed_page_appends_a_digit() {
    assert_eq!(typed_page(0, 7), 7);
    assert_eq!(typed_page(12, 3), 123);
    assert_eq!(typed_page(usize::MAX, 1), usize::MAX);
    assert_eq!(typed_page(usize::MAX / 10, 9), usize::MAX);
    assert_eq!(typed_page(usize::MAX / 10, 5), usize::MAX / 10 * 10 + 5);
}

#[test]
fn path_set_has_no_duplicates() {
    let mut s = PathSet::from_vec(names(&["a", "b", "a"]));
    assert_eq!(s.paths(), &names(&["a", "b"]));
    assert!(s.contains(&"a".to_string()));
    assert!(!s.contains(&"c".to_string()));
    s.insert("c".to_string());
    s.insert("a".to_string());
    assert_eq!(s.paths(), &names(&["a", "b", "c"]));
    s.remove(&"a".to_string());
    s.remove(&"zz".to_string());
    assert_eq!(s.paths(), &names(&["b", "c"]));
    assert!(PathSet::new().paths().is_empty());
}

#[test]
fn new_picker_starts_on_the_main_screen() {
    let p = picker(20, &["img03.png"]);
    assert_eq!(p.current_screen(), CurrentScreen::Main);
    assert_eq!(p.chosen_flags(), [false; 9]);
    assert_eq!(p.items().page(), 0);
    assert_eq!(p.finished(), 0);
    assert_eq!(p.method(), Method::SoftLink);
    assert_eq!(p.to(), "out");
    assert_eq!(p.cache_path(), "cache.json");
    assert_eq!(p.cache().paths(), &names(&["img03.png"]));
}

#[test]
fn mark_page_marks_what_was_picked() {
    let mut p = picker(20, &["img03.png", "img10.png"]);
    p.mark_page();
    let mut expected = [false; 9];
    expected[3] = true;
    assert_eq!(p.chosen_flags(), expected);
    assert_eq!(p.on_key(Input::Right), PickerCommand::Reload);
    assert_eq!(p.chosen_flags(), [false; 9]);
    p.mark_page();
    let mut expected = [false; 9];
    expected[1] = true;
    assert_eq!(p.chosen_flags(), expected);
    assert_eq!(p.finished(), 9);
}

#[test]
fn digits_toggle_the_items_of_the_page() {
    let mut p = picker(20, &[]);
    assert_eq!(p.on_key(Input::Char('2')), PickerCommand::Redraw);
    assert!(p.chosen_flags()[1]);
    assert_eq!(p.cache().paths(), &names(&["img01.png"]));
    assert_eq!(p.on_key(Input::Char('9')), PickerCommand::Redraw);
    assert_eq!(p.cache().paths(), &names(&["img01.png", "img08.png"]));
    assert_eq!(p.on_key(Input::Char('2')), PickerCommand::Redraw);
    assert!(!p.chosen_flags()[1]);
    assert_eq!(p.cache().paths(), &names(&["img08.png"]));
    assert_eq!(p.on_key(Input::Char('0')), PickerCommand::Redraw);
    assert_eq!(p.cache().paths(), &names(&["img08.png"]));
}

#[test]
fn digits_beyond_the_page_toggle_nothing() {
    let mut p = picker(11, &[]);
    p.on_key(Input::Enter);
    assert_eq!(p.items().page(), 1);
    assert_eq!(p.on_key(Input::Char('3')), PickerCommand::Redraw);
    assert_eq!(p.chosen_flags(), [false; 9]);
    assert!(p.cache().paths().is_empty());
    assert_eq!(p.on_key(Input::Char('2')), PickerCommand::Redraw);
    assert_eq!(p.cache().paths(), &names(&["img10.png"]));
}

#[test]
fn picker_turns_pages_and_finishes() {
    let mut p = picker(20, &[]);
    p.on_key(Input::Char('1'));
    assert_eq!(p.on_key(Input::Down), PickerCommand::Reload);
    assert_eq!(p.items().page(), 1);
    assert_eq!(p.on_key(Input::Enter), PickerCommand::Reload);
    assert_eq!(p.items().page(), 2);
    assert_eq!(p.on_key(Input::Right), PickerCommand::Redraw);
    assert_eq!(p.current_screen(), CurrentScreen::Finished);
    assert_eq!(p.on_key(Input::Left), PickerCommand::Ignore);
    assert_eq!(p.on_key(Input::Char('q')), PickerCommand::Redraw);
    assert_eq!(p.current_screen(), CurrentScreen::Exiting);
    assert_eq!(p.on_key(Input::Char('x')), PickerCommand::Redraw);
    assert_eq!(p.current_screen(), CurrentScreen::Main);
    assert_eq!(p.on_key(Input::Up), PickerCommand::Reload);
    assert_eq!(p.items().page(), 1);
    assert_eq!(p.on_key(Input::Tab), PickerCommand::Ignore);
}

#[test]
fn picker_jumps_to_a_typed_page() {
    let mut p = picker(200, &[]);
    assert_eq!(p.on_key(Input::Char('j')), PickerCommand::Redraw);
    assert_eq!(p.current_screen(), CurrentScreen::Popup(0));
    assert_eq!(p.on_key(Input::Char('1')), PickerCommand::Redraw);
    assert_eq!(p.items().page(), 1);
    assert_eq!(p.on_key(Input::Char('2')), PickerCommand::Redraw);
    assert_eq!(p.items().page(), 12);
    assert_eq!(p.on_key(Input::Char('9')), PickerCommand::Redraw);
    assert_eq!(p.items().page(), 22);
    assert_eq!(p.on_key(Input::Backspace), PickerCommand::Redraw);
    assert_eq!(p.items().page(), 2);
    assert_eq!(p.on_key(Input::Char('x')), PickerCommand::Ignore);
    assert_eq!(p.on_key(Input::Up), PickerCommand::Ignore);
    assert_eq!(p.on_key(Input::Enter), PickerCommand::Reload);
    assert_eq!(p.current_screen(), CurrentScreen::Main);
    assert_eq!(p.items().page(), 2);
}

#[test]
fn picker_leaves_on_y() {
    let mut p = picker(3, &[]);
    p.on_key(Input::Char('q'));
    assert_eq!(p.on_key(Input::Char('y')), PickerCommand::SaveAndQuit);
    assert_eq!(p.on_key(Input::Char('Y')), PickerCommand::Quit);
    assert_eq!(p.current_screen(), CurrentScreen::Exiting);
}

fn observed() -> Observer {
    Observer::new(
        vec![("soft".to_string(), 2), ("bright".to_string(), 5), ("dark".to_string(), -1)],
        vec![
            ("a".to_string(), names(&["soft", "dark"])),
            ("b".to_string(), names(&["soft"])),
            ("c".to_string(), names(&[])),
            ("d".to_string(), names(&["soft", "soft", "gone"])),
        ],
    )
}

#[test]
fn histogram_counts_items_for_each_tag_in_order_of_name() {
    let o = observed();
    assert_eq!(
        o.histogram(),
        vec![("bright".to_string(), 0), ("dark".to_string(), 1), ("soft".to_string(), 3)]
    );
    assert_eq!(o.names(), names(&["soft", "bright", "dark"]));
    assert!(Observer::new(Vec::new(), Vec::new()).histogram().is_empty());
}

#[test]
fn count_tags_keeps_the_given_order() {
    let tagged = vec![
        ("a".to_string(), names(&["x", "y"])),
        ("b".to_string(), names(&["y"])),
    ];
    assert_eq!(count_tag(&tagged, &"y".to_string()), 2);
    assert_eq!(count_tag(&tagged, &"x".to_string()), 1);
    assert_eq!(count_tag(&tagged, &"z".to_string()), 0);
    assert_eq!(
        count_tags(&names(&["y", "z", "x"]), &tagged),
        vec![("y".to_string(), 2), ("z".to_string(), 0), ("x".to_string(), 1)]
    );
}

#[test]
fn observer_leaves_on_q_then_y() {
    let mut o = observed();
    assert_eq!(o.current_screen(), CurrentScreen::Main);
    assert_eq!(o.on_key(Input::Enter), Command::Ignore);
    assert_eq!(o.on_key(Input::Char('q')), Command::Redraw);
    assert_eq!(o.current_screen(), CurrentScreen::Exiting);
    assert_eq!(o.on_key(Input::Char('n')), Command::Redraw);
    assert_eq!(o.current_screen(), CurrentScreen::Main);
    o.on_key(Input::Char('q'));
    assert_eq!(o.on_key(Input::Char('y')), Command::Quit);
}

fn form() -> InputBuffer<2> {
    InputBuffer::new(["TagName".to_string(), "Score".to_string()])
}

#[test]
fn new_form_is_empty() {
    let b = form();
    assert_eq!(b.position(), 0);
    assert_eq!(b.key(0), "TagName");
    assert_eq!(b.key(1), "Score");
    assert_eq!(b.value(0), "");
    assert_eq!(b.value(1), "");
}

#[test]
fn form_edits_the_field_under_the_cursor() {
    let mut b = form();
    b.push('a');
    b.push('b');
    assert_eq!(b.value(0), "ab");
    assert_eq!(b.value(1), "");
    b.next();
    assert_eq!(b.position(), 1);
    b.push('7');
    assert_eq!(b.value(1), "7");
    b.pop();
    b.pop();
    assert_eq!(b.value(1), "");
    b.prev();
    b.pop();
    assert_eq!(b.value(0), "a");
    b.clear();
    assert_eq!(b.value(0), "");
}

#[test]
fn form_cursor_goes_round() {
    let mut b: InputBuffer<3> =
        InputBuffer::new(["a".to_string(), "b".to_string(), "c".to_string()]);
    b.prev();
    assert_eq!(b.position(), 2);
    b.next();
    assert_eq!(b.position(), 0);
    b.next();
    b.next();
    assert_eq!(b.position(), 2);
    b.prev();
    assert_eq!(b.position(), 1);
    b.set_cursor(2);
    assert_eq!(b.position(), 2);
}

#[test]
fn clear_all_empties_the_form() {
    let mut b = form();
    b.push('x');
    b.next();
    b.push('1');
    b.clear_all();
    assert_eq!(b.position(), 0);
    assert_eq!(b.value(0), "");
    assert_eq!(b.value(1), "");
}

#[test]
fn tags_are_read_from_two_fields() {
    let t = Tag::try_from_fields(&"soft".to_string(), &"12".to_string()).unwrap();
    assert_eq!(t.name, "soft");
    assert_eq!(t.score, 12);
    let t = Tag::try_from_fields(&"dark".to_string(), &"-3".to_string()).unwrap();
    assert_eq!(t.score, -3);
    let t = Tag::try_from_fields(&"".to_string(), &"+4".to_string()).unwrap();
    assert_eq!((t.name.as_str(), t.score), ("", 4));
    assert!(Tag::try_from_fields(&"soft".to_string(), &"".to_string()).is_err());
    assert!(Tag::try_from_fields(&"soft".to_string(), &"1.5".to_string()).is_err());
    assert!(Tag::try_from_fields(&"soft".to_string(), &"soft".to_string()).is_err());
    assert!(Tag::try_from_fields(&"x".to_string(), &"9223372036854775808".to_string()).is_err());
    let t = Tag::try_from_fields(&"x".to_string(), &"9223372036854775807".to_string()).unwrap();
    assert_eq!(t.score, i64::MAX);
}

#[test]
fn tag_with_score_needs_a_score() {
    assert!(Tag::with_score(&"a".to_string(), None).is_err());
    let t = Tag::with_score(&"a".to_string(), Some(5)).unwrap();
    assert_eq!((t.name.as_str(), t.score), ("a", 5));
    let t = Tag::from_pair(&"b".to_string(), &-2);
    assert_eq!((t.name.as_str(), t.score), ("b", -2));
    let c = t.clone();
    assert_eq!((c.name.as_str(), c.score), ("b", -2));
}

#[test]
fn tags_are_equal_by_name() {
    let a = Tag::from_pair(&"a".to_string(), &1);
    let a2 = Tag::from_pair(&"a".to_string(), &2);
    let b = Tag::from_pair(&"b".to_string(), &1);
    assert!(a == a2);
    assert!(a != b);
}

#[test]
fn without_takes_every_occurrence() {
    assert_eq!(without(&names(&["a", "b", "a", "c"]), &"a".to_string()), names(&["b", "c"]));
    assert_eq!(without(&names(&["a"]), &"b".to_string()), names(&["a"]));
    assert!(without(&Vec::new(), &"b".to_string()).is_empty());
}

fn record() -> TagRecord {
    TagRecord::from_parts(
        vec![("soft".to_string(), 2), ("bright".to_string(), 5), ("dark".to_string(), 2)],
        vec![("img00.png".to_string(), names(&["soft"]))],
    )
}

#[test]
fn record_tags_and_untags_items() {
    let mut r = record();
    let soft = Tag::from_pair(&"soft".to_string(), &2);
    let dark = Tag::from_pair(&"dark".to_string(), &2);
    r.tag(&"img00.png".to_string(), &dark);
    r.tag(&"img01.png".to_string(), &soft);
    r.tag(&"img01.png".to_string(), &soft);
    assert_eq!(r.get_tags(&"img00.png".to_string()), Some(&names(&["soft", "dark"])));
    assert_eq!(r.get_tags(&"img01.png".to_string()), Some(&names(&["soft", "soft"])));
    assert_eq!(r.get_tags(&"img02.png".to_string()), None);
    r.untag(&"img01.png".to_string(), &soft);
    assert_eq!(r.get_tags(&"img01.png".to_string()), Some(&Vec::new()));
    r.untag(&"img02.png".to_string(), &soft);
    assert_eq!(r.get_tags(&"img02.png".to_string()), None);
    r.untag(&"img00.png".to_string(), &soft);
    assert_eq!(r.get_tags(&"img00.png".to_string()), Some(&names(&["dark"])));
}

#[test]
fn record_removes_a_tag_everywhere() {
    let mut r = record();
    let dark = Tag::from_pair(&"dark".to_string(), &2);
    r.tag(&"img00.png".to_string(), &dark);
    r.tag(&"img01.png".to_string(), &dark);
    r.remove(&"dark".to_string());
    assert!(r.tags().get(&"dark".to_string()).is_none());
    assert_eq!(r.tags().get(&"soft".to_string()), Some(&2));
    assert_eq!(r.get_tags(&"img00.png".to_string()), Some(&names(&["soft"])));
    assert_eq!(r.get_tags(&"img01.png".to_string()), Some(&Vec::new()));
    r.remove_item(&"img01.png".to_string());
    assert_eq!(r.get_tags(&"img01.png".to_string()), None);
    assert_eq!(r.tagged().len(), 1);
}

#[test]
fn record_replaces_the_score_of_a_tag() {
    let mut r = TagRecord::new();
    r.insert_tag("a".to_string(), 1);
    r.insert_tag("a".to_string(), 4);
    assert_eq!(r.tags().len(), 1);
    assert_eq!(r.tags().get(&"a".to_string()), Some(&4));
}

#[test]
fn tags_are_listed_best_first() {
    let items = record().to_items::<9>();
    let listed: Vec<(String, i64)> =
        items.current_items().iter().map(|t| (t.name.clone(), t.score)).collect();
    assert_eq!(
        listed,
        vec![("bright".to_string(), 5), ("soft".to_string(), 2), ("dark".to_string(), 2)]
    );
    assert_eq!(TagRecord::new().to_items::<9>().len(), 0);
}

#[test]
fn control_characters_are_told_apart() {
    assert!(is_ascii_control('\n'));
    assert!(is_ascii_control('\u{0}'));
    assert!(is_ascii_control('\u{1f}'));
    assert!(is_ascii_control('\u{7f}'));
    assert!(!is_ascii_control(' '));
    assert!(!is_ascii_control('a'));
    assert!(!is_ascii_control('\u{80}'));
}

fn tagger(n: usize) -> Tagger {
    Tagger::new(images(n), record(), "tags.json".to_string())
}

#[test]
fn new_tagger_lists_the_tags() {
    let t = tagger(10);
    assert_eq!(t.current_screen(), CurrentScreen::Main);
    assert_eq!(t.items().len(), 10);
    assert_eq!(t.tag_items().len(), 3);
    assert!(t.current_tag().is_none());
    assert_eq!(t.chosen_flags(), [false; 4]);
    assert_eq!(t.output(), "tags.json");
    assert_eq!(t.finished(), 0);
    assert_eq!(t.input_buffer().key(0), "TagName");
    assert_eq!(t.input_buffer().key(1), "Score");
}

#[test]
fn tagger_asks_for_a_tag_before_it_marks() {
    let mut t = tagger(10);
    assert_eq!(t.on_key(Input::Char('1')), TaggerCommand::Redraw);
    assert_eq!(t.current_screen(), CurrentScreen::Popup(2));
    assert_eq!(t.on_key(Input::Char('2')), TaggerCommand::Reload);
    assert_eq!(t.current_screen(), CurrentScreen::Main);
    assert_eq!(t.current_tag().as_ref().unwrap().name, "soft");
    t.mark_page();
    assert_eq!(t.chosen_flags(), [true, false, false, false]);
}

#[test]
fn tagger_digits_tag_and_untag() {
    let mut t = tagger(10);
    t.on_key(Input::Char('v'));
    t.on_key(Input::Char('1'));
    assert_eq!(t.current_tag().as_ref().unwrap().name, "bright");
    t.mark_page();
    assert_eq!(t.on_key(Input::Char('2')), TaggerCommand::Redraw);
    assert_eq!(t.chosen_flags(), [false, true, false, false]);
    assert_eq!(t.cache().get_tags(&"img01.png".to_string()), Some(&names(&["bright"])));
    assert_eq!(t.on_key(Input::Char('2')), TaggerCommand::Redraw);
    assert_eq!(t.cache().get_tags(&"img01.png".to_string()), Some(&Vec::new()));
    assert_eq!(t.on_key(Input::Char('5')), TaggerCommand::Ignore);
    assert_eq!(t.on_key(Input::Char('0')), TaggerCommand::Ignore);
}

#[test]
fn tagger_adds_a_tag_from_the_form() {
    let mut t = tagger(10);
    assert_eq!(t.on_key(Input::Char('n')), TaggerCommand::Redraw);
    assert_eq!(t.current_screen(), CurrentScreen::Popup(1));
    for c in "new".chars() {
        assert_eq!(t.on_key(Input::Char(c)), TaggerCommand::Redraw);
    }
    assert_eq!(t.on_key(Input::Char('\u{7}')), TaggerCommand::Ignore);
    assert_eq!(t.on_key(Input::Tab), TaggerCommand::Redraw);
    t.on_key(Input::Char('9'));
    t.on_key(Input::Char('x'));
    assert_eq!(t.on_key(Input::Backspace), TaggerCommand::Redraw);
    assert_eq!(t.input_buffer().value(0), "new");
    assert_eq!(t.input_buffer().value(1), "9");
    assert_eq!(t.on_key(Input::Enter), TaggerCommand::Reload);
    assert_eq!(t.current_screen(), CurrentScreen::Main);
    assert_eq!(t.cache().tags().get(&"new".to_string()), Some(&9));
    assert_eq!(t.tag_items().len(), 4);
    assert_eq!(t.input_buffer().value(0), "");
    assert_eq!(t.input_buffer().position(), 0);
}

#[test]
fn tagger_form_moves_to_the_score_when_it_is_missing() {
    let mut t = tagger(10);
    t.on_key(Input::Char('n'));
    t.on_key(Input::Char('s'));
    assert_eq!(t.on_key(Input::Enter), TaggerCommand::Redraw);
    assert_eq!(t.current_screen(), CurrentScreen::Popup(1));
    assert_eq!(t.input_buffer().position(), 1);
    assert_eq!(t.input_buffer().value(0), "s");
    assert_eq!(t.on_key(Input::BackTab), TaggerCommand::Redraw);
    assert_eq!(t.input_buffer().position(), 0);
    assert_eq!(t.on_key(Input::Esc), TaggerCommand::Reload);
    assert_eq!(t.current_screen(), CurrentScreen::Main);
    assert_eq!(t.input_buffer().value(0), "");
}

#[test]
fn tagger_removes_a_tag_with_an_empty_score() {
    let mut t = tagger(10);
    t.on_key(Input::Char('n'));
    for c in "soft".chars() {
        t.on_key(Input::Char(c));
    }
    assert_eq!(t.on_key(Input::Enter), TaggerCommand::Redraw);
    assert_eq!(t.on_key(Input::Enter), TaggerCommand::Reload);
    assert_eq!(t.current_screen(), CurrentScreen::Main);
    assert!(t.cache().tags().get(&"soft".to_string()).is_none());
    assert_eq!(t.cache().get_tags(&"img00.png".to_string()), Some(&Vec::new()));
    assert_eq!(t.tag_items().len(), 2);
}

#[test]
fn tagger_turns_pages_and_finishes() {
    let mut t = tagger(6);
    assert_eq!(t.on_key(Input::Right), TaggerCommand::Reload);
    assert_eq!(t.items().page(), 1);
    assert_eq!(t.finished(), 4);
    assert_eq!(t.on_key(Input::Enter), TaggerCommand::Redraw);
    assert_eq!(t.current_screen(), CurrentScreen::Finished);
    assert_eq!(t.on_key(Input::Char('x')), TaggerCommand::Redraw);
    assert_eq!(t.current_screen(), CurrentScreen::Main);
    assert_eq!(t.on_key(Input::Up), TaggerCommand::Reload);
    assert_eq!(t.items().page(), 0);
    assert_eq!(t.on_key(Input::Tab), TaggerCommand::Ignore);
    t.on_key(Input::Down);
    t.on_key(Input::Down);
    assert_eq!(t.on_key(Input::Char('q')), TaggerCommand::Redraw);
    assert_eq!(t.current_screen(), CurrentScreen::Exiting);
    assert_eq!(t.on_key(Input::Char('y')), TaggerCommand::SaveAndQuit);
    assert_eq!(t.on_key(Input::Char('Y')), TaggerCommand::Quit);
    assert_eq!(t.on_key(Input::Esc), TaggerCommand::Redraw);
    assert_eq!(t.current_screen(), CurrentScreen::Main);
}

#[test]
fn tagger_jumps_to_a_typed_page() {
    let mut t = tagger(100);
    t.on_key(Input::Char('j'));
    assert_eq!(t.current_screen(), CurrentScreen::Popup(0));
    t.on_key(Input::Char('1'));
    t.on_key(Input::Char('3'));
    assert_eq!(t.items().page(), 13);
    t.on_key(Input::Char('9'));
    assert_eq!(t.items().page(), 24);
    assert_eq!(t.on_key(Input::Backspace), TaggerCommand::Redraw);
    assert_eq!(t.items().page(), 2);
    assert_eq!(t.on_key(Input::Esc), TaggerCommand::Ignore);
    assert_eq!(t.on_key(Input::Enter), TaggerCommand::Reload);
    assert_eq!(t.current_screen(), CurrentScreen::Main);
}

#[test]
fn tag_list_goes_round() {
    let many: Vec<(String, i64)> = (0..20).map(|i| (format!("t{i:02}"), i)).collect();
    let mut t = Tagger::new(images(3), TagRecord::from_parts(many, Vec::new()), String::new());
    t.on_key(Input::Char('v'));
    assert_eq!(t.tag_items().page(), 0);
    assert_eq!(t.on_key(Input::Up), TaggerCommand::Redraw);
    assert_eq!(t.tag_items().page(), 2);
    assert_eq!(t.on_key(Input::Down), TaggerCommand::Redraw);
    assert_eq!(t.tag_items().page(), 0);
    assert_eq!(t.on_key(Input::Right), TaggerCommand::Redraw);
    assert_eq!(t.tag_items().page(), 1);
    assert_eq!(t.on_key(Input::Char('1')), TaggerCommand::Reload);
    assert_eq!(t.current_tag().as_ref().unwrap().name, "t10");
    t.on_key(Input::Char('v'));
    assert_eq!(t.on_key(Input::Esc), TaggerCommand::Redraw);
    assert_eq!(t.current_screen(), CurrentScreen::Main);
    t.on_key(Input::Char('v'));
    t.on_key(Input::Left);
    assert_eq!(t.tag_items().page(), 0);
    assert_eq!(t.on_key(Input::Char('9')), TaggerCommand::Reload);
    assert_eq!(t.current_tag().as_ref().unwrap().name, "t11");
}
