use tagger::cmper::{Cmper, Command, Step};
use tagger::compare::CompareResult;
use tagger::event::Event;
use tagger::matrix::Matrix;
use tagger::ordpaths::OrdPaths;
use tagger::sort::{Sorter, Stage};
use tagger::state::{CurrentScreen, Input};

fn group(path: &str) -> OrdPaths {
    OrdPaths::new(vec![path.to_string()])
}

fn groups(paths: &[&str]) -> Vec<OrdPaths> {
    paths.iter().map(|p| group(p)).collect()
}

fn keys(event: &Event) -> Option<(String, String)> {
    match event {
        Event::Compare(a, b) => Some((a.canonical_key().clone(), b.canonical_key().clone())),
        Event::Finished => None,
    }
}

/// The judgement of a human who ranks items by the number in their name.
fn by_number(a: &str, b: &str) -> CompareResult {
    let x: i64 = a.trim_start_matches('p').parse().unwrap();
    let y: i64 = b.trim_start_matches('p').parse().unwrap();
    match x - y {
        d if d >= 2 => CompareResult::MuchBetter,
        1 => CompareResult::Better,
        0 => CompareResult::Same,
        -1 => CompareResult::Worse,
        _ => CompareResult::MuchWorse,
    }
}

fn drive(
    items: Vec<OrdPaths>,
    matrix: Matrix,
    human: &dyn Fn(&str, &str) -> CompareResult,
) -> (Sorter, Cmper, Vec<(String, String)>) {
    let mut sorter = Sorter::new(items.clone());
    let mut resolver = Cmper::new(items, matrix);
    let mut asked = Vec::new();
    while let Some(event) = sorter.poll() {
        match resolver.recv_event(event) {
            Step::Reply(m) => sorter.answer(m),
            Step::Ask => {
                let (a, b) = {
                    let (a, b) = resolver.question().unwrap();
                    (a.canonical_key().clone(), b.canonical_key().clone())
                };
                let m = human(&a, &b);
                asked.push((a, b));
                assert_eq!(resolver.on_key(Input::Other), Command::Ignore);
                let reply = resolver.resp_event(m);
                assert_eq!(reply, m);
                sorter.answer(reply);
            }
            Step::Continue | Step::Done => {}
        }
    }
    (sorter, resolver, asked)
}

#[test]
fn empty_run_sends_finished_twice() {
    let mut sorter = Sorter::new(Vec::new());
    assert_eq!(sorter.stage(), Stage::Inserting);
    assert!(sorter.poll().unwrap().is_finished());
    assert_eq!(sorter.stage(), Stage::Scoring);
    assert!(sorter.poll().unwrap().is_finished());
    assert!(sorter.is_done());
    assert!(sorter.poll().is_none());
    assert!(sorter.output().is_empty());
}

#[test]
fn single_item_needs_no_question() {
    let mut sorter = Sorter::new(groups(&["p1"]));
    assert!(sorter.poll().unwrap().is_finished());
    assert_eq!(sorter.placed_len(), 1);
    assert!(sorter.poll().unwrap().is_finished());
    assert_eq!(sorter.output(), vec![(0, "p1".to_string())]);
    assert_eq!(sorter.scores(), &vec![0]);
}

#[test]
fn new_item_is_asked_against_the_placed_one() {
    let mut sorter = Sorter::new(groups(&["p1", "p2"]));
    let event = sorter.poll().unwrap();
    assert_eq!(keys(&event), Some(("p2".to_string(), "p1".to_string())));
    assert!(sorter.is_awaiting());
    assert_eq!(sorter.remaining(), 1);
    sorter.answer(CompareResult::Worse);
    assert!(!sorter.is_awaiting());
    assert!(sorter.poll().unwrap().is_finished());
    let order: Vec<&String> = sorter.groups().iter().map(|g| g.canonical_key()).collect();
    assert_eq!(order, vec!["p2", "p1"]);
}

#[test]
fn scoring_asks_each_group_against_the_one_below() {
    let mut sorter = Sorter::new(groups(&["p1", "p2", "p3"]));
    let mut requests = Vec::new();
    while let Some(event) = sorter.poll() {
        if let Some((a, b)) = keys(&event) {
            requests.push((a.clone(), b.clone(), sorter.stage()));
            sorter.answer(by_number(&a, &b));
        }
    }
    let scoring: Vec<(String, String)> = requests
        .iter()
        .filter(|r| r.2 == Stage::Scoring)
        .map(|r| (r.0.clone(), r.1.clone()))
        .collect();
    assert_eq!(
        scoring,
        vec![
            ("p2".to_string(), "p1".to_string()),
            ("p3".to_string(), "p2".to_string())
        ]
    );
    assert_eq!(sorter.scores(), &vec![0, 1, 2]);
}

#[test]
fn scores_add_the_full_weight() {
    let items = groups(&["p1", "p5", "p3"]);
    let (sorter, _, _) = drive(items, Matrix::new(), &by_number);
    assert_eq!(
        sorter.output(),
        vec![(0, "p1".to_string()), (2, "p3".to_string()), (4, "p5".to_string())]
    );
}

#[test]
fn sorts_many_items_by_consistent_answers() {
    let names = ["p7", "p2", "p9", "p4", "p1", "p8", "p3", "p6", "p5", "p10"];
    let (sorter, _, asked) = drive(groups(&names), Matrix::new(), &by_number);
    let order: Vec<String> = sorter.groups().iter().map(|g| g.canonical_key().clone()).collect();
    let expected: Vec<String> = (1..=10).map(|i| format!("p{i}")).collect();
    assert_eq!(order, expected);
    let scores: Vec<i64> = sorter.scores().clone();
    assert_eq!(scores, (0..10).collect::<Vec<i64>>());
    // Binary insertion asks at most the number of binary digits of the
    // number of placed items for each new item.
    assert!(asked.len() <= 25, "{}", asked.len());
}

#[test]
fn no_question_is_asked_twice() {
    let names = ["p7", "p2", "p9", "p4", "p1", "p8", "p3", "p6", "p5"];
    let (_, _, asked) = drive(groups(&names), Matrix::new(), &by_number);
    for (i, (a, b)) in asked.iter().enumerate() {
        for (c, d) in &asked[i + 1..] {
            assert!(!(a == c && b == d) && !(a == d && b == c), "{a} {b}");
        }
    }
}

#[test]
fn second_run_is_answered_from_the_cache() {
    let names = ["p3", "p1", "p2", "p5", "p4"];
    let (first, resolver, asked) = drive(groups(&names), Matrix::new(), &by_number);
    assert!(!asked.is_empty());
    let saved = resolver.matrix().rows();
    let loaded = Matrix::from_rows(&saved).unwrap();
    let nobody = |a: &str, b: &str| -> CompareResult { panic!("asked {a} {b}") };
    let (second, _, asked) = drive(groups(&names), loaded, &nobody);
    assert!(asked.is_empty());
    assert_eq!(second.scores(), first.scores());
    let one: Vec<&String> = first.groups().iter().map(|g| g.canonical_key()).collect();
    let two: Vec<&String> = second.groups().iter().map(|g| g.canonical_key()).collect();
    assert_eq!(one, two);
}

#[test]
fn ties_are_merged_and_not_asked_again() {
    // p1 and p1b are equal, so are p2 and p2b.
    let human = |a: &str, b: &str| by_number(a.trim_end_matches('b'), b.trim_end_matches('b'));
    let names = ["p1", "p2", "p1b", "p2b", "p3"];
    let (sorter, resolver, asked) = drive(groups(&names), Matrix::new(), &human);
    let members: Vec<Vec<String>> = sorter.groups().iter().map(|g| g.members().clone()).collect();
    assert_eq!(
        members,
        vec![
            vec!["p1".to_string(), "p1b".to_string()],
            vec!["p2".to_string(), "p2b".to_string()],
            vec!["p3".to_string()],
        ]
    );
    assert_eq!(sorter.scores(), &vec![0, 1, 2]);
    assert!(asked.len() <= 7);
    // What was derived from the ties is in the cache, though nobody asked.
    let m = resolver.matrix();
    assert_eq!(m.get(&group("p1b"), &group("p2b")), Some(CompareResult::Worse));
    assert_eq!(m.get(&group("p2b"), &group("p1")), Some(CompareResult::Better));
}

#[test]
fn items_with_the_same_key_are_merged_without_a_question() {
    let nobody = |a: &str, b: &str| -> CompareResult { panic!("asked {a} {b}") };
    let (sorter, _, asked) = drive(groups(&["p1", "p1"]), Matrix::new(), &nobody);
    assert!(asked.is_empty());
    assert_eq!(sorter.placed_len(), 1);
    assert_eq!(
        sorter.groups()[0].members(),
        &vec!["p1".to_string(), "p1".to_string()]
    );
}

#[test]
fn nothing_is_lost_whatever_the_answers() {
    // A human who answers by the length of what was asked so far.
    let count = std::cell::Cell::new(0usize);
    let human = |_: &str, _: &str| {
        count.set(count.get() + 1);
        CompareResult::from_i8((count.get() % 5) as i8 - 2).unwrap()
    };
    let names = ["a", "b", "c", "d", "e", "f", "g", "h"];
    let (sorter, _, _) = drive(groups(&names), Matrix::new(), &human);
    let mut all: Vec<String> = sorter
        .groups()
        .iter()
        .flat_map(|g| g.members().iter().cloned())
        .collect();
    all.sort();
    let expected: Vec<String> = names.iter().map(|n| n.to_string()).collect();
    assert_eq!(all, expected);
    assert!(sorter.is_done());
    assert_eq!(sorter.scores().len(), sorter.placed_len());
    assert_eq!(sorter.scores()[0], 0);
}

#[test]
fn output_picks_a_member_of_each_group() {
    let human = |_: &str, _: &str| CompareResult::Same;
    let (sorter, _, _) = drive(groups(&["a", "b", "c"]), Matrix::new(), &human);
    assert_eq!(sorter.placed_len(), 1);
    for _ in 0..50 {
        let out = sorter.output();
        assert_eq!(out.len(), 1);
        assert_eq!(out[0].0, 0);
        assert!(["a", "b", "c"].contains(&out[0].1.as_str()));
    }
}

#[test]
fn resolver_answers_from_the_cache_without_asking() {
    let mut matrix = Matrix::new();
    matrix.insert(&group("a"), &group("b"), CompareResult::Better);
    let mut resolver = Cmper::new(Vec::new(), matrix);
    let step = resolver.recv_event(Event::Compare(group("b"), group("a")));
    assert_eq!(step, Step::Reply(CompareResult::Worse));
    assert!(resolver.question().is_none());
    let step = resolver.recv_event(Event::Compare(group("a"), group("a")));
    assert_eq!(step, Step::Reply(CompareResult::Same));
}

#[test]
fn resolver_asks_what_the_cache_does_not_know() {
    let mut resolver = Cmper::new(Vec::new(), Matrix::new());
    let step = resolver.recv_event(Event::Compare(group("a"), group("b")));
    assert_eq!(step, Step::Ask);
    let (a, b) = resolver.question().unwrap();
    assert_eq!(a.canonical_key(), "a");
    assert_eq!(b.canonical_key(), "b");
    assert_eq!(resolver.resp_event(CompareResult::MuchWorse), CompareResult::MuchWorse);
    assert!(resolver.question().is_none());
    let step = resolver.recv_event(Event::Compare(group("a"), group("b")));
    assert_eq!(step, Step::Reply(CompareResult::MuchWorse));
    let step = resolver.recv_event(Event::Compare(group("b"), group("a")));
    assert_eq!(step, Step::Reply(CompareResult::MuchBetter));
}

#[test]
fn resolver_drains_after_finished() {
    let mut matrix = Matrix::new();
    matrix.insert(&group("a"), &group("b"), CompareResult::Better);
    let mut resolver = Cmper::new(Vec::new(), matrix);
    assert_eq!(resolver.recv_event(Event::Finished), Step::Continue);
    assert_eq!(resolver.current_screen(), CurrentScreen::Main);
    let step = resolver.recv_event(Event::Compare(group("a"), group("b")));
    assert_eq!(step, Step::Reply(CompareResult::Better));
    assert_eq!(resolver.recv_event(Event::Finished), Step::Done);
    assert_eq!(resolver.current_screen(), CurrentScreen::Finished);
    assert!(resolver.question().is_none());
}

#[test]
fn resolver_keys_judge_the_pair_that_is_shown() {
    let mut resolver = Cmper::new(Vec::new(), Matrix::new());
    assert_eq!(resolver.on_key(Input::Up), Command::Ignore);
    resolver.recv_event(Event::Compare(group("a"), group("b")));
    assert_eq!(resolver.on_key(Input::Up), Command::Answer(CompareResult::MuchBetter));
    assert_eq!(resolver.on_key(Input::Left), Command::Answer(CompareResult::Better));
    assert_eq!(resolver.on_key(Input::Right), Command::Answer(CompareResult::Worse));
    assert_eq!(resolver.on_key(Input::Down), Command::Answer(CompareResult::MuchWorse));
    assert_eq!(resolver.on_key(Input::Enter), Command::Answer(CompareResult::Same));
    assert_eq!(resolver.on_key(Input::Char('=')), Command::Answer(CompareResult::Same));
    assert_eq!(resolver.on_key(Input::Char('x')), Command::Ignore);
    assert_eq!(resolver.on_key(Input::Tab), Command::Ignore);
    assert_eq!(resolver.current_screen(), CurrentScreen::Main);
    assert!(resolver.question().is_some());
}

#[test]
fn resolver_asks_before_leaving() {
    let mut resolver = Cmper::new(Vec::new(), Matrix::new());
    resolver.recv_event(Event::Compare(group("a"), group("b")));
    assert_eq!(resolver.on_key(Input::Char('q')), Command::Redraw);
    assert_eq!(resolver.current_screen(), CurrentScreen::Exiting);
    assert_eq!(resolver.on_key(Input::Char('n')), Command::Redraw);
    assert_eq!(resolver.current_screen(), CurrentScreen::Main);
    resolver.on_key(Input::Char('q'));
    assert_eq!(resolver.on_key(Input::Char('y')), Command::SaveAndQuit);
    assert_eq!(resolver.on_key(Input::Char('Y')), Command::Quit);
    assert_eq!(resolver.current_screen(), CurrentScreen::Exiting);
}

#[test]
fn resolver_goes_back_to_the_last_screen_when_finished() {
    let mut resolver = Cmper::new(Vec::new(), Matrix::new());
    resolver.recv_event(Event::Finished);
    resolver.recv_event(Event::Finished);
    assert_eq!(resolver.on_key(Input::Up), Command::Ignore);
    assert_eq!(resolver.on_key(Input::Char('q')), Command::Redraw);
    assert_eq!(resolver.current_screen(), CurrentScreen::Exiting);
    assert_eq!(resolver.on_key(Input::Esc), Command::Redraw);
    assert_eq!(resolver.current_screen(), CurrentScreen::Finished);
}

#[test]
fn quitting_mid_question_leaves_the_cache_as_it_was() {
    let mut matrix = Matrix::new();
    matrix.insert(&group("a"), &group("b"), CompareResult::Better);
    let before = matrix.rows();
    let mut resolver = Cmper::new(Vec::new(), matrix);
    resolver.recv_event(Event::Compare(group("c"), group("a")));
    resolver.on_key(Input::Char('q'));
    assert_eq!(resolver.on_key(Input::Char('y')), Command::SaveAndQuit);
    assert_eq!(resolver.matrix().rows(), before);
}
