use tagger::cmper::Command;
use tagger::compare::CompareResult;
use tagger::engine::App;
use tagger::matrix::Matrix;
use tagger::ordpaths::OrdPaths;
use tagger::sort::Stage;
use tagger::state::{CurrentScreen, Input};

fn groups(paths: &[&str]) -> Vec<OrdPaths> {
    paths.iter().map(|p| OrdPaths::new(vec![p.to_string()])).collect()
}

/// Runs the engine to its end; `human` judges the pairs that wait.
fn finish(app: &mut App, human: &dyn Fn(&str, &str) -> CompareResult) -> Vec<(String, String)> {
    let mut asked = Vec::new();
    while app.recv_event() {
        let (a, b) = {
            let (a, b) = app.resolver().question().unwrap();
            (a.canonical_key().clone(), b.canonical_key().clone())
        };
        app.resp_event(human(&a, &b));
        asked.push((a, b));
    }
    asked
}

#[test]
fn engine_ranks_three_items() {
    let mut app = App::new(groups(&["p1", "p2", "p3"]), Matrix::new());
    let human = |a: &str, b: &str| match (a, b) {
        ("p2", "p1") => CompareResult::Better,
        ("p3", "p2") => CompareResult::Worse,
        ("p3", "p1") => CompareResult::Better,
        _ => panic!("unexpected question {a} {b}"),
    };
    let asked = finish(&mut app, &human);
    assert_eq!(asked.len(), 3);
    assert!(app.is_finished());
    assert_eq!(
        app.output(),
        vec![(0, "p1".to_string()), (1, "p3".to_string()), (2, "p2".to_string())]
    );
    assert_eq!(app.resolver().current_screen(), CurrentScreen::Finished);
}

#[test]
fn engine_merges_a_tie() {
    let mut app = App::new(groups(&["p1", "p2"]), Matrix::new());
    assert!(app.recv_event());
    {
        let (a, b) = app.resolver().question().unwrap();
        assert_eq!((a.canonical_key().as_str(), b.canonical_key().as_str()), ("p2", "p1"));
    }
    assert_eq!(app.on_key(Input::Enter), Command::Answer(CompareResult::Same));
    app.resp_event(CompareResult::Same);
    assert!(!app.recv_event());
    let out = app.output();
    assert_eq!(out.len(), 1);
    assert_eq!(out[0].0, 0);
    assert!(out[0].1 == "p1" || out[0].1 == "p2");
    assert_eq!(
        app.sorter().groups()[0].members(),
        &vec!["p1".to_string(), "p2".to_string()]
    );
}

#[test]
fn engine_stops_at_each_question_and_goes_on() {
    let mut app = App::new(groups(&["a", "b", "c"]), Matrix::new());
    assert!(app.recv_event());
    assert_eq!(app.sorter().stage(), Stage::Inserting);
    assert!(app.sorter().is_awaiting());
    assert!(!app.is_finished());
    app.resp_event(CompareResult::Better);
    assert!(!app.sorter().is_awaiting());
    assert!(app.recv_event());
    app.resp_event(CompareResult::MuchBetter);
    // c is above b, which is above a: all that scoring asks is in the cache.
    assert!(!app.recv_event());
    assert!(app.is_finished());
    assert_eq!(
        app.output(),
        vec![(0, "a".to_string()), (1, "b".to_string()), (3, "c".to_string())]
    );
    assert!(!app.recv_event());
}

#[test]
fn engine_answers_a_second_run_from_the_cache() {
    let names = ["d", "a", "c", "b", "e"];
    let by_name = |a: &str, b: &str| match a.cmp(b) {
        std::cmp::Ordering::Less => CompareResult::Worse,
        std::cmp::Ordering::Equal => CompareResult::Same,
        std::cmp::Ordering::Greater => CompareResult::Better,
    };
    let mut first = App::new(groups(&names), Matrix::new());
    assert!(!finish(&mut first, &by_name).is_empty());
    let rows = first.resolver().matrix().rows();
    let mut second = App::new(groups(&names), Matrix::from_rows(&rows).unwrap());
    let nobody = |a: &str, b: &str| -> CompareResult { panic!("asked {a} {b}") };
    assert!(finish(&mut second, &nobody).is_empty());
    assert_eq!(second.output(), first.output());
}

#[test]
fn engine_of_nothing_is_finished_at_once() {
    let mut app = App::new(Vec::new(), Matrix::new());
    assert!(!app.recv_event());
    assert!(app.is_finished());
    assert!(app.output().is_empty());
}
