use tagger::cmper::{Cmper, Step};
use tagger::compare::CompareResult;
use tagger::event::Event;
use tagger::matrix::Matrix;
use tagger::ordpaths::OrdPaths;
use tagger::sort::Sorter;

fn group(path: &str) -> OrdPaths {
    OrdPaths::new(vec![path.to_string()])
}

/// Runs sorter and resolver against each other. `human` judges the pairs that
/// the cache cannot answer; the questions it was asked are returned with the
/// output.
fn run(
    items: Vec<OrdPaths>,
    matrix: Matrix,
    human: &dyn Fn(&str, &str) -> CompareResult,
) -> (Vec<(i64, String)>, Vec<(String, String)>, Sorter, Cmper) {
    let mut sorter = Sorter::new(items.clone());
    let mut resolver = Cmper::new(items, matrix);
    let mut asked = Vec::new();
    while let Some(event) = sorter.poll() {
        let compare = !event.is_finished();
        match resolver.recv_event(event) {
            Step::Reply(m) => sorter.answer(m),
            Step::Ask => {
                let (a, b) = {
                    let (a, b) = resolver.question().unwrap();
                    (a.canonical_key().clone(), b.canonical_key().clone())
                };
                let m = human(&a, &b);
                asked.push((a, b));
                let reply = resolver.resp_event(m);
                sorter.answer(reply);
            }
            Step::Continue | Step::Done => assert!(!compare),
        }
    }
    (sorter.output(), asked, sorter, resolver)
}

#[test]
fn end_to_end_three_items() {
    let items = vec![group("p1"), group("p2"), group("p3")];
    let human = |a: &str, b: &str| match (a, b) {
        ("p2", "p1") => CompareResult::Better,
        ("p3", "p2") => CompareResult::Worse,
        ("p3", "p1") => CompareResult::Better,
        _ => panic!("unexpected question {a} {b}"),
    };
    let (out, asked, sorter, _) = run(items, Matrix::new(), &human);
    assert_eq!(
        out,
        vec![(0, "p1".to_string()), (1, "p3".to_string()), (2, "p2".to_string())]
    );
    assert_eq!(asked.len(), 3);
    assert!(sorter.is_done());
}

#[test]
fn tie_merges_two_items() {
    let items = vec![group("p1"), group("p2")];
    let human = |a: &str, b: &str| match (a, b) {
        ("p2", "p1") => CompareResult::Same,
        _ => panic!("unexpected question {a} {b}"),
    };
    let (out, asked, sorter, resolver) = run(items, Matrix::new(), &human);
    assert_eq!(asked, vec![("p2".to_string(), "p1".to_string())]);
    assert_eq!(out.len(), 1);
    assert_eq!(out[0].0, 0);
    assert!(out[0].1 == "p1" || out[0].1 == "p2");
    let groups = sorter.groups();
    assert_eq!(groups.len(), 1);
    assert_eq!(groups[0].members(), &vec!["p1".to_string(), "p2".to_string()]);
    let cached = resolver.matrix().get_paths(&"p1".to_string()).unwrap();
    assert_eq!(cached.members(), &vec!["p1".to_string(), "p2".to_string()]);
    let placeholder = resolver.matrix().get_paths(&"p2".to_string()).unwrap();
    assert_eq!(placeholder.members(), &vec!["p2".to_string()]);
}
