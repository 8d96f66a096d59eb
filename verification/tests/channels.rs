use crossbeam::channel::bounded;
use tagger::cmper::{Cmper, Step};
use tagger::compare::CompareResult;
use tagger::dispatch::SortError;
use tagger::event::Event;
use tagger::matrix::Matrix;
use tagger::ordpaths::OrdPaths;
use tagger::sort::Sorter;

fn groups(paths: &[&str]) -> Vec<OrdPaths> {
    paths.iter().map(|p| OrdPaths::new(vec![p.to_string()])).collect()
}

fn by_name(a: &str, b: &str) -> CompareResult {
    match a.cmp(b) {
        std::cmp::Ordering::Less => CompareResult::Worse,
        std::cmp::Ordering::Equal => CompareResult::Same,
        std::cmp::Ordering::Greater => CompareResult::Better,
    }
}

#[test]
fn sorter_runs_over_rendezvous_channels() {
    let (req_tx, req_rx) = bounded::<Event>(0);
    let (resp_tx, resp_rx) = bounded::<CompareResult>(0);
    let items = groups(&["d", "b", "e", "a", "c"]);
    let mut sorter = Sorter::new(items.clone());
    let mut asked = 0;
    let result = crossbeam::thread::scope(|s| {
        let handle = s.spawn(|_| {
            let r = sorter.run(&req_tx, &resp_rx);
            drop(req_tx);
            r
        });
        let mut resolver = Cmper::new(items, Matrix::new());
        while let Ok(event) = req_rx.recv() {
            match resolver.recv_event(event) {
                Step::Reply(m) => resp_tx.send(m).unwrap(),
                Step::Ask => {
                    let m = {
                        let (a, b) = resolver.question().unwrap();
                        by_name(a.canonical_key(), b.canonical_key())
                    };
                    asked += 1;
                    resp_tx.send(resolver.resp_event(m)).unwrap();
                }
                Step::Continue => {}
                Step::Done => break,
            }
        }
        handle.join().unwrap()
    })
    .unwrap();
    assert_eq!(result, Ok(()));
    assert!(sorter.is_done());
    assert!(asked > 0);
    let out = sorter.output();
    let expected: Vec<(i64, String)> =
        ["a", "b", "c", "d", "e"].iter().enumerate().map(|(i, n)| (i as i64, n.to_string())).collect();
    assert_eq!(out, expected);
}

#[test]
fn sorter_stops_when_nobody_receives() {
    let (req_tx, req_rx) = bounded::<Event>(0);
    let (_resp_tx, resp_rx) = bounded::<CompareResult>(0);
    drop(req_rx);
    let mut sorter = Sorter::new(groups(&["a", "b"]));
    assert_eq!(sorter.run(&req_tx, &resp_rx), Err(SortError::ResolverUnavailable));
    assert!(!sorter.is_done());
}

#[test]
fn sorter_stops_when_nobody_answers() {
    let (req_tx, req_rx) = bounded::<Event>(0);
    let (resp_tx, resp_rx) = bounded::<CompareResult>(0);
    let mut sorter = Sorter::new(groups(&["a", "b"]));
    let result = crossbeam::thread::scope(|s| {
        let handle = s.spawn(|_| sorter.run(&req_tx, &resp_rx));
        let first = req_rx.recv().unwrap();
        assert!(!first.is_finished());
        drop(resp_tx);
        handle.join().unwrap()
    })
    .unwrap();
    assert_eq!(result, Err(SortError::ResolverUnavailable));
    assert!(sorter.is_awaiting());
}

#[test]
fn sort_error_in_words() {
    assert_eq!(SortError::ResolverUnavailable.message(), "resolver unavailable");
}
