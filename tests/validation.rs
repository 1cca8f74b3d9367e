use std::collections::HashSet;

use tag_validator::{EmbeddingError, LlmError, ValidationRun};

fn strings(items: &[&str]) -> Vec<String> {
    items.iter().map(|s| s.to_string()).collect()
}

/// Runs validation to the end, answering each candidate with `lookup`, finishing tasks
/// oldest-first or newest-first, and checking the in-flight bound at every step.
fn drive(
    candidates: &[&str],
    limit: usize,
    lookup: &dyn Fn(&str) -> Result<Option<String>, EmbeddingError>,
    newest_first: bool,
) -> Result<HashSet<String>, EmbeddingError> {
    let mut run = ValidationRun::new(strings(candidates), limit);
    let mut running: Vec<(usize, String)> = Vec::new();
    let mut max_seen = 0;
    while !run.is_settled() {
        while let Some(task) = run.next_candidate() {
            running.push(task);
        }
        max_seen = max_seen.max(running.len());
        assert!(running.len() <= limit);
        let (index, candidate) = if newest_first {
            running.pop().unwrap()
        } else {
            running.remove(0)
        };
        assert!(run.record(index, lookup(&candidate)));
    }
    assert!(max_seen <= limit);
    run.finish().map(|names| {
        let set: HashSet<String> = names.iter().cloned().collect();
        assert_eq!(set.len(), names.len());
        set
    })
}

fn vocabulary(candidate: &str) -> Result<Option<String>, EmbeddingError> {
    Ok(match candidate {
        "x" | "girl" => Some("1girl".to_string()),
        "hair pink" | "pink hair" => Some("pink_hair".to_string()),
        "a" => Some("alpha".to_string()),
        "b" => Some("beta".to_string()),
        _ => None,
    })
}

fn set(items: &[&str]) -> HashSet<String> {
    items.iter().map(|s| s.to_string()).collect()
}

#[test]
fn empty_candidates_give_empty_set() {
    let r = drive(&[], 1, &vocabulary, false).unwrap();
    assert!(r.is_empty());
    let mut run = ValidationRun::new(vec![], 3);
    assert!(run.is_settled());
    assert!(run.next_candidate().is_none());
    assert!(run.finish().unwrap().is_empty());
}

#[test]
fn duplicates_do_not_change_result() {
    let with_dup = drive(&["a", "a", "b"], 2, &vocabulary, false).unwrap();
    let without = drive(&["a", "b"], 2, &vocabulary, false).unwrap();
    assert_eq!(with_dup, without);
    assert_eq!(with_dup, set(&["alpha", "beta"]));
}

#[test]
fn below_threshold_everywhere_gives_empty_set() {
    let r = drive(&["sky", "tree", "grass"], 2, &vocabulary, true).unwrap();
    assert!(r.is_empty());
}

#[test]
fn confident_match_is_included() {
    let r = drive(&["x"], 1, &vocabulary, false).unwrap();
    assert!(r.contains("1girl"));
    assert_eq!(r, set(&["1girl"]));
}

#[test]
fn two_candidates_one_canonical_name_counted_once() {
    let r = drive(&["girl", "hair pink", "pink hair", "x"], 3, &vocabulary, true).unwrap();
    assert_eq!(r, set(&["1girl", "pink_hair"]));
}

#[test]
fn result_no_larger_than_distinct_candidates() {
    let candidates = ["a", "b", "a", "x", "nothing", "b"];
    let r = drive(&candidates, 2, &vocabulary, false).unwrap();
    let distinct: HashSet<&str> = candidates.iter().cloned().collect();
    assert!(r.len() <= distinct.len());
    assert_eq!(r, set(&["alpha", "beta", "1girl"]));
}

#[test]
fn completion_order_does_not_matter() {
    let candidates = ["a", "girl", "b", "none", "pink hair"];
    let forward = drive(&candidates, 2, &vocabulary, false).unwrap();
    let backward = drive(&candidates, 2, &vocabulary, true).unwrap();
    assert_eq!(forward, backward);
}

#[test]
fn never_more_than_limit_in_flight() {
    let candidates: Vec<String> = (0..10).map(|i| format!("c{}", i)).collect();
    let mut run = ValidationRun::new(candidates, 2);
    let mut running = Vec::new();
    let mut started = 0;
    while !run.is_settled() {
        while let Some((index, _)) = run.next_candidate() {
            running.push(index);
            started += 1;
            assert!(running.len() <= 2);
        }
        assert!(running.len() <= 2);
        let index = running.remove(0);
        assert!(run.record(index, Ok(None)));
    }
    assert_eq!(started, 10);
    assert!(run.finish().unwrap().is_empty());
}

#[test]
fn first_failure_ends_the_call() {
    let mut run = ValidationRun::new(strings(&["a", "b", "c"]), 1);
    let (i, c) = run.next_candidate().unwrap();
    assert_eq!((i, c.as_str()), (0, "a"));
    assert!(run.next_candidate().is_none());
    assert!(run.record(0, Ok(Some("alpha".to_string()))));
    let (i, _) = run.next_candidate().unwrap();
    assert_eq!(i, 1);
    assert!(run.record(1, Err(EmbeddingError::EmbeddingNotFound)));
    assert!(run.is_settled());
    assert!(run.next_candidate().is_none());
    assert!(matches!(run.finish(), Err(EmbeddingError::EmbeddingNotFound)));
}

#[test]
fn later_failures_keep_the_first() {
    let mut run = ValidationRun::new(strings(&["a", "b"]), 2);
    run.next_candidate().unwrap();
    run.next_candidate().unwrap();
    assert!(run.record(1, Err(EmbeddingError::VectorDatabase("down".to_string()))));
    assert!(run.record(0, Err(EmbeddingError::Llm(LlmError::Generation("x".to_string())))));
    match run.finish() {
        Err(EmbeddingError::VectorDatabase(m)) => assert_eq!(m, "down"),
        _ => panic!("expected the first failure"),
    }
}

#[test]
fn outcome_for_task_not_in_flight_is_refused() {
    let mut run = ValidationRun::new(strings(&["a", "b"]), 1);
    assert!(!run.record(0, Ok(Some("alpha".to_string()))));
    let (i, _) = run.next_candidate().unwrap();
    assert!(!run.record(i + 1, Ok(Some("beta".to_string()))));
    assert!(run.record(i, Ok(Some("alpha".to_string()))));
    assert!(!run.record(i, Ok(Some("alpha".to_string()))));
    assert!(!run.record(99, Ok(None)));
    assert!(!run.is_settled());
}
