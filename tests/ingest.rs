use tag_validator::ingest::{points_of, to_point};
use tag_validator::{EmbeddingError, IngestRun, Tag};

fn tag(tag_id: u64, name: &str, category: u8, count: u64) -> Tag {
    Tag { tag_id, name: name.to_string(), category, count }
}

#[test]
fn single_row_becomes_single_point() {
    let mut run = IngestRun::new(vec![tag(1, "cat", 0, 5)], 1);
    let (i, name) = run.next_row().unwrap();
    assert_eq!((i, name.as_str()), (0, "cat"));
    assert!(run.next_row().is_none());
    assert!(!run.is_settled());
    assert!(run.record(0, Ok(())));
    assert!(run.is_settled());
    let points = run.finish().unwrap();
    assert_eq!(points.len(), 1);
    assert_eq!(points[0].id, 1);
    assert_eq!(points[0].name, "cat");
    assert_eq!(points[0].category, 0);
}

#[test]
fn points_follow_row_order_whatever_the_completion_order() {
    let rows = vec![tag(10, "a", 1, 0), tag(20, "b", 2, 0), tag(30, "c", 3, 0)];
    let mut run = IngestRun::new(rows, 3);
    let mut started = Vec::new();
    while let Some((i, _)) = run.next_row() {
        started.push(i);
    }
    assert_eq!(started, vec![0, 1, 2]);
    for i in started.into_iter().rev() {
        assert!(run.record(i, Ok(())));
    }
    let points = run.finish().unwrap();
    let ids: Vec<u64> = points.iter().map(|p| p.id).collect();
    assert_eq!(ids, vec![10, 20, 30]);
    let categories: Vec<i64> = points.iter().map(|p| p.category).collect();
    assert_eq!(categories, vec![1, 2, 3]);
}

#[test]
fn one_failed_embedding_aborts_everything() {
    let rows = vec![tag(1, "a", 0, 0), tag(2, "b", 0, 0), tag(3, "c", 0, 0)];
    let mut run = IngestRun::new(rows, 2);
    let (i0, _) = run.next_row().unwrap();
    let (i1, _) = run.next_row().unwrap();
    assert!(run.next_row().is_none());
    assert!(run.record(i0, Ok(())));
    assert!(run.record(i1, Err(EmbeddingError::EmbeddingNotFound)));
    assert!(run.is_settled());
    assert!(run.next_row().is_none());
    assert!(matches!(run.finish(), Err(EmbeddingError::EmbeddingNotFound)));
}

#[test]
fn empty_ingest_has_no_points() {
    let run = IngestRun::new(vec![], 4);
    assert!(run.is_settled());
    assert!(run.finish().unwrap().is_empty());
}

#[test]
fn ingest_respects_limit() {
    let rows: Vec<Tag> = (0..7).map(|i| tag(i, "t", 0, 0)).collect();
    let mut run = IngestRun::new(rows, 3);
    let mut running = Vec::new();
    while !run.is_settled() {
        while let Some((i, _)) = run.next_row() {
            running.push(i);
        }
        assert!(running.len() <= 3);
        let i = running.pop().unwrap();
        assert!(run.record(i, Ok(())));
    }
    assert_eq!(run.finish().unwrap().len(), 7);
}

#[test]
fn point_of_row_copies_id_name_category() {
    let p = to_point(&tag(42, "blue_eyes", 255, 9));
    assert_eq!((p.id, p.name.as_str(), p.category), (42, "blue_eyes", 255));
    let ps = points_of(&vec![tag(1, "x", 0, 0), tag(2, "y", 4, 0)]);
    assert_eq!(ps.len(), 2);
    assert_eq!((ps[1].id, ps[1].name.as_str(), ps[1].category), (2, "y", 4));
}
