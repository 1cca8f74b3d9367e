use vstd::prelude::*;

use crate::error::EmbeddingError;
use crate::schedule::{lemma_in_flight_bounded, TaskSlots};

verus! {

/// One row of the bulk vocabulary source.
pub struct Tag {
    /// Unique; becomes the id of the vocabulary point.
    pub tag_id: u64,
    pub name: String,
    pub category: u8,
    /// Informational only.
    pub count: u64,
}

/// What is stored for one vocabulary entry besides its embedding: the point id and the
/// payload `{name, category}`.
pub struct PointRecord {
    pub id: u64,
    pub name: String,
    pub category: i64,
}

/// `p` is the point that row `t` becomes.
pub open spec fn is_point_of(p: PointRecord, t: Tag) -> bool {
    &&& p.id == t.tag_id
    &&& p.name@ == t.name@
    &&& p.category == t.category as i64
}

/// The point of a row: keyed by the row's id, with its name and category as payload.
pub fn to_point(row: &Tag) -> (p: PointRecord)
    ensures
        is_point_of(p, *row),
{
    PointRecord { id: row.tag_id, name: row.name.clone(), category: row.category as i64 }
}

/// The points of all rows, in row order.
pub fn points_of(rows: &Vec<Tag>) -> (r: Vec<PointRecord>)
    ensures
        r@.len() == rows@.len(),
        forall|i: int| 0 <= i < rows@.len() ==> is_point_of(#[trigger] r@[i], rows@[i]),
{
    let mut r: Vec<PointRecord> = Vec::new();
    let mut i: usize = 0;
    while i < rows.len()
        invariant
            i <= rows@.len(),
            r@.len() == i,
            forall|k: int| 0 <= k < i ==> is_point_of(#[trigger] r@[k], rows@[k]),
        decreases rows@.len() - i,
    {
        r.push(to_point(&rows[i]));
        i = i + 1;
    }
    r
}

/// One bulk ingest: the name of every row is embedded, at most `limit` at a time and in any
/// completion order. Only when all embeddings have come back are the points handed out, for
/// a single upsert; the first failure ends the ingest before anything is written.
///
/// The caller runs the work: `next_row` names a row whose name to embed, `record` takes back
/// whether that embedding succeeded, and the caller keeps the vectors by row index.
pub struct IngestRun {
    rows: Vec<Tag>,
    slots: TaskSlots,
    failure: Option<EmbeddingError>,
    embedded: Ghost<Set<int>>,
}

impl IngestRun {
    pub closed spec fn rows(&self) -> Seq<Tag> {
        self.rows@
    }

    pub closed spec fn limit(&self) -> nat {
        self.slots.limit()
    }

    pub closed spec fn started(&self) -> nat {
        self.slots.started()
    }

    pub closed spec fn in_flight(&self) -> Set<int> {
        self.slots.in_flight()
    }

    /// Indices of the rows whose embedding came back successfully.
    pub closed spec fn embedded(&self) -> Set<int> {
        self.embedded@
    }

    pub closed spec fn failure(&self) -> Option<EmbeddingError> {
        self.failure
    }

    pub closed spec fn wf(&self) -> bool {
        &&& self.slots.wf()
        &&& self.slots.total() == self.rows@.len()
        &&& forall|i: int| #[trigger] self.embedded@.contains(i) ==> self.slots.is_finished(i)
        &&& self.failure is None ==> forall|i: int| #[trigger]
            self.slots.is_finished(i) ==> self.embedded@.contains(i)
    }

    pub open spec fn settled(&self) -> bool {
        ||| self.failure() is Some
        ||| (self.started() == self.rows().len() && self.in_flight().len() == 0)
    }

    /// An ingest of `rows` with at most `concurrency` embeddings in flight.
    pub fn new(rows: Vec<Tag>, concurrency: usize) -> (r: Self)
        requires
            concurrency >= 1,
        ensures
            r.wf(),
            r.rows() == rows@,
            r.limit() == concurrency,
            r.started() == 0,
            r.in_flight() == Set::<int>::empty(),
            r.embedded() == Set::<int>::empty(),
            r.failure() is None,
    {
        let slots = TaskSlots::new(rows.len(), concurrency);
        IngestRun { rows, slots, failure: None, embedded: Ghost(Set::empty()) }
    }

    /// The next row to embed, with its index and name, if a slot is free, rows remain and
    /// nothing has failed.
    pub fn next_row(&mut self) -> (r: Option<(usize, String)>)
        requires
            old(self).wf(),
        ensures
            final(self).wf(),
            final(self).rows() == old(self).rows(),
            final(self).limit() == old(self).limit(),
            final(self).embedded() == old(self).embedded(),
            final(self).failure() == old(self).failure(),
            if old(self).failure() is None && old(self).in_flight().len() < old(self).limit()
                && old(self).started() < old(self).rows().len() {
                &&& r matches Some((i, name)) && i == old(self).started() && name@ == old(
                    self,
                ).rows()[old(self).started() as int].name@
                &&& final(self).started() == old(self).started() + 1
                &&& final(self).in_flight() == old(self).in_flight().insert(
                    old(self).started() as int,
                )
            } else {
                &&& r is None
                &&& final(self).started() == old(self).started()
                &&& final(self).in_flight() == old(self).in_flight()
            },
    {
        if self.failure.is_some() {
            return None;
        }
        let ghost old_slots = self.slots;
        match self.slots.start_next() {
            Some(i) => {
                proof {
                    lemma_in_flight_bounded(&self.slots);
                    assert forall|j: int| #[trigger]
                        self.slots.is_finished(j) implies old_slots.is_finished(j) by {
                        assert(self.slots.in_flight().contains(i as int));
                    }
                    assert forall|j: int| #[trigger]
                        self.embedded@.contains(j) implies self.slots.is_finished(j) by {
                        assert(old_slots.is_finished(j));
                    }
                }
                let name = self.rows[i].name.clone();
                Some((i, name))
            },
            None => {
                assert forall|j: int| #[trigger]
                    self.slots.is_finished(j) == old_slots.is_finished(j) by {}
                None
            },
        }
    }

    /// Takes back whether the embedding of row `index` succeeded. Returns false, changing
    /// nothing, if that row was not in flight.
    pub fn record(&mut self, index: usize, outcome: Result<(), EmbeddingError>) -> (accepted: bool)
        requires
            old(self).wf(),
        ensures
            final(self).wf(),
            final(self).rows() == old(self).rows(),
            final(self).limit() == old(self).limit(),
            final(self).started() == old(self).started(),
            accepted == old(self).in_flight().contains(index as int),
            final(self).in_flight() == old(self).in_flight().remove(index as int),
            !accepted ==> final(self).embedded() == old(self).embedded() && final(self).failure()
                == old(self).failure(),
            accepted ==> match outcome {
                Ok(_) => {
                    &&& final(self).embedded() == old(self).embedded().insert(index as int)
                    &&& final(self).failure() == old(self).failure()
                },
                Err(e) => {
                    &&& final(self).embedded() == old(self).embedded()
                    &&& final(self).failure() == (if old(self).failure() is None {
                        Some(e)
                    } else {
                        old(self).failure()
                    })
                },
            },
    {
        let ghost before = self.embedded@;
        let ghost old_slots = self.slots;
        let accepted = self.slots.finish(index);
        if !accepted {
            assert forall|j: int| #[trigger]
                self.slots.is_finished(j) implies old_slots.is_finished(j) by {}
            return false;
        }
        proof {
            lemma_in_flight_bounded(&old_slots);
        }
        assert(self.slots.is_finished(index as int));
        assert forall|j: int| #[trigger]
            self.slots.is_finished(j) implies old_slots.is_finished(j) || j == index by {}
        assert forall|j: int| #[trigger]
            old_slots.is_finished(j) implies self.slots.is_finished(j) by {}
        match outcome {
            Ok(_) => {
                self.embedded = Ghost(before.insert(index as int));
            },
            Err(e) => {
                if self.failure.is_none() {
                    self.failure = Some(e);
                }
            },
        }
        assert forall|j: int| #[trigger]
            self.embedded@.contains(j) implies self.slots.is_finished(j) by {
            if j != index {
                assert(before.contains(j));
                assert(old_slots.is_finished(j));
            }
        }
        assert(self.failure is None ==> forall|j: int| #[trigger]
            self.slots.is_finished(j) ==> self.embedded@.contains(j)) by {
            if self.failure is None {
                assert forall|j: int| #[trigger]
                    self.slots.is_finished(j) implies self.embedded@.contains(j) by {
                    if j != index {
                        assert(old_slots.is_finished(j));
                        assert(before.contains(j));
                    }
                }
            }
        }
        true
    }

    /// However the caller interleaves the calls, no more than `limit` rows are being embedded
    /// at once, and only rows already handed out are.
    pub proof fn lemma_in_flight_bounded(&self)
        requires
            self.wf(),
        ensures
            self.in_flight().finite(),
            self.in_flight().len() <= self.limit(),
            forall|i: int| self.in_flight().contains(i) ==> 0 <= i < self.started(),
            self.started() <= self.rows().len(),
    {
        lemma_in_flight_bounded(&self.slots);
    }

    /// True once the ingest has an answer: an embedding failed, or all came back.
    pub fn is_settled(&self) -> (r: bool)
        requires
            self.wf(),
        ensures
            r == self.settled(),
    {
        self.failure.is_some() || (self.slots.all_started() && self.slots.none_running())
    }

    /// The answer of a settled ingest: the first failure, with nothing to write, or the
    /// points of all rows, every one embedded, for one upsert.
    pub fn finish(self) -> (r: Result<Vec<PointRecord>, EmbeddingError>)
        requires
            self.wf(),
            self.settled(),
        ensures
            match self.failure() {
                Some(e) => r == Err::<Vec<PointRecord>, EmbeddingError>(e),
                None => {
                    &&& forall|i: int| #[trigger]
                        self.embedded().contains(i) <==> 0 <= i < self.rows().len()
                    &&& r is Ok
                    &&& r->Ok_0@.len() == self.rows().len()
                    &&& forall|i: int| #![trigger r->Ok_0@[i]]
                        0 <= i < self.rows().len() ==> is_point_of(r->Ok_0@[i], self.rows()[i])
                },
            },
    {
        match self.failure {
            Some(e) => Err(e),
            None => {
                proof {
                    lemma_in_flight_bounded(&self.slots);
                }
                assert forall|i: int| #[trigger]
                    self.embedded@.contains(i) <==> 0 <= i < self.rows@.len() by {
                    if 0 <= i < self.rows@.len() {
                        assert(self.slots.is_finished(i));
                    }
                }
                Ok(points_of(&self.rows))
            },
        }
    }
}

} // verus!
