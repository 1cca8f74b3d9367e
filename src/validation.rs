use vstd::prelude::*;

use crate::error::EmbeddingError;
use crate::schedule::{lemma_in_flight_bounded, TaskSlots};
use vstd::set_lib::{lemma_len_subset, lemma_map_size_bound};

verus! {

/// The character sequences of a list of strings.
pub open spec fn views(s: Seq<String>) -> Seq<Seq<char>> {
    s.map_values(|x: String| x@)
}

/// Canonical names confirmed by the recorded per-candidate outcomes.
pub open spec fn confirmed_names(outcomes: Map<int, Option<Seq<char>>>) -> Set<Seq<char>> {
    Set::new(
        |n: Seq<char>|
            exists|i: int| #[trigger] outcomes.contains_key(i) && outcomes[i] == Some(n),
    )
}

/// The result of validating `candidates` when the vocabulary answers candidate `c` with
/// `lookup(c)`: the name of its closest entry at or above the score threshold, or nothing.
pub open spec fn validated(
    candidates: Seq<Seq<char>>,
    lookup: spec_fn(Seq<char>) -> Option<Seq<char>>,
) -> Set<Seq<char>> {
    Set::new(
        |n: Seq<char>|
            exists|i: int| 0 <= i < candidates.len() && lookup(#[trigger] candidates[i]) == Some(n),
    )
}

/// The character sequence of an outcome's canonical name, if any.
pub open spec fn found_view(found: Option<String>) -> Option<Seq<char>> {
    match found {
        Some(n) => Some(n@),
        None => None,
    }
}

/// Adds `name` to `names` unless an equal string is already there.
fn insert_unique(names: &mut Vec<String>, name: String)
    requires
        views(old(names)@).no_duplicates(),
    ensures
        views(final(names)@).no_duplicates(),
        views(final(names)@).to_set() == views(old(names)@).to_set().insert(name@),
{
    let ghost before = views(names@);
    let mut k: usize = 0;
    let mut present = false;
    while k < names.len() && !present
        invariant
            k <= names@.len(),
            names@ == old(names)@,
            present ==> exists|j: int| 0 <= j < names@.len() && names@[j]@ == name@,
            !present ==> forall|j: int| 0 <= j < k ==> names@[j]@ != name@,
        decreases names@.len() - k + (if present { 0int } else { 1int }),
    {
        if names[k] == name {
            present = true;
        } else {
            k = k + 1;
        }
    }
    if present {
        let ghost j = choose|j: int| 0 <= j < names@.len() && names@[j]@ == name@;
        assert(before[j] == name@);
        assert(before.to_set().insert(name@) =~= before.to_set());
    } else {
        names.push(name);
        assert(views(names@) == before.push(name@));
        assert forall|j: int| 0 <= j < before.len() implies before[j] != name@ by {
            assert(before[j] == old(names)@[j]@);
        }
        assert(views(names@).to_set() =~= before.to_set().insert(name@)) by {
            assert forall|x: Seq<char>| #[trigger] views(names@).contains(x) <==> (before.contains(x)
                || x == name@) by {
                if views(names@).contains(x) {
                    let j = choose|j: int| 0 <= j < views(names@).len() && views(names@)[j] == x;
                    if j < before.len() {
                        assert(before[j] == x);
                    }
                }
                if before.contains(x) {
                    let j = choose|j: int| 0 <= j < before.len() && before[j] == x;
                    assert(views(names@)[j] == x);
                }
                if x == name@ {
                    assert(views(names@)[before.len() as int] == x);
                }
            }
        }
    }
}

/// One validation call: candidates are embedded and looked up at most `limit` at a time, in
/// any completion order; confirmed canonical names are merged into a set without duplicates.
/// The first failure ends the call.
///
/// The caller runs the work: `next_candidate` names a candidate to embed and search, and
/// `record` takes back that candidate's outcome, the name of its top match if any.
pub struct ValidationRun {
    candidates: Vec<String>,
    slots: TaskSlots,
    names: Vec<String>,
    failure: Option<EmbeddingError>,
    outcomes: Ghost<Map<int, Option<Seq<char>>>>,
}

impl ValidationRun {
    pub closed spec fn candidates(&self) -> Seq<Seq<char>> {
        views(self.candidates@)
    }

    pub closed spec fn limit(&self) -> nat {
        self.slots.limit()
    }

    /// Number of candidates handed out so far, in list order.
    pub closed spec fn started(&self) -> nat {
        self.slots.started()
    }

    pub closed spec fn in_flight(&self) -> Set<int> {
        self.slots.in_flight()
    }

    /// The outcome of each candidate whose lookup came back successfully.
    pub closed spec fn outcomes(&self) -> Map<int, Option<Seq<char>>> {
        self.outcomes@
    }

    pub closed spec fn failure(&self) -> Option<EmbeddingError> {
        self.failure
    }

    pub closed spec fn names(&self) -> Seq<Seq<char>> {
        views(self.names@)
    }

    pub closed spec fn wf(&self) -> bool {
        &&& self.wf_slots()
        &&& self.wf_outcomes()
        &&& self.wf_names()
    }

    closed spec fn wf_slots(&self) -> bool {
        &&& self.slots.wf()
        &&& self.slots.total() == self.candidates@.len()
    }

    closed spec fn wf_outcomes(&self) -> bool {
        &&& forall|i: int| #[trigger]
            self.outcomes@.contains_key(i) ==> self.slots.is_finished(i)
        &&& self.failure is None ==> forall|i: int| #[trigger]
            self.slots.is_finished(i) ==> self.outcomes@.contains_key(i)
    }

    closed spec fn wf_names(&self) -> bool {
        &&& views(self.names@).no_duplicates()
        &&& views(self.names@).to_set() == confirmed_names(self.outcomes@)
    }

    pub open spec fn settled(&self) -> bool {
        ||| self.failure() is Some
        ||| (self.started() == self.candidates().len() && self.in_flight().len() == 0)
    }

    /// A run over `candidates` with at most `concurrency` lookups in flight.
    pub fn new(candidates: Vec<String>, concurrency: usize) -> (r: Self)
        requires
            concurrency >= 1,
        ensures
            r.wf(),
            r.candidates() == views(candidates@),
            r.limit() == concurrency,
            r.started() == 0,
            r.in_flight() == Set::<int>::empty(),
            r.outcomes() == Map::<int, Option<Seq<char>>>::empty(),
            r.failure() is None,
    {
        let slots = TaskSlots::new(candidates.len(), concurrency);
        let r = ValidationRun {
            candidates,
            slots,
            names: Vec::new(),
            failure: None,
            outcomes: Ghost(Map::empty()),
        };
        assert(views(r.names@).to_set() =~= confirmed_names(r.outcomes@));
        r
    }

    /// The next candidate to embed and search, with its index, if a slot is free, candidates
    /// remain and nothing has failed.
    pub fn next_candidate(&mut self) -> (r: Option<(usize, String)>)
        requires
            old(self).wf(),
        ensures
            final(self).wf(),
            final(self).candidates() == old(self).candidates(),
            final(self).limit() == old(self).limit(),
            final(self).outcomes() == old(self).outcomes(),
            final(self).failure() == old(self).failure(),
            final(self).names() == old(self).names(),
            if old(self).failure() is None && old(self).in_flight().len() < old(self).limit()
                && old(self).started() < old(self).candidates().len() {
                &&& r matches Some((i, c)) && i == old(self).started() && c@ == old(
                    self,
                ).candidates()[old(self).started() as int]
                &&& final(self).started() == old(self).started() + 1
                &&& final(self).in_flight() == old(self).in_flight().insert(
                    old(self).started() as int,
                )
            } else {
                &&& r is None
                &&& final(self).started() == old(self).started()
                &&& final(self).in_flight() == old(self).in_flight()
            },
    {
        if self.failure.is_some() {
            return None;
        }
        let ghost old_slots = self.slots;
        match self.slots.start_next() {
            Some(i) => {
                proof {
                    lemma_in_flight_bounded(&self.slots);
                    assert forall|j: int| #[trigger] self.slots.is_finished(j) implies old_slots.is_finished(j) by {
                        assert(j != i);
                    }
                    assert forall|j: int| #[trigger] self.outcomes@.contains_key(j) implies self.slots.is_finished(j) by {
                        assert(old_slots.is_finished(j));
                    }
                }
                let c = self.candidates[i].clone();
                Some((i, c))
            },
            None => {
                assert forall|j: int| #[trigger] self.slots.is_finished(j) == old_slots.is_finished(j) by {}
                None
            },
        }
    }

    /// Takes back the outcome of candidate `index`: the canonical name of its top match, no
    /// match, or a failure. Returns false, changing nothing, if that candidate was not in
    /// flight.
    pub fn record(&mut self, index: usize, outcome: Result<Option<String>, EmbeddingError>) -> (accepted: bool)
        requires
            old(self).wf(),
        ensures
            final(self).wf(),
            final(self).candidates() == old(self).candidates(),
            final(self).limit() == old(self).limit(),
            final(self).started() == old(self).started(),
            accepted == old(self).in_flight().contains(index as int),
            final(self).in_flight() == old(self).in_flight().remove(index as int),
            !accepted ==> final(self).outcomes() == old(self).outcomes() && final(self).failure()
                == old(self).failure(),
            accepted ==> match outcome {
                Ok(found) => {
                    &&& final(self).outcomes() == old(self).outcomes().insert(
                        index as int,
                        found_view(found),
                    )
                    &&& final(self).failure() == old(self).failure()
                },
                Err(e) => {
                    &&& final(self).outcomes() == old(self).outcomes()
                    &&& final(self).failure() == (if old(self).failure() is None {
                        Some(e)
                    } else {
                        old(self).failure()
                    })
                },
            },
    {
        let ghost before = self.outcomes@;
        let ghost old_names = views(self.names@);
        let ghost old_slots = self.slots;
        let accepted = self.slots.finish(index);
        if !accepted {
            assert forall|j: int| #[trigger] self.slots.is_finished(j) implies old_slots.is_finished(j) by {}
            return false;
        }
        proof {
            lemma_in_flight_bounded(&old_slots);
        }
        assert(self.slots.is_finished(index as int));
        assert forall|j: int| #[trigger] self.slots.is_finished(j) implies old_slots.is_finished(j) || j == index by {}
        assert forall|j: int| #[trigger] old_slots.is_finished(j) implies self.slots.is_finished(j) by {}
        assert(!before.contains_key(index as int));
        match outcome {
            Ok(found) => {
                let ghost o = found_view(found);
                self.outcomes = Ghost(before.insert(index as int, o));
                match found {
                    Some(n) => {
                        let ghost nv = n@;
                        insert_unique(&mut self.names, n);
                        assert(confirmed_names(self.outcomes@) =~= confirmed_names(before).insert(
                            nv,
                        )) by {
                            assert(self.outcomes@.contains_key(index as int));
                            assert forall|x: Seq<char>| #[trigger]
                                confirmed_names(before).contains(x) implies confirmed_names(
                                self.outcomes@,
                            ).contains(x) by {
                                let i = choose|i: int|
                                    #[trigger] before.contains_key(i) && before[i] == Some(x);
                                assert(self.outcomes@.contains_key(i));
                            }
                        }
                    },
                    None => {
                        assert(confirmed_names(self.outcomes@) =~= confirmed_names(before)) by {
                            assert forall|x: Seq<char>| #[trigger]
                                confirmed_names(before).contains(x) implies confirmed_names(
                                self.outcomes@,
                            ).contains(x) by {
                                let i = choose|i: int|
                                    #[trigger] before.contains_key(i) && before[i] == Some(x);
                                assert(self.outcomes@.contains_key(i));
                            }
                        }
                    },
                }
            },
            Err(e) => {
                if self.failure.is_none() {
                    self.failure = Some(e);
                }
            },
        }
        assert(self.wf_slots());
        assert forall|j: int| #[trigger]
            self.outcomes@.contains_key(j) implies self.slots.is_finished(j) by {
            if j != index {
                assert(before.contains_key(j));
                assert(old_slots.is_finished(j));
            }
        }
        assert(self.failure is None ==> forall|j: int| #[trigger]
            self.slots.is_finished(j) ==> self.outcomes@.contains_key(j)) by {
            if self.failure is None {
                assert forall|j: int| #[trigger] self.slots.is_finished(j) implies self.outcomes@.contains_key(j) by {
                    if j != index {
                        assert(old_slots.is_finished(j));
                        assert(before.contains_key(j));
                    }
                }
            }
        }
        true
    }

    /// However the caller interleaves the calls, no more than `limit` candidates are being
    /// embedded and searched at once, and only candidates already handed out are.
    pub proof fn lemma_in_flight_bounded(&self)
        requires
            self.wf(),
        ensures
            self.in_flight().finite(),
            self.in_flight().len() <= self.limit(),
            forall|i: int| self.in_flight().contains(i) ==> 0 <= i < self.started(),
            self.started() <= self.candidates().len(),
    {
        lemma_in_flight_bounded(&self.slots);
    }

    /// True once the call has an answer: something failed, or every candidate came back.
    pub fn is_settled(&self) -> (r: bool)
        requires
            self.wf(),
        ensures
            r == self.settled(),
    {
        self.failure.is_some() || (self.slots.all_started() && self.slots.none_running())
    }

    /// The answer of a settled run: the first failure, or every confirmed canonical name once.
    pub fn finish(self) -> (r: Result<Vec<String>, EmbeddingError>)
        requires
            self.wf(),
            self.settled(),
        ensures
            match self.failure() {
                Some(e) => r == Err::<Vec<String>, EmbeddingError>(e),
                None => {
                    &&& forall|i: int| #[trigger]
                        self.outcomes().contains_key(i) <==> 0 <= i < self.candidates().len()
                    &&& r is Ok
                    &&& views(r->Ok_0@).no_duplicates()
                    &&& views(r->Ok_0@).to_set() == confirmed_names(self.outcomes())
                },
            },
    {
        match self.failure {
            Some(e) => Err(e),
            None => {
                proof {
                    lemma_in_flight_bounded(&self.slots);
                }
                assert forall|i: int| #[trigger]
                    self.outcomes@.contains_key(i) <==> 0 <= i < self.candidates@.len() by {
                    if 0 <= i < self.candidates@.len() {
                        assert(self.slots.is_finished(i));
                    }
                }
                Ok(self.names)
            },
        }
    }
}

/// Once every candidate has come back and candidate `i` was answered by `lookup` of its own
/// text, the confirmed names are exactly what validating the candidates against `lookup`
/// gives.
pub proof fn lemma_outcomes_follow_lookup(
    candidates: Seq<Seq<char>>,
    outcomes: Map<int, Option<Seq<char>>>,
    lookup: spec_fn(Seq<char>) -> Option<Seq<char>>,
)
    requires
        forall|i: int| #[trigger] outcomes.contains_key(i) <==> 0 <= i < candidates.len(),
        forall|i: int| 0 <= i < candidates.len() ==> outcomes[i] == lookup(#[trigger] candidates[i]),
    ensures
        confirmed_names(outcomes) == validated(candidates, lookup),
{
    assert forall|n: Seq<char>| #[trigger] confirmed_names(outcomes).contains(n) <==> validated(
        candidates,
        lookup,
    ).contains(n) by {
        if confirmed_names(outcomes).contains(n) {
            let i = choose|i: int| #[trigger] outcomes.contains_key(i) && outcomes[i] == Some(n);
            assert(lookup(candidates[i]) == Some(n));
        }
        if validated(candidates, lookup).contains(n) {
            let i = choose|i: int|
                0 <= i < candidates.len() && lookup(#[trigger] candidates[i]) == Some(n);
            assert(outcomes.contains_key(i));
        }
    }
    assert(confirmed_names(outcomes) =~= validated(candidates, lookup));
}

/// Validating no candidates confirms nothing.
pub proof fn lemma_validate_empty(lookup: spec_fn(Seq<char>) -> Option<Seq<char>>)
    ensures
        validated(Seq::empty(), lookup) == Set::<Seq<char>>::empty(),
{
    assert(validated(Seq::empty(), lookup) =~= Set::<Seq<char>>::empty());
}

/// Repeating candidates changes nothing: the result depends only on which candidates occur.
pub proof fn lemma_validate_ignores_repeats(
    a: Seq<Seq<char>>,
    b: Seq<Seq<char>>,
    lookup: spec_fn(Seq<char>) -> Option<Seq<char>>,
)
    requires
        a.to_set() == b.to_set(),
    ensures
        validated(a, lookup) == validated(b, lookup),
{
    assert forall|n: Seq<char>| #[trigger] validated(a, lookup).contains(n) implies validated(
        b,
        lookup,
    ).contains(n) by {
        let i = choose|i: int| 0 <= i < a.len() && lookup(#[trigger] a[i]) == Some(n);
        assert(a.to_set().contains(a[i]));
        assert(b.contains(a[i]));
    }
    assert forall|n: Seq<char>| #[trigger] validated(b, lookup).contains(n) implies validated(
        a,
        lookup,
    ).contains(n) by {
        let i = choose|i: int| 0 <= i < b.len() && lookup(#[trigger] b[i]) == Some(n);
        assert(b.to_set().contains(b[i]));
        assert(a.contains(b[i]));
    }
    assert(validated(a, lookup) =~= validated(b, lookup));
}

/// When no candidate has a match at or above the threshold, nothing is confirmed.
pub proof fn lemma_validate_no_confident_match(
    candidates: Seq<Seq<char>>,
    lookup: spec_fn(Seq<char>) -> Option<Seq<char>>,
)
    requires
        forall|i: int| 0 <= i < candidates.len() ==> lookup(#[trigger] candidates[i]) is None,
    ensures
        validated(candidates, lookup) == Set::<Seq<char>>::empty(),
{
    assert(validated(candidates, lookup) =~= Set::<Seq<char>>::empty());
}

/// Each distinct candidate confirms at most one name, so the result is no larger than the
/// set of distinct candidates.
pub proof fn lemma_validate_size(
    candidates: Seq<Seq<char>>,
    lookup: spec_fn(Seq<char>) -> Option<Seq<char>>,
)
    ensures
        validated(candidates, lookup).finite(),
        validated(candidates, lookup).len() <= candidates.to_set().len(),
{
    let distinct = candidates.to_set();
    let pick = |c: Seq<char>|
        match lookup(c) {
            Some(n) => n,
            None => Seq::<char>::empty(),
        };
    let image = distinct.map(pick);
    vstd::seq_lib::seq_to_set_is_finite(candidates);
    lemma_map_size_bound(distinct, image, pick);
    assert forall|n: Seq<char>| #[trigger]
        validated(candidates, lookup).contains(n) implies image.contains(n) by {
        let i = choose|i: int| 0 <= i < candidates.len() && lookup(#[trigger] candidates[i]) == Some(n);
        assert(distinct.contains(candidates[i]));
        assert(pick(candidates[i]) == n);
    }
    lemma_len_subset(validated(candidates, lookup), image);
}

} // verus!
