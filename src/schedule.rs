use vstd::prelude::*;

verus! {

/// Hands out the task indices `0..total` in order while keeping at most `limit` of them
/// running at once. A task is finished once it has been started and is no longer running.
pub struct TaskSlots {
    total: usize,
    limit: usize,
    next: usize,
    running: Vec<bool>,
    active: usize,
    running_ids: Ghost<Set<int>>,
}

impl TaskSlots {
    pub closed spec fn total(&self) -> nat {
        self.total as nat
    }

    pub closed spec fn limit(&self) -> nat {
        self.limit as nat
    }

    /// Number of tasks started so far: exactly the indices below it have been handed out.
    pub closed spec fn started(&self) -> nat {
        self.next as nat
    }

    /// Indices of the tasks that have been started and have not yet been reported back.
    pub closed spec fn in_flight(&self) -> Set<int> {
        self.running_ids@
    }

    pub closed spec fn wf(&self) -> bool {
        &&& self.limit >= 1
        &&& self.next <= self.total
        &&& self.running@.len() == self.total
        &&& self.running_ids@.finite()
        &&& forall|i: int| #[trigger]
            self.running_ids@.contains(i) <==> (0 <= i < self.total && self.running@[i])
        &&& forall|i: int| self.running_ids@.contains(i) ==> i < self.next
        &&& self.active == self.running_ids@.len()
        &&& self.active <= self.limit
    }

    pub open spec fn is_finished(&self, i: int) -> bool {
        0 <= i < self.started() && !self.in_flight().contains(i)
    }

    pub open spec fn all_done(&self) -> bool {
        self.started() == self.total() && self.in_flight().len() == 0
    }

    pub fn new(total: usize, limit: usize) -> (r: Self)
        requires
            limit >= 1,
        ensures
            r.wf(),
            r.total() == total,
            r.limit() == limit,
            r.started() == 0,
            r.in_flight() == Set::<int>::empty(),
    {
        let mut running: Vec<bool> = Vec::new();
        let mut k: usize = 0;
        while k < total
            invariant
                k <= total,
                running@.len() == k,
                forall|i: int| 0 <= i < k ==> !running@[i],
            decreases total - k,
        {
            running.push(false);
            k = k + 1;
        }
        TaskSlots { total, limit, next: 0, running, active: 0, running_ids: Ghost(Set::empty()) }
    }

    /// Starts the next task if a slot is free and tasks remain.
    pub fn start_next(&mut self) -> (r: Option<usize>)
        requires
            old(self).wf(),
        ensures
            final(self).wf(),
            final(self).total() == old(self).total(),
            final(self).limit() == old(self).limit(),
            if old(self).in_flight().len() < old(self).limit() && old(self).started() < old(
                self,
            ).total() {
                &&& r matches Some(i) && i == old(self).started()
                &&& final(self).started() == old(self).started() + 1
                &&& final(self).in_flight() == old(self).in_flight().insert(
                    old(self).started() as int,
                )
            } else {
                &&& r is None
                &&& final(self).started() == old(self).started()
                &&& final(self).in_flight() == old(self).in_flight()
            },
    {
        if self.active < self.limit && self.next < self.total {
            let i = self.next;
            assert(!self.running_ids@.contains(i as int));
            self.running.set(i, true);
            self.running_ids = Ghost(self.running_ids@.insert(i as int));
            self.active = self.active + 1;
            self.next = self.next + 1;
            Some(i)
        } else {
            None
        }
    }

    /// Marks task `i` as finished; returns false, changing nothing, if it was not running.
    pub fn finish(&mut self, i: usize) -> (accepted: bool)
        requires
            old(self).wf(),
        ensures
            final(self).wf(),
            final(self).total() == old(self).total(),
            final(self).limit() == old(self).limit(),
            final(self).started() == old(self).started(),
            accepted == old(self).in_flight().contains(i as int),
            final(self).in_flight() == old(self).in_flight().remove(i as int),
            !accepted ==> final(self).in_flight() == old(self).in_flight(),
    {
        if i < self.total && self.running[i] {
            self.running.set(i, false);
            self.running_ids = Ghost(self.running_ids@.remove(i as int));
            self.active = self.active - 1;
            true
        } else {
            assert(!self.running_ids@.contains(i as int));
            assert(self.running_ids@.remove(i as int) =~= self.running_ids@);
            false
        }
    }

    pub fn all_started(&self) -> (r: bool)
        requires
            self.wf(),
        ensures
            r == (self.started() == self.total()),
    {
        self.next == self.total
    }

    pub fn none_running(&self) -> (r: bool)
        requires
            self.wf(),
        ensures
            r == (self.in_flight().len() == 0),
    {
        self.active == 0
    }
}

/// Whatever calls are made, no more than `limit` tasks are ever in flight together.
pub proof fn lemma_in_flight_bounded(slots: &TaskSlots)
    requires
        slots.wf(),
    ensures
        slots.in_flight().finite(),
        slots.in_flight().len() <= slots.limit(),
        forall|i: int| slots.in_flight().contains(i) ==> 0 <= i < slots.started(),
        slots.started() <= slots.total(),
        slots.in_flight().len() == 0 ==> slots.in_flight() == Set::<int>::empty(),
{
    if slots.in_flight().len() == 0 {
        slots.in_flight().lemma_len0_is_empty();
    }
}

} // verus!
