//! A batch of work items run under a bounded number of permits, whose
//! outcomes are kept in the order in which the items were submitted.
use vstd::prelude::*;

verus! {

/// Relies on `num_cpus::get_physical`, which documents that it always
/// returns at least 1.
#[verifier::external_body]
fn physical_cores() -> (r: usize)
    ensures
        r >= 1,
{
    num_cpus::get_physical()
}

/// The number of permits of a batch: one per physical core of this machine.
pub fn permits_for_physical_cores() -> (r: usize)
    ensures
        r >= 1,
{
    physical_cores()
}

/// The number of running items among the first `k` slots: those without an
/// outcome yet.
pub open spec fn count_running<T>(slots: Seq<Option<T>>, k: int) -> nat
    decreases k,
{
    if k <= 0 {
        0
    } else {
        count_running(slots, k - 1) + if slots[k - 1] is None {
            1nat
        } else {
            0nat
        }
    }
}

proof fn lemma_count_running_finish<T>(slots: Seq<Option<T>>, k: int, i: int, v: T)
    requires
        0 <= i < k <= slots.len(),
        slots[i] is None,
    ensures
        count_running(slots.update(i, Some(v)), k) + 1 == count_running(slots, k),
    decreases k,
{
    if k - 1 > i {
        lemma_count_running_finish(slots, k - 1, i, v);
    } else {
        lemma_count_running_same(slots, slots.update(i, Some(v)), k - 1);
    }
}

proof fn lemma_count_running_same<T>(a: Seq<Option<T>>, b: Seq<Option<T>>, k: int)
    requires
        0 <= k <= a.len(),
        k <= b.len(),
        forall|j: int| 0 <= j < k ==> a[j] == b[j],
    ensures
        count_running(a, k) == count_running(b, k),
    decreases k,
{
    if k > 0 {
        lemma_count_running_same(a, b, k - 1);
    }
}

proof fn lemma_count_running_positive<T>(slots: Seq<Option<T>>, k: int, i: int)
    requires
        0 <= i < k <= slots.len(),
        slots[i] is None,
    ensures
        count_running(slots, k) >= 1,
    decreases k,
{
    if k - 1 > i {
        lemma_count_running_positive(slots, k - 1, i);
    }
}

/// What a batch is: how many permits it has, how many items have been
/// started (always the first ones), and the outcome of each item so far.
pub struct BatchView<T> {
    pub capacity: nat,
    pub started: nat,
    pub outcomes: Seq<Option<T>>,
}

impl<T> BatchView<T> {
    /// Items holding a permit: started and without an outcome.
    pub open spec fn active(self) -> nat {
        count_running(self.outcomes, self.started as int)
    }

    pub open spec fn is_running(self, i: int) -> bool {
        0 <= i < self.started && self.outcomes[i] is None
    }

    pub open spec fn is_complete(self) -> bool {
        self.started == self.outcomes.len() && forall|i: int|
            0 <= i < self.outcomes.len() ==> #[trigger] self.outcomes[i] is Some
    }

    /// At least one permit, never more items holding one than there are
    /// permits, and no outcome for an item that was not started.
    pub open spec fn wf(self) -> bool {
        &&& self.capacity >= 1
        &&& self.started <= self.outcomes.len()
        &&& self.active() <= self.capacity
        &&& forall|i: int| self.started <= i < self.outcomes.len() ==> #[trigger] self.outcomes[i] is None
    }
}

/// Admission and collection for a batch of work items under a fixed number of
/// permits.
pub struct Batch<T> {
    capacity: usize,
    started: usize,
    active: usize,
    outcomes: Vec<Option<T>>,
}

impl<T> View for Batch<T> {
    type V = BatchView<T>;

    closed spec fn view(&self) -> BatchView<T> {
        BatchView { capacity: self.capacity as nat, started: self.started as nat, outcomes: self.outcomes@ }
    }
}

impl<T> Batch<T> {
    pub closed spec fn wf(&self) -> bool {
        &&& self@.wf()
        &&& self.active as nat == self@.active()
    }

    /// A batch of `items` work items, none started, under `capacity` permits.
    pub fn new(items: usize, capacity: usize) -> (r: Self)
        requires
            capacity >= 1,
        ensures
            r.wf(),
            r@.capacity == capacity,
            r@.started == 0,
            r@.outcomes.len() == items,
            r@.active() == 0,
            forall|i: int| 0 <= i < items ==> #[trigger] r@.outcomes[i] is None,
    {
        let mut outcomes: Vec<Option<T>> = Vec::new();
        let mut i: usize = 0;
        while i < items
            invariant
                i <= items,
                outcomes@.len() == i,
                forall|j: int| 0 <= j < i ==> #[trigger] outcomes@[j] is None,
            decreases items - i,
        {
            outcomes.push(None);
            i = i + 1;
        }
        Batch { capacity, started: 0, active: 0, outcomes }
    }

    /// In every state a batch can reach, the items holding a permit are at
    /// most as many as its permits, however many items it was given.
    pub proof fn lemma_active_within_capacity(&self)
        requires
            self.wf(),
        ensures
            self@.active() <= self@.capacity,
            self@.capacity >= 1,
    {
    }

    /// How many items hold a permit now.
    pub fn active(&self) -> (r: usize)
        requires
            self.wf(),
        ensures
            r == self@.active(),
    {
        self.active
    }

    /// How many permits the batch has.
    pub fn capacity(&self) -> (r: usize)
        ensures
            r == self@.capacity,
    {
        self.capacity
    }

    /// How many items the batch holds.
    pub fn len(&self) -> (r: usize)
        ensures
            r == self@.outcomes.len(),
    {
        self.outcomes.len()
    }

    /// Starts the next item in submission order if a permit is free and one is
    /// left, returning its index; otherwise changes nothing.
    pub fn start_next(&mut self) -> (r: Option<usize>)
        requires
            old(self).wf(),
        ensures
            final(self).wf(),
            final(self)@.active() <= final(self)@.capacity,
            final(self)@.capacity == old(self)@.capacity,
            final(self)@.outcomes == old(self)@.outcomes,
            old(self)@.active() < old(self)@.capacity && old(self)@.started < old(
                self,
            )@.outcomes.len() ==> r == Some(old(self)@.started as usize) && final(self)@.started
                == old(self)@.started + 1 && final(self)@.active() == old(self)@.active() + 1,
            !(old(self)@.active() < old(self)@.capacity && old(self)@.started < old(
                self,
            )@.outcomes.len()) ==> r is None && final(self)@ == old(self)@,
    {
        if self.active < self.capacity && self.started < self.outcomes.len() {
            let i = self.started;
            proof {
                assert(self@.outcomes[i as int] is None);
            }
            self.started = i + 1;
            self.active = self.active + 1;
            Some(i)
        } else {
            None
        }
    }

    /// Records the outcome of the running item `i` and gives back its permit.
    pub fn finish(&mut self, i: usize, outcome: T)
        requires
            old(self).wf(),
            old(self)@.is_running(i as int),
        ensures
            final(self).wf(),
            final(self)@.capacity == old(self)@.capacity,
            final(self)@.started == old(self)@.started,
            final(self)@.outcomes == old(self)@.outcomes.update(i as int, Some(outcome)),
            final(self)@.active() + 1 == old(self)@.active(),
    {
        proof {
            lemma_count_running_finish(self@.outcomes, self.started as int, i as int, outcome);
            lemma_count_running_positive(self@.outcomes, self.started as int, i as int);
        }
        self.outcomes.set(i, Some(outcome));
        self.active = self.active - 1;
    }

    /// Whether item `i` has been started and has no outcome yet.
    pub fn is_running(&self, i: usize) -> (r: bool)
        requires
            self.wf(),
        ensures
            r == self@.is_running(i as int),
    {
        i < self.started && self.outcomes[i].is_none()
    }

    /// Whether every item has been started and has an outcome.
    pub fn is_complete(&self) -> (r: bool)
        requires
            self.wf(),
        ensures
            r == self@.is_complete(),
    {
        let r = self.started == self.outcomes.len() && self.active == 0;
        proof {
            if r {
                assert forall|i: int| 0 <= i < self@.outcomes.len() implies #[trigger] self@.outcomes[i] is Some by {
                    if self@.outcomes[i] is None {
                        lemma_count_running_positive(self@.outcomes, self.started as int, i);
                    }
                }
            }
            if self@.is_complete() {
                lemma_count_running_zero(self@.outcomes, self.started as int);
            }
        }
        r
    }

    /// The outcomes of a complete batch, one per item, in submission order.
    pub fn into_outcomes(self) -> (r: Vec<T>)
        requires
            self.wf(),
            self@.is_complete(),
        ensures
            r@.len() == self@.outcomes.len(),
            forall|i: int| 0 <= i < r@.len() ==> self@.outcomes[i] == Some(#[trigger] r@[i]),
    {
        let ghost all = self@.outcomes;
        let n = self.outcomes.len();
        let mut slots = self.outcomes;
        let mut reversed: Vec<T> = Vec::new();
        while slots.len() > 0
            invariant
                all.len() == n,
                slots@.len() + reversed@.len() == n,
                forall|j: int| 0 <= j < slots@.len() ==> slots@[j] == all[j],
                forall|k: int| 0 <= k < reversed@.len() ==> all[n - 1 - k] == Some(#[trigger] reversed@[k]),
                forall|i: int| 0 <= i < all.len() ==> #[trigger] all[i] is Some,
            decreases slots@.len(),
        {
            let slot = slots.pop();
            match slot {
                Some(Some(v)) => {
                    reversed.push(v);
                },
                _ => {
                    proof {
                        assert(all[slots@.len() as int] is Some);
                    }
                },
            }
        }
        let mut out: Vec<T> = Vec::new();
        while reversed.len() > 0
            invariant
                all.len() == n,
                reversed@.len() + out@.len() == n,
                forall|k: int| 0 <= k < reversed@.len() ==> all[n - 1 - k] == Some(#[trigger] reversed@[k]),
                forall|i: int| 0 <= i < out@.len() ==> all[i] == Some(#[trigger] out@[i]),
            decreases reversed@.len(),
        {
            let v = reversed.pop();
            match v {
                Some(v) => {
                    out.push(v);
                },
                None => {},
            }
        }
        out
    }
}

proof fn lemma_count_running_zero<T>(slots: Seq<Option<T>>, k: int)
    requires
        0 <= k <= slots.len(),
        forall|i: int| 0 <= i < k ==> #[trigger] slots[i] is Some,
    ensures
        count_running(slots, k) == 0,
    decreases k,
{
    if k > 0 {
        lemma_count_running_zero(slots, k - 1);
    }
}

/// The sum of the counts of the successful outcomes in `s`.
pub open spec fn sum_of_successes<E>(s: Seq<Result<usize, E>>) -> int
    decreases s.len(),
{
    if s.len() == 0 {
        0
    } else {
        sum_of_successes(s.drop_last()) + match s.last() {
            Ok(n) => n as int,
            Err(_) => 0,
        }
    }
}

/// The entries extracted over a batch of archives: a failed archive counts
/// for nothing. The total stops at `usize::MAX`.
pub fn total_extracted<E>(outcomes: &Vec<Result<usize, E>>) -> (r: usize)
    ensures
        r == if sum_of_successes(outcomes@) <= usize::MAX {
            sum_of_successes(outcomes@)
        } else {
            usize::MAX as int
        },
{
    let mut total: usize = 0;
    let mut i: usize = 0;
    while i < outcomes.len()
        invariant
            i <= outcomes@.len(),
            total == if sum_of_successes(outcomes@.take(i as int)) <= usize::MAX {
                sum_of_successes(outcomes@.take(i as int))
            } else {
                usize::MAX as int
            },
        decreases outcomes@.len() - i,
    {
        proof {
            assert(outcomes@.take(i + 1).drop_last() =~= outcomes@.take(i as int));
            assert(outcomes@.take(0) =~= Seq::<Result<usize, E>>::empty());
            lemma_sum_nonnegative(outcomes@.take(i as int));
        }
        match &outcomes[i] {
            Ok(n) => {
                if total > usize::MAX - *n {
                    total = usize::MAX;
                } else {
                    total = total + *n;
                }
            },
            Err(_) => {},
        }
        i = i + 1;
    }
    proof {
        assert(outcomes@.take(outcomes@.len() as int) =~= outcomes@);
    }
    total
}

proof fn lemma_sum_nonnegative<E>(s: Seq<Result<usize, E>>)
    ensures
        sum_of_successes(s) >= 0,
    decreases s.len(),
{
    if s.len() > 0 {
        lemma_sum_nonnegative(s.drop_last());
    }
}

} // verus!
