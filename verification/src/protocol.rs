//! The group as a state machine, and what holds of it.
//!
//! [`GroupModel`] is the content of a group: its cache and its loads in
//! flight. Each step that a caller can take is a function on the model, and
//! the properties that the group promises to its callers are stated and
//! proved here over those functions.

use vstd::prelude::*;
use crate::cache::CacheModel;
use crate::flight::{FlightsModel, RoleModel};

verus! {

/// What a caller is told when it asks for a key.
pub enum AdmissionModel {
    /// The key is cached with this value.
    Hit(Seq<char>),
    /// The caller is to load the key.
    Lead,
    /// The caller is to wait for a running load, with this ticket.
    Wait(int),
}

impl AdmissionModel {
    /// The ticket of a caller that was told to wait.
    pub open spec fn ticket(self) -> int {
        match self {
            AdmissionModel::Wait(ticket) => ticket,
            _ => -1,
        }
    }
}

/// One atomic step taken by some caller of a shared group.
pub enum Step {
    /// A caller asks for a key.
    Request(Seq<char>),
    /// The leader of the load of a key reports its outcome.
    Settle(Seq<char>, Result<Seq<char>, Seq<char>>),
    /// The holder of a ticket asks for its outcome.
    Collect(int),
}

impl Step {
    /// Whether this step ends the load of `key`.
    pub open spec fn settles(self, key: Seq<char>) -> bool {
        match self {
            Step::Settle(k, _) => k == key,
            _ => false,
        }
    }
}

/// Whether no step of `steps` ends the load of `key`.
pub open spec fn quiet(steps: Seq<Step>, key: Seq<char>) -> bool {
    forall|j: int| 0 <= j < steps.len() ==> !(#[trigger] steps[j]).settles(key)
}

/// The state of a group.
pub struct GroupModel {
    pub cache: CacheModel,
    pub flights: FlightsModel,
}

impl GroupModel {
    /// A group with an empty cache of the given capacity and no load in
    /// flight.
    pub open spec fn fresh(capacity: nat) -> GroupModel {
        GroupModel { cache: CacheModel::empty(capacity), flights: FlightsModel::empty() }
    }

    /// The invariant of the group: cache and coordinator are well formed,
    /// and a key that is being loaded is not cached.
    pub open spec fn wf(self) -> bool {
        &&& self.cache.wf()
        &&& self.flights.wf()
        &&& forall|key: Seq<char>| #[trigger] self.flights.pending(key) ==> !self.cache.holds(key)
    }

    /// What a caller asking for `key` is told.
    pub open spec fn answer(self, key: Seq<char>) -> AdmissionModel {
        match self.cache.lookup(key) {
            Some(value) => AdmissionModel::Hit(value),
            None => match self.flights.role(key) {
                RoleModel::Leader => AdmissionModel::Lead,
                RoleModel::Waiter(ticket) => AdmissionModel::Wait(ticket),
            },
        }
    }

    /// The state after a caller asked for `key`: a hit marks the entry as
    /// used, a miss enters the caller in the coordinator.
    pub open spec fn request(self, key: Seq<char>) -> GroupModel {
        if self.cache.holds(key) {
            GroupModel { cache: self.cache.touch(key), ..self }
        } else {
            GroupModel { flights: self.flights.enter(key), ..self }
        }
    }

    /// The state after the load of `key` ended with `outcome`: a value is
    /// cached, an error is not, and the call is finished either way.
    pub open spec fn settle(self, key: Seq<char>, outcome: Result<Seq<char>, Seq<char>>)
        -> GroupModel {
        GroupModel {
            cache: match outcome {
                Ok(value) => self.cache.put(key, value),
                Err(_) => self.cache,
            },
            flights: self.flights.finish(key, outcome),
        }
    }

    /// The state after the holder of `ticket` asked for its outcome.
    pub open spec fn collect(self, ticket: int) -> GroupModel {
        GroupModel { flights: self.flights.collect(ticket), ..self }
    }

    /// The state after a load that nobody else joined: a loaded value is
    /// cached, and nothing else changes.
    pub open spec fn load(self, key: Seq<char>, outcome: Result<Seq<char>, Seq<char>>)
        -> GroupModel {
        match outcome {
            Ok(value) => GroupModel { cache: self.cache.put(key, value), ..self },
            Err(_) => self,
        }
    }

    /// The state after each key of `pairs` was loaded in turn, with the
    /// value that stands beside it, by a caller that nobody joined.
    pub open spec fn load_all(self, pairs: Seq<(Seq<char>, Seq<char>)>) -> GroupModel
        decreases pairs.len(),
    {
        if pairs.len() == 0 {
            self
        } else {
            self.load_all(pairs.drop_last()).load(pairs.last().0, Ok(pairs.last().1))
        }
    }

    /// The state after `step`.
    pub open spec fn step(self, step: Step) -> GroupModel {
        match step {
            Step::Request(key) => self.request(key),
            Step::Settle(key, outcome) => self.settle(key, outcome),
            Step::Collect(ticket) => self.collect(ticket),
        }
    }

    /// The state after the steps of `steps`, taken one after the other.
    pub open spec fn run(self, steps: Seq<Step>) -> GroupModel
        decreases steps.len(),
    {
        if steps.len() == 0 {
            self
        } else {
            self.run(steps.drop_last()).step(steps.last())
        }
    }

    /// Asking for a key keeps the invariant. A cached key is a hit and
    /// leaves the loads in flight alone. A key that is not cached leaves the
    /// cache alone: the first caller is told to lead, and while the load is
    /// in flight every other caller is told to wait.
    pub proof fn lemma_request(self, key: Seq<char>)
        requires
            self.wf(),
        ensures
            self.request(key).wf(),
            self.cache.holds(key) ==> self.answer(key) == AdmissionModel::Hit(
                self.cache.lookup(key).unwrap(),
            ) && self.request(key).flights == self.flights,
            !self.cache.holds(key) ==> self.request(key).cache == self.cache && self.request(
                key,
            ).flights.pending(key),
            !self.cache.holds(key) && !self.flights.pending(key) ==> self.answer(key)
                == AdmissionModel::Lead,
            self.flights.pending(key) ==> self.answer(key) == AdmissionModel::Wait(
                self.flights.free_seat(),
            ),
    {
        let after = self.request(key);
        self.cache.lemma_touch(key);
        self.flights.lemma_enter(key);
        if self.cache.holds(key) {
            assert forall|k: Seq<char>| #[trigger] after.flights.pending(k) implies !after.cache.holds(
                k,
            ) by {
                assert(after.cache.lookup(k) == self.cache.lookup(k));
            }
        } else {
            assert forall|k: Seq<char>| #[trigger] after.flights.pending(k) implies !after.cache.holds(
                k,
            ) by {
                if k != key {
                    assert(self.flights.pending(k));
                }
            }
        }
    }

    /// Ending a load keeps the invariant. The key is no longer in flight;
    /// every caller that waited for it finds the outcome ready; a loaded
    /// value is cached unless the capacity is zero, an error leaves the cache
    /// as it was.
    pub proof fn lemma_settle(self, key: Seq<char>, outcome: Result<Seq<char>, Seq<char>>)
        requires
            self.wf(),
        ensures
            self.settle(key, outcome).wf(),
            !self.settle(key, outcome).flights.pending(key),
            forall|j: int|
                0 <= j < self.flights.waiters(key).len() ==> self.settle(key, outcome).flights.ready(
                    #[trigger] self.flights.waiters(key)[j],
                ) == Some(outcome),
            outcome is Err ==> self.settle(key, outcome).cache == self.cache,
            outcome is Ok && self.cache.capacity > 0 ==> self.settle(key, outcome).cache.lookup(key)
                == Some(outcome->Ok_0),
    {
        let after = self.settle(key, outcome);
        self.flights.lemma_finish(key, outcome);
        match outcome {
            Ok(value) => {
                self.cache.lemma_put(key, value);
                assert forall|k: Seq<char>| #[trigger]
                    after.flights.pending(k) implies !after.cache.holds(k) by {
                    assert(k != key);
                    assert(self.flights.pending(k));
                    if after.cache.holds(k) {
                        assert(after.cache.lookup(k) == self.cache.lookup(k));
                    }
                }
            },
            Err(_) => {
                assert forall|k: Seq<char>| #[trigger]
                    after.flights.pending(k) implies !after.cache.holds(k) by {
                    assert(k != key);
                    assert(self.flights.pending(k));
                }
            },
        }
    }

    /// Collecting keeps the invariant and changes nothing but the ticket.
    pub proof fn lemma_collect(self, ticket: int)
        requires
            self.wf(),
        ensures
            self.collect(ticket).wf(),
            self.collect(ticket).cache == self.cache,
            self.collect(ticket).flights.calls == self.flights.calls,
    {
        self.flights.lemma_collect(ticket);
        let after = self.collect(ticket);
        assert forall|k: Seq<char>| #[trigger] after.flights.pending(k) implies !after.cache.holds(
            k,
        ) by {
            assert(self.flights.pending(k));
        }
    }

    /// A caller that finds a key neither cached nor in flight, loads it and
    /// reports the outcome before anyone else asks, leaves the coordinator
    /// as it found it: the two steps together are one `load`.
    pub proof fn lemma_lone_load(self, key: Seq<char>)
        requires
            self.wf(),
            !self.flights.pending(key),
        ensures
            self.cache.holds(key) ==> self.answer(key) is Hit,
            !self.cache.holds(key) ==> self.answer(key) == AdmissionModel::Lead,
            !self.cache.holds(key) ==> forall|outcome: Result<Seq<char>, Seq<char>>|
                #[trigger] self.request(key).settle(key, outcome) == self.load(key, outcome),
            forall|outcome: Result<Seq<char>, Seq<char>>| #[trigger] self.load(key, outcome).wf(),
            forall|outcome: Result<Seq<char>, Seq<char>>|
                !(#[trigger] self.load(key, outcome)).flights.pending(key),
    {
        self.lemma_request(key);
        assert forall|outcome: Result<Seq<char>, Seq<char>>| #[trigger]
            self.load(key, outcome).wf() && !self.load(key, outcome).flights.pending(key) by {
            match outcome {
                Ok(value) => {
                    self.cache.lemma_put(key, value);
                    let after = self.load(key, outcome);
                    assert forall|k: Seq<char>| #[trigger]
                        after.flights.pending(k) implies !after.cache.holds(k) by {
                        if after.cache.holds(k) {
                            assert(after.cache.lookup(k) == self.cache.lookup(k));
                        }
                    }
                },
                Err(_) => {},
            }
        }
        if !self.cache.holds(key) {
            let entered = self.request(key);
            assert forall|outcome: Result<Seq<char>, Seq<char>>| #[trigger]
                entered.settle(key, outcome) == self.load(key, outcome) by {
                self.flights.lemma_lone_call(key, outcome);
            }
        }
    }

    /// While a key is cached, asking for it needs no load: the caller is
    /// handed the cached value, and is told neither to load nor to wait.
    pub proof fn lemma_hit_needs_no_load(self, key: Seq<char>)
        requires
            self.wf(),
            self.cache.holds(key),
        ensures
            self.answer(key) == AdmissionModel::Hit(self.cache.lookup(key).unwrap()),
            self.request(key).flights == self.flights,
            self.request(key).cache.lookup(key) == self.cache.lookup(key),
    {
        self.lemma_request(key);
        self.cache.lemma_touch(key);
    }

    /// A failed load is not cached: after the leader reported an error, the
    /// cache is as before, the key is neither cached nor in flight, and the
    /// next caller asking for it is told to load it again.
    pub proof fn lemma_failure_is_forgotten(self, key: Seq<char>, error: Seq<char>)
        requires
            self.wf(),
            self.flights.pending(key),
        ensures
            self.settle(key, Err(error)).wf(),
            self.settle(key, Err(error)).cache == self.cache,
            !self.settle(key, Err(error)).cache.holds(key),
            !self.settle(key, Err(error)).flights.pending(key),
            self.settle(key, Err(error)).answer(key) == AdmissionModel::Lead,
    {
        self.lemma_settle(key, Err(error));
        self.settle(key, Err(error)).lemma_request(key);
    }

    /// Successful loads fill the cache in their order. In a new group of
    /// capacity `capacity`, after the keys of `pairs`, which differ from
    /// one another, were loaded one by one, the cache holds the most recent
    /// `capacity` of them, oldest first. So the first load beyond the
    /// capacity evicts exactly one entry, the least recently used one, and
    /// so does each load after it.
    pub proof fn lemma_loads_evict_oldest(capacity: nat, pairs: Seq<(Seq<char>, Seq<char>)>)
        requires
            forall|i: int, j: int|
                0 <= i < j < pairs.len() ==> (#[trigger] pairs[i]).0 != (#[trigger] pairs[j]).0,
        ensures
            GroupModel::fresh(capacity).load_all(pairs).wf(),
            GroupModel::fresh(capacity).load_all(pairs).flights == FlightsModel::empty(),
            GroupModel::fresh(capacity).load_all(pairs).cache.entries == if pairs.len()
                <= capacity {
                pairs
            } else {
                pairs.subrange(pairs.len() - capacity, pairs.len() as int)
            },
    {
        Self::lemma_load_all(capacity, pairs);
        CacheModel::lemma_fill(capacity, pairs);
    }

    /// Loads that nobody joins are so many `put`s on the cache.
    proof fn lemma_load_all(capacity: nat, pairs: Seq<(Seq<char>, Seq<char>)>)
        ensures
            GroupModel::fresh(capacity).load_all(pairs).flights == FlightsModel::empty(),
            GroupModel::fresh(capacity).load_all(pairs).cache == CacheModel::empty(
                capacity,
            ).put_all(pairs),
        decreases pairs.len(),
    {
        if pairs.len() > 0 {
            Self::lemma_load_all(capacity, pairs.drop_last());
        }
    }

    /// Every step keeps the invariant and the capacity.
    pub proof fn lemma_step(self, step: Step)
        requires
            self.wf(),
        ensures
            self.step(step).wf(),
            self.step(step).cache.capacity == self.cache.capacity,
    {
        match step {
            Step::Request(key) => {
                self.lemma_request(key);
            },
            Step::Settle(key, outcome) => {
                self.lemma_settle(key, outcome);
                if let Ok(value) = outcome {
                    self.cache.lemma_put(key, value);
                }
            },
            Step::Collect(ticket) => {
                self.lemma_collect(ticket);
            },
        }
    }

    /// Whatever the callers do and in whatever order, the group stays well
    /// formed: at every moment the cache holds no more entries than its
    /// capacity and no key twice, there is at most one load in flight per
    /// key, and no key in flight is cached.
    pub proof fn lemma_run(self, steps: Seq<Step>)
        requires
            self.wf(),
        ensures
            self.run(steps).wf(),
            self.run(steps).cache.capacity == self.cache.capacity,
            self.run(steps).cache.entries.len() <= self.cache.capacity,
        decreases steps.len(),
    {
        if steps.len() > 0 {
            self.lemma_run(steps.drop_last());
            self.run(steps.drop_last()).lemma_step(steps.last());
        }
    }

    /// While the load of `key` is in flight, a step that does not end it
    /// leaves it in flight with all its waiters in place; only a request
    /// for `key` adds one, at the end of the queue.
    pub proof fn lemma_step_in_flight(self, key: Seq<char>, step: Step)
        requires
            self.wf(),
            self.flights.pending(key),
            !step.settles(key),
        ensures
            self.step(step).wf(),
            self.step(step).flights.pending(key),
            self.step(step).flights.waiters(key) == if step == Step::Request(key) {
                self.flights.waiters(key).push(self.flights.free_seat())
            } else {
                self.flights.waiters(key)
            },
            self.answer(key) == AdmissionModel::Wait(self.flights.free_seat()),
    {
        self.lemma_step(step);
        self.lemma_request(key);
        match step {
            Step::Request(k) => {
                self.lemma_request(k);
                self.flights.lemma_enter(k);
            },
            Step::Settle(k, outcome) => {
                self.flights.lemma_finish(k, outcome);
            },
            Step::Collect(ticket) => {
                self.flights.lemma_collect(ticket);
            },
        }
    }

    /// While the load of `key` is in flight and no step ends it, the key
    /// stays in flight, and every caller that asks for it in the meantime
    /// is told to wait, on a ticket that is then queued with the load.
    pub proof fn lemma_in_flight(self, key: Seq<char>, steps: Seq<Step>)
        requires
            self.wf(),
            self.flights.pending(key),
            quiet(steps, key),
        ensures
            self.run(steps).wf(),
            self.run(steps).flights.pending(key),
            !self.run(steps).cache.holds(key),
            self.run(steps).answer(key) is Wait,
            forall|t: int|
                self.flights.waiters(key).contains(t) ==> self.run(steps).flights.waiters(
                    key,
                ).contains(t),
            forall|j: int|
                0 <= j < steps.len() && steps[j] == Step::Request(key) ==> self.run(
                    steps,
                ).flights.waiters(key).contains(
                    self.run(#[trigger] steps.take(j)).answer(key).ticket(),
                ),
        decreases steps.len(),
    {
        let after = self.run(steps);
        if steps.len() == 0 {
            self.lemma_request(key);
        } else {
            let front = steps.drop_last();
            let mid = self.run(front);
            let last = steps.last();
            assert(quiet(front, key)) by {
                assert forall|j: int| 0 <= j < front.len() implies !(#[trigger] front[j]).settles(
                    key,
                ) by {
                    assert(front[j] == steps[j]);
                }
            }
            self.lemma_in_flight(key, front);
            mid.lemma_step_in_flight(key, last);
            after.lemma_request(key);
            let old_queue = mid.flights.waiters(key);
            let queue = after.flights.waiters(key);
            assert forall|t: int| old_queue.contains(t) implies queue.contains(t) by {
                let m = choose|m: int| 0 <= m < old_queue.len() && old_queue[m] == t;
                assert(queue[m] == t);
            }
            assert forall|j: int|
                0 <= j < steps.len() && steps[j] == Step::Request(key) implies queue.contains(
                self.run(#[trigger] steps.take(j)).answer(key).ticket(),
            ) by {
                if j < steps.len() - 1 {
                    assert(front.take(j) =~= steps.take(j));
                    assert(front[j] == steps[j]);
                    assert(old_queue.contains(self.run(front.take(j)).answer(key).ticket()));
                } else {
                    assert(steps.take(j) =~= front);
                    assert(queue[old_queue.len() as int] == mid.flights.free_seat());
                }
            }
        }
    }

    /// An outcome that is ready on a ticket stays ready, unchanged, until
    /// the ticket's holder collects it.
    pub proof fn lemma_ready_until_collected(self, ticket: int, steps: Seq<Step>)
        requires
            self.wf(),
            self.flights.ready(ticket) is Some,
            forall|j: int| 0 <= j < steps.len() ==> #[trigger] steps[j] != Step::Collect(ticket),
        ensures
            self.run(steps).flights.ready(ticket) == self.flights.ready(ticket),
        decreases steps.len(),
    {
        if steps.len() > 0 {
            let front = steps.drop_last();
            let mid = self.run(front);
            assert forall|j: int| 0 <= j < front.len() implies #[trigger] front[j] != Step::Collect(
                ticket,
            ) by {
                assert(front[j] == steps[j]);
            }
            self.lemma_ready_until_collected(ticket, front);
            self.lemma_run(front);
            assert(steps.last() == steps[steps.len() - 1]);
            match steps.last() {
                Step::Request(key) => {
                    mid.flights.lemma_enter(key);
                },
                Step::Settle(key, outcome) => {
                    mid.flights.lemma_finish(key, outcome);
                    let queue = mid.flights.waiters(key);
                    if queue.contains(ticket) {
                        let m = choose|m: int| 0 <= m < queue.len() && queue[m] == ticket;
                        let c = mid.flights.slot(key);
                        assert(mid.flights.queued(c, m));
                        assert(mid.flights.waiting(mid.flights.calls[c].waiters[m]));
                    }
                },
                Step::Collect(other) => {
                    mid.flights.lemma_collect(other);
                },
            }
        }
    }

    /// One load serves all. Let a caller ask for a key that is neither
    /// cached nor in flight, and let `during` be everything that happens in
    /// the group, in any order and for any keys, before the load of the key
    /// ends. Then:
    ///
    /// * the first caller is told to load, and it is the only one: at every
    ///   moment of `during`, a caller asking for the key is told to wait;
    /// * each caller that asked for the key during that time holds a ticket
    ///   of its own;
    /// * when the leader reports the outcome, be it a value or an error,
    ///   that same outcome is ready on the ticket of every one of them, and
    ///   the key is no longer in flight.
    pub proof fn lemma_one_load_serves_all(
        self,
        key: Seq<char>,
        during: Seq<Step>,
        outcome: Result<Seq<char>, Seq<char>>,
    )
        requires
            self.wf(),
            !self.cache.holds(key),
            !self.flights.pending(key),
            quiet(during, key),
        ensures
            self.answer(key) == AdmissionModel::Lead,
            forall|j: int|
                0 <= j <= during.len() ==> self.request(key).run(#[trigger] during.take(j)).answer(
                    key,
                ) is Wait,
            forall|i: int, j: int|
                0 <= i < j < during.len() && during[i] == Step::Request(key) && during[j]
                    == Step::Request(key) ==> self.request(key).run(
                    #[trigger] during.take(i),
                ).answer(key).ticket() != self.request(key).run(#[trigger] during.take(j)).answer(
                    key,
                ).ticket(),
            forall|j: int|
                0 <= j < during.len() && during[j] == Step::Request(key) ==> self.request(key).run(
                    during,
                ).settle(key, outcome).flights.ready(
                    self.request(key).run(#[trigger] during.take(j)).answer(key).ticket(),
                ) == Some(outcome),
            self.request(key).run(during).settle(key, outcome).wf(),
            !self.request(key).run(during).settle(key, outcome).flights.pending(key),
    {
        let opened = self.request(key);
        let full = opened.run(during);
        self.lemma_request(key);
        opened.lemma_in_flight(key, during);
        full.lemma_settle(key, outcome);
        assert forall|j: int| 0 <= j <= during.len() implies opened.run(
            #[trigger] during.take(j),
        ).answer(key) is Wait by {
            Self::lemma_quiet_take(during, key, j);
            opened.lemma_in_flight(key, during.take(j));
        }
        assert forall|i: int, j: int|
            0 <= i < j < during.len() && during[i] == Step::Request(key) && during[j]
                == Step::Request(key) implies opened.run(#[trigger] during.take(i)).answer(
            key,
        ).ticket() != opened.run(#[trigger] during.take(j)).answer(key).ticket() by {
            let sofar = during.take(j);
            let at = opened.run(sofar);
            Self::lemma_quiet_take(during, key, j);
            opened.lemma_in_flight(key, sofar);
            assert(sofar.take(i) =~= during.take(i));
            assert(sofar[i] == during[i]);
            let earlier = opened.run(during.take(i)).answer(key).ticket();
            let queue = at.flights.waiters(key);
            assert(queue.contains(earlier));
            let m = choose|m: int| 0 <= m < queue.len() && queue[m] == earlier;
            let c = at.flights.slot(key);
            assert(at.flights.queued(c, m));
            assert(at.flights.waiting(at.flights.calls[c].waiters[m]));
            at.lemma_request(key);
            at.flights.lemma_free_seat();
        }
        assert forall|j: int|
            0 <= j < during.len() && during[j] == Step::Request(key) implies full.settle(
            key,
            outcome,
        ).flights.ready(opened.run(#[trigger] during.take(j)).answer(key).ticket()) == Some(
            outcome,
        ) by {
            let t = opened.run(during.take(j)).answer(key).ticket();
            let queue = full.flights.waiters(key);
            assert(queue.contains(t));
            let m = choose|m: int| 0 <= m < queue.len() && queue[m] == t;
            assert(full.settle(key, outcome).flights.ready(queue[m]) == Some(outcome));
        }
    }

    /// The beginning of a quiet run is quiet.
    proof fn lemma_quiet_take(steps: Seq<Step>, key: Seq<char>, j: int)
        requires
            quiet(steps, key),
            0 <= j <= steps.len(),
        ensures
            quiet(steps.take(j), key),
    {
        assert forall|i: int| 0 <= i < steps.take(j).len() implies !(#[trigger] steps.take(
            j,
        )[i]).settles(key) by {
            assert(steps.take(j)[i] == steps[i]);
        }
    }
}

} // verus!
