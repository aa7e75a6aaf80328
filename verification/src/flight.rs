//! Single-flight coordination: at most one load in flight per key.
//!
//! The coordinator is a state machine. A caller that wants a key loaded
//! *enters*: the first to do so becomes the leader and must run the load, every
//! later one becomes a waiter and is handed a ticket. When the leader
//! *finishes*, the call leaves the table at once and the outcome is laid out
//! for every ticket of that call; each waiter then *collects* it. The
//! coordinator itself never blocks: waiting for the leader is left to the code
//! that shares the coordinator between callers.

use vstd::prelude::*;
use vstd::pervasive::unreached;

verus! {

/// The text of a load's outcome: the loaded value, or the loader's error.
pub open spec fn outcome_text(outcome: Result<String, String>) -> Result<Seq<char>, Seq<char>> {
    match outcome {
        Ok(value) => Ok(value@),
        Err(error) => Err(error@),
    }
}

/// The text of an outcome that may not be there yet.
pub open spec fn pickup_text(pickup: Option<Result<String, String>>) -> Option<
    Result<Seq<char>, Seq<char>>,
> {
    match pickup {
        Some(outcome) => Some(outcome_text(outcome)),
        None => None,
    }
}

/// What a ticket stands for at a given moment.
pub enum SeatModel {
    /// The ticket is not in use.
    Vacant,
    /// The ticket's holder is waiting for a load that is still running.
    Waiting,
    /// The load has ended with this outcome, which the holder has yet to
    /// collect.
    Ready(Result<Seq<char>, Seq<char>>),
}

/// A load in flight: the key being loaded and the tickets of the callers
/// waiting for it, in order of arrival.
pub struct CallModel {
    pub key: Seq<char>,
    pub waiters: Seq<int>,
}

/// The part a caller is given when it enters.
pub enum RoleModel {
    Leader,
    Waiter(int),
}

/// The state of a coordinator: the calls in flight and one seat per ticket.
pub struct FlightsModel {
    pub calls: Seq<CallModel>,
    pub seats: Seq<SeatModel>,
}

/// The first index at or after `from` whose seat is vacant; the number of
/// seats if there is none.
pub open spec fn vacancy(seats: Seq<SeatModel>, from: int) -> int
    decreases seats.len() - from,
{
    if from < 0 || from >= seats.len() {
        seats.len() as int
    } else if seats[from] is Vacant {
        from
    } else {
        vacancy(seats, from + 1)
    }
}

/// `vacancy` returns the first vacant seat, or the end.
pub proof fn lemma_vacancy(seats: Seq<SeatModel>, from: int)
    requires
        0 <= from <= seats.len(),
    ensures
        from <= vacancy(seats, from) <= seats.len(),
        vacancy(seats, from) < seats.len() ==> seats[vacancy(seats, from)] is Vacant,
        forall|s: int| from <= s < vacancy(seats, from) ==> !(#[trigger] seats[s] is Vacant),
    decreases seats.len() - from,
{
    if from < seats.len() && !(seats[from] is Vacant) {
        lemma_vacancy(seats, from + 1);
    }
}

impl FlightsModel {
    /// No call in flight, no ticket handed out.
    pub open spec fn empty() -> FlightsModel {
        FlightsModel { calls: Seq::empty(), seats: Seq::empty() }
    }

    /// Whether `(c, j)` names a waiter: call `c`, place `j` in its queue.
    pub open spec fn queued(self, c: int, j: int) -> bool {
        0 <= c < self.calls.len() && 0 <= j < self.calls[c].waiters.len()
    }

    /// Whether `ticket` belongs to a caller that is still waiting.
    pub open spec fn waiting(self, ticket: int) -> bool {
        0 <= ticket < self.seats.len() && self.seats[ticket] is Waiting
    }

    /// The invariant of the coordinator.
    ///
    /// * There is at most one call in flight per key.
    /// * Every queued ticket is marked as waiting.
    /// * No ticket is queued twice, neither in one call nor in two.
    /// * Every ticket marked as waiting is queued in some call, so that the
    ///   end of that call will reach it.
    pub open spec fn wf(self) -> bool {
        &&& forall|c: int, d: int|
            0 <= c < d < self.calls.len() ==> (#[trigger] self.calls[c]).key != (
            #[trigger] self.calls[d]).key
        &&& forall|c: int, j: int|
            self.queued(c, j) ==> self.waiting(#[trigger] self.calls[c].waiters[j])
        &&& forall|c: int, j: int, d: int, l: int|
            self.queued(c, j) && self.queued(d, l) && #[trigger] self.calls[c].waiters[j]
                == #[trigger] self.calls[d].waiters[l] ==> c == d && j == l
        &&& forall|s: int| #[trigger]
            self.waiting(s) ==> exists|c: int, j: int|
                self.queued(c, j) && #[trigger] self.calls[c].waiters[j] == s
    }

    /// Whether a load of `key` is in flight.
    pub open spec fn pending(self, key: Seq<char>) -> bool {
        exists|c: int| 0 <= c < self.calls.len() && (#[trigger] self.calls[c]).key == key
    }

    /// The place of the call for `key` in the table. Meaningful only while
    /// the key is pending.
    pub open spec fn slot(self, key: Seq<char>) -> int {
        choose|c: int| 0 <= c < self.calls.len() && (#[trigger] self.calls[c]).key == key
    }

    /// The tickets waiting for `key`, in order of arrival.
    pub open spec fn waiters(self, key: Seq<char>) -> Seq<int> {
        if self.pending(key) {
            self.calls[self.slot(key)].waiters
        } else {
            Seq::empty()
        }
    }

    /// The ticket that the next waiter gets: the lowest one not in use.
    pub open spec fn free_seat(self) -> int {
        vacancy(self.seats, 0)
    }

    /// The part given to a caller that enters for `key` now.
    pub open spec fn role(self, key: Seq<char>) -> RoleModel {
        if self.pending(key) {
            RoleModel::Waiter(self.free_seat())
        } else {
            RoleModel::Leader
        }
    }

    /// The state after a caller entered for `key`.
    ///
    /// If no load of the key is in flight, a call without waiters is added
    /// to the table. Otherwise the lowest free ticket is marked as waiting
    /// and queued at the end of the key's call.
    pub open spec fn enter(self, key: Seq<char>) -> FlightsModel {
        if self.pending(key) {
            let c = self.slot(key);
            let t = self.free_seat();
            FlightsModel {
                calls: self.calls.update(
                    c,
                    CallModel { key, waiters: self.calls[c].waiters.push(t) },
                ),
                seats: if t < self.seats.len() {
                    self.seats.update(t, SeatModel::Waiting)
                } else {
                    self.seats.push(SeatModel::Waiting)
                },
            }
        } else {
            FlightsModel {
                calls: self.calls.push(CallModel { key, waiters: Seq::empty() }),
                ..self
            }
        }
    }

    /// The state after the load of `key` ended with `outcome`: the call has
    /// left the table, and the outcome is ready on the seat of each of its
    /// waiters. Nothing changes if no load of the key was in flight.
    pub open spec fn finish(self, key: Seq<char>, outcome: Result<Seq<char>, Seq<char>>)
        -> FlightsModel {
        if self.pending(key) {
            let c = self.slot(key);
            FlightsModel {
                calls: self.calls.remove(c),
                seats: Seq::new(
                    self.seats.len(),
                    |s: int|
                        if self.calls[c].waiters.contains(s) {
                            SeatModel::Ready(outcome)
                        } else {
                            self.seats[s]
                        },
                ),
            }
        } else {
            self
        }
    }

    /// The outcome that is ready for `ticket`, if any.
    pub open spec fn ready(self, ticket: int) -> Option<Result<Seq<char>, Seq<char>>> {
        if 0 <= ticket < self.seats.len() {
            match self.seats[ticket] {
                SeatModel::Ready(outcome) => Some(outcome),
                _ => None,
            }
        } else {
            None
        }
    }

    /// The state after the holder of `ticket` asked for its outcome: a ready
    /// outcome is handed over and the ticket becomes free; otherwise nothing
    /// changes.
    pub open spec fn collect(self, ticket: int) -> FlightsModel {
        if self.ready(ticket) is Some {
            FlightsModel { seats: self.seats.update(ticket, SeatModel::Vacant), ..self }
        } else {
            self
        }
    }

    /// A pending key has exactly one call, so any call with that key is the
    /// one `slot` names.
    pub proof fn lemma_slot_unique(self, key: Seq<char>, c: int)
        requires
            self.wf(),
            0 <= c < self.calls.len(),
            self.calls[c].key == key,
        ensures
            self.pending(key),
            self.slot(key) == c,
            self.waiters(key) == self.calls[c].waiters,
    {
        let r = self.slot(key);
        if r < c {
            assert(self.calls[r].key != self.calls[c].key);
        } else if c < r {
            assert(self.calls[c].key != self.calls[r].key);
        }
    }

    /// The ticket for the next waiter is in no one's hands: it is either a
    /// vacant seat or a new one.
    pub proof fn lemma_free_seat(self)
        ensures
            0 <= self.free_seat() <= self.seats.len(),
            self.free_seat() < self.seats.len() ==> self.seats[self.free_seat()] is Vacant,
            forall|s: int| 0 <= s < self.free_seat() ==> !(#[trigger] self.seats[s] is Vacant),
            !self.waiting(self.free_seat()),
            self.ready(self.free_seat()) is None,
    {
        lemma_vacancy(self.seats, 0);
    }

    /// Entering keeps the invariant. The first caller for a key opens its
    /// call; each later one is queued behind those already waiting, on a
    /// ticket that nobody else holds. Calls for other keys, and the outcomes
    /// that are ready, stay as they are.
    pub proof fn lemma_enter(self, key: Seq<char>)
        requires
            self.wf(),
        ensures
            self.enter(key).wf(),
            self.enter(key).pending(key),
            self.enter(key).waiters(key) == if self.pending(key) {
                self.waiters(key).push(self.free_seat())
            } else {
                Seq::empty()
            },
            self.pending(key) ==> self.enter(key).waiting(self.free_seat()),
            forall|k: Seq<char>|
                k != key ==> self.enter(key).pending(k) == self.pending(k) && self.enter(
                    key,
                ).waiters(k) == self.waiters(k),
            forall|t: int| self.waiting(t) ==> self.enter(key).waiting(t),
            forall|t: int| self.enter(key).ready(t) == self.ready(t),
    {
        let after = self.enter(key);
        self.lemma_free_seat();
        let t = self.free_seat();
        if self.pending(key) {
            let c = self.slot(key);
            assert forall|s: int| 0 <= s < self.seats.len() && s != t implies after.seats[s]
                == self.seats[s] by {}
            assert(after.seats[t] is Waiting);
            assert(after.calls[c].waiters.last() == t);
            assert forall|d: int, l: int| after.queued(d, l) implies after.waiting(
                #[trigger] after.calls[d].waiters[l],
            ) && (self.queued(d, l) || (d == c && l == self.calls[c].waiters.len())) by {
                if !(d == c && l == self.calls[c].waiters.len()) {
                    assert(self.queued(d, l));
                    assert(after.calls[d].waiters[l] == self.calls[d].waiters[l]);
                    assert(self.waiting(self.calls[d].waiters[l]));
                }
            }
            assert forall|d: int, l: int, e: int, m: int|
                after.queued(d, l) && after.queued(e, m) && #[trigger] after.calls[d].waiters[l]
                    == #[trigger] after.calls[e].waiters[m] implies d == e && l == m by {
                let fresh_a = d == c && l == self.calls[c].waiters.len();
                let fresh_b = e == c && m == self.calls[c].waiters.len();
                if !fresh_a {
                    assert(after.calls[d].waiters[l] == self.calls[d].waiters[l]);
                    assert(self.waiting(self.calls[d].waiters[l]));
                }
                if !fresh_b {
                    assert(after.calls[e].waiters[m] == self.calls[e].waiters[m]);
                    assert(self.waiting(self.calls[e].waiters[m]));
                }
            }
            assert forall|s: int| #[trigger] after.waiting(s) implies exists|d: int, l: int|
                after.queued(d, l) && #[trigger] after.calls[d].waiters[l] == s by {
                if s == t {
                    assert(after.queued(c, self.calls[c].waiters.len() as int));
                    assert(after.calls[c].waiters[self.calls[c].waiters.len() as int] == s);
                } else {
                    assert(self.waiting(s));
                    let (d, l) = choose|d: int, l: int|
                        self.queued(d, l) && #[trigger] self.calls[d].waiters[l] == s;
                    assert(after.queued(d, l));
                    assert(after.calls[d].waiters[l] == s);
                }
            }
            assert(after.calls[c].key == key);
            after.lemma_slot_unique(key, c);
            assert forall|k: Seq<char>| k != key implies after.pending(k) == self.pending(k)
                && after.waiters(k) == self.waiters(k) by {
                if self.pending(k) {
                    let d = self.slot(k);
                    assert(after.calls[d] == self.calls[d]);
                    after.lemma_slot_unique(k, d);
                } else if after.pending(k) {
                    let d = after.slot(k);
                    assert(self.calls[d].key == k);
                }
            }
        } else {
            let c = self.calls.len() as int;
            assert forall|d: int| 0 <= d < c implies #[trigger] after.calls[d] == self.calls[d] by {}
            assert(after.calls[c].key == key);
            assert forall|d: int, e: int| 0 <= d < e < after.calls.len() implies (
            #[trigger] after.calls[d]).key != (#[trigger] after.calls[e]).key by {
                if e == c {
                    assert(self.calls[d].key != key);
                }
            }
            assert forall|d: int, l: int| after.queued(d, l) implies self.queued(d, l)
                && #[trigger] after.calls[d].waiters[l] == self.calls[d].waiters[l] by {}
            assert forall|s: int| #[trigger] after.waiting(s) implies exists|d: int, l: int|
                after.queued(d, l) && #[trigger] after.calls[d].waiters[l] == s by {
                assert(self.waiting(s));
                let (d, l) = choose|d: int, l: int|
                    self.queued(d, l) && #[trigger] self.calls[d].waiters[l] == s;
                assert(after.queued(d, l));
                assert(after.calls[d].waiters[l] == s);
            }
            after.lemma_slot_unique(key, c);
            assert forall|k: Seq<char>| k != key implies after.pending(k) == self.pending(k)
                && after.waiters(k) == self.waiters(k) by {
                if self.pending(k) {
                    let d = self.slot(k);
                    assert(after.calls[d] == self.calls[d]);
                    after.lemma_slot_unique(k, d);
                } else if after.pending(k) {
                    let d = after.slot(k);
                    assert(self.calls[d].key == k);
                }
            }
        }
    }

    /// A call that nobody joined leaves no trace: entering for a key that
    /// is not pending and finishing right away gives the state back as it
    /// was, whatever the outcome.
    pub proof fn lemma_lone_call(self, key: Seq<char>, outcome: Result<Seq<char>, Seq<char>>)
        requires
            self.wf(),
            !self.pending(key),
        ensures
            self.role(key) == RoleModel::Leader,
            self.enter(key).finish(key, outcome) == self,
    {
        let entered = self.enter(key);
        let c = self.calls.len() as int;
        self.lemma_enter(key);
        assert(entered.calls[c].key == key);
        entered.lemma_slot_unique(key, c);
        let done = entered.finish(key, outcome);
        assert(done.calls =~= self.calls);
        assert(done.seats =~= self.seats);
    }

    /// Finishing keeps the invariant. The key is no longer pending, every
    /// ticket that waited for it has the outcome ready, and nothing else
    /// changes: other calls keep their waiters, who go on waiting, and
    /// outcomes that were ready before stay ready.
    pub proof fn lemma_finish(self, key: Seq<char>, outcome: Result<Seq<char>, Seq<char>>)
        requires
            self.wf(),
        ensures
            self.finish(key, outcome).wf(),
            !self.finish(key, outcome).pending(key),
            forall|j: int|
                0 <= j < self.waiters(key).len() ==> self.finish(key, outcome).ready(
                    #[trigger] self.waiters(key)[j],
                ) == Some(outcome),
            forall|k: Seq<char>|
                k != key ==> self.finish(key, outcome).pending(k) == self.pending(k) && self.finish(
                    key,
                    outcome,
                ).waiters(k) == self.waiters(k),
            forall|t: int|
                !self.waiters(key).contains(t) ==> self.finish(key, outcome).ready(t) == self.ready(
                    t,
                ) && self.finish(key, outcome).waiting(t) == self.waiting(t),
    {
        let after = self.finish(key, outcome);
        if self.pending(key) {
            let c = self.slot(key);
            let gone = self.calls[c].waiters;
            assert forall|d: int| 0 <= d < after.calls.len() implies #[trigger] after.calls[d]
                == self.calls[if d < c {
                d
            } else {
                d + 1
            }] by {}
            assert forall|d: int, l: int| after.queued(d, l) implies after.waiting(
                #[trigger] after.calls[d].waiters[l],
            ) by {
                let dd = if d < c {
                    d
                } else {
                    d + 1
                };
                assert(self.queued(dd, l));
                let w = self.calls[dd].waiters[l];
                assert(self.waiting(w));
                if gone.contains(w) {
                    let m = choose|m: int| 0 <= m < gone.len() && gone[m] == w;
                    assert(self.queued(c, m));
                    assert(self.calls[c].waiters[m] == self.calls[dd].waiters[l]);
                }
            }
            assert forall|d: int, l: int, e: int, m: int|
                after.queued(d, l) && after.queued(e, m) && #[trigger] after.calls[d].waiters[l]
                    == #[trigger] after.calls[e].waiters[m] implies d == e && l == m by {
                let dd = if d < c {
                    d
                } else {
                    d + 1
                };
                let ee = if e < c {
                    e
                } else {
                    e + 1
                };
                assert(self.queued(dd, l) && self.queued(ee, m));
                assert(self.calls[dd].waiters[l] == self.calls[ee].waiters[m]);
            }
            assert forall|s: int| #[trigger] after.waiting(s) implies exists|d: int, l: int|
                after.queued(d, l) && #[trigger] after.calls[d].waiters[l] == s by {
                assert(!gone.contains(s));
                assert(self.waiting(s));
                let (d, l) = choose|d: int, l: int|
                    self.queued(d, l) && #[trigger] self.calls[d].waiters[l] == s;
                if d == c {
                    assert(gone[l] == s);
                }
                let dd = if d < c {
                    d
                } else {
                    d - 1
                };
                assert(after.queued(dd, l));
                assert(after.calls[dd].waiters[l] == s);
            }
            if after.pending(key) {
                let d = after.slot(key);
                let dd = if d < c {
                    d
                } else {
                    d + 1
                };
                self.lemma_slot_unique(key, dd);
            }
            assert forall|j: int| 0 <= j < self.waiters(key).len() implies after.ready(
                #[trigger] self.waiters(key)[j],
            ) == Some(outcome) by {
                assert(self.queued(c, j));
                assert(self.waiting(self.calls[c].waiters[j]));
                assert(gone.contains(gone[j]));
            }
            assert forall|k: Seq<char>| k != key implies after.pending(k) == self.pending(k)
                && after.waiters(k) == self.waiters(k) by {
                if self.pending(k) {
                    let d = self.slot(k);
                    let dd = if d < c {
                        d
                    } else {
                        d - 1
                    };
                    assert(after.calls[dd] == self.calls[d]);
                    after.lemma_slot_unique(k, dd);
                } else if after.pending(k) {
                    let d = after.slot(k);
                    let dd = if d < c {
                        d
                    } else {
                        d + 1
                    };
                    assert(self.calls[dd].key == k);
                }
            }
        } else {
            assert(self.waiters(key).len() == 0);
        }
    }

    /// Collecting keeps the invariant, frees the ticket if an outcome was
    /// ready on it, and touches neither the calls in flight nor any other
    /// ticket.
    pub proof fn lemma_collect(self, ticket: int)
        requires
            self.wf(),
        ensures
            self.collect(ticket).wf(),
            self.collect(ticket).calls == self.calls,
            self.collect(ticket).ready(ticket) is None,
            forall|k: Seq<char>|
                self.collect(ticket).pending(k) == self.pending(k) && self.collect(ticket).waiters(
                    k,
                ) == self.waiters(k),
            forall|t: int|
                t != ticket ==> self.collect(ticket).ready(t) == self.ready(t),
            forall|t: int| self.collect(ticket).waiting(t) == self.waiting(t),
    {
        let after = self.collect(ticket);
        if self.ready(ticket) is Some {
            assert forall|s: int| after.waiting(s) == self.waiting(s) by {}
            assert forall|d: int, l: int| after.queued(d, l) implies after.waiting(
                #[trigger] after.calls[d].waiters[l],
            ) by {
                assert(self.queued(d, l));
                assert(self.waiting(self.calls[d].waiters[l]));
            }
            assert forall|s: int| #[trigger] after.waiting(s) implies exists|d: int, l: int|
                after.queued(d, l) && #[trigger] after.calls[d].waiters[l] == s by {
                assert(self.waiting(s));
                let (d, l) = choose|d: int, l: int|
                    self.queued(d, l) && #[trigger] self.calls[d].waiters[l] == s;
                assert(after.queued(d, l));
            }
            assert forall|k: Seq<char>|
                after.pending(k) == self.pending(k) && after.waiters(k) == self.waiters(k) by {
                assert(after.slot(k) == self.slot(k));
            }
        }
    }
}

/// The part a caller is given when it enters.
pub enum Role {
    /// The caller runs the load and reports its outcome with `finish`.
    Leader,
    /// A load is already running. The caller waits and later collects the
    /// outcome with this ticket.
    Waiter(usize),
}

impl View for Role {
    type V = RoleModel;

    open spec fn view(&self) -> RoleModel {
        match self {
            Role::Leader => RoleModel::Leader,
            Role::Waiter(ticket) => RoleModel::Waiter(*ticket as int),
        }
    }
}

/// The seat of one ticket.
pub enum Seat {
    Vacant,
    Waiting,
    Ready(Result<String, String>),
}

impl View for Seat {
    type V = SeatModel;

    closed spec fn view(&self) -> SeatModel {
        match self {
            Seat::Vacant => SeatModel::Vacant,
            Seat::Waiting => SeatModel::Waiting,
            Seat::Ready(outcome) => SeatModel::Ready(outcome_text(*outcome)),
        }
    }
}

/// One load in flight.
pub struct InFlightCall {
    key: String,
    waiters: Vec<usize>,
}

impl View for InFlightCall {
    type V = CallModel;

    closed spec fn view(&self) -> CallModel {
        CallModel { key: self.key@, waiters: self.waiters@.map_values(|w: usize| w as int) }
    }
}

/// The table of loads in flight, with the seats of the callers waiting for
/// them.
pub struct SingleFlightCoordinator {
    calls: Vec<InFlightCall>,
    seats: Vec<Seat>,
}

impl View for SingleFlightCoordinator {
    type V = FlightsModel;

    closed spec fn view(&self) -> FlightsModel {
        FlightsModel {
            calls: self.calls@.map_values(|c: InFlightCall| c@),
            seats: self.seats@.map_values(|s: Seat| s@),
        }
    }
}

/// A copy of an outcome.
fn copy_outcome(outcome: &Result<String, String>) -> (copy: Result<String, String>)
    ensures
        copy == *outcome,
{
    match outcome {
        Ok(value) => Ok(value.clone()),
        Err(error) => Err(error.clone()),
    }
}

impl SingleFlightCoordinator {
    /// The invariant of the coordinator: its state is a well-formed model.
    pub open spec fn wf(&self) -> bool {
        self@.wf()
    }

    /// A coordinator with no load in flight.
    pub fn new() -> (flights: SingleFlightCoordinator)
        ensures
            flights.wf(),
            flights@ == FlightsModel::empty(),
    {
        let flights = SingleFlightCoordinator { calls: Vec::new(), seats: Vec::new() };
        assert(flights@.calls =~= Seq::empty());
        assert(flights@.seats =~= Seq::empty());
        flights
    }

    /// The place of the call for `key` in the table, if there is one.
    fn find(&self, key: &String) -> (found: Option<usize>)
        requires
            self.wf(),
        ensures
            match found {
                Some(c) => self@.pending(key@) && c == self@.slot(key@) && c < self.calls.len(),
                None => !self@.pending(key@),
            },
    {
        let mut c: usize = 0;
        while c < self.calls.len()
            invariant
                c <= self.calls.len(),
                self.wf(),
                forall|d: int| 0 <= d < c ==> (#[trigger] self@.calls[d]).key != key@,
            decreases self.calls.len() - c,
        {
            if self.calls[c].key == *key {
                proof {
                    self@.lemma_slot_unique(key@, c as int);
                }
                return Some(c);
            }
            c = c + 1;
        }
        None
    }

    /// The lowest ticket that is not in use.
    fn free_seat(&self) -> (ticket: usize)
        ensures
            ticket == self@.free_seat(),
            ticket <= self.seats.len(),
    {
        let mut t: usize = 0;
        while t < self.seats.len()
            invariant
                t <= self.seats.len(),
                vacancy(self@.seats, t as int) == vacancy(self@.seats, 0),
            decreases self.seats.len() - t,
        {
            if let Seat::Vacant = self.seats[t] {
                return t;
            }
            t = t + 1;
        }
        t
    }

    /// Whether a load of `key` is in flight.
    pub fn is_pending(&self, key: &String) -> (pending: bool)
        requires
            self.wf(),
        ensures
            pending == self@.pending(key@),
    {
        self.find(key).is_some()
    }

    /// Enters a caller that wants `key` loaded.
    ///
    /// The first caller for a key becomes the leader: it is to run the load
    /// and call [`finish`](Self::finish). While that load is in flight, every
    /// further caller becomes a waiter on a ticket of its own.
    pub fn enter(&mut self, key: &String) -> (role: Role)
        requires
            old(self).wf(),
        ensures
            final(self).wf(),
            role@ == old(self)@.role(key@),
            final(self)@ == old(self)@.enter(key@),
    {
        proof {
            self@.lemma_enter(key@);
            self@.lemma_free_seat();
        }
        match self.find(key) {
            Some(c) => {
                let t = self.free_seat();
                if t < self.seats.len() {
                    self.seats[t] = Seat::Waiting;
                } else {
                    self.seats.push(Seat::Waiting);
                }
                self.calls[c].waiters.push(t);
                assert(self.calls@[c as int]@.waiters =~= old(self)@.calls[c as int].waiters.push(
                    t as int,
                ));
                assert(self@.calls =~= old(self)@.enter(key@).calls);
                assert(self@.seats =~= old(self)@.enter(key@).seats);
                Role::Waiter(t)
            },
            None => {
                let call = InFlightCall { key: key.clone(), waiters: Vec::new() };
                assert(call@.waiters =~= Seq::empty());
                self.calls.push(call);
                assert(self@.calls =~= old(self)@.enter(key@).calls);
                Role::Leader
            },
        }
    }

    /// Runs `load` as the one load of `key`.
    ///
    /// The caller enters as the leader, runs `load`, and finishes the call
    /// with what `load` returned, which is also the result. Nobody can join
    /// in between, so the coordinator ends as it began.
    ///
    /// The caller owns the coordinator, so nobody could finish a load while
    /// `run` waits for it: `key` must not be pending. Callers that share a
    /// coordinator use [`enter`](Self::enter), [`finish`](Self::finish) and
    /// [`collect`](Self::collect) instead.
    pub fn run<F: FnOnce() -> Result<String, String>>(&mut self, key: &String, load: F) -> (outcome:
        Result<String, String>)
        requires
            old(self).wf(),
            !old(self)@.pending(key@),
            call_requires(load, ()),
        ensures
            final(self).wf(),
            call_ensures(load, (), outcome),
            final(self)@ == old(self)@,
    {
        match self.enter(key) {
            Role::Leader => {},
            Role::Waiter(_) => unreached(),
        }
        let outcome = load();
        proof {
            old(self)@.lemma_lone_call(key@, outcome_text(outcome));
            old(self)@.lemma_enter(key@);
        }
        let _ = self.finish(key, &outcome);
        outcome
    }

    /// Ends the load of `key` with `outcome`.
    ///
    /// The call leaves the table, so that the next caller for the key starts
    /// a new load, and a copy of the outcome is laid out for each waiter of
    /// the call. Returns how many waiters there were.
    ///
    /// Only the leader of a load may finish it: `key` must be pending.
    pub fn finish(&mut self, key: &String, outcome: &Result<String, String>) -> (released: usize)
        requires
            old(self).wf(),
            old(self)@.pending(key@),
        ensures
            final(self).wf(),
            final(self)@ == old(self)@.finish(key@, outcome_text(*outcome)),
            released == old(self)@.waiters(key@).len(),
    {
        proof {
            self@.lemma_finish(key@, outcome_text(*outcome));
        }
        let c = self.find(key).unwrap();
        let call = self.calls.remove(c);
        let ghost queue = call@.waiters;
        let ghost before = old(self)@;
        assert(queue == before.calls[c as int].waiters);
        assert forall|j: int| 0 <= j < queue.len() implies 0 <= #[trigger] queue[j]
            < self.seats.len() by {
            assert(before.queued(c as int, j));
            assert(before.waiting(before.calls[c as int].waiters[j]));
        }
        let n = call.waiters.len();
        let mut j: usize = 0;
        while j < n
            invariant
                j <= n,
                n == call.waiters.len(),
                queue == call@.waiters,
                self.calls@ == old(self).calls@.remove(c as int),
                self.seats.len() == before.seats.len(),
                forall|l: int| 0 <= l < queue.len() ==> 0 <= #[trigger] queue[l]
                    < self.seats.len(),
                forall|s: int|
                    0 <= s < self.seats.len() ==> (#[trigger] self.seats@[s])@ == if exists|
                        l: int,
                    |
                        0 <= l < j && #[trigger] queue[l] == s {
                        SeatModel::Ready(outcome_text(*outcome))
                    } else {
                        before.seats[s]
                    },
            decreases n - j,
        {
            let w = call.waiters[j];
            assert(queue[j as int] == w);
            let ghost earlier = self.seats@;
            self.seats[w] = Seat::Ready(copy_outcome(outcome));
            assert forall|s: int| 0 <= s < self.seats.len() implies (
            #[trigger] self.seats@[s])@ == if exists|l: int|
                0 <= l < j + 1 && #[trigger] queue[l] == s {
                SeatModel::Ready(outcome_text(*outcome))
            } else {
                before.seats[s]
            } by {
                if s == w {
                    assert(queue[j as int] == s);
                } else {
                    assert(self.seats@[s] == earlier[s]);
                    if exists|l: int| 0 <= l < j + 1 && #[trigger] queue[l] == s {
                        let l = choose|l: int| 0 <= l < j + 1 && #[trigger] queue[l] == s;
                        assert(l < j);
                    }
                }
            }
            j = j + 1;
        }
        assert(self@.calls =~= before.finish(key@, outcome_text(*outcome)).calls);
        assert(self@.seats =~= before.finish(key@, outcome_text(*outcome)).seats);
        n
    }

    /// Hands over the outcome that is ready for `ticket` and frees the
    /// ticket. Returns `None`, and changes nothing, while the load is still
    /// running or if the ticket is not in use.
    pub fn collect(&mut self, ticket: usize) -> (pickup: Option<Result<String, String>>)
        requires
            old(self).wf(),
        ensures
            final(self).wf(),
            pickup_text(pickup) == old(self)@.ready(ticket as int),
            final(self)@ == old(self)@.collect(ticket as int),
    {
        proof {
            self@.lemma_collect(ticket as int);
        }
        if ticket >= self.seats.len() {
            return None;
        }
        let pickup = match &self.seats[ticket] {
            Seat::Ready(outcome) => Some(copy_outcome(outcome)),
            _ => None,
        };
        if pickup.is_some() {
            self.seats[ticket] = Seat::Vacant;
            assert(self@.seats =~= old(self)@.collect(ticket as int).seats);
        }
        pickup
    }
}

} // verus!
