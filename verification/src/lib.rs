//! A cache group: a bounded cache in front of a slow loader, with concurrent
//! requests for one key collapsed into a single load.
//!
//! A [`Group`] answers `get(key)` from its [`BoundedCache`] when it can. On a
//! miss the value comes from the group's [`Getter`]; the
//! [`SingleFlightCoordinator`] sees to it that callers asking for the same key
//! at the same time share one load and one outcome. A successful load fills
//! the cache, a failed one is reported and forgotten.
//!
//! The group never blocks. A caller that owns the group uses [`Group::get`].
//! Callers that share it take the same path in three atomic steps,
//! [`Group::request`], [`Group::settle`] and [`Group::collect`], and do their
//! loading and waiting between the steps.

use vstd::prelude::*;

pub mod cache;
mod chain;
pub mod flight;
pub mod protocol;

use crate::cache::BoundedCache;
use crate::flight::{SingleFlightCoordinator, Role, outcome_text, pickup_text};
use crate::protocol::{GroupModel, AdmissionModel};

verus! {

/// The capability to load the value for a key.
pub trait Getter {
    /// Loads the value for `key`, or says why it cannot.
    fn get(&self, key: String) -> Result<String, String>;
}

/// A loader made of a function or closure that can be called with every
/// key.
pub struct GetterFunc<F: Fn(String) -> Result<String, String>> {
    func: F,
}

impl<F: Fn(String) -> Result<String, String>> GetterFunc<F> {
    /// The function accepts every key.
    #[verifier::type_invariant]
    spec fn total(self) -> bool {
        forall|key: String| call_requires(self.func, (key,))
    }

    /// The function that does the loading.
    pub closed spec fn func(&self) -> F {
        self.func
    }

    /// A loader that calls `func`.
    pub fn new(func: F) -> (getter: GetterFunc<F>)
        requires
            forall|key: String| call_requires(func, (key,)),
        ensures
            getter.func() == func,
    {
        GetterFunc { func }
    }
}

impl<F: Fn(String) -> Result<String, String>> Getter for GetterFunc<F> {
    /// Calls the function with `key` and returns what it returns.
    fn get(&self, key: String) -> (outcome: Result<String, String>)
        ensures
            call_ensures(self.func(), (key,), outcome),
    {
        proof {
            use_type_invariant(self);
        }
        (self.func)(key)
    }
}

/// What a caller is told when it asks the group for a key.
pub enum Admission {
    /// The key is cached; this is a copy of its value. No load is needed.
    Hit(String),
    /// The key is neither cached nor being loaded. The caller is to load it
    /// and report the outcome with [`Group::settle`].
    Lead,
    /// Another caller is loading the key. The caller is to wait and collect
    /// that load's outcome with this ticket.
    Wait(usize),
}

impl View for Admission {
    type V = AdmissionModel;

    open spec fn view(&self) -> AdmissionModel {
        match self {
            Admission::Hit(value) => AdmissionModel::Hit(value@),
            Admission::Lead => AdmissionModel::Lead,
            Admission::Wait(ticket) => AdmissionModel::Wait(*ticket as int),
        }
    }
}

/// A named cache with its loader.
pub struct Group<G: Getter> {
    name: String,
    cache: BoundedCache,
    flights: SingleFlightCoordinator,
    getter: G,
}

impl<G: Getter> View for Group<G> {
    type V = GroupModel;

    closed spec fn view(&self) -> GroupModel {
        GroupModel { cache: self.cache@, flights: self.flights@ }
    }
}

impl<G: Getter> Group<G> {
    /// The invariant of the representation: cache and coordinator are
    /// sound.
    pub closed spec fn sound(&self) -> bool {
        self.cache.wf() && self.flights.wf()
    }

    /// The invariant of the group: its representation is sound and its
    /// state is a well-formed model.
    pub open spec fn wf(&self) -> bool {
        self.sound() && self@.wf()
    }

    /// The name the group was given.
    pub closed spec fn label(&self) -> Seq<char> {
        self.name@
    }

    /// The loader the group was given.
    pub closed spec fn loader(&self) -> G {
        self.getter
    }

    /// The name of the group. It tells groups apart and plays no part in how
    /// keys are looked up.
    pub fn name(&self) -> (name: &String)
        ensures
            name@ == self.label(),
    {
        &self.name
    }

    /// The group's loader.
    pub fn getter(&self) -> (getter: &G)
        ensures
            *getter == self.loader(),
    {
        &self.getter
    }

    /// The group's cache, to look at.
    pub fn cache(&self) -> (cache: &BoundedCache)
        requires
            self.wf(),
        ensures
            cache.wf(),
            cache@ == self@.cache,
    {
        &self.cache
    }

    /// The group's table of loads in flight, to look at.
    pub fn flights(&self) -> (flights: &SingleFlightCoordinator)
        requires
            self.wf(),
        ensures
            flights.wf(),
            flights@ == self@.flights,
    {
        &self.flights
    }

    /// First step of a shared `get`: asks for `key` on behalf of one caller.
    ///
    /// A cached key is a hit: the caller gets the value, the entry becomes
    /// the most recently used one, and the loader is not involved. Otherwise
    /// the caller enters the coordinator and is told to lead the load of the
    /// key or to wait for the caller that does.
    pub fn request(&mut self, key: &String) -> (admission: Admission)
        requires
            old(self).wf(),
        ensures
            final(self).wf(),
            admission@ == old(self)@.answer(key@),
            final(self)@ == old(self)@.request(key@),
            final(self).label() == old(self).label(),
            final(self).loader() == old(self).loader(),
    {
        proof {
            self@.lemma_request(key@);
        }
        match self.cache.get(key) {
            Some(value) => Admission::Hit(value),
            None => match self.flights.enter(key) {
                Role::Leader => Admission::Lead,
                Role::Waiter(ticket) => Admission::Wait(ticket),
            },
        }
    }

    /// Second step of a shared `get`, taken by the leader: the load of `key`
    /// has ended with `outcome`.
    ///
    /// A loaded value is stored in the cache; an error is not, so that the
    /// next request for the key loads again. Either way the key stops being
    /// in flight and the outcome is laid out for every caller that waited
    /// for it. Returns the number of those callers.
    ///
    /// Only the leader of a load may report its end: a load of `key` must be
    /// in flight.
    pub fn settle(&mut self, key: &String, outcome: &Result<String, String>) -> (released: usize)
        requires
            old(self).wf(),
            old(self)@.flights.pending(key@),
        ensures
            final(self).wf(),
            final(self)@ == old(self)@.settle(key@, outcome_text(*outcome)),
            released == old(self)@.flights.waiters(key@).len(),
            final(self).label() == old(self).label(),
            final(self).loader() == old(self).loader(),
    {
        proof {
            self@.lemma_settle(key@, outcome_text(*outcome));
        }
        let released = self.flights.finish(key, outcome);
        match outcome {
            Ok(value) => {
                self.cache.put(key.clone(), value.clone());
            },
            Err(_) => {},
        }
        released
    }

    /// Third step of a shared `get`, taken by a waiter: hands over the
    /// outcome of the load that `ticket` waited for, once it is there, and
    /// frees the ticket. Returns `None`, and changes nothing, while the load
    /// is still running or if the ticket is not in use.
    pub fn collect(&mut self, ticket: usize) -> (pickup: Option<Result<String, String>>)
        requires
            old(self).wf(),
        ensures
            final(self).wf(),
            pickup_text(pickup) == old(self)@.flights.ready(ticket as int),
            final(self)@ == old(self)@.collect(ticket as int),
            final(self).label() == old(self).label(),
            final(self).loader() == old(self).loader(),
    {
        proof {
            self@.lemma_collect(ticket as int);
        }
        self.flights.collect(ticket)
    }

    /// The value for `key`: from the cache if it is there, else from the
    /// loader.
    ///
    /// * A cached key is answered with its value and becomes the most
    ///   recently used entry. The loader is not called: the answer and the
    ///   new state are the same whatever the loader would do.
    /// * Otherwise the loader is called once, with `key`, and its outcome is
    ///   the answer. A loaded value is stored as the most recently used
    ///   entry, evicting the least recently used one if the cache is full. An
    ///   error is returned as it came and leaves the group as it was.
    ///
    /// The caller owns the group, so nobody could end a load while `get`
    /// waits for it: `key` must not be in flight. Callers that share a group
    /// go through [`request`](Self::request) instead.
    pub fn get(&mut self, key: String) -> (outcome: Result<String, String>)
        requires
            old(self).wf(),
            !old(self)@.flights.pending(key@),
        ensures
            final(self).wf(),
            final(self).label() == old(self).label(),
            final(self).loader() == old(self).loader(),
            old(self)@.cache.holds(key@) ==> {
                &&& outcome_text(outcome) == Ok::<Seq<char>, Seq<char>>(
                    old(self)@.cache.lookup(key@).unwrap(),
                )
                &&& final(self)@ == GroupModel {
                    cache: old(self)@.cache.touch(key@),
                    flights: old(self)@.flights,
                }
            },
            !old(self)@.cache.holds(key@) ==> {
                &&& call_ensures(G::get, (&old(self).loader(), key), outcome)
                &&& final(self)@ == old(self)@.load(key@, outcome_text(outcome))
            },
    {
        proof {
            self@.lemma_lone_load(key@);
        }
        match self.cache.get(&key) {
            Some(value) => Ok(value),
            None => {
                let getter = &self.getter;
                let load = || -> (loaded: Result<String, String>)
                    ensures call_ensures(G::get, (getter, key), loaded)
                    { getter.get(key.clone()) };
                let outcome = self.flights.run(&key, load);
                match &outcome {
                    Ok(value) => {
                        self.cache.put(key, value.clone());
                    },
                    Err(_) => {},
                }
                outcome
            },
        }
    }
}

/// A group called `name` that caches up to `cache_size` values and loads the
/// others with `getter`. It starts with nothing cached and no load in flight.
/// A `cache_size` of zero disables caching: every `get` loads.
pub fn new_group<G: Getter>(name: String, cache_size: usize, getter: G) -> (group: Group<G>)
    ensures
        group.wf(),
        group@ == GroupModel::fresh(cache_size as nat),
        group.label() == name@,
        group.loader() == getter,
{
    Group {
        name,
        cache: BoundedCache::new(cache_size),
        flights: SingleFlightCoordinator::new(),
        getter,
    }
}

} // verus!
