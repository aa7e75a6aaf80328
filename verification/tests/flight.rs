use groupcache::flight::{Role, SingleFlightCoordinator};

fn s(text: &str) -> String {
    text.to_string()
}

fn ticket(role: Role) -> usize {
    match role {
        Role::Waiter(ticket) => ticket,
        Role::Leader => panic!("expected a waiter"),
    }
}

#[test]
fn first_caller_leads() {
    let mut flights = SingleFlightCoordinator::new();
    assert!(!flights.is_pending(&s("k")));
    assert!(matches!(flights.enter(&s("k")), Role::Leader));
    assert!(flights.is_pending(&s("k")));
}

#[test]
fn later_callers_wait_on_distinct_tickets() {
    let mut flights = SingleFlightCoordinator::new();
    assert!(matches!(flights.enter(&s("k")), Role::Leader));
    let a = ticket(flights.enter(&s("k")));
    let b = ticket(flights.enter(&s("k")));
    let c = ticket(flights.enter(&s("k")));
    assert_eq!((a, b, c), (0, 1, 2));
}

#[test]
fn finish_releases_every_waiter_with_the_same_value() {
    let mut flights = SingleFlightCoordinator::new();
    flights.enter(&s("k"));
    let a = ticket(flights.enter(&s("k")));
    let b = ticket(flights.enter(&s("k")));
    assert_eq!(flights.collect(a), None);
    let released = flights.finish(&s("k"), &Ok(s("v")));
    assert_eq!(released, 2);
    assert!(!flights.is_pending(&s("k")));
    assert_eq!(flights.collect(a), Some(Ok(s("v"))));
    assert_eq!(flights.collect(b), Some(Ok(s("v"))));
}

#[test]
fn finish_releases_every_waiter_with_the_same_error() {
    let mut flights = SingleFlightCoordinator::new();
    flights.enter(&s("k"));
    let a = ticket(flights.enter(&s("k")));
    let b = ticket(flights.enter(&s("k")));
    assert_eq!(flights.finish(&s("k"), &Err(s("boom"))), 2);
    assert_eq!(flights.collect(b), Some(Err(s("boom"))));
    assert_eq!(flights.collect(a), Some(Err(s("boom"))));
}

#[test]
fn outcome_is_collected_once() {
    let mut flights = SingleFlightCoordinator::new();
    flights.enter(&s("k"));
    let a = ticket(flights.enter(&s("k")));
    flights.finish(&s("k"), &Ok(s("v")));
    assert_eq!(flights.collect(a), Some(Ok(s("v"))));
    assert_eq!(flights.collect(a), None);
}

#[test]
fn unknown_ticket_collects_nothing() {
    let mut flights = SingleFlightCoordinator::new();
    assert_eq!(flights.collect(0), None);
    assert_eq!(flights.collect(17), None);
}

#[test]
fn call_is_gone_after_finish() {
    let mut flights = SingleFlightCoordinator::new();
    flights.enter(&s("k"));
    flights.finish(&s("k"), &Ok(s("v")));
    assert!(matches!(flights.enter(&s("k")), Role::Leader));
}

#[test]
fn keys_are_coordinated_independently() {
    let mut flights = SingleFlightCoordinator::new();
    assert!(matches!(flights.enter(&s("a")), Role::Leader));
    assert!(matches!(flights.enter(&s("b")), Role::Leader));
    let wa = ticket(flights.enter(&s("a")));
    let wb = ticket(flights.enter(&s("b")));
    assert_ne!(wa, wb);
    assert_eq!(flights.finish(&s("a"), &Ok(s("1"))), 1);
    assert!(flights.is_pending(&s("b")));
    assert_eq!(flights.collect(wb), None);
    assert_eq!(flights.collect(wa), Some(Ok(s("1"))));
    assert_eq!(flights.finish(&s("b"), &Err(s("2"))), 1);
    assert_eq!(flights.collect(wb), Some(Err(s("2"))));
}

#[test]
fn freed_ticket_is_reused_lowest_first() {
    let mut flights = SingleFlightCoordinator::new();
    flights.enter(&s("k"));
    let a = ticket(flights.enter(&s("k")));
    let b = ticket(flights.enter(&s("k")));
    flights.finish(&s("k"), &Ok(s("v")));
    assert_eq!(flights.collect(a), Some(Ok(s("v"))));
    flights.enter(&s("k"));
    let c = ticket(flights.enter(&s("k")));
    assert_eq!(c, a);
    let d = ticket(flights.enter(&s("k")));
    assert_eq!(d, 2);
    flights.finish(&s("k"), &Ok(s("w")));
    assert_eq!(flights.collect(b), Some(Ok(s("v"))));
    assert_eq!(flights.collect(c), Some(Ok(s("w"))));
    assert_eq!(flights.collect(d), Some(Ok(s("w"))));
}

#[test]
fn uncollected_outcome_survives_a_new_cycle() {
    let mut flights = SingleFlightCoordinator::new();
    flights.enter(&s("k"));
    let a = ticket(flights.enter(&s("k")));
    flights.finish(&s("k"), &Ok(s("first")));
    flights.enter(&s("k"));
    let b = ticket(flights.enter(&s("k")));
    assert_ne!(a, b);
    flights.finish(&s("k"), &Ok(s("second")));
    assert_eq!(flights.collect(a), Some(Ok(s("first"))));
    assert_eq!(flights.collect(b), Some(Ok(s("second"))));
}

#[test]
fn run_returns_what_the_load_returned() {
    let mut flights = SingleFlightCoordinator::new();
    assert_eq!(flights.run(&s("k"), || Ok(s("v"))), Ok(s("v")));
    assert!(!flights.is_pending(&s("k")));
    assert_eq!(flights.run(&s("k"), || Err(s("boom"))), Err(s("boom")));
    assert!(!flights.is_pending(&s("k")));
}

#[test]
fn run_calls_the_load_once_each_time() {
    let mut flights = SingleFlightCoordinator::new();
    let mut calls = 0;
    let first = flights.run(&s("k"), || {
        calls += 1;
        Ok(format!("load {}", calls))
    });
    let second = flights.run(&s("k"), || {
        calls += 1;
        Ok(format!("load {}", calls))
    });
    assert_eq!(first, Ok(s("load 1")));
    assert_eq!(second, Ok(s("load 2")));
    assert_eq!(calls, 2);
}

#[test]
fn run_leaves_other_calls_alone() {
    let mut flights = SingleFlightCoordinator::new();
    flights.enter(&s("a"));
    let w = ticket(flights.enter(&s("a")));
    assert_eq!(flights.run(&s("b"), || Ok(s("B"))), Ok(s("B")));
    assert!(flights.is_pending(&s("a")));
    assert_eq!(flights.collect(w), None);
    assert_eq!(flights.finish(&s("a"), &Ok(s("A"))), 1);
    assert_eq!(flights.collect(w), Some(Ok(s("A"))));
}
