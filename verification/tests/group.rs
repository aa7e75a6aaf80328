use groupcache::{new_group, Admission, Getter, GetterFunc, Group};
use std::cell::Cell;

fn s(text: &str) -> String {
    text.to_string()
}

/// Returns the key itself as its value and counts its calls.
struct Echo {
    calls: Cell<usize>,
}

impl Echo {
    fn new() -> Echo {
        Echo { calls: Cell::new(0) }
    }
}

impl Getter for Echo {
    fn get(&self, key: String) -> Result<String, String> {
        self.calls.set(self.calls.get() + 1);
        Ok(key)
    }
}

/// Fails for keys that start with "bad", with the number of the call in the
/// error, and counts its calls.
struct Flaky {
    calls: Cell<usize>,
}

impl Getter for Flaky {
    fn get(&self, key: String) -> Result<String, String> {
        self.calls.set(self.calls.get() + 1);
        if key.starts_with("bad") {
            Err(format!("no {} (call {})", key, self.calls.get()))
        } else {
            Ok(format!("value of {}", key))
        }
    }
}

fn loads(group: &Group<Echo>) -> usize {
    group.getter().calls.get()
}

#[test]
fn test_get_dup_suppress_string() {
    let from_chan = "from-chan";
    let string_group_name = "group";
    let string_group_cache_size = 10;
    let calls = Cell::new(0);
    let string_group_getter_func = |key: String| -> Result<String, String> {
        calls.set(calls.get() + 1);
        Ok(key)
    };
    let mut string_group = new_group(
        string_group_name.to_string(),
        string_group_cache_size,
        GetterFunc::new(string_group_getter_func),
    );

    // Two callers ask for the key before either load has ended.
    let first = string_group.request(&from_chan.to_string());
    let second = string_group.request(&from_chan.to_string());
    assert!(matches!(first, Admission::Lead));
    let ticket = match second {
        Admission::Wait(ticket) => ticket,
        _ => panic!("the second caller must wait"),
    };
    assert_eq!(string_group.collect(ticket), None);

    // The leader loads and reports; the waiter collects.
    let loaded = string_group.getter().get(from_chan.to_string());
    assert_eq!(string_group.settle(&from_chan.to_string(), &loaded), 1);
    let results = vec![loaded, string_group.collect(ticket).unwrap()];

    let mut received = vec![];
    for (i, result) in results.into_iter().enumerate() {
        match result {
            Ok(value) => {
                let mut to = String::from(format!("thread-{}: ", i));
                to.push_str(value.as_str());
                received.push(to);
            }
            Err(e) => {
                let mut resc = String::from("ERROR:");
                resc.push_str(&e);
                received.push(resc);
            }
        }
    }
    for i in 0..2 {
        assert!(received[i] == format!("thread-{}: {}", i, from_chan))
    }
    assert_eq!(calls.get(), 1);
    assert!(string_group.cache().contains(&from_chan.to_string()));
    assert!(!string_group.flights().is_pending(&from_chan.to_string()));
}

#[test]
fn new_group_starts_empty() {
    let group = new_group(s("colors"), 7, Echo::new());
    assert_eq!(group.name(), "colors");
    assert_eq!(group.cache().capacity(), 7);
    assert_eq!(group.cache().len(), 0);
    assert!(!group.flights().is_pending(&s("k")));
    assert_eq!(loads(&group), 0);
}

#[test]
fn get_loads_on_miss_and_caches() {
    let mut group = new_group(s("group"), 10, Echo::new());
    assert_eq!(group.get(s("k")), Ok(s("k")));
    assert_eq!(loads(&group), 1);
    assert!(group.cache().contains(&s("k")));
    assert!(!group.flights().is_pending(&s("k")));
}

#[test]
fn hit_does_not_call_the_loader() {
    let mut group = new_group(s("group"), 10, Echo::new());
    assert_eq!(group.get(s("k")), Ok(s("k")));
    assert_eq!(group.get(s("k")), Ok(s("k")));
    assert_eq!(group.get(s("k")), Ok(s("k")));
    assert_eq!(loads(&group), 1);
    assert!(matches!(group.request(&s("k")), Admission::Hit(value) if value == "k"));
    assert_eq!(loads(&group), 1);
    assert!(!group.flights().is_pending(&s("k")));
}

#[test]
fn failed_load_is_not_cached_and_is_retried() {
    let mut group = new_group(s("group"), 10, Flaky { calls: Cell::new(0) });
    assert_eq!(group.get(s("bad")), Err(s("no bad (call 1)")));
    assert_eq!(group.cache().len(), 0);
    assert!(!group.cache().contains(&s("bad")));
    assert!(!group.flights().is_pending(&s("bad")));
    assert_eq!(group.get(s("bad")), Err(s("no bad (call 2)")));
    assert_eq!(group.getter().calls.get(), 2);
    assert_eq!(group.get(s("good")), Ok(s("value of good")));
    assert_eq!(group.get(s("good")), Ok(s("value of good")));
    assert_eq!(group.getter().calls.get(), 3);
}

#[test]
fn failure_leaves_cached_entries_alone() {
    let mut group = new_group(s("group"), 2, Flaky { calls: Cell::new(0) });
    assert!(group.get(s("a")).is_ok());
    assert!(group.get(s("b")).is_ok());
    assert!(group.get(s("bad")).is_err());
    assert_eq!(group.cache().len(), 2);
    assert!(group.cache().contains(&s("a")));
    assert!(group.cache().contains(&s("b")));
}

#[test]
fn eviction_order_scenario() {
    let mut group = new_group(s("group"), 2, Echo::new());
    assert_eq!(group.get(s("a")), Ok(s("a")));
    assert_eq!(group.get(s("b")), Ok(s("b")));
    assert_eq!(loads(&group), 2);
    assert_eq!(group.get(s("a")), Ok(s("a")));
    assert_eq!(loads(&group), 2);
    assert_eq!(group.get(s("c")), Ok(s("c")));
    assert_eq!(loads(&group), 3);
    assert!(!group.cache().contains(&s("b")));
    assert!(group.cache().contains(&s("a")));
    assert!(group.cache().contains(&s("c")));
    assert_eq!(group.cache().len(), 2);
}

#[test]
fn cache_never_exceeds_capacity() {
    let capacity = 3;
    let mut group = new_group(s("group"), capacity, Echo::new());
    for i in 0..capacity + 1 {
        assert_eq!(group.get(format!("k{}", i)), Ok(format!("k{}", i)));
        assert!(group.cache().len() <= capacity);
    }
    assert_eq!(group.cache().len(), capacity);
    assert!(!group.cache().contains(&s("k0")));
    assert!(group.cache().contains(&s("k1")));
    assert!(group.cache().contains(&s("k2")));
    assert!(group.cache().contains(&s("k3")));
    assert_eq!(loads(&group), capacity + 1);
    assert_eq!(group.get(s("k0")), Ok(s("k0")));
    assert_eq!(loads(&group), capacity + 2);
}

#[test]
fn capacity_zero_loads_every_time() {
    let mut group = new_group(s("group"), 0, Echo::new());
    assert_eq!(group.get(s("k")), Ok(s("k")));
    assert_eq!(group.get(s("k")), Ok(s("k")));
    assert_eq!(loads(&group), 2);
    assert_eq!(group.cache().len(), 0);
}

#[test]
fn crowd_of_callers_shares_one_load() {
    let mut group = new_group(s("group"), 10, Echo::new());
    assert!(matches!(group.request(&s("k")), Admission::Lead));
    let mut tickets = vec![];
    for _ in 0..5 {
        match group.request(&s("k")) {
            Admission::Wait(ticket) => {
                assert!(!tickets.contains(&ticket));
                tickets.push(ticket);
            }
            _ => panic!("every later caller must wait"),
        }
    }
    let loaded = group.getter().get(s("k"));
    assert_eq!(group.settle(&s("k"), &loaded), 5);
    for ticket in tickets {
        assert_eq!(group.collect(ticket), Some(loaded.clone()));
    }
    assert_eq!(loads(&group), 1);
    assert!(matches!(group.request(&s("k")), Admission::Hit(value) if value == "k"));
}

#[test]
fn crowd_of_callers_shares_one_error() {
    let mut group = new_group(s("group"), 10, Flaky { calls: Cell::new(0) });
    assert!(matches!(group.request(&s("bad")), Admission::Lead));
    let a = match group.request(&s("bad")) {
        Admission::Wait(ticket) => ticket,
        _ => panic!("expected to wait"),
    };
    let b = match group.request(&s("bad")) {
        Admission::Wait(ticket) => ticket,
        _ => panic!("expected to wait"),
    };
    let loaded = group.getter().get(s("bad"));
    assert_eq!(loaded, Err(s("no bad (call 1)")));
    assert_eq!(group.settle(&s("bad"), &loaded), 2);
    assert_eq!(group.collect(a), Some(Err(s("no bad (call 1)"))));
    assert_eq!(group.collect(b), Some(Err(s("no bad (call 1)"))));
    assert_eq!(group.cache().len(), 0);
    // Nothing was cached: the next caller is told to load again.
    assert!(matches!(group.request(&s("bad")), Admission::Lead));
}

#[test]
fn loads_of_different_keys_overlap() {
    let mut group = new_group(s("group"), 10, Echo::new());
    assert!(matches!(group.request(&s("a")), Admission::Lead));
    assert!(matches!(group.request(&s("b")), Admission::Lead));
    let wa = match group.request(&s("a")) {
        Admission::Wait(ticket) => ticket,
        _ => panic!("expected to wait"),
    };
    assert_eq!(group.settle(&s("b"), &Ok(s("B"))), 0);
    assert_eq!(group.collect(wa), None);
    assert_eq!(group.settle(&s("a"), &Ok(s("A"))), 1);
    assert_eq!(group.collect(wa), Some(Ok(s("A"))));
    assert_eq!(group.get(s("a")), Ok(s("A")));
    assert_eq!(group.get(s("b")), Ok(s("B")));
    assert_eq!(loads(&group), 0);
}

#[test]
fn get_works_while_another_key_is_in_flight() {
    let mut group = new_group(s("group"), 10, Echo::new());
    assert!(matches!(group.request(&s("slow")), Admission::Lead));
    assert_eq!(group.get(s("k")), Ok(s("k")));
    assert!(group.flights().is_pending(&s("slow")));
    assert_eq!(group.settle(&s("slow"), &Ok(s("done"))), 0);
    assert_eq!(group.get(s("slow")), Ok(s("done")));
    assert_eq!(loads(&group), 1);
}

#[test]
fn closure_loader_is_called_on_misses_only() {
    let calls = Cell::new(0);
    let loader = GetterFunc::new(|key: String| {
        calls.set(calls.get() + 1);
        if key.is_empty() {
            Err(s("empty key"))
        } else {
            Ok(key.to_uppercase())
        }
    });
    let mut group = new_group(s("group"), 2, loader);
    assert_eq!(group.get(s("a")), Ok(s("A")));
    assert_eq!(group.get(s("a")), Ok(s("A")));
    assert_eq!(calls.get(), 1);
    assert_eq!(group.get(s("")), Err(s("empty key")));
    assert_eq!(group.get(s("")), Err(s("empty key")));
    assert_eq!(calls.get(), 3);
}
