use sieve_cache::sieve::Sieve;

#[test]
fn sieve() {
    let mut sieve = Sieve::new(7);
    // G*FEDCB*A* (prepare)
    sieve.insert("A");
    sieve.insert("B");
    sieve.insert("C");
    sieve.insert("D");
    sieve.insert("E");
    sieve.insert("F");
    sieve.insert("G");
    assert_eq!(sieve.get_keys(), ["G", "F", "E", "D", "C", "B", "A"]);
    *sieve.get_mut_node("A").unwrap() = true;
    *sieve.get_mut_node("B").unwrap() = true;
    *sieve.get_mut_node("C").unwrap() = false;
    *sieve.get_mut_node("D").unwrap() = false;
    *sieve.get_mut_node("E").unwrap() = false;
    *sieve.get_mut_node("F").unwrap() = false;
    *sieve.get_mut_node("G").unwrap() = true;
    sieve.hand = Some(6);

    // HADIBJ (actual test)
    let items = Vec::from(["H", "A", "D", "I", "B", "J"]);
    for item in items {
        sieve.insert(item);
    }

    // 1. keys
    assert_eq!(sieve.get_keys(), ["J", "I", "H", "G", "D", "B", "A"]);
    // 2. visited
    let log = sieve.get_visited();
    let log = log.as_slice();
    assert_eq!(log, [false, false, false, true, false, true, true]);
}

#[test]
fn empty_evict_is_noop() {
    let mut sieve = Sieve::new(3);
    assert_eq!(sieve.evict(), None);
    assert_eq!(sieve.get_keys().len(), 0);
    assert_eq!(sieve.hand, None);
}

#[test]
fn touch_keeps_position() {
    let mut sieve = Sieve::new(4);
    sieve.insert("a");
    sieve.insert("b");
    sieve.insert("a");
    assert_eq!(sieve.get_keys(), ["b", "a"]);
    assert_eq!(sieve.get_visited(), [false, true]);
    assert_eq!(sieve.hand, None);
}

#[test]
fn single_entry_grace_pass() {
    let mut sieve = Sieve::new(1);
    sieve.insert("x");
    sieve.insert("x");
    assert_eq!(sieve.get_visited(), [true]);
    let evicted = sieve.insert("y");
    assert_eq!(evicted.as_deref(), Some("x"));
    assert_eq!(sieve.get_keys(), ["y"]);
}

#[test]
fn remove_then_refill_keeps_bound() {
    let mut sieve = Sieve::new(2);
    sieve.insert("a");
    sieve.insert("b");
    assert_eq!(sieve.evict(), Some("a".to_string()));
    sieve.remove("b");
    assert_eq!(sieve.get_keys().len(), 0);
    sieve.insert("c");
    sieve.insert("d");
    sieve.insert("e");
    assert_eq!(sieve.get_keys().len(), 2);
}

#[test]
fn evict_returns_first_unvisited() {
    let mut sieve = Sieve::new(3);
    sieve.insert("a");
    sieve.insert("b");
    sieve.insert("c");
    // queue front-to-back: c, b, a; mark the tail visited so it survives
    *sieve.get_mut_node("a").unwrap() = true;
    let evicted = sieve.evict();
    assert_eq!(evicted.as_deref(), Some("b"));
    assert_eq!(sieve.get_keys(), ["c", "a"]);
    // the grace pass cleared the tail's bit
    assert_eq!(sieve.get_visited(), [false, false]);
}
