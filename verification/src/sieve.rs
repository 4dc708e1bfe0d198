//! The SIEVE recency engine and the bounded cache built on it.
//!
//! SIEVE keeps an insertion-ordered queue of keys, one visited bit per entry,
//! and a persistent scan pointer (the hand). An access sets the entry's
//! visited bit in place; position never changes on access. Eviction scans
//! backward from the hand, clearing visited bits, and removes the first
//! unvisited entry it finds.

use crate::cache::Cache;
use crate::store::Store;
use vstd::prelude::*;
use vstd::string::StringExecFns;

verus! {

/// The index one step backward in the circular eviction scan: toward the
/// front of the queue, wrapping from the front to the tail.
pub open spec fn step_back(i: int, len: int) -> int {
    if i == 0 {
        len - 1
    } else {
        i - 1
    }
}

/// How many visited bits of `s` are set.
pub open spec fn count_true(s: Seq<bool>) -> nat
    decreases s.len(),
{
    if s.len() == 0 {
        0
    } else {
        count_true(s.drop_last()) + (if s.last() {
            1nat
        } else {
            0nat
        })
    }
}

/// One eviction scan: starting at position `h`, clear visited bits and step
/// backward until an unvisited entry is reached; the result is the flags
/// after the scan together with the index of that entry. `fuel` only bounds
/// the recursion: any value above the number of set bits yields the scan's
/// real outcome.
pub open spec fn scan(flags: Seq<bool>, h: int, fuel: nat) -> (Seq<bool>, int)
    decreases fuel,
{
    if fuel == 0 || h < 0 || h >= flags.len() {
        (flags, h)
    } else if !flags[h] {
        (flags, h)
    } else {
        scan(flags.update(h, false), step_back(h, flags.len() as int), (fuel - 1) as nat)
    }
}

/// Where an eviction scan starts: at the hand where it is still a valid
/// position, and at the tail otherwise.
pub open spec fn scan_start(s: Sieve) -> int {
    match s.spec_hand() {
        Some(h) => if h < s.keys().len() {
            h as int
        } else {
            s.keys().len() - 1
        },
        None => s.keys().len() - 1,
    }
}

/// The hand after the entry at index `removed` left a queue now `new_len`
/// long: positions past the removal shift down, a hand beyond the new tail
/// falls back to it, and an emptied queue resets the hand.
pub open spec fn hand_after_remove(hand: Option<usize>, removed: int, new_len: int) -> Option<
    usize,
> {
    match hand {
        None => None,
        Some(h) => if new_len <= 0 {
            None
        } else if h > removed {
            Some((h - 1) as usize)
        } else if h >= new_len {
            Some((new_len - 1) as usize)
        } else {
            Some(h)
        },
    }
}

proof fn lemma_count_true_le_len(s: Seq<bool>)
    ensures
        count_true(s) <= s.len(),
    decreases s.len(),
{
    if s.len() > 0 {
        lemma_count_true_le_len(s.drop_last());
    }
}

proof fn lemma_count_true_update_false(s: Seq<bool>, i: int)
    requires
        0 <= i < s.len(),
        s[i],
    ensures
        count_true(s.update(i, false)) + 1 == count_true(s),
    decreases s.len(),
{
    if i == s.len() - 1 {
        assert(s.update(i, false).drop_last() =~= s.drop_last());
        assert(!s.update(i, false).last());
    } else {
        assert(s.update(i, false).drop_last() =~= s.drop_last().update(i, false));
        assert(s.update(i, false).last() == s.last());
        lemma_count_true_update_false(s.drop_last(), i);
    }
}

/// With fuel above the number of set bits, the scan lands in bounds on an
/// entry whose bit is clear, having only cleared bits along the way.
proof fn lemma_scan_ok(flags: Seq<bool>, h: int, fuel: nat)
    requires
        0 <= h < flags.len(),
        count_true(flags) < fuel,
    ensures
        ({
            let (f2, v) = scan(flags, h, fuel);
            &&& 0 <= v < flags.len()
            &&& f2.len() == flags.len()
            &&& !f2[v]
            &&& forall|i: int| 0 <= i < flags.len() ==> (f2[i] ==> flags[i])
        }),
    decreases fuel,
{
    if flags[h] {
        lemma_count_true_update_false(flags, h);
        lemma_scan_ok(flags.update(h, false), step_back(h, flags.len() as int), (fuel - 1) as nat);
    }
}

/// In a duplicate-free sequence, `index_of` returns the one index that
/// holds the sought value.
pub(crate) proof fn lemma_index_unique(s: Seq<Seq<char>>, i: int, k: Seq<char>)
    requires
        s.no_duplicates(),
        0 <= i < s.len(),
        s[i] == k,
    ensures
        s.index_of(k) == i,
{
    assert(s.contains(k));
    let j = s.index_of(k);
    assert(0 <= j < s.len() && s[j] == k);
}

/// Well-formedness of the engine does not depend on the visited bits: any
/// state that agrees with a well-formed one on capacity, keys and hand, and
/// whose flags merely have the right length, is well-formed too.
pub proof fn lemma_wf_flags_insensitive(a: Sieve, b: Sieve)
    requires
        a.wf(),
        b.cap() == a.cap(),
        b.keys() =~= a.keys(),
        b.flags().len() == a.flags().len(),
        b.spec_hand() == a.spec_hand(),
    ensures
        b.wf(),
{
    assert(b.keys() == a.keys());
}

/// Membership in a sequence with one more element pushed at the back.
proof fn lemma_push_contains(s: Seq<Seq<char>>, x: Seq<char>, q: Seq<char>)
    ensures
        s.push(x).contains(q) == (s.contains(q) || q == x),
{
    if s.contains(q) {
        let i = choose|i: int| 0 <= i < s.len() && s[i] == q;
        assert(s.push(x)[i] == q);
    }
    if q == x {
        assert(s.push(x)[s.len() as int] == q);
    }
    if s.push(x).contains(q) {
        let i = choose|i: int| 0 <= i < s.push(x).len() && s.push(x)[i] == q;
        if i < s.len() {
            assert(s[i] == q);
        }
    }
}

/// Membership in a sequence with one more element placed at the front.
proof fn lemma_prepend_contains(s: Seq<Seq<char>>, x: Seq<char>, q: Seq<char>)
    ensures
        (seq![x] + s).contains(q) == (s.contains(q) || q == x),
{
    if s.contains(q) {
        let i = choose|i: int| 0 <= i < s.len() && s[i] == q;
        assert((seq![x] + s)[i + 1] == q);
    }
    if q == x {
        assert((seq![x] + s)[0] == q);
    }
    if (seq![x] + s).contains(q) {
        let i = choose|i: int| 0 <= i < (seq![x] + s).len() && (seq![x] + s)[i] == q;
        if i > 0 {
            assert(s[i - 1] == q);
        }
    }
}

/// In a duplicate-free sequence, removing one index removes exactly that
/// element from the membership relation.
proof fn lemma_remove_contains_iff(s: Seq<Seq<char>>, i: int, q: Seq<char>)
    requires
        s.no_duplicates(),
        0 <= i < s.len(),
    ensures
        s.remove(i).contains(q) == (s.contains(q) && q != s[i]),
{
    if s.remove(i).contains(q) {
        let j = choose|j: int| 0 <= j < s.remove(i).len() && s.remove(i)[j] == q;
        if j < i {
            assert(s[j] == q);
        } else {
            assert(s[j + 1] == q);
        }
        assert(s.contains(q));
    }
    if s.contains(q) && q != s[i] {
        let j = choose|j: int| 0 <= j < s.len() && s[j] == q;
        if j < i {
            assert(s.remove(i)[j] == q);
        } else {
            assert(s.remove(i)[j - 1] == q);
        }
        assert(s.remove(i).contains(q));
    }
}

/// One entry of the recency queue: a cached key and its visited bit.
pub struct SieveNode {
    pub key: String,
    pub visited: bool,
}

/// The SIEVE recency engine: a bounded queue of entries (front = most
/// recently inserted) plus the eviction scan pointer.
pub struct Sieve {
    capacity: usize,
    log: Vec<SieveNode>,
    /// Where the last eviction scan stopped; `None` until the first eviction.
    pub hand: Option<usize>,
}

impl Sieve {
    /// The bound on the queue length.
    pub closed spec fn cap(self) -> nat {
        self.capacity as nat
    }

    /// The scan pointer, as contracts speak of it.
    pub closed spec fn spec_hand(self) -> Option<usize> {
        self.hand
    }

    /// The queue's keys, front (most recently inserted) first.
    pub closed spec fn keys(self) -> Seq<Seq<char>> {
        self.log@.map_values(|n: SieveNode| n.key@)
    }

    /// The queue's visited bits, in the same order as `keys`.
    pub closed spec fn flags(self) -> Seq<bool> {
        self.log@.map_values(|n: SieveNode| n.visited)
    }

    /// Well-formedness: the queue respects the capacity, holds each key at
    /// most once, and the hand never points beyond the capacity.
    pub open spec fn wf(self) -> bool {
        &&& 1 <= self.cap()
        &&& self.keys().len() <= self.cap()
        &&& self.flags().len() == self.keys().len()
        &&& self.keys().no_duplicates()
        &&& match self.spec_hand() {
            Some(h) => h < self.cap(),
            None => true,
        }
    }

    /// Creates an empty engine bounded by `capacity`.
    pub fn new(capacity: usize) -> (s: Sieve)
        requires
            1 <= capacity,
        ensures
            s.wf(),
            s.cap() == capacity,
            s.keys().len() == 0,
            s.flags().len() == 0,
            s.spec_hand() is None,
    {
        Sieve { capacity, log: Vec::new(), hand: None }
    }

    /// Finds the queue index holding `key`, if any.
    fn index_of_key(&self, key: &String) -> (r: Option<usize>)
        ensures
            match r {
                Some(i) => i < self.keys().len() && self.keys()[i as int] == key@,
                None => !self.keys().contains(key@),
            },
    {
        let mut i: usize = 0;
        while i < self.log.len()
            invariant
                i <= self.log.len(),
                forall|j: int| 0 <= j < i ==> self.keys()[j] != key@,
            decreases self.log.len() - i,
        {
            if self.log[i].key == *key {
                return Some(i);
            }
            i = i + 1;
        }
        None
    }

    /// Runs one SIEVE eviction and returns the evicted key. Scanning from
    /// the hand (or the tail when the hand is unset or stale), every visited
    /// entry on the way is given its grace pass: its bit is cleared and the
    /// scan steps backward, wrapping at the front. The first unvisited entry
    /// is removed and the hand stays at its index. An empty queue is left
    /// untouched.
    pub fn evict(&mut self) -> (evicted: Option<String>)
        requires
            old(self).wf(),
        ensures
            final(self).wf(),
            final(self).cap() == old(self).cap(),
            old(self).keys().len() == 0 ==> evicted is None && *final(self) == *old(self),
            old(self).keys().len() > 0 ==> ({
                let (f2, v) = scan(
                    old(self).flags(),
                    scan_start(*old(self)),
                    (old(self).keys().len() + 1) as nat,
                );
                &&& 0 <= v < old(self).keys().len()
                &&& evicted matches Some(k) && k@ == old(self).keys()[v]
                &&& final(self).keys() == old(self).keys().remove(v)
                &&& final(self).flags() == f2.remove(v)
                &&& final(self).spec_hand() == Some(v as usize)
            }),
    {
        let ghost s0 = *self;
        let len = self.log.len();
        if len == 0 {
            return None;
        }
        let mut hand: usize = match self.hand {
            Some(h) => if h < len {
                h
            } else {
                len - 1
            },
            None => len - 1,
        };
        let ghost h0 = hand as int;
        let ghost fuel0 = (len + 1) as nat;
        let ghost mut gfuel = fuel0;
        proof {
            lemma_count_true_le_len(self.flags());
            assert(h0 == scan_start(s0));
        }
        loop
            invariant
                self.log.len() == len,
                0 < len,
                hand < len,
                self.capacity == s0.capacity,
                self.hand == s0.hand,
                self.keys() == s0.keys(),
                count_true(self.flags()) < gfuel,
                scan(s0.flags(), h0, fuel0) == scan(self.flags(), hand as int, gfuel),
            ensures
                self.log.len() == len,
                hand < len,
                self.capacity == s0.capacity,
                self.hand == s0.hand,
                self.keys() == s0.keys(),
                0 < gfuel,
                !self.flags()[hand as int],
                scan(s0.flags(), h0, fuel0) == scan(self.flags(), hand as int, gfuel),
            decreases gfuel,
        {
            let ghost pre = *self;
            let ghost pre_fuel = gfuel;
            if !self.log[hand].visited {
                break;
            }
            proof {
                lemma_count_true_update_false(self.flags(), hand as int);
            }
            let node = &mut self.log[hand];
            node.visited = false;
            proof {
                assert(self.keys() =~= pre.keys());
                assert(self.flags() =~= pre.flags().update(hand as int, false));
                gfuel = (gfuel - 1) as nat;
                assert(scan(pre.flags(), hand as int, pre_fuel) == scan(
                    self.flags(),
                    step_back(hand as int, len as int),
                    gfuel,
                ));
            }
            hand = if hand == 0 {
                len - 1
            } else {
                hand - 1
            };
        }
        proof {
            assert(scan(self.flags(), hand as int, gfuel) == (self.flags(), hand as int));
            lemma_scan_ok(s0.flags(), h0, fuel0);
        }
        let ghost pre = *self;
        self.hand = Some(hand);
        let node = self.log.remove(hand);
        proof {
            assert(self.keys() =~= pre.keys().remove(hand as int));
            assert(self.flags() =~= pre.flags().remove(hand as int));
            assert forall|a: int, b: int|
                0 <= a < self.keys().len() && 0 <= b < self.keys().len() && a != b implies self.keys()[a]
                != self.keys()[b] by {
                let ka = if a < hand as int { a } else { a + 1 };
                let kb = if b < hand as int { b } else { b + 1 };
                assert(self.keys()[a] == pre.keys()[ka]);
                assert(self.keys()[b] == pre.keys()[kb]);
            }
        }
        Some(node.key)
    }

    /// Records an access to `key`. A key already present only has its
    /// visited bit set: its position never changes (the defining difference
    /// from strict recency ordering). A new key is pushed unvisited to the
    /// front; when the queue is full, one entry is first evicted, and that
    /// key is returned so the caller can drop its value as well.
    pub fn insert(&mut self, key: &str) -> (evicted: Option<String>)
        requires
            old(self).wf(),
        ensures
            final(self).wf(),
            final(self).cap() == old(self).cap(),
            old(self).keys().contains(key@) ==> ({
                let i = old(self).keys().index_of(key@);
                &&& evicted is None
                &&& final(self).keys() == old(self).keys()
                &&& final(self).flags() == old(self).flags().update(i, true)
                &&& final(self).spec_hand() == old(self).spec_hand()
            }),
            !old(self).keys().contains(key@) && old(self).keys().len() < old(self).cap() ==> {
                &&& evicted is None
                &&& final(self).keys() == seq![key@] + old(self).keys()
                &&& final(self).flags() == seq![false] + old(self).flags()
                &&& final(self).spec_hand() == old(self).spec_hand()
            },
            !old(self).keys().contains(key@) && old(self).keys().len() == old(self).cap() ==> ({
                let (f2, v) = scan(
                    old(self).flags(),
                    scan_start(*old(self)),
                    (old(self).keys().len() + 1) as nat,
                );
                &&& 0 <= v < old(self).keys().len()
                &&& evicted matches Some(k) && k@ == old(self).keys()[v]
                &&& final(self).keys() == seq![key@] + old(self).keys().remove(v)
                &&& final(self).flags() == seq![false] + f2.remove(v)
                &&& final(self).spec_hand() == Some(v as usize)
            }),
    {
        let k = <String as StringExecFns>::from_str(key);
        match self.index_of_key(&k) {
            Some(i) => {
                proof {
                    lemma_index_unique(self.keys(), i as int, key@);
                }
                let ghost pre = *self;
                let node = &mut self.log[i];
                node.visited = true;
                proof {
                    assert(self.keys() =~= pre.keys());
                    assert(self.flags() =~= pre.flags().update(i as int, true));
                }
                return None;
            },
            None => {},
        }
        let node = SieveNode { key: k, visited: false };
        if self.log.len() < self.capacity {
            let ghost pre = *self;
            self.log.insert(0, node);
            proof {
                assert(self.keys() =~= seq![key@] + pre.keys());
                assert(self.flags() =~= seq![false] + pre.flags());
                assert forall|a: int, b: int|
                    0 <= a < self.keys().len() && 0 <= b < self.keys().len() && a
                    != b implies self.keys()[a] != self.keys()[b] by {
                    if a != 0 && b != 0 {
                        assert(self.keys()[a] == pre.keys()[a - 1]);
                        assert(self.keys()[b] == pre.keys()[b - 1]);
                    } else {
                        let c = if a == 0 {
                            b
                        } else {
                            a
                        };
                        assert(self.keys()[c] == pre.keys()[c - 1]);
                        assert(pre.keys().contains(pre.keys()[c - 1]));
                    }
                }
            }
            return None;
        }
        let evicted = self.evict();
        let ghost mid = *self;
        self.log.insert(0, node);
        proof {
            assert(self.keys() =~= seq![key@] + mid.keys());
            assert(self.flags() =~= seq![false] + mid.flags());
            assert forall|a: int, b: int|
                0 <= a < self.keys().len() && 0 <= b < self.keys().len() && a
                != b implies self.keys()[a] != self.keys()[b] by {
                if a != 0 && b != 0 {
                    assert(self.keys()[a] == mid.keys()[a - 1]);
                    assert(self.keys()[b] == mid.keys()[b - 1]);
                } else {
                    let c = if a == 0 {
                        b
                    } else {
                        a
                    };
                    assert(self.keys()[c] == mid.keys()[c - 1]);
                }
            }
        }
        evicted
    }

    /// Deletes `key` from the queue, if present, and keeps the hand on the
    /// entry it pointed at (or pulls it back inside the queue when it
    /// pointed at or past the removed position's new tail).
    pub fn remove(&mut self, key: &str)
        requires
            old(self).wf(),
        ensures
            final(self).wf(),
            final(self).cap() == old(self).cap(),
            !old(self).keys().contains(key@) ==> *final(self) == *old(self),
            old(self).keys().contains(key@) ==> ({
                let i = old(self).keys().index_of(key@);
                &&& final(self).keys() == old(self).keys().remove(i)
                &&& final(self).flags() == old(self).flags().remove(i)
                &&& final(self).spec_hand() == hand_after_remove(
                    old(self).spec_hand(),
                    i,
                    old(self).keys().len() - 1,
                )
            }),
    {
        let k = <String as StringExecFns>::from_str(key);
        let idx = match self.index_of_key(&k) {
            Some(i) => i,
            None => {
                return ;
            },
        };
        proof {
            lemma_index_unique(self.keys(), idx as int, key@);
        }
        let ghost pre = *self;
        let _node = self.log.remove(idx);
        let new_len = self.log.len();
        match self.hand {
            None => {},
            Some(h) => {
                if new_len == 0 {
                    self.hand = None;
                } else if h > idx {
                    self.hand = Some(h - 1);
                } else if h >= new_len {
                    self.hand = Some(new_len - 1);
                }
            },
        }
        proof {
            assert(self.keys() =~= pre.keys().remove(idx as int));
            assert(self.flags() =~= pre.flags().remove(idx as int));
            assert forall|a: int, b: int|
                0 <= a < self.keys().len() && 0 <= b < self.keys().len() && a
                != b implies self.keys()[a] != self.keys()[b] by {
                let ka = if a < idx as int {
                    a
                } else {
                    a + 1
                };
                let kb = if b < idx as int {
                    b
                } else {
                    b + 1
                };
                assert(self.keys()[a] == pre.keys()[ka]);
                assert(self.keys()[b] == pre.keys()[kb]);
            }
        }
    }

    /// Hands out a mutable reference to the visited bit of the entry that
    /// holds `key`, if any (the queue's structure itself stays untouched,
    /// whatever the caller writes).
    pub fn get_mut_node(&mut self, key: &str) -> (r: Option<&mut bool>)
        requires
            old(self).wf(),
        ensures
            !old(self).keys().contains(key@) ==> r is None && *final(self) == *old(self),
            old(self).keys().contains(key@) ==> ({
                let i = old(self).keys().index_of(key@);
                &&& r.is_some()
                &&& *r.unwrap() == old(self).flags()[i]
                &&& final(self).cap() == old(self).cap()
                &&& final(self).keys() =~= old(self).keys()
                &&& final(self).flags() =~= old(self).flags().update(i, *final(r.unwrap()))
                &&& final(self).spec_hand() == old(self).spec_hand()
            }),
    {
        let k = <String as StringExecFns>::from_str(key);
        match self.index_of_key(&k) {
            None => None,
            Some(i) => {
                proof {
                    lemma_index_unique(self.keys(), i as int, key@);
                }
                let node = &mut self.log[i];
                Some(&mut node.visited)
            },
        }
    }

    /// The queue's key order, front to back (diagnostics and tests).
    pub fn get_keys(&self) -> (r: Vec<String>)
        ensures
            r@.len() == self.keys().len(),
            forall|i: int| 0 <= i < r@.len() ==> r@[i]@ == self.keys()[i],
    {
        let mut r: Vec<String> = Vec::new();
        let mut i: usize = 0;
        while i < self.log.len()
            invariant
                i <= self.log.len(),
                r@.len() == i,
                forall|j: int| 0 <= j < i ==> r@[j]@ == self.keys()[j],
            decreases self.log.len() - i,
        {
            r.push(self.log[i].key.clone());
            i = i + 1;
        }
        r
    }

    /// The queue's visited bits, front to back (diagnostics and tests).
    pub fn get_visited(&self) -> (r: Vec<bool>)
        ensures
            r@ == self.flags(),
    {
        let mut r: Vec<bool> = Vec::new();
        let mut i: usize = 0;
        while i < self.log.len()
            invariant
                i <= self.log.len(),
                r@.len() == i,
                forall|j: int| 0 <= j < i ==> r@[j] == self.flags()[j],
            decreases self.log.len() - i,
        {
            r.push(self.log[i].visited);
            i = i + 1;
        }
        proof {
            assert(r@ =~= self.flags());
        }
        r
    }
}

/// The bounded cache: a value store and a SIEVE recency engine whose key
/// sets are kept in bijection, so the capacity bound on the queue bounds
/// the store as well. Reads leave both halves untouched — the access-log
/// update on the read path is the documented best-effort trade-off, skipped
/// here so that a read needs no exclusive access; only writes and
/// evictions, which already hold the cache exclusively, move the queue.
pub struct ESieve<T: Clone> {
    cache: Store<T>,
    sieve: Sieve,
}

impl<T: Clone> ESieve<T> {
    /// The recency queue's key order, front first.
    pub closed spec fn queue_keys(&self) -> Seq<Seq<char>> {
        self.sieve.keys()
    }

    /// The bijection invariant: after any sequence of writes and evictions,
    /// the set of stored keys equals the set of keys in the recency queue.
    pub proof fn lemma_bijection(&self)
        requires
            self.wf(),
        ensures
            self.contents().dom() == self.queue_keys().to_set(),
    {
        self.cache.lemma_dom();
        assert(self.contents().dom() =~= self.queue_keys().to_set());
    }
}

impl<T: Clone> Cache<T> for ESieve<T> {
    closed spec fn cap(&self) -> nat {
        self.sieve.cap()
    }

    closed spec fn contents(&self) -> Map<Seq<char>, T> {
        self.cache@
    }

    closed spec fn wf(&self) -> bool {
        &&& self.cache.wf()
        &&& self.sieve.wf()
        &&& self.cache.skeys().len() == self.sieve.keys().len()
        &&& forall|k: Seq<char>|
            #[trigger] self.cache.skeys().contains(k) == self.sieve.keys().contains(k)
    }

    proof fn lemma_wf_bounded(&self) {
        self.cache.lemma_len();
    }

    fn new(capacity: usize) -> (r: Self) {
        let r = ESieve { cache: Store::new(), sieve: Sieve::new(capacity) };
        r
    }

    fn get(&self, key: &str) -> (r: Option<T>) {
        self.cache.get(key)
    }

    fn set(&mut self, key: &str, value: T) {
        let ghost pre = *self;
        proof {
            pre.cache.lemma_len();
            pre.cache.lemma_contains_key(key@);
        }
        let evicted = self.sieve.insert(key);
        let ghost vi = scan(
            pre.sieve.flags(),
            scan_start(pre.sieve),
            (pre.sieve.keys().len() + 1) as nat,
        ).1;
        match evicted {
            Some(victim) => {
                proof {
                    assert(pre.sieve.keys()[vi] == victim@);
                    assert(pre.sieve.keys().contains(victim@));
                    pre.cache.lemma_contains_key(victim@);
                }
                self.cache.remove(victim.as_str());
            },
            None => {},
        }
        let ghost mid = *self;
        proof {
            mid.cache.lemma_contains_key(key@);
        }
        self.cache.insert(key, value);
        proof {
            if pre.sieve.keys().contains(key@) {
                assert(self.cache.skeys() == pre.cache.skeys());
                assert(self.sieve.keys() == pre.sieve.keys());
                assert(self.contents().dom() =~= pre.contents().dom().insert(key@));
            } else if pre.sieve.keys().len() < pre.sieve.cap() {
                assert forall|q: Seq<char>| true implies #[trigger] self.cache.skeys().contains(q)
                    == self.sieve.keys().contains(q) by {
                    lemma_push_contains(pre.cache.skeys(), key@, q);
                    lemma_prepend_contains(pre.sieve.keys(), key@, q);
                }
                assert(self.contents().dom() =~= pre.contents().dom().insert(key@));
            } else {
                let victim = pre.sieve.keys()[vi];
                let i = pre.cache.skeys().index_of(victim);
                assert(pre.cache.skeys()[i] == victim);
                assert forall|q: Seq<char>| true implies #[trigger] self.cache.skeys().contains(q)
                    == self.sieve.keys().contains(q) by {
                    lemma_push_contains(mid.cache.skeys(), key@, q);
                    lemma_remove_contains_iff(pre.cache.skeys(), i, q);
                    lemma_prepend_contains(pre.sieve.keys().remove(vi), key@, q);
                    lemma_remove_contains_iff(pre.sieve.keys(), vi, q);
                }
                assert(pre.contents().contains_key(victim));
                assert(victim != key@);
                assert(self.contents().dom() =~= pre.contents().dom().remove(victim).insert(
                    key@,
                ));
            }
        }
    }

    fn evict(&mut self, key: &str) {
        let ghost pre = *self;
        proof {
            pre.cache.lemma_contains_key(key@);
        }
        self.cache.remove(key);
        self.sieve.remove(key);
        proof {
            if pre.cache.skeys().contains(key@) {
                let i = pre.cache.skeys().index_of(key@);
                assert(pre.cache.skeys()[i] == key@);
                let j = pre.sieve.keys().index_of(key@);
                assert(pre.sieve.keys()[j] == key@);
                assert forall|q: Seq<char>| true implies #[trigger] self.cache.skeys().contains(q)
                    == self.sieve.keys().contains(q) by {
                    lemma_remove_contains_iff(pre.cache.skeys(), i, q);
                    lemma_remove_contains_iff(pre.sieve.keys(), j, q);
                }
            }
        }
    }

    fn len(&self) -> (n: usize) {
        proof {
            self.cache.lemma_len();
        }
        self.cache.len()
    }
}

} // verus!
