//! A mergeable min-heap with decrease-key: a Fibonacci heap.
//!
//! Entries live in an arena of slots indexed by integer position;
//! parent/child links are stored as indices, and an external handle pairs
//! a slot index with the generation under which it was issued, so a stale
//! handle is detected by comparison rather than by dereferencing. A ghost
//! depth map, strictly decreasing from child to parent, witnesses that
//! parent chains are acyclic; together with the heap order it yields the
//! central fact that the smallest root is the smallest live key.

use vstd::prelude::*;
use vstd::set_lib::set_int_range;

verus! {

/// One arena slot: a key, its payload, the tree links, and the
/// Fibonacci-heap mark bit.
struct Entry<V> {
    key: u64,
    val: V,
    parent: Option<usize>,
    children: Vec<usize>,
    mark: bool,
    gen: u64,
    alive: bool,
}

/// A handle to one heap entry: the arena slot plus the generation under
/// which the entry was created. Valid until the entry is popped or
/// deleted from the heap that issued it. Slots are never reused, so
/// staleness is detected by the slot's liveness; the generation guards
/// against out-of-range or fabricated handles, but two heaps with equal
/// histories issue equal handles, which no per-value check can tell
/// apart — using a handle against another heap instance is therefore a
/// caller contract (`owns`) on verified code.
#[derive(Copy, Clone, Eq, PartialEq, Structural, Debug)]
pub struct NodePtr {
    pub idx: usize,
    pub gen: u64,
}

/// What a decrease-key call did.
#[derive(Copy, Clone, Eq, PartialEq, Structural, Debug)]
pub enum DecreaseOutcome {
    /// The key was lowered.
    Decreased,
    /// The new key was larger than the current one; by contract this is a
    /// no-op, not an error.
    WouldIncrease,
    /// The handle's entry is no longer in the heap (or the handle was
    /// never issued by this heap).
    Stale,
}

/// A mergeable min-heap over `u64` keys with payloads of type `V`.
pub struct FibonacciHeap<V> {
    entries: Vec<Entry<V>>,
    roots: Vec<usize>,
    n: usize,
    depth: Ghost<Map<int, int>>,
    low: Ghost<int>,
}

impl<V: Copy> FibonacciHeap<V> {
    /// Number of arena slots ever created.
    pub closed spec fn slots(self) -> int {
        self.entries@.len() as int
    }

    /// Whether slot `i` holds an entry that is still in the heap.
    pub closed spec fn alive(self, i: int) -> bool {
        0 <= i < self.slots() && self.entries@[i].alive
    }

    /// The key in slot `i`.
    pub closed spec fn key_of(self, i: int) -> u64 {
        self.entries@[i].key
    }

    /// The payload in slot `i`.
    pub closed spec fn val_of(self, i: int) -> V {
        self.entries@[i].val
    }

    /// The generation of slot `i`.
    pub closed spec fn gen_of(self, i: int) -> u64 {
        self.entries@[i].gen
    }

    /// The live contents: a map from slot to key and payload.
    pub open spec fn live(self) -> Map<int, (u64, V)> {
        Map::new(|i: int| self.alive(i), |i: int| (self.key_of(i), self.val_of(i)))
    }

    /// The set of live slots.
    pub open spec fn live_set(self) -> Set<int> {
        Set::new(|i: int| self.alive(i))
    }

    /// Whether `h` names a slot of this heap under the generation it was
    /// issued with.
    pub open spec fn owns(self, h: NodePtr) -> bool {
        0 <= h.idx < self.slots() && self.gen_of(h.idx as int) == h.gen
    }

    /// Whether `h` refers to an entry still present in the heap.
    pub open spec fn handle_live(self, h: NodePtr) -> bool {
        self.owns(h) && self.alive(h.idx as int)
    }

    spec fn parent_of(self, i: int) -> Option<usize> {
        self.entries@[i].parent
    }

    spec fn children_of(self, i: int) -> Seq<usize> {
        self.entries@[i].children@
    }

    spec fn mark_of(self, i: int) -> bool {
        self.entries@[i].mark
    }

    /// Entry-local structure: children point back, parents are live and
    /// no larger, and the ghost depth strictly decreases towards parents.
    spec fn wf_entries(self) -> bool {
        &&& forall|i: int|
            self.alive(i) ==> (#[trigger] self.children_of(i)).no_duplicates()
        &&& forall|i: int, t: int|
            self.alive(i) && 0 <= t < self.children_of(i).len() ==> {
                let c = (#[trigger] self.children_of(i)[t]) as int;
                &&& self.alive(c)
                &&& self.parent_of(c) == Some(i as usize)
            }
        &&& forall|j: int|
            self.alive(j) && (#[trigger] self.parent_of(j)) is Some ==> {
                let p = self.parent_of(j).unwrap() as int;
                &&& self.alive(p)
                &&& self.children_of(p).contains(j as usize)
                &&& self.key_of(p) <= self.key_of(j)
                &&& self.depth@.contains_key(p)
                &&& self.depth@.contains_key(j)
                &&& self.depth@[p] < self.depth@[j]
            }
        &&& forall|i: int|
            self.alive(i) ==> self.depth@.contains_key(i) && self.low@ <= (
            #[trigger] self.depth@[i])
    }

    /// The root list holds exactly the live parentless entries, once each.
    spec fn wf_roots(self) -> bool {
        &&& forall|t: int|
            0 <= t < self.roots@.len() ==> {
                let r = (#[trigger] self.roots@[t]) as int;
                &&& self.alive(r)
                &&& self.parent_of(r) is None
            }
        &&& self.roots@.no_duplicates()
        &&& forall|i: int|
            self.alive(i) && self.parent_of(i) is None ==> self.roots@.contains(i as usize)
    }

    /// The invariant without any claim about the root list: what holds
    /// while consolidation is rebuilding it.
    spec fn wf_loose(self) -> bool {
        &&& self.wf_entries()
        &&& self.live_set().finite()
        &&& self.n == self.live_set().len()
        &&& self.slots() <= 0xFFFF_FFFF
    }

    spec fn wf_count(self) -> bool {
        &&& self.live_set().finite()
        &&& self.n == self.live_set().len()
        &&& (self.n == 0 <==> self.roots@.len() == 0)
        &&& self.slots() <= 0xFFFF_FFFF
    }

    /// The heap's invariant.
    pub closed spec fn wf(self) -> bool {
        self.wf_entries() && self.wf_roots() && self.wf_count()
    }

    /// The set of live slots is finite, being bounded by the arena size.
    proof fn lemma_live_set_finite(self)
        ensures
            self.live_set().finite(),
            self.live_set().len() <= self.slots(),
    {
        let bounded = set_int_range(0, self.slots());
        vstd::set_lib::lemma_int_range(0, self.slots());
        assert(self.live_set() <= bounded);
        vstd::set_lib::lemma_len_subset(self.live_set(), bounded);
    }

    /// The arena never has negatively many slots.
    pub proof fn lemma_slots_nonneg(self)
        ensures
            self.slots() >= 0,
    {
    }

    /// A live slot index lies within the arena.
    pub proof fn lemma_alive_bounds(self, i: int)
        requires
            self.alive(i),
        ensures
            0 <= i < self.slots(),
    {
    }

    /// The set of live entries is finite and no larger than the arena.
    pub proof fn lemma_live_dom_finite(self)
        ensures
            self.live().dom().finite(),
            self.live().dom().len() <= self.slots(),
    {
        assert(self.live().dom() =~= self.live_set());
        self.lemma_live_set_finite();
    }

    /// Walking parents from any live entry reaches a live parentless
    /// entry whose key is no larger.
    proof fn lemma_exists_root(self, i: int)
        requires
            self.wf_entries(),
            self.alive(i),
        ensures
            exists|r: int|
                self.alive(r) && self.parent_of(r) is None && self.key_of(r) <= self.key_of(i),
        decreases self.depth@[i] - self.low@,
    {
        if self.parent_of(i) is None {
            assert(self.alive(i) && self.parent_of(i) is None && self.key_of(i) <= self.key_of(i));
        } else {
            let p = self.parent_of(i).unwrap() as int;
            self.lemma_exists_root(p);
            let r = choose|r: int|
                self.alive(r) && self.parent_of(r) is None && self.key_of(r) <= self.key_of(p);
            assert(self.key_of(r) <= self.key_of(i));
        }
    }

    /// A fresh, empty heap.
    pub fn new() -> (r: FibonacciHeap<V>)
        ensures
            r.wf(),
            r.slots() == 0,
            r.live() == Map::<int, (u64, V)>::empty(),
    {
        let r = FibonacciHeap {
            entries: Vec::new(),
            roots: Vec::new(),
            n: 0,
            depth: Ghost(Map::empty()),
            low: Ghost(0),
        };
        proof {
            assert(r.live_set() =~= Set::<int>::empty());
            assert(r.live() =~= Map::<int, (u64, V)>::empty());
        }
        r
    }

    /// Whether the heap holds no entries.
    pub fn is_empty(&self) -> (r: bool)
        requires
            self.wf(),
        ensures
            r <==> self.live() == Map::<int, (u64, V)>::empty(),
    {
        proof {
            if self.roots@.len() == 0 {
                if exists|i: int| self.alive(i) {
                    let i = choose|i: int| self.alive(i);
                    assert(self.live_set().contains(i));
                    self.lemma_live_set_finite();
                    vstd::set_lib::lemma_len_subset(
                        Set::<int>::empty().insert(i),
                        self.live_set(),
                    );
                }
                assert(self.live() =~= Map::<int, (u64, V)>::empty());
            } else {
                let r = self.roots@[0] as int;
                assert(self.alive(r));
                assert(self.live().contains_key(r));
                assert(self.live() != Map::<int, (u64, V)>::empty());
            }
        }
        self.roots.len() == 0
    }

    /// How many entries the heap holds.
    pub fn len(&self) -> (r: usize)
        requires
            self.wf(),
        ensures
            r == self.live().dom().len(),
    {
        proof {
            assert(self.live().dom() =~= self.live_set());
        }
        self.n
    }

    /// Insert a key with its payload; O(1). The returned handle stays
    /// valid until the entry is popped or deleted.
    pub fn push(&mut self, key: u64, val: V) -> (h: NodePtr)
        requires
            old(self).wf(),
            old(self).slots() < 0xFFFF_FFFF,
        ensures
            final(self).wf(),
            final(self).slots() == old(self).slots() + 1,
            h.idx == old(self).slots(),
            final(self).handle_live(h),
            final(self).live() == old(self).live().insert(h.idx as int, (key, val)),
            !old(self).live().contains_key(h.idx as int),
            forall|i: int|
                0 <= i < old(self).slots() ==> final(self).alive(i) == old(self).alive(i)
                    && final(self).key_of(i) == old(self).key_of(i) && final(self).val_of(i) == old(
                    self,
                ).val_of(i) && final(self).gen_of(i) == old(self).gen_of(i),
            forall|h2: NodePtr| old(self).handle_live(h2) ==> final(self).handle_live(h2),
    {
        let idx = self.entries.len();
        let gen = idx as u64;
        let entry = Entry {
            key,
            val,
            parent: None,
            children: Vec::new(),
            mark: false,
            gen,
            alive: true,
        };
        self.entries.push(entry);
        proof {
            old(self).lemma_live_set_finite();
        }
        self.roots.push(idx);
        self.n = self.n + 1;
        proof {
            self.depth@ = self.depth@.insert(idx as int, 0);
            if self.low@ > 0 {
                self.low@ = 0;
            }
        }
        let h = NodePtr { idx, gen };
        proof {
            let pre = *old(self);
            let post = *self;
            let ii = idx as int;
            assert(post.alive(ii));
            assert forall|i: int| post.alive(i) && (#[trigger] post.parent_of(i)) is Some
                implies {
                let p = post.parent_of(i).unwrap() as int;
                &&& post.alive(p)
                &&& post.children_of(p).contains(i as usize)
                &&& post.key_of(p) <= post.key_of(i)
                &&& post.depth@.contains_key(p)
                &&& post.depth@.contains_key(i)
                &&& post.depth@[p] < post.depth@[i]
            } by {
                assert(i != ii);
                assert(pre.alive(i) && pre.parent_of(i) == post.parent_of(i));
                let p = pre.parent_of(i).unwrap() as int;
                assert(pre.alive(p) && pre.children_of(p).contains(i as usize));
                assert(p != ii);
            }
            assert forall|i: int, t: int|
                post.alive(i) && 0 <= t < post.children_of(i).len() implies {
                let c = (#[trigger] post.children_of(i)[t]) as int;
                &&& post.alive(c)
                &&& post.parent_of(c) == Some(i as usize)
            } by {
                if i != ii {
                    assert(pre.alive(i));
                    let c = pre.children_of(i)[t] as int;
                    assert(pre.alive(c));
                    assert(c != ii);
                }
            }
            assert forall|i: int| post.alive(i) implies (
            #[trigger] post.children_of(i)).no_duplicates() by {
                if i != ii {
                    assert(pre.alive(i));
                    assert(post.children_of(i) == pre.children_of(i));
                }
            }
            assert forall|i: int| post.alive(i) implies #[trigger] post.depth@.contains_key(
                i,
            ) by {
                if i != ii {
                    assert(pre.alive(i));
                    assert(pre.low@ <= pre.depth@[i]);
                    assert(pre.depth@.contains_key(i));
                }
                assert(post.depth@ == pre.depth@.insert(ii, 0));
            }
            assert forall|i: int| post.alive(i) implies post.low@ <= (
            #[trigger] post.depth@[i]) by {
                if i != ii {
                    assert(pre.alive(i));
                    assert(pre.low@ <= pre.depth@[i]);
                    assert(post.depth@ == pre.depth@.insert(ii, 0));
                    assert(post.low@ <= post.depth@[i]);
                } else {
                    assert(post.depth@ == pre.depth@.insert(ii, 0));
                    assert(post.depth@[ii] == 0);
                }
            }
            assert(post.wf_entries());
            assert(post.roots@ == pre.roots@.push(idx));
            assert forall|t: int| 0 <= t < post.roots@.len() implies {
                let r = (#[trigger] post.roots@[t]) as int;
                &&& post.alive(r)
                &&& post.parent_of(r) is None
            } by {
                if t < pre.roots@.len() {
                    assert(post.roots@[t] == pre.roots@[t]);
                    assert(pre.alive(pre.roots@[t] as int));
                } else {
                    assert(post.roots@[t] == idx);
                }
            }
            assert(post.roots@.no_duplicates()) by {
                assert forall|a: int, b: int|
                    0 <= a < post.roots@.len() && 0 <= b < post.roots@.len() && a != b implies
                    post.roots@[a] != post.roots@[b] by {
                    if a < pre.roots@.len() && b < pre.roots@.len() {
                    } else if a < pre.roots@.len() {
                        assert(pre.alive(pre.roots@[a] as int));
                        assert(pre.roots@[a] < idx);
                    } else {
                        assert(pre.alive(pre.roots@[b] as int));
                        assert(pre.roots@[b] < idx);
                    }
                }
            }
            assert forall|i: int|
                post.alive(i) && post.parent_of(i) is None implies post.roots@.contains(
                i as usize,
            ) by {
                if i == ii {
                    assert(post.roots@[post.roots@.len() - 1] == idx);
                } else {
                    assert(pre.alive(i));
                    let t = choose|t: int|
                        0 <= t < pre.roots@.len() && pre.roots@[t] == i as usize;
                    assert(post.roots@[t] == i as usize);
                }
            }
            assert(post.wf_roots());
            assert(post.live_set() =~= pre.live_set().insert(ii));
            pre.lemma_live_set_finite();
            assert(post.wf_count());
            assert(post.live() =~= pre.live().insert(ii, (key, val)));
        }
        h
    }

    /// Detach `x` from its parent `p` and make it a root, clearing its
    /// mark.
    #[verifier::rlimit(60)]
    fn cut(&mut self, x: usize, p: usize)
        requires
            old(self).wf(),
            old(self).alive(x as int),
            old(self).parent_of(x as int) == Some(p),
        ensures
            final(self).wf(),
            final(self).slots() == old(self).slots(),
            final(self).n == old(self).n,
            final(self).live() == old(self).live(),
            forall|i: int|
                0 <= i < old(self).slots() ==> final(self).alive(i) == old(self).alive(i)
                    && final(self).key_of(i) == old(self).key_of(i) && final(self).val_of(i) == old(
                    self,
                ).val_of(i) && final(self).gen_of(i) == old(self).gen_of(i),
            final(self).parent_of(x as int) is None,
            !final(self).mark_of(x as int),
            final(self).depth == old(self).depth,
            final(self).low == old(self).low,
            forall|j: int|
                0 <= j < old(self).slots() && j != x ==> final(self).parent_of(j) == old(
                    self,
                ).parent_of(j) && final(self).mark_of(j) == old(self).mark_of(j),
    {
        proof {
            assert(old(self).alive(p as int));
            assert(old(self).children_of(p as int).contains(x));
        }
        // Find x in p's child list and remove it.
        let plen = self.entries[p].children.len();
        let mut t: usize = 0;
        let ghost pre = *self;
        while t < plen && self.entries[p].children[t] != x
            invariant
                *self == pre,
                pre.wf(),
                pre.alive(x as int),
                pre.parent_of(x as int) == Some(p),
                pre.alive(p as int),
                plen == pre.children_of(p as int).len(),
                0 <= t <= plen,
                forall|u: int| 0 <= u < t ==> pre.children_of(p as int)[u] != x,
                pre.children_of(p as int).contains(x),
            decreases plen - t,
        {
            t = t + 1;
        }
        proof {
            if t == plen {
                let w = choose|w: int|
                    0 <= w < pre.children_of(p as int).len() && pre.children_of(p as int)[w] == x;
                assert(false);
            }
            assert(pre.children_of(p as int)[t as int] == x);
        }
        self.entries[p].children.remove(t);
        self.entries[x].parent = None;
        self.entries[x].mark = false;
        self.roots.push(x);
        proof {
            let post = *self;
            let xi = x as int;
            let pi = p as int;
            assert(pre.slots() <= 0xFFFF_FFFF);
            let oldch = pre.children_of(pi);
            let newch = post.children_of(pi);
            assert(newch == oldch.remove(t as int));
            // The shrunk child list keeps its elements (except x) and
            // stays duplicate-free.
            assert(oldch.no_duplicates());
            assert forall|u: int| 0 <= u < newch.len() implies newch[u] != x && oldch.contains(
                #[trigger] newch[u],
            ) by {
                if u < t {
                    assert(newch[u] == oldch[u]);
                } else {
                    assert(newch[u] == oldch[u + 1]);
                }
            }
            assert(newch.no_duplicates()) by {
                assert forall|a: int, b: int|
                    0 <= a < newch.len() && 0 <= b < newch.len() && a != b implies newch[a]
                    != newch[b] by {
                    let a2 = if a < t {
                        a
                    } else {
                        a + 1
                    };
                    let b2 = if b < t {
                        b
                    } else {
                        b + 1
                    };
                    assert(newch[a] == oldch[a2] && newch[b] == oldch[b2]);
                }
            }
            assert forall|i: int, u: int|
                post.alive(i) && 0 <= u < post.children_of(i).len() implies {
                let c = (#[trigger] post.children_of(i)[u]) as int;
                &&& post.alive(c)
                &&& post.parent_of(c) == Some(i as usize)
            } by {
                if i == pi {
                    assert(oldch.contains(newch[u]));
                    let w = choose|w: int| 0 <= w < oldch.len() && oldch[w] == newch[u];
                    assert(pre.children_of(pi)[w] == newch[u]);
                    let c = newch[u] as int;
                    assert(pre.alive(c) && pre.parent_of(c) == Some(p));
                    assert(c != xi);
                } else {
                    assert(post.children_of(i) == pre.children_of(i));
                    assert(pre.alive(i));
                    let c = pre.children_of(i)[u] as int;
                    assert(pre.alive(c) && pre.parent_of(c) == Some(i as usize));
                    if c == xi {
                        assert(pre.parent_of(xi) == Some(p));
                        assert(i as usize == p);
                        assert(0 <= i < pre.slots());
                        assert(i == pi);
                        assert(false);
                    }
                }
            }
            assert forall|i: int| post.alive(i) implies (
            #[trigger] post.children_of(i)).no_duplicates() by {
                if i != pi {
                    assert(pre.children_of(i).no_duplicates());
                }
            }
            assert forall|j: int|
                post.alive(j) && (#[trigger] post.parent_of(j)) is Some implies {
                let q = post.parent_of(j).unwrap() as int;
                &&& post.alive(q)
                &&& post.children_of(q).contains(j as usize)
                &&& post.key_of(q) <= post.key_of(j)
                &&& post.depth@.contains_key(q)
                &&& post.depth@.contains_key(j)
                &&& post.depth@[q] < post.depth@[j]
            } by {
                assert(j != xi);
                assert(pre.alive(j) && pre.parent_of(j) == post.parent_of(j));
                let q = pre.parent_of(j).unwrap() as int;
                assert(pre.children_of(q).contains(j as usize));
                if q == pi {
                    let w = choose|w: int| 0 <= w < oldch.len() && oldch[w] == j as usize;
                    assert(0 <= j < pre.slots());
                    assert(j as usize != x);
                    assert(oldch[t as int] == x);
                    assert(w != t);
                    if w < t {
                        assert(newch[w] == j as usize);
                    } else {
                        assert(newch[w - 1] == j as usize);
                    }
                }
            }
            assert forall|i: int| post.alive(i) implies #[trigger] post.depth@.contains_key(
                i,
            ) by {
                assert(pre.alive(i));
                assert(pre.low@ <= pre.depth@[i]);
                assert(pre.depth@.contains_key(i));
                assert(post.depth@ == pre.depth@);
            }
            assert forall|i: int| post.alive(i) implies post.low@ <= (
            #[trigger] post.depth@[i]) by {
                assert(pre.alive(i));
                assert(pre.low@ <= pre.depth@[i]);
                assert(post.depth@ == pre.depth@ && post.low@ == pre.low@);
            }
            assert(post.wf_entries());
            assert(post.roots@ == pre.roots@.push(x));
            assert forall|u: int| 0 <= u < post.roots@.len() implies {
                let r = (#[trigger] post.roots@[u]) as int;
                &&& post.alive(r)
                &&& post.parent_of(r) is None
            } by {
                if u < pre.roots@.len() {
                    let r = pre.roots@[u] as int;
                    assert(pre.alive(r) && pre.parent_of(r) is None);
                    assert(r != xi);
                }
            }
            assert(post.roots@.no_duplicates()) by {
                assert forall|a: int, b: int|
                    0 <= a < post.roots@.len() && 0 <= b < post.roots@.len() && a != b implies
                    post.roots@[a] != post.roots@[b] by {
                    if a < pre.roots@.len() && b < pre.roots@.len() {
                    } else if a < pre.roots@.len() {
                        let r = pre.roots@[a] as int;
                        assert(pre.alive(r) && pre.parent_of(r) is None);
                        assert(r != xi);
                    } else if b < pre.roots@.len() {
                        let r = pre.roots@[b] as int;
                        assert(pre.alive(r) && pre.parent_of(r) is None);
                        assert(r != xi);
                    }
                }
            }
            assert forall|i: int|
                post.alive(i) && post.parent_of(i) is None implies post.roots@.contains(
                i as usize,
            ) by {
                if i == xi {
                    assert(post.roots@[post.roots@.len() - 1] == x);
                } else {
                    assert(pre.alive(i) && pre.parent_of(i) is None);
                    let u = choose|u: int|
                        0 <= u < pre.roots@.len() && pre.roots@[u] == i as usize;
                    assert(post.roots@[u] == i as usize);
                }
            }
            assert(post.wf_roots());
            assert(post.live_set() =~= pre.live_set());
            assert(post.wf_count()) by {
                assert(pre.live_set().contains(xi));
                if pre.n == 0 {
                    pre.live_set().lemma_len0_is_empty();
                }
            }
            assert(post.live() =~= pre.live());
        }
    }

    /// After a cut, walk up the ancestors: unmark-and-stop at the first
    /// unmarked ancestor, cutting every marked one on the way.
    fn cascading_cut(&mut self, start: usize)
        requires
            old(self).wf(),
            old(self).alive(start as int),
        ensures
            final(self).wf(),
            final(self).slots() == old(self).slots(),
            final(self).n == old(self).n,
            final(self).live() == old(self).live(),
            forall|i: int|
                0 <= i < old(self).slots() ==> final(self).alive(i) == old(self).alive(i)
                    && final(self).key_of(i) == old(self).key_of(i) && final(self).val_of(i) == old(
                    self,
                ).val_of(i) && final(self).gen_of(i) == old(self).gen_of(i),
            forall|j: int|
                0 <= j < old(self).slots() && old(self).parent_of(j) is None
                    ==> final(self).parent_of(j) is None,
    {
        let ghost orig = *old(self);
        let mut cur = start;
        loop
            invariant
                self.wf(),
                self.alive(cur as int),
                self.slots() == orig.slots(),
                self.n == orig.n,
                self.live() == orig.live(),
                forall|i: int|
                    0 <= i < orig.slots() ==> self.alive(i) == orig.alive(i) && self.key_of(i)
                        == orig.key_of(i) && self.val_of(i) == orig.val_of(i) && self.gen_of(i)
                        == orig.gen_of(i),
                forall|j: int|
                    0 <= j < orig.slots() && orig.parent_of(j) is None ==> self.parent_of(
                        j,
                    ) is None,
            decreases self.depth@[cur as int] - self.low@,
        {
            let parent = self.entries[cur].parent;
            match parent {
                None => {
                    break;
                },
                Some(pp) => {
                    if !self.entries[cur].mark {
                        let ghost mid = *self;
                        self.entries[cur].mark = true;
                        proof {
                            mid.lemma_mark_change(*self, cur, true);
                        }
                        break;
                    } else {
                        proof {
                            assert(self.alive(pp as int));
                            assert(self.depth@[pp as int] < self.depth@[cur as int]);
                        }
                        self.cut(cur, pp);
                        cur = pp;
                    }
                },
            }
        }
    }

    /// Lower the key of the entry `h` refers to. Raising is a no-op by
    /// contract; a handle whose entry has been extracted is reported as
    /// stale, never dereferenced. Verified callers must pass a handle this
    /// heap issued (`owns`); for anything else the runtime checks still
    /// answer `Stale` rather than touching an entry, though a foreign
    /// handle that coincides with an issued one cannot be told apart.
    pub fn decrease_key(&mut self, elem: &NodePtr, new_key: u64) -> (r: DecreaseOutcome)
        requires
            old(self).wf(),
            old(self).owns(*elem),
        ensures
            final(self).wf(),
            final(self).slots() == old(self).slots(),
            forall|i: int|
                0 <= i < old(self).slots() ==> final(self).alive(i) == old(self).alive(i)
                    && final(self).val_of(i) == old(self).val_of(i) && final(self).gen_of(i) == old(
                    self,
                ).gen_of(i),
            match r {
                DecreaseOutcome::Stale => !old(self).handle_live(*elem) && final(self).live()
                    == old(self).live() && (forall|i: int|
                    0 <= i < old(self).slots() ==> final(self).key_of(i) == old(self).key_of(i)),
                DecreaseOutcome::WouldIncrease => old(self).handle_live(*elem) && new_key > old(
                    self,
                ).key_of(elem.idx as int) && final(self).live() == old(self).live() && (forall|
                    i: int,
                |
                    0 <= i < old(self).slots() ==> final(self).key_of(i) == old(self).key_of(i)),
                DecreaseOutcome::Decreased => {
                    &&& old(self).handle_live(*elem)
                    &&& new_key <= old(self).key_of(elem.idx as int)
                    &&& final(self).key_of(elem.idx as int) == new_key
                    &&& forall|i: int|
                        0 <= i < old(self).slots() && i != elem.idx ==> final(self).key_of(i)
                            == old(self).key_of(i)
                    &&& final(self).live() == old(self).live().insert(
                        elem.idx as int,
                        (new_key, old(self).val_of(elem.idx as int)),
                    )
                },
            },
    {
        if elem.idx >= self.entries.len() {
            return DecreaseOutcome::Stale;
        }
        if self.entries[elem.idx].gen != elem.gen || !self.entries[elem.idx].alive {
            return DecreaseOutcome::Stale;
        }
        if new_key > self.entries[elem.idx].key {
            return DecreaseOutcome::WouldIncrease;
        }
        let x = elem.idx;
        let parent = self.entries[x].parent;
        let ghost pre = *old(self);
        match parent {
            Some(p) => {
                proof {
                    assert(pre.alive(x as int) && pre.parent_of(x as int) is Some);
                    assert(pre.alive(p as int));
                }
                if new_key < self.entries[p].key {
                    // Heap order with the parent would break: cut first,
                    // then lower the key of the now-root entry.
                    self.cut(x, p);
                    let ghost mid1 = *self;
                    self.entries[x].key = new_key;
                    proof {
                        let mid2 = *self;
                        mid1.lemma_decrease_key_wf(mid2, x, new_key);
                    }
                    self.cascading_cut(p);
                    proof {
                        assert(final(self).live() =~= pre.live().insert(
                            x as int,
                            (new_key, pre.val_of(x as int)),
                        ));
                    }
                } else {
                    self.entries[x].key = new_key;
                    proof {
                        let post = *self;
                        pre.lemma_decrease_key_wf(post, x, new_key);
                    }
                }
            },
            None => {
                let ghost mid1 = *self;
                self.entries[x].key = new_key;
                proof {
                    let mid2 = *self;
                    mid1.lemma_decrease_key_wf(mid2, x, new_key);
                    assert(mid2.live() =~= pre.live().insert(
                        x as int,
                        (new_key, pre.val_of(x as int)),
                    ));
                }
            },
        }
        DecreaseOutcome::Decreased
    }

    /// Whether some bucket holds `i`.
    spec fn in_buckets(buckets: Seq<Option<usize>>, i: usize) -> bool {
        exists|d: int| 0 <= d < buckets.len() && buckets[d] == Some(i)
    }

    /// Make the root `y` a child of the root `x`; `x`'s key must not
    /// exceed `y`'s.
    fn link(&mut self, x: usize, y: usize)
        requires
            old(self).wf_loose(),
            old(self).alive(x as int),
            old(self).alive(y as int),
            x != y,
            old(self).parent_of(x as int) is None,
            old(self).parent_of(y as int) is None,
            old(self).key_of(x as int) <= old(self).key_of(y as int),
        ensures
            final(self).wf_loose(),
            final(self).slots() == old(self).slots(),
            final(self).n == old(self).n,
            final(self).live() == old(self).live(),
            final(self).roots@ == old(self).roots@,
            forall|i: int|
                0 <= i < old(self).slots() ==> final(self).alive(i) == old(self).alive(i)
                    && final(self).key_of(i) == old(self).key_of(i) && final(self).val_of(i) == old(
                    self,
                ).val_of(i) && final(self).gen_of(i) == old(self).gen_of(i),
            final(self).parent_of(y as int) == Some(x),
            forall|j: int|
                0 <= j < old(self).slots() && j != y ==> final(self).parent_of(j) == old(
                    self,
                ).parent_of(j),
    {
        let ghost pre = *old(self);
        self.entries[x].children.push(y);
        self.entries[y].parent = Some(x);
        self.entries[y].mark = false;
        proof {
            let xi = x as int;
            let yi = y as int;
            let dx = pre.depth@[xi];
            let dy = pre.depth@[yi];
            let ndx: int = if dx < dy - 1 {
                dx
            } else {
                dy - 1
            };
            self.depth@ = self.depth@.insert(xi, ndx);
            self.low@ = self.low@ - 1;
            let post = *self;
            assert(post.children_of(xi) == pre.children_of(xi).push(y));
            assert(post.depth@ == pre.depth@.insert(xi, ndx));
            assert(post.low@ == pre.low@ - 1);
            assert forall|i: int, u: int|
                post.alive(i) && 0 <= u < post.children_of(i).len() implies {
                let cc = (#[trigger] post.children_of(i)[u]) as int;
                &&& post.alive(cc)
                &&& post.parent_of(cc) == Some(i as usize)
            } by {
                assert(pre.alive(i));
                if i == xi {
                    let newch = post.children_of(xi);
                    if u < newch.len() - 1 {
                        assert(newch[u] == pre.children_of(xi)[u]);
                        let cc = pre.children_of(xi)[u] as int;
                        assert(pre.alive(cc) && pre.parent_of(cc) == Some(x));
                        assert(cc != yi) by {
                            if cc == yi {
                                assert(pre.parent_of(yi) is None);
                            }
                        }
                    } else {
                        assert(newch[u] == y);
                    }
                } else {
                    assert(post.children_of(i) == pre.children_of(i));
                    let cc = pre.children_of(i)[u] as int;
                    assert(pre.alive(cc) && pre.parent_of(cc) == Some(i as usize));
                    assert(cc != yi) by {
                        if cc == yi {
                            assert(pre.parent_of(yi) is None);
                        }
                    }
                }
            }
            assert forall|i: int| post.alive(i) implies (
            #[trigger] post.children_of(i)).no_duplicates() by {
                assert(pre.alive(i));
                assert(pre.children_of(i).no_duplicates());
                if i == xi {
                    let oldch = pre.children_of(xi);
                    let newch = post.children_of(xi);
                    assert forall|a: int, b: int|
                        0 <= a < newch.len() && 0 <= b < newch.len() && a != b implies newch[a]
                        != newch[b] by {
                        if a < oldch.len() && b < oldch.len() {
                        } else if a < oldch.len() {
                            let cc = oldch[a] as int;
                            assert(pre.alive(cc) && pre.parent_of(cc) == Some(x));
                            assert(newch[b] == y);
                            assert(pre.parent_of(yi) is None);
                        } else if b < oldch.len() {
                            let cc = oldch[b] as int;
                            assert(pre.alive(cc) && pre.parent_of(cc) == Some(x));
                            assert(newch[a] == y);
                            assert(pre.parent_of(yi) is None);
                        }
                    }
                }
            }
            assert forall|j: int|
                post.alive(j) && (#[trigger] post.parent_of(j)) is Some implies {
                let q = post.parent_of(j).unwrap() as int;
                &&& post.alive(q)
                &&& post.children_of(q).contains(j as usize)
                &&& post.key_of(q) <= post.key_of(j)
                &&& post.depth@.contains_key(q)
                &&& post.depth@.contains_key(j)
                &&& post.depth@[q] < post.depth@[j]
            } by {
                assert(pre.alive(j));
                if j == yi {
                    let newch = post.children_of(xi);
                    assert(newch[newch.len() - 1] == y);
                    assert(pre.depth@.contains_key(xi) && pre.depth@.contains_key(yi));
                    assert(post.depth@[xi] == ndx && ndx < dy && post.depth@[yi] == dy);
                } else {
                    let q = pre.parent_of(j).unwrap() as int;
                    assert(pre.children_of(q).contains(j as usize));
                    assert(pre.key_of(q) <= pre.key_of(j));
                    assert(pre.depth@.contains_key(q) && pre.depth@.contains_key(j));
                    assert(pre.depth@[q] < pre.depth@[j]);
                    assert(j != xi) by {
                        assert(pre.parent_of(xi) is None);
                    }
                    if q == xi {
                        let w = choose|w: int|
                            0 <= w < pre.children_of(xi).len() && pre.children_of(xi)[w]
                                == j as usize;
                        assert(post.children_of(xi)[w] == j as usize);
                        assert(post.depth@[q] == ndx);
                        assert(ndx <= dx);
                        assert(post.depth@[j] == pre.depth@[j]);
                    } else {
                        assert(post.depth@[q] == pre.depth@[q]);
                        assert(post.depth@[j] == pre.depth@[j]);
                    }
                }
            }
            assert forall|i: int| post.alive(i) implies #[trigger] post.depth@.contains_key(
                i,
            ) by {
                assert(pre.alive(i));
                assert(pre.low@ <= pre.depth@[i]);
                assert(pre.depth@.contains_key(i));
            }
            assert forall|i: int| post.alive(i) implies post.low@ <= (
            #[trigger] post.depth@[i]) by {
                assert(pre.alive(i));
                assert(pre.low@ <= pre.depth@[i]);
                assert(pre.depth@.contains_key(i));
                if i == xi {
                    assert(post.depth@[xi] == ndx);
                    assert(pre.low@ <= dy);
                } else {
                    assert(post.depth@[i] == pre.depth@[i]);
                }
            }
            assert(post.wf_entries());
            assert(post.live_set() =~= pre.live_set());
            assert(post.live() =~= pre.live());
        }
    }

    /// `wf_loose` depends only on the arena and the ghost depths, not on
    /// the root list.
    proof fn lemma_wf_loose_transfer(self, post: FibonacciHeap<V>)
        requires
            self.wf_loose(),
            post.entries@ == self.entries@,
            post.n == self.n,
            post.depth == self.depth,
            post.low == self.low,
        ensures
            post.wf_loose(),
    {
        assert forall|i: int, t: int|
            post.alive(i) && 0 <= t < post.children_of(i).len() implies {
            let c = (#[trigger] post.children_of(i)[t]) as int;
            &&& post.alive(c)
            &&& post.parent_of(c) == Some(i as usize)
        } by {
            assert(self.alive(i));
            let c = self.children_of(i)[t] as int;
            assert(self.alive(c));
        }
        assert forall|i: int| post.alive(i) implies (
        #[trigger] post.children_of(i)).no_duplicates() by {
            assert(self.alive(i));
            assert(self.children_of(i).no_duplicates());
        }
        assert forall|j: int|
            post.alive(j) && (#[trigger] post.parent_of(j)) is Some implies {
            let q = post.parent_of(j).unwrap() as int;
            &&& post.alive(q)
            &&& post.children_of(q).contains(j as usize)
            &&& post.key_of(q) <= post.key_of(j)
            &&& post.depth@.contains_key(q)
            &&& post.depth@.contains_key(j)
            &&& post.depth@[q] < post.depth@[j]
        } by {
            assert(self.alive(j));
            let q = self.parent_of(j).unwrap() as int;
            assert(self.children_of(q).contains(j as usize));
        }
        assert forall|i: int| post.alive(i) implies #[trigger] post.depth@.contains_key(i) by {
            assert(self.alive(i));
            assert(self.low@ <= self.depth@[i]);
            assert(self.depth@.contains_key(i));
        }
        assert forall|i: int| post.alive(i) implies post.low@ <= (#[trigger] post.depth@[i]) by {
            assert(self.alive(i));
            assert(self.low@ <= self.depth@[i]);
        }
        assert(post.live_set() =~= self.live_set());
    }

    /// Merge root trees of equal degree until all root degrees are
    /// distinct, bucketing roots by their number of children, then rebuild
    /// the root list from the buckets.
    fn consolidate(&mut self)
        requires
            old(self).wf(),
        ensures
            final(self).wf(),
            final(self).slots() == old(self).slots(),
            final(self).n == old(self).n,
            final(self).live() == old(self).live(),
            forall|i: int|
                0 <= i < old(self).slots() ==> final(self).alive(i) == old(self).alive(i)
                    && final(self).key_of(i) == old(self).key_of(i) && final(self).val_of(i) == old(
                    self,
                ).val_of(i) && final(self).gen_of(i) == old(self).gen_of(i),
    {
        let ghost orig = *old(self);
        let mut old_roots: Vec<usize> = Vec::new();
        std::mem::swap(&mut self.roots, &mut old_roots);
        proof {
            assert(old_roots@ == orig.roots@);
            orig.lemma_wf_loose_transfer(*self);
            assert forall|u: int| 0 <= u < old_roots@.len() implies self.alive(
                (#[trigger] old_roots@[u]) as int,
            ) && self.parent_of(old_roots@[u] as int) is None by {
                let r = orig.roots@[u] as int;
                assert(orig.alive(r) && orig.parent_of(r) is None);
            }
            assert forall|i: int|
                self.alive(i) && self.parent_of(i) is None implies exists|u: int|
                0 <= u < old_roots@.len() && old_roots@[u] == i as usize by {
                assert(orig.alive(i) && orig.parent_of(i) is None);
                assert(orig.roots@.contains(i as usize));
            }
        }
        let mut buckets: Vec<Option<usize>> = Vec::new();
        let mut t: usize = 0;
        while t < old_roots.len()
            invariant
                self.wf_loose(),
                self.slots() == orig.slots(),
                self.n == orig.n,
                self.live() == orig.live(),
                forall|i: int|
                    0 <= i < orig.slots() ==> self.alive(i) == orig.alive(i) && self.key_of(i)
                        == orig.key_of(i) && self.val_of(i) == orig.val_of(i) && self.gen_of(i)
                        == orig.gen_of(i),
                self.roots@.len() == 0,
                t <= old_roots@.len(),
                // Every root not yet processed is still a live parentless
                // entry, they are pairwise distinct, and none is bucketed.
                forall|u: int|
                    t <= u < old_roots@.len() ==> self.alive((#[trigger] old_roots@[u]) as int)
                        && self.parent_of(old_roots@[u] as int) is None,
                old_roots@.no_duplicates(),
                forall|u: int|
                    t <= u < old_roots@.len() ==> !Self::in_buckets(
                        buckets@,
                        #[trigger] old_roots@[u],
                    ),
                // Buckets hold live parentless entries, at most one per
                // slot and one slot per entry.
                forall|d: int|
                    0 <= d < buckets@.len() && (#[trigger] buckets@[d]) is Some ==> self.alive(
                        buckets@[d].unwrap() as int,
                    ) && self.parent_of(buckets@[d].unwrap() as int) is None,
                forall|d1: int, d2: int|
                    0 <= d1 < buckets@.len() && 0 <= d2 < buckets@.len() && d1 != d2 && (
                    #[trigger] buckets@[d1]) is Some && (#[trigger] buckets@[d2]) is Some
                        ==> buckets@[d1] != buckets@[d2],
                // Every live parentless entry is bucketed or still ahead.
                forall|i: int|
                    self.alive(i) && self.parent_of(i) is None ==> Self::in_buckets(
                        buckets@,
                        i as usize,
                    ) || exists|u: int| t <= u < old_roots@.len() && old_roots@[u] == i as usize,
            decreases old_roots@.len() - t,
        {
            let mut x = old_roots[t];
            proof {
                assert(self.alive(x as int) && self.parent_of(x as int) is None);
                assert(!Self::in_buckets(buckets@, x));
            }
            let mut d = self.entries[x].children.len();
            while d < buckets.len() && buckets[d].is_some()
                invariant
                    self.wf_loose(),
                    self.slots() == orig.slots(),
                    self.n == orig.n,
                    self.live() == orig.live(),
                    forall|i: int|
                        0 <= i < orig.slots() ==> self.alive(i) == orig.alive(i) && self.key_of(i)
                            == orig.key_of(i) && self.val_of(i) == orig.val_of(i) && self.gen_of(
                            i,
                        ) == orig.gen_of(i),
                    self.roots@.len() == 0,
                    t < old_roots@.len(),
                    self.alive(x as int),
                    self.parent_of(x as int) is None,
                    !Self::in_buckets(buckets@, x),
                    forall|u: int|
                        t < u < old_roots@.len() ==> old_roots@[u] != x,
                    forall|u: int|
                        t < u < old_roots@.len() ==> self.alive((#[trigger] old_roots@[u]) as int)
                            && self.parent_of(old_roots@[u] as int) is None,
                    old_roots@.no_duplicates(),
                    forall|u: int|
                        t < u < old_roots@.len() ==> !Self::in_buckets(
                            buckets@,
                            #[trigger] old_roots@[u],
                        ),
                    forall|dd: int|
                        0 <= dd < buckets@.len() && (#[trigger] buckets@[dd]) is Some
                            ==> self.alive(buckets@[dd].unwrap() as int) && self.parent_of(
                            buckets@[dd].unwrap() as int,
                        ) is None,
                    forall|d1: int, d2: int|
                        0 <= d1 < buckets@.len() && 0 <= d2 < buckets@.len() && d1 != d2 && (
                        #[trigger] buckets@[d1]) is Some && (#[trigger] buckets@[d2]) is Some
                            ==> buckets@[d1] != buckets@[d2],
                    forall|i: int|
                        self.alive(i) && self.parent_of(i) is None ==> Self::in_buckets(
                            buckets@,
                            i as usize,
                        ) || (exists|u: int|
                            t < u < old_roots@.len() && old_roots@[u] == i as usize) || i
                            == x as int,
                decreases buckets@.len() - d,
            {
                let ghost head_buckets = buckets@;
                let ghost head_x = x;
                let y = buckets[d].unwrap();
                buckets[d] = None;
                proof {
                    assert(buckets@ == head_buckets.update(d as int, None));
                    assert(buckets@[d as int] is None);
                    assert(self.alive(y as int) && self.parent_of(y as int) is None);
                    assert(y != x);
                }
                let (lo, hi) = if self.entries[y].key < self.entries[x].key {
                    (y, x)
                } else {
                    (x, y)
                };
                let ghost mid = *self;
                self.link(lo, hi);
                x = lo;
                proof {
                    let post = *self;
                    assert forall|u: int|
                        t < u < old_roots@.len() implies !Self::in_buckets(
                        buckets@,
                        #[trigger] old_roots@[u],
                    ) by {
                        if Self::in_buckets(buckets@, old_roots@[u]) {
                            let dd = choose|dd: int|
                                0 <= dd < buckets@.len() && buckets@[dd] == Some(old_roots@[u]);
                            assert(head_buckets[dd] == Some(old_roots@[u]));
                        }
                    }
                    assert(!Self::in_buckets(buckets@, x)) by {
                        if Self::in_buckets(buckets@, x) {
                            let dd = choose|dd: int|
                                0 <= dd < buckets@.len() && buckets@[dd] == Some(x);
                            assert(head_buckets[dd] == Some(x));
                            if x == head_x {
                                assert(!Self::in_buckets(head_buckets, head_x));
                            } else {
                                assert(x == y);
                                assert(dd != d);
                                assert(head_buckets[d as int] == Some(y));
                            }
                        }
                    }
                    assert forall|i: int|
                        post.alive(i) && post.parent_of(i) is None implies Self::in_buckets(
                        buckets@,
                        i as usize,
                    ) || (exists|u: int|
                        t < u < old_roots@.len() && old_roots@[u] == i as usize) || i
                        == x as int by {
                        assert(mid.alive(i));
                        if i == hi as int {
                            assert(post.parent_of(hi as int) == Some(lo));
                            assert(false);
                        } else {
                            assert(post.parent_of(i) == mid.parent_of(i));
                            assert(mid.parent_of(i) is None);
                            // Where was i before the merge step?
                            if i == head_x as int {
                                assert(head_x == lo || head_x == hi);
                                assert(i == x as int);
                            } else if i == y as int {
                                assert(y == lo || y == hi);
                                assert(i == x as int);
                            } else {
                                assert(Self::in_buckets(head_buckets, i as usize) || (exists|
                                    u: int,
                                |
                                    t < u < old_roots@.len() && old_roots@[u] == i as usize) || i
                                    == head_x as int);
                                if Self::in_buckets(head_buckets, i as usize) {
                                    let dd = choose|dd: int|
                                        0 <= dd < head_buckets.len() && head_buckets[dd] == Some(
                                            i as usize,
                                        );
                                    assert(dd != d) by {
                                        assert(head_buckets[d as int] == Some(y));
                                    }
                                    assert(buckets@[dd] == Some(i as usize));
                                }
                            }
                        }
                    }
                }
                d = d + 1;
            }
            while buckets.len() <= d
                invariant
                    t < old_roots@.len(),
                    d < buckets@.len() ==> buckets@[d as int] is None,
                    forall|dd: int|
                        0 <= dd < buckets@.len() && (#[trigger] buckets@[dd]) is Some
                            ==> self.alive(buckets@[dd].unwrap() as int) && self.parent_of(
                            buckets@[dd].unwrap() as int,
                        ) is None,
                    forall|d1: int, d2: int|
                        0 <= d1 < buckets@.len() && 0 <= d2 < buckets@.len() && d1 != d2 && (
                        #[trigger] buckets@[d1]) is Some && (#[trigger] buckets@[d2]) is Some
                            ==> buckets@[d1] != buckets@[d2],
                    !Self::in_buckets(buckets@, x),
                    forall|u: int|
                        t < u < old_roots@.len() ==> !Self::in_buckets(
                            buckets@,
                            #[trigger] old_roots@[u],
                        ),
                    forall|i: int|
                        self.alive(i) && self.parent_of(i) is None ==> Self::in_buckets(
                            buckets@,
                            i as usize,
                        ) || (exists|u: int|
                            t < u < old_roots@.len() && old_roots@[u] == i as usize) || i
                            == x as int,
                decreases d + 1 - buckets@.len(),
            {
                let ghost pre_buckets = buckets@;
                buckets.push(None);
                proof {
                    assert(buckets@ == pre_buckets.push(None));
                    assert forall|i: int|
                        self.alive(i) && self.parent_of(i) is None implies Self::in_buckets(
                        buckets@,
                        i as usize,
                    ) || (exists|u: int|
                        t < u < old_roots@.len() && old_roots@[u] == i as usize) || i
                        == x as int by {
                        if Self::in_buckets(pre_buckets, i as usize) {
                            let dd = choose|dd: int|
                                0 <= dd < pre_buckets.len() && pre_buckets[dd] == Some(i as usize);
                            assert(buckets@[dd] == Some(i as usize));
                        }
                    }
                    assert forall|u: int|
                        t < u < old_roots@.len() implies !Self::in_buckets(
                        buckets@,
                        #[trigger] old_roots@[u],
                    ) by {
                        if Self::in_buckets(buckets@, old_roots@[u]) {
                            let dd = choose|dd: int|
                                0 <= dd < buckets@.len() && buckets@[dd] == Some(old_roots@[u]);
                            assert(dd < pre_buckets.len());
                            assert(pre_buckets[dd] == Some(old_roots@[u]));
                        }
                    }
                    assert(!Self::in_buckets(buckets@, x)) by {
                        if Self::in_buckets(buckets@, x) {
                            let dd = choose|dd: int|
                                0 <= dd < buckets@.len() && buckets@[dd] == Some(x);
                            assert(dd < pre_buckets.len());
                            assert(pre_buckets[dd] == Some(x));
                        }
                    }
                }
            }
            let ghost filled = buckets@;
            buckets[d] = Some(x);
            proof {
                assert(buckets@ == filled.update(d as int, Some(x)));
                assert forall|dd: int|
                    0 <= dd < buckets@.len() && (#[trigger] buckets@[dd]) is Some implies self
                    .alive(buckets@[dd].unwrap() as int) && self.parent_of(
                    buckets@[dd].unwrap() as int,
                ) is None by {
                    if dd != d {
                        assert(buckets@[dd] == filled[dd]);
                    }
                }
                assert forall|d1: int, d2: int|
                    0 <= d1 < buckets@.len() && 0 <= d2 < buckets@.len() && d1 != d2 && (
                    #[trigger] buckets@[d1]) is Some && (#[trigger] buckets@[d2]) is Some implies
                    buckets@[d1] != buckets@[d2] by {
                    if d1 == d {
                        if filled[d2] == Some(x) {
                            assert(Self::in_buckets(filled, x));
                        }
                    } else if d2 == d {
                        if filled[d1] == Some(x) {
                            assert(Self::in_buckets(filled, x));
                        }
                    }
                }
                assert forall|u: int|
                    t + 1 <= u < old_roots@.len() implies !Self::in_buckets(
                    buckets@,
                    #[trigger] old_roots@[u],
                ) by {
                    if Self::in_buckets(buckets@, old_roots@[u]) {
                        let dd = choose|dd: int|
                            0 <= dd < buckets@.len() && buckets@[dd] == Some(old_roots@[u]);
                        if dd == d {
                            assert(old_roots@[u] == x);
                        } else {
                            assert(filled[dd] == Some(old_roots@[u]));
                        }
                    }
                }
                assert forall|i: int|
                    self.alive(i) && self.parent_of(i) is None implies Self::in_buckets(
                    buckets@,
                    i as usize,
                ) || (exists|u: int|
                    t + 1 <= u < old_roots@.len() && old_roots@[u] == i as usize) by {
                    if i == x as int {
                        assert(buckets@[d as int] == Some(x));
                    } else if Self::in_buckets(filled, i as usize) {
                        let dd = choose|dd: int|
                            0 <= dd < filled.len() && filled[dd] == Some(i as usize);
                        assert(dd != d) by {
                            assert(filled[d as int] is None || filled[d as int] == Some(x));
                        }
                        assert(buckets@[dd] == Some(i as usize));
                    }
                }
            }
            t = t + 1;
        }
        // Rebuild the root list from the buckets.
        let ghost rb = *self;
        let mut d: usize = 0;
        while d < buckets.len()
            invariant
                rb.wf_loose(),
                self.entries@ == rb.entries@,
                self.n == rb.n,
                self.depth == rb.depth,
                self.low == rb.low,
                d <= buckets@.len(),
                forall|dd: int|
                    0 <= dd < buckets@.len() && (#[trigger] buckets@[dd]) is Some ==> rb.alive(
                        buckets@[dd].unwrap() as int,
                    ) && rb.parent_of(buckets@[dd].unwrap() as int) is None,
                forall|d1: int, d2: int|
                    0 <= d1 < buckets@.len() && 0 <= d2 < buckets@.len() && d1 != d2 && (
                    #[trigger] buckets@[d1]) is Some && (#[trigger] buckets@[d2]) is Some
                        ==> buckets@[d1] != buckets@[d2],
                forall|i: int|
                    rb.alive(i) && rb.parent_of(i) is None ==> Self::in_buckets(
                        buckets@,
                        i as usize,
                    ),
                forall|w: int|
                    0 <= w < self.roots@.len() ==> exists|dd: int|
                        0 <= dd < d && buckets@[dd] == Some(#[trigger] self.roots@[w]),
                forall|dd: int|
                    0 <= dd < d && (#[trigger] buckets@[dd]) is Some ==> self.roots@.contains(
                        buckets@[dd].unwrap(),
                    ),
                self.roots@.no_duplicates(),
            decreases buckets@.len() - d,
        {
            let entry = buckets[d];
            match entry {
                Some(xx) => {
                    let ghost pre_roots = self.roots@;
                    self.roots.push(xx);
                    proof {
                        assert(self.roots@ == pre_roots.push(xx));
                        assert forall|w: int| 0 <= w < self.roots@.len() implies exists|dd: int|
                            0 <= dd < d + 1 && buckets@[dd] == Some(
                            #[trigger] self.roots@[w],
                        ) by {
                            if w < pre_roots.len() {
                                assert(self.roots@[w] == pre_roots[w]);
                                let dd = choose|dd: int|
                                    0 <= dd < d && buckets@[dd] == Some(pre_roots[w]);
                                assert(buckets@[dd] == Some(self.roots@[w]));
                            } else {
                                assert(self.roots@[w] == xx);
                                assert(buckets@[d as int] == Some(xx));
                            }
                        }
                        assert forall|dd: int|
                            0 <= dd < d + 1 && (#[trigger] buckets@[dd]) is Some implies self
                            .roots@.contains(buckets@[dd].unwrap()) by {
                            if dd < d {
                                let w = choose|w: int|
                                    0 <= w < pre_roots.len() && pre_roots[w] == buckets@[
                                        dd
                                    ].unwrap();
                                assert(self.roots@[w] == buckets@[dd].unwrap());
                            } else {
                                assert(self.roots@[self.roots@.len() - 1] == xx);
                            }
                        }
                        assert(self.roots@.no_duplicates()) by {
                            assert forall|a: int, b: int|
                                0 <= a < self.roots@.len() && 0 <= b < self.roots@.len() && a != b
                                    implies self.roots@[a] != self.roots@[b] by {
                                if a < pre_roots.len() && b < pre_roots.len() {
                                } else if a < pre_roots.len() {
                                    let dd = choose|dd: int|
                                        0 <= dd < d && buckets@[dd] == Some(pre_roots[a]);
                                    assert(self.roots@[b] == xx);
                                    assert(buckets@[d as int] == Some(xx));
                                } else if b < pre_roots.len() {
                                    let dd = choose|dd: int|
                                        0 <= dd < d && buckets@[dd] == Some(pre_roots[b]);
                                    assert(self.roots@[a] == xx);
                                    assert(buckets@[d as int] == Some(xx));
                                }
                            }
                        }
                    }
                },
                None => {},
            }
            d = d + 1;
        }
        proof {
            let post = *self;
            rb.lemma_wf_loose_transfer(post);
            assert forall|u: int| 0 <= u < post.roots@.len() implies {
                let r = (#[trigger] post.roots@[u]) as int;
                &&& post.alive(r)
                &&& post.parent_of(r) is None
            } by {
                let dd = choose|dd: int|
                    0 <= dd < buckets@.len() && buckets@[dd] == Some(post.roots@[u]);
                assert(buckets@[dd] is Some);
                let r = post.roots@[u] as int;
                assert(rb.alive(r) && rb.parent_of(r) is None);
            }
            assert forall|i: int|
                post.alive(i) && post.parent_of(i) is None implies post.roots@.contains(
                i as usize,
            ) by {
                assert(rb.alive(i) && rb.parent_of(i) is None);
                assert(Self::in_buckets(buckets@, i as usize));
                let dd = choose|dd: int|
                    0 <= dd < buckets@.len() && buckets@[dd] == Some(i as usize);
            }
            assert(post.wf_roots());
            assert(post.wf_count()) by {
                if post.n == 0 {
                    if post.roots@.len() > 0 {
                        let r = post.roots@[0] as int;
                        assert(post.alive(r));
                        assert(post.live_set().contains(r));
                        post.live_set().lemma_len0_is_empty();
                    }
                } else {
                    if exists|i: int| post.alive(i) {
                        let i = choose|i: int| post.alive(i);
                        post.lemma_exists_root(i);
                        let r = choose|r: int|
                            post.alive(r) && post.parent_of(r) is None && post.key_of(r)
                                <= post.key_of(i);
                        assert(post.roots@.contains(r as usize));
                    } else {
                        assert(post.live_set() =~= Set::<int>::empty());
                    }
                }
            }
            assert(post.live() =~= orig.live());
        }
    }

    /// Detach the last child of the parentless entry `m` and make it a
    /// root.
    fn promote_child(&mut self, m: usize)
        requires
            old(self).wf(),
            old(self).alive(m as int),
            old(self).parent_of(m as int) is None,
            old(self).children_of(m as int).len() > 0,
        ensures
            final(self).wf(),
            final(self).slots() == old(self).slots(),
            final(self).n == old(self).n,
            final(self).live() == old(self).live(),
            final(self).depth == old(self).depth,
            final(self).low == old(self).low,
            forall|i: int|
                0 <= i < old(self).slots() ==> final(self).alive(i) == old(self).alive(i)
                    && final(self).key_of(i) == old(self).key_of(i) && final(self).val_of(i) == old(
                    self,
                ).val_of(i) && final(self).gen_of(i) == old(self).gen_of(i),
            final(self).children_of(m as int) == old(self).children_of(m as int).drop_last(),
            final(self).parent_of(m as int) is None,
            final(self).alive(m as int),
    {
        let ghost pre = *old(self);
        let copt = self.entries[m].children.pop();
        let c = copt.unwrap();
        proof {
            assert(pre.children_of(m as int).contains(c)) by {
                assert(pre.children_of(m as int)[pre.children_of(m as int).len() - 1] == c);
            }
            assert(pre.alive(c as int) && pre.parent_of(c as int) == Some(m));
        }
        self.entries[c].parent = None;
        self.roots.push(c);
        proof {
            let post = *self;
            let mi = m as int;
            let ci = c as int;
            assert(pre.slots() <= 0xFFFF_FFFF);
            let oldch = pre.children_of(mi);
            let newch = post.children_of(mi);
            assert(newch == oldch.drop_last());
            assert(c != m) by {
                assert(pre.parent_of(ci) == Some(m));
                assert(pre.parent_of(mi) is None);
            }
            assert forall|i: int, u: int|
                post.alive(i) && 0 <= u < post.children_of(i).len() implies {
                let cc = (#[trigger] post.children_of(i)[u]) as int;
                &&& post.alive(cc)
                &&& post.parent_of(cc) == Some(i as usize)
            } by {
                assert(pre.alive(i));
                if i == mi {
                    assert(newch[u] == oldch[u]);
                    let cc = oldch[u] as int;
                    assert(pre.alive(cc) && pre.parent_of(cc) == Some(m));
                    assert(oldch.no_duplicates());
                    assert(oldch[u] != c);
                } else {
                    assert(post.children_of(i) == pre.children_of(i));
                    let cc = pre.children_of(i)[u] as int;
                    assert(pre.alive(cc) && pre.parent_of(cc) == Some(i as usize));
                    if cc == ci {
                        assert(pre.parent_of(ci) == Some(m));
                        assert(i as usize == m);
                        assert(0 <= i < pre.slots());
                        assert(i == mi);
                        assert(false);
                    }
                }
            }
            assert forall|i: int| post.alive(i) implies (
            #[trigger] post.children_of(i)).no_duplicates() by {
                assert(pre.alive(i));
                assert(pre.children_of(i).no_duplicates());
                if i == mi {
                    assert forall|a: int, b: int|
                        0 <= a < newch.len() && 0 <= b < newch.len() && a != b implies newch[a]
                        != newch[b] by {
                        assert(newch[a] == oldch[a] && newch[b] == oldch[b]);
                    }
                }
            }
            assert forall|j: int|
                post.alive(j) && (#[trigger] post.parent_of(j)) is Some implies {
                let q = post.parent_of(j).unwrap() as int;
                &&& post.alive(q)
                &&& post.children_of(q).contains(j as usize)
                &&& post.key_of(q) <= post.key_of(j)
                &&& post.depth@.contains_key(q)
                &&& post.depth@.contains_key(j)
                &&& post.depth@[q] < post.depth@[j]
            } by {
                assert(j != ci);
                assert(pre.alive(j) && pre.parent_of(j) == post.parent_of(j));
                let q = pre.parent_of(j).unwrap() as int;
                assert(pre.children_of(q).contains(j as usize));
                if q == mi {
                    let w = choose|w: int| 0 <= w < oldch.len() && oldch[w] == j as usize;
                    assert(0 <= j < pre.slots());
                    assert(j as usize != c);
                    assert(oldch[oldch.len() - 1] == c);
                    assert(w != oldch.len() - 1);
                    assert(newch[w] == j as usize);
                }
            }
            assert forall|i: int| post.alive(i) implies #[trigger] post.depth@.contains_key(
                i,
            ) by {
                assert(pre.alive(i));
                assert(pre.low@ <= pre.depth@[i]);
                assert(pre.depth@.contains_key(i));
                assert(post.depth@ == pre.depth@);
            }
            assert forall|i: int| post.alive(i) implies post.low@ <= (
            #[trigger] post.depth@[i]) by {
                assert(pre.alive(i));
                assert(pre.low@ <= pre.depth@[i]);
                assert(post.depth@ == pre.depth@ && post.low@ == pre.low@);
            }
            assert(post.wf_entries());
            assert(post.roots@ == pre.roots@.push(c));
            assert forall|u: int| 0 <= u < post.roots@.len() implies {
                let r = (#[trigger] post.roots@[u]) as int;
                &&& post.alive(r)
                &&& post.parent_of(r) is None
            } by {
                if u < pre.roots@.len() {
                    let r = pre.roots@[u] as int;
                    assert(pre.alive(r) && pre.parent_of(r) is None);
                    assert(r != ci);
                }
            }
            assert(post.roots@.no_duplicates()) by {
                assert forall|a: int, b: int|
                    0 <= a < post.roots@.len() && 0 <= b < post.roots@.len() && a != b implies
                    post.roots@[a] != post.roots@[b] by {
                    if a < pre.roots@.len() && b < pre.roots@.len() {
                    } else if a < pre.roots@.len() {
                        let r = pre.roots@[a] as int;
                        assert(pre.alive(r) && pre.parent_of(r) is None);
                        assert(r != ci);
                    } else if b < pre.roots@.len() {
                        let r = pre.roots@[b] as int;
                        assert(pre.alive(r) && pre.parent_of(r) is None);
                        assert(r != ci);
                    }
                }
            }
            assert forall|i: int|
                post.alive(i) && post.parent_of(i) is None implies post.roots@.contains(
                i as usize,
            ) by {
                if i == ci {
                    assert(post.roots@[post.roots@.len() - 1] == c);
                } else {
                    assert(pre.alive(i) && pre.parent_of(i) is None);
                    let u = choose|u: int|
                        0 <= u < pre.roots@.len() && pre.roots@[u] == i as usize;
                    assert(post.roots@[u] == i as usize);
                }
            }
            assert(post.wf_roots());
            assert(post.live_set() =~= pre.live_set());
            assert(post.wf_count()) by {
                assert(pre.live_set().contains(mi));
                if pre.n == 0 {
                    pre.live_set().lemma_len0_is_empty();
                }
            }
            assert(post.live() =~= pre.live());
        }
    }

    /// Remove the parentless entry `m` from the heap: promote its
    /// children to roots, drop it from the root list, and consolidate.
    fn remove_root(&mut self, m: usize)
        requires
            old(self).wf(),
            old(self).alive(m as int),
            old(self).parent_of(m as int) is None,
        ensures
            final(self).wf(),
            final(self).slots() == old(self).slots(),
            final(self).n == old(self).n - 1,
            final(self).live() == old(self).live().remove(m as int),
            !final(self).alive(m as int),
            forall|i: int|
                0 <= i < old(self).slots() ==> final(self).key_of(i) == old(self).key_of(i)
                    && final(self).val_of(i) == old(self).val_of(i) && final(self).gen_of(i) == old(
                    self,
                ).gen_of(i),
            forall|i: int|
                0 <= i < old(self).slots() && i != m ==> final(self).alive(i) == old(self).alive(
                    i,
                ),
    {
        let ghost orig = *old(self);
        while self.entries[m].children.len() > 0
            invariant
                self.wf(),
                self.alive(m as int),
                self.parent_of(m as int) is None,
                self.slots() == orig.slots(),
                self.n == orig.n,
                self.live() == orig.live(),
                self.depth == orig.depth,
                self.low == orig.low,
                forall|i: int|
                    0 <= i < orig.slots() ==> self.alive(i) == orig.alive(i) && self.key_of(i)
                        == orig.key_of(i) && self.val_of(i) == orig.val_of(i) && self.gen_of(i)
                        == orig.gen_of(i),
            decreases self.children_of(m as int).len(),
        {
            self.promote_child(m);
        }
        let ghost mid = *self;
        proof {
            assert(mid.roots@.contains(m));
        }
        let rlen = self.roots.len();
        let mut pos: usize = 0;
        while pos < rlen && self.roots[pos] != m
            invariant
                *self == mid,
                mid.wf(),
                mid.alive(m as int),
                rlen == mid.roots@.len(),
                0 <= pos <= rlen,
                forall|u: int| 0 <= u < pos ==> mid.roots@[u] != m,
                mid.roots@.contains(m),
            decreases rlen - pos,
        {
            pos = pos + 1;
        }
        proof {
            if pos == rlen {
                let w = choose|w: int| 0 <= w < mid.roots@.len() && mid.roots@[w] == m;
                assert(false);
            }
            assert(mid.roots@[pos as int] == m);
        }
        self.roots.remove(pos);
        self.entries[m].alive = false;
        proof {
            assert(mid.live_set().contains(m as int));
            if mid.n == 0 {
                mid.live_set().lemma_len0_is_empty();
            }
        }
        self.n = self.n - 1;
        proof {
            let post = *self;
            let mi = m as int;
            assert(post.entries@ == mid.entries@.update(
                mi,
                Entry { alive: false, ..mid.entries@[mi] },
            ));
            assert(mid.children_of(mi).len() == 0);
            assert forall|i: int, u: int|
                post.alive(i) && 0 <= u < post.children_of(i).len() implies {
                let cc = (#[trigger] post.children_of(i)[u]) as int;
                &&& post.alive(cc)
                &&& post.parent_of(cc) == Some(i as usize)
            } by {
                assert(i != mi);
                assert(mid.alive(i));
                assert(post.children_of(i) == mid.children_of(i));
                let cc = mid.children_of(i)[u] as int;
                assert(mid.alive(cc) && mid.parent_of(cc) == Some(i as usize));
                assert(cc != mi) by {
                    if cc == mi {
                        assert(mid.parent_of(mi) is None);
                    }
                }
            }
            assert forall|i: int| post.alive(i) implies (
            #[trigger] post.children_of(i)).no_duplicates() by {
                assert(mid.alive(i));
                assert(mid.children_of(i).no_duplicates());
            }
            assert forall|j: int|
                post.alive(j) && (#[trigger] post.parent_of(j)) is Some implies {
                let q = post.parent_of(j).unwrap() as int;
                &&& post.alive(q)
                &&& post.children_of(q).contains(j as usize)
                &&& post.key_of(q) <= post.key_of(j)
                &&& post.depth@.contains_key(q)
                &&& post.depth@.contains_key(j)
                &&& post.depth@[q] < post.depth@[j]
            } by {
                assert(j != mi);
                assert(mid.alive(j) && mid.parent_of(j) == post.parent_of(j));
                let q = mid.parent_of(j).unwrap() as int;
                assert(mid.children_of(q).contains(j as usize));
                assert(q != mi) by {
                    if q == mi {
                        assert(mid.children_of(mi).len() == 0);
                    }
                }
            }
            assert forall|i: int| post.alive(i) implies #[trigger] post.depth@.contains_key(
                i,
            ) by {
                assert(mid.alive(i));
                assert(mid.low@ <= mid.depth@[i]);
                assert(mid.depth@.contains_key(i));
                assert(post.depth@ == mid.depth@);
            }
            assert forall|i: int| post.alive(i) implies post.low@ <= (
            #[trigger] post.depth@[i]) by {
                assert(mid.alive(i));
                assert(mid.low@ <= mid.depth@[i]);
                assert(post.depth@ == mid.depth@ && post.low@ == mid.low@);
            }
            assert(post.wf_entries());
            let oldr = mid.roots@;
            let newr = post.roots@;
            assert(newr == oldr.remove(pos as int));
            assert forall|u: int| 0 <= u < newr.len() implies {
                let r = (#[trigger] newr[u]) as int;
                &&& post.alive(r)
                &&& post.parent_of(r) is None
            } by {
                let u2 = if u < pos {
                    u
                } else {
                    u + 1
                };
                assert(newr[u] == oldr[u2]);
                let r = oldr[u2] as int;
                assert(mid.alive(r) && mid.parent_of(r) is None);
                assert(oldr.no_duplicates());
                assert(oldr[pos as int] == m);
                assert(u2 != pos);
                assert(r != mi);
            }
            assert(newr.no_duplicates()) by {
                assert forall|a: int, b: int|
                    0 <= a < newr.len() && 0 <= b < newr.len() && a != b implies newr[a] != newr[
                    b
                ] by {
                    let a2 = if a < pos {
                        a
                    } else {
                        a + 1
                    };
                    let b2 = if b < pos {
                        b
                    } else {
                        b + 1
                    };
                    assert(newr[a] == oldr[a2] && newr[b] == oldr[b2]);
                }
            }
            assert forall|i: int|
                post.alive(i) && post.parent_of(i) is None implies newr.contains(i as usize) by {
                assert(mid.alive(i) && mid.parent_of(i) is None);
                assert(i != mi);
                let w = choose|w: int| 0 <= w < oldr.len() && oldr[w] == i as usize;
                assert(w != pos);
                if w < pos {
                    assert(newr[w] == i as usize);
                } else {
                    assert(newr[w - 1] == i as usize);
                }
            }
            assert(post.wf_roots());
            assert(post.live_set() =~= mid.live_set().remove(mi));
            assert(post.n == mid.live_set().remove(mi).len());
            assert(post.wf_count()) by {
                if post.n == 0 {
                    if post.roots@.len() > 0 {
                        let r = post.roots@[0] as int;
                        assert(post.alive(r));
                        assert(post.live_set().contains(r));
                        post.live_set().lemma_len0_is_empty();
                    }
                } else {
                    if exists|i: int| post.alive(i) {
                        let i = choose|i: int| post.alive(i);
                        post.lemma_exists_root(i);
                        let r = choose|r: int|
                            post.alive(r) && post.parent_of(r) is None && post.key_of(r)
                                <= post.key_of(i);
                        assert(post.roots@.contains(r as usize));
                    } else {
                        assert(post.live_set() =~= Set::<int>::empty());
                    }
                }
            }
            assert(post.live() =~= mid.live().remove(mi));
        }
        if self.roots.len() > 0 {
            self.consolidate();
        }
        proof {
            assert(final(self).live() =~= orig.live().remove(m as int));
        }
    }

    /// Remove and return a minimum-key entry, or `None` on an empty heap.
    /// The returned key is no larger than the key of any entry present
    /// before the call.
    pub fn pop(&mut self) -> (r: Option<(u64, V)>)
        requires
            old(self).wf(),
        ensures
            final(self).wf(),
            final(self).slots() == old(self).slots(),
            forall|i: int|
                0 <= i < old(self).slots() ==> final(self).key_of(i) == old(self).key_of(i)
                    && final(self).val_of(i) == old(self).val_of(i) && final(self).gen_of(i) == old(
                    self,
                ).gen_of(i),
            match r {
                None => old(self).live() == Map::<int, (u64, V)>::empty() && final(self).live()
                    == old(self).live(),
                Some(kv) => {
                    &&& exists|m: int|
                        {
                            &&& old(self).alive(m)
                            &&& kv.0 == old(self).key_of(m)
                            &&& kv.1 == old(self).val_of(m)
                            &&& final(self).live() == old(self).live().remove(m)
                            &&& !final(self).alive(m)
                        }
                    &&& forall|i: int| old(self).alive(i) ==> kv.0 <= old(self).key_of(i)
                },
            },
    {
        if self.roots.len() == 0 {
            proof {
                if exists|i: int| self.alive(i) {
                    let i = choose|i: int| self.alive(i);
                    assert(self.live_set().contains(i));
                    self.live_set().lemma_len0_is_empty();
                }
                assert(self.live() =~= Map::<int, (u64, V)>::empty());
            }
            return None;
        }
        let mut best = self.roots[0];
        let mut t: usize = 1;
        while t < self.roots.len()
            invariant
                self.wf(),
                1 <= t <= self.roots@.len(),
                self.roots@.contains(best),
                self.alive(best as int),
                forall|u: int|
                    0 <= u < t ==> self.key_of(best as int) <= self.key_of(
                        (#[trigger] self.roots@[u]) as int,
                    ),
            decreases self.roots@.len() - t,
        {
            let cand = self.roots[t];
            proof {
                assert(self.alive(cand as int));
            }
            if self.entries[cand].key < self.entries[best].key {
                best = cand;
            }
            t = t + 1;
        }
        let m = best;
        proof {
            assert forall|i: int| self.alive(i) implies self.key_of(m as int) <= self.key_of(
                i,
            ) by {
                self.lemma_exists_root(i);
                let r = choose|r: int|
                    self.alive(r) && self.parent_of(r) is None && self.key_of(r) <= self.key_of(i);
                assert(self.roots@.contains(r as usize));
                let u = choose|u: int| 0 <= u < self.roots@.len() && self.roots@[u] == r as usize;
                assert(self.key_of(m as int) <= self.key_of(self.roots@[u] as int));
            }
        }
        let k = self.entries[m].key;
        let v = self.entries[m].val;
        self.remove_root(m);
        proof {
            let ghost om = m as int;
            assert(old(self).alive(om) && k == old(self).key_of(om) && v == old(self).val_of(om)
                && final(self).live() == old(self).live().remove(om) && !final(self).alive(om));
        }
        Some((k, v))
    }

    /// Remove the entry `h` refers to, wherever it sits in the heap, and
    /// return its key and payload; a handle whose entry was already
    /// extracted yields `None` and leaves the heap unchanged. Verified
    /// callers must pass a handle this heap issued (`owns`); the runtime
    /// checks answer `None` for anything else.
    pub fn delete(&mut self, elem: NodePtr) -> (r: Option<(u64, V)>)
        requires
            old(self).wf(),
            old(self).owns(elem),
        ensures
            final(self).wf(),
            final(self).slots() == old(self).slots(),
            forall|i: int|
                0 <= i < old(self).slots() ==> final(self).key_of(i) == old(self).key_of(i)
                    && final(self).val_of(i) == old(self).val_of(i) && final(self).gen_of(i) == old(
                    self,
                ).gen_of(i),
            match r {
                None => !old(self).handle_live(elem) && final(self).live() == old(self).live(),
                Some(kv) => {
                    &&& old(self).handle_live(elem)
                    &&& kv.0 == old(self).key_of(elem.idx as int)
                    &&& kv.1 == old(self).val_of(elem.idx as int)
                    &&& final(self).live() == old(self).live().remove(elem.idx as int)
                },
            },
    {
        if elem.idx >= self.entries.len() {
            return None;
        }
        if self.entries[elem.idx].gen != elem.gen || !self.entries[elem.idx].alive {
            return None;
        }
        let x = elem.idx;
        let parent = self.entries[x].parent;
        match parent {
            Some(p) => {
                proof {
                    assert(self.alive(x as int) && self.parent_of(x as int) is Some);
                    assert(self.alive(p as int));
                }
                self.cut(x, p);
                self.cascading_cut(p);
            },
            None => {},
        }
        let k = self.entries[x].key;
        let v = self.entries[x].val;
        self.remove_root(x);
        Some((k, v))
    }

    /// Changing only an entry's mark bit keeps the heap well-formed; the
    /// invariant does not constrain marks.
    proof fn lemma_mark_change(self, post: FibonacciHeap<V>, x: usize, b: bool)
        requires
            self.wf(),
            self.alive(x as int),
            post.entries@ == self.entries@.update(
                x as int,
                Entry { mark: b, ..self.entries@[x as int] },
            ),
            post.roots@ == self.roots@,
            post.n == self.n,
            post.depth == self.depth,
            post.low == self.low,
        ensures
            post.wf(),
            post.live() == self.live(),
    {
        let xi = x as int;
        assert forall|j: int|
            post.alive(j) && (#[trigger] post.parent_of(j)) is Some implies {
            let q = post.parent_of(j).unwrap() as int;
            &&& post.alive(q)
            &&& post.children_of(q).contains(j as usize)
            &&& post.key_of(q) <= post.key_of(j)
            &&& post.depth@.contains_key(q)
            &&& post.depth@.contains_key(j)
            &&& post.depth@[q] < post.depth@[j]
        } by {
            assert(self.alive(j));
            let q = self.parent_of(j).unwrap() as int;
            assert(self.children_of(q).contains(j as usize));
        }
        assert forall|i: int, t: int|
            post.alive(i) && 0 <= t < post.children_of(i).len() implies {
            let c = (#[trigger] post.children_of(i)[t]) as int;
            &&& post.alive(c)
            &&& post.parent_of(c) == Some(i as usize)
        } by {
            assert(self.alive(i));
            let c = self.children_of(i)[t] as int;
            assert(self.alive(c));
        }
        assert forall|i: int| post.alive(i) implies (
        #[trigger] post.children_of(i)).no_duplicates() by {
            assert(self.alive(i));
            assert(self.children_of(i).no_duplicates());
        }
        assert forall|i: int| post.alive(i) implies #[trigger] post.depth@.contains_key(i) by {
            assert(self.alive(i));
            assert(self.low@ <= self.depth@[i]);
            assert(self.depth@.contains_key(i));
            assert(post.depth@ == self.depth@);
        }
        assert forall|i: int| post.alive(i) implies post.low@ <= (#[trigger] post.depth@[i]) by {
            assert(self.alive(i));
            assert(self.low@ <= self.depth@[i]);
            assert(post.depth@ == self.depth@ && post.low@ == self.low@);
        }
        assert(post.wf_entries());
        assert forall|t: int| 0 <= t < post.roots@.len() implies {
            let r = (#[trigger] post.roots@[t]) as int;
            &&& post.alive(r)
            &&& post.parent_of(r) is None
        } by {
            let r = self.roots@[t] as int;
            assert(self.alive(r) && self.parent_of(r) is None);
        }
        assert forall|i: int|
            post.alive(i) && post.parent_of(i) is None implies post.roots@.contains(
            i as usize,
        ) by {
            assert(self.alive(i) && self.parent_of(i) is None);
        }
        assert(post.wf_roots());
        assert(post.live_set() =~= self.live_set());
        assert(post.wf_count());
        assert(post.live() =~= self.live());
    }

    /// Lowering an entry's key keeps the heap well-formed, provided the
    /// new key does not undercut the entry's parent.
    proof fn lemma_decrease_key_wf(
        self,
        post: FibonacciHeap<V>,
        x: usize,
        new_key: u64,
    )
        requires
            self.wf(),
            self.alive(x as int),
            new_key <= self.key_of(x as int),
            self.parent_of(x as int) is Some ==> self.key_of(
                self.parent_of(x as int).unwrap() as int,
            ) <= new_key,
            post.entries@ == self.entries@.update(
                x as int,
                Entry { key: new_key, ..self.entries@[x as int] },
            ),
            post.roots@ == self.roots@,
            post.n == self.n,
            post.depth == self.depth,
            post.low == self.low,
        ensures
            post.wf(),
            post.live() == self.live().insert(x as int, (new_key, self.val_of(x as int))),
    {
        let xi = x as int;
        assert forall|j: int|
            post.alive(j) && (#[trigger] post.parent_of(j)) is Some implies {
            let q = post.parent_of(j).unwrap() as int;
            &&& post.alive(q)
            &&& post.children_of(q).contains(j as usize)
            &&& post.key_of(q) <= post.key_of(j)
            &&& post.depth@.contains_key(q)
            &&& post.depth@.contains_key(j)
            &&& post.depth@[q] < post.depth@[j]
        } by {
            assert(self.alive(j));
            let q = self.parent_of(j).unwrap() as int;
            assert(self.children_of(q).contains(j as usize));
            assert(self.key_of(q) <= self.key_of(j));
            if q == xi {
                assert(post.key_of(q) == new_key);
                assert(new_key <= self.key_of(q));
            }
            if j == xi {
                assert(self.key_of(q) <= new_key);
            }
        }
        assert forall|i: int, t: int|
            post.alive(i) && 0 <= t < post.children_of(i).len() implies {
            let c = (#[trigger] post.children_of(i)[t]) as int;
            &&& post.alive(c)
            &&& post.parent_of(c) == Some(i as usize)
        } by {
            assert(self.alive(i));
            let c = self.children_of(i)[t] as int;
            assert(self.alive(c));
        }
        assert forall|i: int| post.alive(i) implies (
        #[trigger] post.children_of(i)).no_duplicates() by {
            assert(self.alive(i));
            assert(self.children_of(i).no_duplicates());
        }
        assert forall|i: int| post.alive(i) implies #[trigger] post.depth@.contains_key(i) by {
            assert(self.alive(i));
            assert(self.low@ <= self.depth@[i]);
            assert(self.depth@.contains_key(i));
            assert(post.depth@ == self.depth@);
        }
        assert forall|i: int| post.alive(i) implies post.low@ <= (#[trigger] post.depth@[i]) by {
            assert(self.alive(i));
            assert(self.low@ <= self.depth@[i]);
            assert(post.depth@ == self.depth@ && post.low@ == self.low@);
        }
        assert(post.wf_entries());
        assert forall|t: int| 0 <= t < post.roots@.len() implies {
            let r = (#[trigger] post.roots@[t]) as int;
            &&& post.alive(r)
            &&& post.parent_of(r) is None
        } by {
            let r = self.roots@[t] as int;
            assert(self.alive(r) && self.parent_of(r) is None);
        }
        assert forall|i: int|
            post.alive(i) && post.parent_of(i) is None implies post.roots@.contains(
            i as usize,
        ) by {
            assert(self.alive(i) && self.parent_of(i) is None);
        }
        assert(post.wf_roots());
        assert(post.live_set() =~= self.live_set());
        assert(post.wf_count());
        assert(post.live() =~= self.live().insert(xi, (new_key, self.val_of(xi))));
    }
}

} // verus!
