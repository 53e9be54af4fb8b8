//! The cache core: slot arena, free list, recency list and key index.

use vstd::prelude::*;
use vstd::hash_map::StringHashMap;

verus! {

/// One occupied arena slot: a cache entry together with its links in the
/// recency list.  `previous` points one step toward the head (`None` at
/// the head itself), `next` one step toward the tail (`None` at the tail).
pub(crate) struct Node<V> {
    pub(crate) previous: Option<usize>,
    pub(crate) next: Option<usize>,
    pub(crate) key: String,
    pub(crate) value: V,
}

/// The keys of an entry sequence, in the same order.
pub open spec fn keys_of<V>(es: Seq<(Seq<char>, V)>) -> Seq<Seq<char>> {
    es.map_values(|e: (Seq<char>, V)| e.0)
}

/// The values of an entry sequence, in the same order.
pub open spec fn values_of<V>(es: Seq<(Seq<char>, V)>) -> Seq<V> {
    es.map_values(|e: (Seq<char>, V)| e.1)
}

/// Whether some entry of `es` carries the key `k`.
pub open spec fn has_key<V>(es: Seq<(Seq<char>, V)>, k: Seq<char>) -> bool {
    exists|i: int| 0 <= i < es.len() && (#[trigger] es[i]).0 == k
}

/// A position of `es` whose entry carries the key `k`; meaningful only
/// when `has_key(es, k)` holds, and unique when the keys of `es` are
/// distinct.
pub open spec fn key_index<V>(es: Seq<(Seq<char>, V)>, k: Seq<char>) -> int {
    choose|i: int| 0 <= i < es.len() && (#[trigger] es[i]).0 == k
}

/// The recency-list threading discipline: `ord` lists slot indices from
/// head to tail, and the nodes stored at those slots in `buf` point at
/// their neighbours in `ord`.
pub(crate) open spec fn links_ok<V>(buf: Seq<Option<Node<V>>>, ord: Seq<int>) -> bool {
    &&& forall|i: int| 0 <= i < ord.len() ==> 0 <= #[trigger] ord[i] < buf.len()
    &&& forall|i: int| 0 <= i < ord.len() ==> buf[#[trigger] ord[i]] is Some
    &&& forall|i: int|
        0 <= i < ord.len() ==> (buf[#[trigger] ord[i]]->Some_0.previous == if i == 0 {
            None::<usize>
        } else {
            Some(ord[i - 1] as usize)
        })
    &&& forall|i: int|
        0 <= i < ord.len() ==> (buf[#[trigger] ord[i]]->Some_0.next == if i == ord.len() - 1 {
            None::<usize>
        } else {
            Some(ord[i + 1] as usize)
        })
}

/// Overwrites the `previous` link of the node in slot `s`, leaving the
/// rest of the node and every other slot unchanged.
fn set_prev<V>(buf: &mut Vec<Option<Node<V>>>, s: usize, p: Option<usize>)
    requires
        s < old(buf)@.len(),
        old(buf)@[s as int] is Some,
    ensures
        final(buf)@ == old(buf)@.update(
            s as int,
            Some(
                (Node {
                    previous: p,
                    next: old(buf)@[s as int]->Some_0.next,
                    key: old(buf)@[s as int]->Some_0.key,
                    value: old(buf)@[s as int]->Some_0.value,
                }),
            ),
        ),
{
    let slot = &mut buf[s];
    match slot {
        Some(node) => {
            node.previous = p;
        },
        None => {},
    }
}

/// Overwrites the `next` link of the node in slot `s`, leaving the rest
/// of the node and every other slot unchanged.
fn set_next<V>(buf: &mut Vec<Option<Node<V>>>, s: usize, n: Option<usize>)
    requires
        s < old(buf)@.len(),
        old(buf)@[s as int] is Some,
    ensures
        final(buf)@ == old(buf)@.update(
            s as int,
            Some(
                (Node {
                    previous: old(buf)@[s as int]->Some_0.previous,
                    next: n,
                    key: old(buf)@[s as int]->Some_0.key,
                    value: old(buf)@[s as int]->Some_0.value,
                }),
            ),
        ),
{
    let slot = &mut buf[s];
    match slot {
        Some(node) => {
            node.next = n;
        },
        None => {},
    }
}

/// A walk over a cache's values in recency order, most recently used
/// first.  It borrows the cache read-only, so the cache cannot change
/// while the walk is alive.
pub struct LruCacheIter<'a, V> {
    current_idx: Option<usize>,
    buffer: &'a Vec<Option<Node<V>>>,
    order: Ghost<Seq<int>>,
    pos: Ghost<int>,
}

impl<'a, V> LruCacheIter<'a, V> {
    /// Iterator validity: the walk stands at some position of the
    /// recency order threaded through the arena it borrowed.
    pub closed spec fn wf(self) -> bool {
        &&& links_ok(self.buffer@, self.order@)
        &&& 0 <= self.pos@ <= self.order@.len()
        &&& (self.current_idx == if self.pos@ < self.order@.len() {
            Some(self.order@[self.pos@] as usize)
        } else {
            None::<usize>
        })
    }

    /// The values the walk has yet to produce, in order.
    pub closed spec fn remaining(self) -> Seq<V> {
        Seq::new(
            (self.order@.len() - self.pos@) as nat,
            |i: int| self.buffer@[self.order@[self.pos@ + i]]->Some_0.value,
        )
    }

    /// Produces the next value in recency order, or `None` once the
    /// walk is exhausted.
    pub fn next(&mut self) -> (r: Option<&'a V>)
        requires
            old(self).wf(),
        ensures
            final(self).wf(),
            (match r {
                Option::None => old(self).remaining().len() == 0 && final(self).remaining() == old(
                    self,
                ).remaining(),
                Option::Some(v) => {
                    &&& old(self).remaining().len() > 0
                    &&& *v == old(self).remaining()[0]
                    &&& final(self).remaining() == old(self).remaining().drop_first()
                },
            }),
    {
        match self.current_idx {
            Some(index) => {
                let buf: &'a Vec<Option<Node<V>>> = self.buffer;
                let n = buf.len();
                proof {
                    assert(n as int == buf@.len());
                    assert(0 <= old(self).order@[old(self).pos@] < n as int);
                    assert(index as int == old(self).order@[old(self).pos@]);
                }
                match &buf[index] {
                    Some(node) => {
                        self.current_idx = node.next;
                        self.pos = Ghost(self.pos@ + 1);
                        proof {
                            assert(self.remaining() =~= old(self).remaining().drop_first());
                        }
                        Some(&node.value)
                    },
                    None => {
                        proof {
                            assert(index as int == old(self).order@[old(self).pos@]);
                            assert(self.buffer@[old(self).order@[old(self).pos@]] is Some);
                        }
                        None
                    },
                }
            },
            None => None,
        }
    }
}

/// Removing a position from a duplicate-free sequence keeps it
/// duplicate-free and removes exactly the element at that position.
proof fn lemma_remove_contains(ord: Seq<int>, p: int)
    requires
        ord.no_duplicates(),
        0 <= p < ord.len(),
    ensures
        ord.remove(p).no_duplicates(),
        forall|s: int| #[trigger] ord.remove(p).contains(s) <==> (ord.contains(s) && s != ord[p]),
{
    ord.remove_ensures(p);
    let ord1 = ord.remove(p);
    assert forall|i: int, j: int|
        0 <= i < ord1.len() && 0 <= j < ord1.len() && i != j implies ord1[i] != ord1[j] by {
        let i0 = if i < p {
            i
        } else {
            i + 1
        };
        let j0 = if j < p {
            j
        } else {
            j + 1
        };
        assert(ord1[i] == ord[i0] && ord1[j] == ord[j0]);
    }
    assert forall|s: int| #[trigger] ord1.contains(s) <==> (ord.contains(s) && s != ord[p]) by {
        if ord1.contains(s) {
            let w = choose|w: int| 0 <= w < ord1.len() && ord1[w] == s;
            let w0 = if w < p {
                w
            } else {
                w + 1
            };
            assert(ord[w0] == s && w0 != p);
            assert(ord.contains(s));
            assert(s != ord[p]);
        }
        if ord.contains(s) && s != ord[p] {
            let w0 = choose|w0: int| 0 <= w0 < ord.len() && ord[w0] == s;
            assert(w0 != p);
            let w = if w0 < p {
                w0
            } else {
                w0 - 1
            };
            assert(ord1[w] == s);
            assert(ord1.contains(s));
        }
    }
}

/// After the node at position `p` of the recency order has been vacated
/// and its two neighbours spliced together, the remaining order is
/// threaded correctly and no other slot has changed.
proof fn lemma_splice_links<V>(
    buf0: Seq<Option<Node<V>>>,
    buf1: Seq<Option<Node<V>>>,
    ord0: Seq<int>,
    p: int,
)
    requires
        links_ok(buf0, ord0),
        ord0.no_duplicates(),
        0 <= p < ord0.len(),
        buf1.len() == buf0.len(),
        buf1[ord0[p]] is None,
        p > 0 ==> {
            let s = ord0[p - 1];
            &&& buf1[s] is Some
            &&& buf1[s]->Some_0.previous == buf0[s]->Some_0.previous
            &&& (buf1[s]->Some_0.next == if p == ord0.len() - 1 {
                None::<usize>
            } else {
                Some(ord0[p + 1] as usize)
            })
            &&& buf1[s]->Some_0.key == buf0[s]->Some_0.key
            &&& buf1[s]->Some_0.value == buf0[s]->Some_0.value
        },
        p < ord0.len() - 1 ==> {
            let s = ord0[p + 1];
            &&& buf1[s] is Some
            &&& (buf1[s]->Some_0.previous == if p == 0 {
                None::<usize>
            } else {
                Some(ord0[p - 1] as usize)
            })
            &&& buf1[s]->Some_0.next == buf0[s]->Some_0.next
            &&& buf1[s]->Some_0.key == buf0[s]->Some_0.key
            &&& buf1[s]->Some_0.value == buf0[s]->Some_0.value
        },
        forall|s: int|
            0 <= s < buf0.len() && s != ord0[p] && (p == 0 || s != ord0[p - 1]) && (p == ord0.len()
                - 1 || s != ord0[p + 1]) ==> buf1[s] == buf0[s],
    ensures
        links_ok(buf1, ord0.remove(p)),
        forall|i: int|
            0 <= i < ord0.remove(p).len() ==> #[trigger] ord0.remove(p)[i] == (if i < p {
                ord0[i]
            } else {
                ord0[i + 1]
            }),
        forall|s: int|
            0 <= s < buf0.len() ==> ((#[trigger] buf1[s]) is Some <==> (buf0[s] is Some && s
                != ord0[p])),
        forall|s: int|
            0 <= s < buf0.len() && s != ord0[p] && buf0[s] is Some ==> (#[trigger] buf1[s])
                ->Some_0.key == buf0[s]->Some_0.key && buf1[s]->Some_0.value == buf0[s]
                ->Some_0.value,
{
    ord0.remove_ensures(p);
    let ord1 = ord0.remove(p);
    assert forall|i: int| 0 <= i < ord1.len() implies {
        &&& 0 <= #[trigger] ord1[i] < buf1.len()
        &&& buf1[ord1[i]] is Some
        &&& (buf1[ord1[i]]->Some_0.previous == if i == 0 {
            None::<usize>
        } else {
            Some(ord1[i - 1] as usize)
        })
        &&& (buf1[ord1[i]]->Some_0.next == if i == ord1.len() - 1 {
            None::<usize>
        } else {
            Some(ord1[i + 1] as usize)
        })
    } by {
        let i0 = if i < p {
            i
        } else {
            i + 1
        };
        assert(ord1[i] == ord0[i0]);
        if i > 0 {
            let k0 = if i - 1 < p {
                i - 1
            } else {
                i
            };
            assert(ord1[i - 1] == ord0[k0]);
        }
        if i < ord1.len() - 1 {
            let k0 = if i + 1 < p {
                i + 1
            } else {
                i + 2
            };
            assert(ord1[i + 1] == ord0[k0]);
        }
    }
    assert forall|s: int| 0 <= s < buf0.len() implies ((#[trigger] buf1[s]) is Some <==> (buf0[s]
        is Some && s != ord0[p])) by {
        if s == ord0[p] {
        } else if p > 0 && s == ord0[p - 1] {
        } else if p < ord0.len() - 1 && s == ord0[p + 1] {
        } else {
            assert(buf1[s] == buf0[s]);
        }
    }
    assert forall|s: int|
        0 <= s < buf0.len() && s != ord0[p] && buf0[s] is Some implies (#[trigger] buf1[s])
        ->Some_0.key == buf0[s]->Some_0.key && buf1[s]->Some_0.value == buf0[s]
        ->Some_0.value by {
        if p > 0 && s == ord0[p - 1] {
        } else if p < ord0.len() - 1 && s == ord0[p + 1] {
        } else {
            assert(buf1[s] == buf0[s]);
        }
    }
}

/// Prepending a fresh element to a duplicate-free sequence keeps it
/// duplicate-free and adds exactly that element.
proof fn lemma_cons_contains(ord: Seq<int>, s: int)
    requires
        ord.no_duplicates(),
        !ord.contains(s),
    ensures
        (seq![s] + ord).no_duplicates(),
        forall|x: int| #[trigger] (seq![s] + ord).contains(x) <==> (x == s || ord.contains(x)),
        (seq![s] + ord).len() == ord.len() + 1,
        (seq![s] + ord)[0] == s,
        forall|i: int| 0 <= i < ord.len() ==> (seq![s] + ord)[i + 1] == #[trigger] ord[i],
{
    let ord1 = seq![s] + ord;
    assert forall|i: int, j: int|
        0 <= i < ord1.len() && 0 <= j < ord1.len() && i != j implies ord1[i] != ord1[j] by {
        if i > 0 && j > 0 {
            assert(ord1[i] == ord[i - 1] && ord1[j] == ord[j - 1]);
        } else if i == 0 && j > 0 {
            assert(ord1[j] == ord[j - 1]);
            assert(ord.contains(ord[j - 1]));
        } else if j == 0 && i > 0 {
            assert(ord1[i] == ord[i - 1]);
            assert(ord.contains(ord[i - 1]));
        }
    }
    assert forall|x: int| #[trigger] ord1.contains(x) <==> (x == s || ord.contains(x)) by {
        if ord1.contains(x) {
            let w = choose|w: int| 0 <= w < ord1.len() && ord1[w] == x;
            if w > 0 {
                assert(ord[w - 1] == x);
                assert(ord.contains(x));
            }
        }
        if x == s {
            assert(ord1[0] == x);
            assert(ord1.contains(x));
        } else if ord.contains(x) {
            let w = choose|w: int| 0 <= w < ord.len() && ord[w] == x;
            assert(ord1[w + 1] == x);
            assert(ord1.contains(x));
        }
    }
}

/// After a node has been placed in the fresh slot `s`, pointing at the
/// old head as successor, and the old head's back link has been bent to
/// `s`, the order with `s` prepended is threaded correctly and no other
/// slot has changed.
proof fn lemma_push_links<V>(
    buf0: Seq<Option<Node<V>>>,
    buf1: Seq<Option<Node<V>>>,
    ord0: Seq<int>,
    s: int,
)
    requires
        links_ok(buf0, ord0),
        ord0.no_duplicates(),
        !ord0.contains(s),
        buf1.len() == buf0.len(),
        0 <= s < buf1.len(),
        buf1[s] is Some,
        buf1[s]->Some_0.previous is None,
        (buf1[s]->Some_0.next == if ord0.len() == 0 {
            None::<usize>
        } else {
            Some(ord0[0] as usize)
        }),
        ord0.len() > 0 ==> {
            let h = ord0[0];
            &&& buf1[h] is Some
            &&& buf1[h]->Some_0.previous == Some(s as usize)
            &&& buf1[h]->Some_0.next == buf0[h]->Some_0.next
            &&& buf1[h]->Some_0.key == buf0[h]->Some_0.key
            &&& buf1[h]->Some_0.value == buf0[h]->Some_0.value
        },
        forall|x: int|
            0 <= x < buf0.len() && x != s && (ord0.len() == 0 || x != ord0[0]) ==> buf1[x]
                == buf0[x],
    ensures
        links_ok(buf1, seq![s] + ord0),
        forall|x: int|
            0 <= x < buf0.len() ==> ((#[trigger] buf1[x]) is Some <==> (buf0[x] is Some || x
                == s)),
        forall|x: int|
            0 <= x < buf0.len() && x != s && buf0[x] is Some ==> (#[trigger] buf1[x])
                ->Some_0.key == buf0[x]->Some_0.key && buf1[x]->Some_0.value == buf0[x]
                ->Some_0.value,
{
    let ord1 = seq![s] + ord0;
    assert forall|i: int| 0 <= i < ord1.len() implies {
        &&& 0 <= #[trigger] ord1[i] < buf1.len()
        &&& buf1[ord1[i]] is Some
        &&& (buf1[ord1[i]]->Some_0.previous == if i == 0 {
            None::<usize>
        } else {
            Some(ord1[i - 1] as usize)
        })
        &&& (buf1[ord1[i]]->Some_0.next == if i == ord1.len() - 1 {
            None::<usize>
        } else {
            Some(ord1[i + 1] as usize)
        })
    } by {
        if i == 0 {
            assert(ord1[0] == s);
            if ord0.len() > 0 {
                assert(ord1[1] == ord0[0]);
            }
        } else {
            assert(ord1[i] == ord0[i - 1]);
            assert(ord0.contains(ord0[i - 1]));
            if i > 1 {
                assert(ord1[i - 1] == ord0[i - 2]);
            }
            if i < ord1.len() - 1 {
                assert(ord1[i + 1] == ord0[i]);
            }
            if i == 1 {
            } else {
                assert(ord0[i - 1] != ord0[0]);
                assert(buf1[ord0[i - 1]] == buf0[ord0[i - 1]]);
            }
        }
    }
    assert forall|x: int| 0 <= x < buf0.len() implies ((#[trigger] buf1[x]) is Some <==> (buf0[x]
        is Some || x == s)) by {
        if x == s {
        } else if ord0.len() > 0 && x == ord0[0] {
            assert(ord0.contains(ord0[0]));
        } else {
            assert(buf1[x] == buf0[x]);
        }
    }
    assert forall|x: int|
        0 <= x < buf0.len() && x != s && buf0[x] is Some implies (#[trigger] buf1[x])
        ->Some_0.key == buf0[x]->Some_0.key && buf1[x]->Some_0.value == buf0[x]
        ->Some_0.value by {
        if ord0.len() > 0 && x == ord0[0] {
        } else {
            assert(buf1[x] == buf0[x]);
        }
    }
}

/// A fixed-capacity, key-addressable cache with least-recently-used
/// eviction.
///
/// `buffer` is the slot arena, of length `capacity` for the cache's whole
/// lifetime.  `len` is the high-water mark of the sequential first fill:
/// slots at and above `len` have never held a node.  Below `len`, a slot
/// is either occupied or recorded in `free`.  `map` sends each present
/// key to the slot holding it, and `order` is the ghost recency order of
/// the occupied slots, head (most recently used) first.
pub struct LruCache<V> {
    map: StringHashMap<usize>,
    buffer: Vec<Option<Node<V>>>,
    head_index: usize,
    tail_index: usize,
    len: usize,
    capacity: usize,
    free: Vec<usize>,
    order: Ghost<Seq<int>>,
}

impl<V> LruCache<V> {
    /// The node stored in slot `s`; meaningful only for occupied slots.
    pub(crate) closed spec fn node_at(self, s: int) -> Node<V> {
        self.buffer@[s]->Some_0
    }

    /// The key stored in slot `s`; meaningful only for occupied slots.
    pub(crate) closed spec fn key_at(self, s: int) -> Seq<char> {
        self.node_at(s).key@
    }

    /// The value stored in slot `s`; meaningful only for occupied slots.
    pub(crate) closed spec fn val_at(self, s: int) -> V {
        self.node_at(s).value
    }

    /// Abstract view of the cache: its `(key, value)` pairs ordered from
    /// most- to least-recently used.
    pub closed spec fn entries(self) -> Seq<(Seq<char>, V)> {
        Seq::new(
            self.order@.len(),
            |i: int| (self.key_at(self.order@[i]), self.val_at(self.order@[i])),
        )
    }

    /// The number of entries currently held.
    pub open spec fn spec_len(self) -> nat {
        self.entries().len()
    }

    /// The fixed number of slots, chosen at construction.
    pub closed spec fn spec_capacity(self) -> nat {
        self.capacity as nat
    }

    /// Arena, free-list and recency-list consistency.
    pub(crate) closed spec fn arena_inv(self) -> bool {
        let buf = self.buffer@;
        let ord = self.order@;
        &&& self.capacity >= 1
        &&& buf.len() == self.capacity as int
        &&& self.len <= self.capacity
        &&& links_ok(buf, ord)
        &&& forall|i: int| 0 <= i < ord.len() ==> 0 <= #[trigger] ord[i] < self.len as int
        &&& ord.no_duplicates()
        &&& ord.len() > 0 ==> self.head_index as int == ord[0] && self.tail_index as int == ord[
            ord.len() - 1]
        &&& forall|i: int| 0 <= i < self.free@.len() ==> (#[trigger] self.free@[i] as int)
            < self.len as int
        &&& self.free@.no_duplicates()
        &&& forall|i: int| 0 <= i < self.free@.len() ==> buf[#[trigger] self.free@[i] as int]
            is None
        &&& forall|s: int| 0 <= s < self.len as int ==> ((#[trigger] buf[s]) is Some
            <==> ord.contains(s))
        &&& forall|s: int| 0 <= s < self.len as int && (#[trigger] buf[s]) is None
            ==> self.free@.contains(s as usize)
        &&& forall|s: int| self.len as int <= s < self.capacity as int ==> (#[trigger] buf[s])
            is None
        &&& ord.len() + self.free@.len() == self.len as int
        &&& forall|i: int, j: int|
            0 <= i < ord.len() && 0 <= j < ord.len() && i != j ==> self.key_at(
                #[trigger] ord[i],
            ) != self.key_at(#[trigger] ord[j])
    }

    /// Key-index consistency: the hash index maps exactly the keys of the
    /// occupied slots, each to the slot holding it.
    pub(crate) closed spec fn map_inv(self) -> bool {
        let ord = self.order@;
        &&& forall|i: int|
            0 <= i < ord.len() ==> {
                &&& self.map@.contains_key(self.key_at(#[trigger] ord[i]))
                &&& self.map@[self.key_at(ord[i])] == ord[i] as usize
            }
        &&& forall|k: Seq<char>| #[trigger] self.map@.contains_key(k) ==> ord.contains(
            self.map@[k] as int,
        ) && self.key_at(self.map@[k] as int) == k
    }

    /// Well-formedness: established by the constructor and preserved by
    /// every public operation.
    pub closed spec fn inv(self) -> bool {
        self.arena_inv() && self.map_inv()
    }

    /// Creates an empty cache with room for `capacity` entries.
    ///
    /// A zero-capacity cache could hold nothing, so zero is rejected
    /// outright: callers must ask for at least one slot.
    pub fn new(capacity: usize) -> (r: Self)
        requires
            1 <= capacity,
        ensures
            r.inv(),
            r.entries() == Seq::<(Seq<char>, V)>::empty(),
            r.spec_capacity() == capacity as nat,
    {
        let mut buf: Vec<Option<Node<V>>> = Vec::with_capacity(capacity);
        for i in 0..capacity
            invariant
                buf@.len() == i,
                forall|j: int| 0 <= j < buf@.len() ==> (#[trigger] buf@[j]) is None,
        {
            buf.push(None);
        }
        let r = Self {
            map: StringHashMap::new(),
            buffer: buf,
            head_index: 0,
            tail_index: 0,
            len: 0,
            capacity,
            free: Vec::new(),
            order: Ghost(Seq::empty()),
        };
        proof {
            assert(r.entries() =~= Seq::<(Seq<char>, V)>::empty());
        }
        r
    }

    /// Starts a walk over the values in recency order, most recently
    /// used first.  The walk borrows the cache read-only and is gone
    /// before the cache can next change.
    pub fn iter<'a>(&'a self) -> (r: LruCacheIter<'a, V>)
        requires
            self.inv(),
        ensures
            r.wf(),
            r.remaining() == values_of(self.entries()),
    {
        let current: Option<usize> = if self.len - self.free.len() == 0 {
            None
        } else {
            Some(self.head_index)
        };
        let r = LruCacheIter {
            current_idx: current,
            buffer: &self.buffer,
            order: Ghost(self.order@),
            pos: Ghost(0),
        };
        proof {
            assert forall|i: int| 0 <= i < r.remaining().len() implies r.remaining()[i]
                == values_of(self.entries())[i] by {
                assert(self.entries()[i] == (self.key_at(self.order@[i]), self.val_at(
                    self.order@[i],
                )));
            }
            assert(r.remaining() =~= values_of(self.entries()));
        }
        r
    }

    /// Detaches the node at `index` from the recency list, vacates its
    /// slot onto the free list, and returns its key and value.  The key
    /// index is left untouched, so only arena consistency is promised;
    /// callers restore the key index themselves.
    #[verifier::rlimit(60)]
    fn remove(&mut self, index: usize) -> (r: Option<(String, V)>)
        requires
            old(self).arena_inv(),
            old(self).order@.contains(index as int),
        ensures
            final(self).arena_inv(),
            final(self).capacity == old(self).capacity,
            final(self).len == old(self).len,
            final(self).map == old(self).map,
            r is Some,
            r->Some_0.0@ == old(self).key_at(index as int),
            r->Some_0.1 == old(self).val_at(index as int),
            final(self).order@ == old(self).order@.remove(
                old(self).order@.index_of(index as int),
            ),
            final(self).free@ == old(self).free@.push(index),
            forall|s: int|
                old(self).order@.contains(s) && s != index as int ==> final(self).key_at(s) == old(
                    self,
                ).key_at(s) && final(self).val_at(s) == old(self).val_at(s),
    {
        let ghost ord0 = self.order@;
        let ghost p = ord0.index_of(index as int);
        proof {
            assert(0 <= p < ord0.len() && ord0[p] == index as int);
            assert(self.buffer@[ord0[p]]->Some_0.previous == (if p == 0 {
                None::<usize>
            } else {
                Some(ord0[p - 1] as usize)
            }));
            assert(self.buffer@[ord0[p]]->Some_0.next == (if p == ord0.len() - 1 {
                None::<usize>
            } else {
                Some(ord0[p + 1] as usize)
            }));
            ord0.remove_ensures(p);
        }
        let node_opt = self.buffer[index].take();
        self.free.push(index);
        let node = node_opt.unwrap();
        match (node.previous, node.next) {
            (None, None) => {},
            (None, Some(nx)) => {
                proof {
                    assert(p == 0);
                    assert(nx as int == ord0[1]);
                }
                set_prev(&mut self.buffer, nx, None);
                self.head_index = nx;
            },
            (Some(pv), None) => {
                proof {
                    assert(p == ord0.len() - 1);
                    assert(pv as int == ord0[p - 1]);
                }
                set_next(&mut self.buffer, pv, None);
                self.tail_index = pv;
            },
            (Some(pv), Some(nx)) => {
                proof {
                    assert(0 < p < ord0.len() - 1);
                    assert(pv as int == ord0[p - 1]);
                    assert(nx as int == ord0[p + 1]);
                    assert(pv != nx) by {
                        assert(ord0[p - 1] != ord0[p + 1]);
                    }
                }
                set_next(&mut self.buffer, pv, Some(nx));
                set_prev(&mut self.buffer, nx, Some(pv));
            },
        }
        self.order = Ghost(ord0.remove(p));
        proof {
            lemma_splice_links::<V>(old(self).buffer@, self.buffer@, ord0, p);
            lemma_remove_contains(ord0, p);
            let ord1 = self.order@;
            assert forall|i: int| 0 <= i < ord1.len() implies 0 <= #[trigger] ord1[i]
                < self.len as int by {
                let i0 = if i < p {
                    i
                } else {
                    i + 1
                };
                assert(ord1[i] == ord0[i0]);
            }
            if ord1.len() > 0 {
                assert(self.head_index as int == ord1[0] && self.tail_index as int == ord1[ord1.len(
                ) - 1]) by {
                    assert(ord1[0] == (if 0 < p {
                        ord0[0]
                    } else {
                        ord0[1]
                    }));
                    assert(ord1[ord1.len() - 1] == (if ord1.len() - 1 < p {
                        ord0[ord1.len() - 1]
                    } else {
                        ord0[ord1.len() as int]
                    }));
                }
            }
            assert(!old(self).free@.contains(index)) by {
                if old(self).free@.contains(index) {
                    let w = choose|w: int|
                        0 <= w < old(self).free@.len() && old(self).free@[w] == index;
                    assert(old(self).buffer@[index as int] is None);
                }
            }
            assert forall|i: int| 0 <= i < self.free@.len() implies self.buffer@[
                #[trigger] self.free@[i] as int] is None by {
                if i < old(self).free@.len() {
                    assert(self.free@[i] == old(self).free@[i]);
                    assert(old(self).buffer@[old(self).free@[i] as int] is None);
                } else {
                    assert(self.free@[i] == index);
                }
            }
            assert forall|s: int| 0 <= s < self.len as int implies ((#[trigger] self.buffer@[s])
                is Some <==> ord1.contains(s)) by {
                assert(self.buffer@[s] is Some <==> (old(self).buffer@[s] is Some && s
                    != index as int));
                assert(old(self).buffer@[s] is Some <==> ord0.contains(s));
                assert(ord1.contains(s) <==> (ord0.contains(s) && s != ord0[p]));
            }
            assert forall|s: int|
                0 <= s < self.len as int && (#[trigger] self.buffer@[s])
                    is None implies self.free@.contains(s as usize) by {
                if s == index as int {
                    assert(self.free@[self.free@.len() - 1] == index);
                } else {
                    assert(old(self).buffer@[s] is None);
                    let w = choose|w: int|
                        0 <= w < old(self).free@.len() && old(self).free@[w] == s as usize;
                    assert(self.free@[w] == s as usize);
                }
            }
            assert forall|i: int, j: int|
                0 <= i < ord1.len() && 0 <= j < ord1.len() && i != j implies self.key_at(
                #[trigger] ord1[i],
            ) != self.key_at(#[trigger] ord1[j]) by {
                let i0 = if i < p {
                    i
                } else {
                    i + 1
                };
                let j0 = if j < p {
                    j
                } else {
                    j + 1
                };
                assert(ord1[i] == ord0[i0] && ord1[j] == ord0[j0]);
                assert(old(self).key_at(ord0[i0]) != old(self).key_at(ord0[j0]));
            }
            assert forall|s: int|
                old(self).order@.contains(s) && s != index as int implies self.key_at(s) == old(
                self,
            ).key_at(s) && self.val_at(s) == old(self).val_at(s) by {
                assert(old(self).buffer@[s] is Some);
            }
        }
        Some((node.key, node.value))
    }

    /// Builds the candidate node for a new head entry: no predecessor,
    /// and the current head (if the cache holds anything) as successor.
    fn new_head_node(&self, key: String, value: V) -> (n: Node<V>)
        requires
            self.arena_inv(),
        ensures
            n.previous is None,
            (n.next == if self.order@.len() == 0 {
                None::<usize>
            } else {
                Some(self.order@[0] as usize)
            }),
            n.key == key,
            n.value == value,
    {
        if self.len - self.free.len() == 0 {
            Node { previous: None, next: None, key, value }
        } else {
            Node { previous: None, next: Some(self.head_index), key, value }
        }
    }

    /// Inserts `key`/`value` at the head of the recency list.  The slot
    /// comes, in order of preference, from the sequential first fill of
    /// the arena, from the free list, or from evicting the tail (least
    /// recently used) entry.  Returns the chosen slot and the evicted
    /// key, if eviction happened.  The key index is left untouched;
    /// callers record the new slot and drop the evicted key themselves.
    #[verifier::rlimit(60)]
    fn push_front(&mut self, key: String, value: V) -> (r: (usize, Option<String>))
        requires
            old(self).arena_inv(),
            forall|i: int|
                0 <= i < old(self).order@.len() ==> old(self).key_at(
                    #[trigger] old(self).order@[i],
                ) != key@,
        ensures
            final(self).arena_inv(),
            final(self).capacity == old(self).capacity,
            final(self).map == old(self).map,
            r.0 < final(self).len,
            final(self).key_at(r.0 as int) == key@,
            final(self).val_at(r.0 as int) == value,
            ({
                let ord0 = old(self).order@;
                if ord0.len() < old(self).capacity as int {
                    &&& r.1 is None
                    &&& !ord0.contains(r.0 as int)
                    &&& final(self).order@ == seq![r.0 as int] + ord0
                } else {
                    &&& r.1 is Some
                    &&& r.1->Some_0@ == old(self).key_at(ord0[ord0.len() - 1])
                    &&& r.0 as int == ord0[ord0.len() - 1]
                    &&& final(self).order@ == seq![r.0 as int] + ord0.drop_last()
                }
            }),
            forall|s: int|
                old(self).order@.contains(s) && s != r.0 as int ==> final(self).key_at(s) == old(
                    self,
                ).key_at(s) && final(self).val_at(s) == old(self).val_at(s),
    {
        if self.len < self.capacity {
            self.push_front_fill(key, value)
        } else if self.free.len() > 0 {
            self.push_front_reuse(key, value)
        } else {
            proof {
                assert(old(self).order@.len() == old(self).capacity as int);
            }
            self.push_front_evict(key, value)
        }
    }

    /// The first-fill path of `push_front`: the arena still has
    /// never-used slots, so the next one in sequence becomes the head.
    #[verifier::rlimit(60)]
    fn push_front_fill(&mut self, key: String, value: V) -> (r: (usize, Option<String>))
        requires
            old(self).arena_inv(),
            old(self).len < old(self).capacity,
            forall|i: int|
                0 <= i < old(self).order@.len() ==> old(self).key_at(
                    #[trigger] old(self).order@[i],
                ) != key@,
        ensures
            final(self).arena_inv(),
            final(self).capacity == old(self).capacity,
            final(self).map == old(self).map,
            r.0 < final(self).len,
            final(self).key_at(r.0 as int) == key@,
            final(self).val_at(r.0 as int) == value,
            r.1 is None,
            !old(self).order@.contains(r.0 as int),
            final(self).order@ == seq![r.0 as int] + old(self).order@,
            forall|s: int|
                old(self).order@.contains(s) && s != r.0 as int ==> final(self).key_at(s) == old(
                    self,
                ).key_at(s) && final(self).val_at(s) == old(self).val_at(s),
    {
        let ghost ord0 = self.order@;
        let occupied = self.len - self.free.len();
        let oldh = self.head_index;
        {
            let node = self.new_head_node(key, value);
            let idx = self.len;
            self.len = self.len + 1;
            let slot_ref = &mut self.buffer[idx];
            *slot_ref = Some(node);
            if occupied > 0 {
                proof {
                    assert(oldh as int == ord0[0]);
                    assert(ord0.contains(ord0[0]));
                    assert(self.buffer@[oldh as int] is Some);
                }
                set_prev(&mut self.buffer, oldh, Some(idx));
            }
            self.head_index = idx;
            if occupied == 0 {
                self.tail_index = idx;
            }
            self.order = Ghost(seq![idx as int] + ord0);
            proof {
                assert(!ord0.contains(idx as int));
                lemma_push_links::<V>(old(self).buffer@, self.buffer@, ord0, idx as int);
                lemma_cons_contains(ord0, idx as int);
                let ord1 = self.order@;
                assert forall|i: int| 0 <= i < ord1.len() implies 0 <= #[trigger] ord1[i]
                    < self.len as int by {
                    if i > 0 {
                        assert(ord1[i] == ord0[i - 1]);
                    }
                }
                if ord0.len() > 0 {
                    assert(ord1[ord1.len() - 1] == ord0[ord0.len() - 1]);
                }
                assert forall|i: int| 0 <= i < self.free@.len() implies self.buffer@[
                    #[trigger] self.free@[i] as int] is None by {
                    assert(old(self).buffer@[self.free@[i] as int] is None);
                    assert(self.free@[i] as int != idx as int && (ord0.len() == 0 || self.free@[i]
                        as int != ord0[0]));
                }
                assert forall|x: int| 0 <= x < self.len as int implies ((
                #[trigger] self.buffer@[x]) is Some <==> ord1.contains(x)) by {
                    if x != idx as int {
                        assert(x < old(self).len as int);
                        assert(old(self).buffer@[x] is Some <==> ord0.contains(x));
                    }
                }
                assert forall|x: int|
                    0 <= x < self.len as int && (#[trigger] self.buffer@[x])
                        is None implies self.free@.contains(x as usize) by {
                    assert(x != idx as int);
                    assert(old(self).buffer@[x] is None);
                }
                assert(self.key_at(idx as int) == key@ && self.val_at(idx as int) == value);
                assert forall|x: int|
                    ord0.contains(x) && x != idx as int implies self.key_at(x) == old(self).key_at(
                    x,
                ) && self.val_at(x) == old(self).val_at(x) by {
                    assert(old(self).buffer@[x] is Some);
                }
                assert forall|i: int, j: int|
                    0 <= i < ord1.len() && 0 <= j < ord1.len() && i != j implies self.key_at(
                    #[trigger] ord1[i],
                ) != self.key_at(#[trigger] ord1[j]) by {
                    if i > 0 {
                        assert(ord1[i] == ord0[i - 1]);
                        assert(ord0.contains(ord0[i - 1]));
                    }
                    if j > 0 {
                        assert(ord1[j] == ord0[j - 1]);
                        assert(ord0.contains(ord0[j - 1]));
                    }
                    if i > 0 && j > 0 {
                        assert(old(self).key_at(ord0[i - 1]) != old(self).key_at(ord0[j - 1]));
                    }
                }
            }
            (idx, None)
        }
    }

    /// The free-list path of `push_front`: a previously vacated slot is
    /// reused for the new head.
    #[verifier::rlimit(60)]
    fn push_front_reuse(&mut self, key: String, value: V) -> (r: (usize, Option<String>))
        requires
            old(self).arena_inv(),
            old(self).free@.len() > 0,
            forall|i: int|
                0 <= i < old(self).order@.len() ==> old(self).key_at(
                    #[trigger] old(self).order@[i],
                ) != key@,
        ensures
            final(self).arena_inv(),
            final(self).capacity == old(self).capacity,
            final(self).map == old(self).map,
            r.0 < final(self).len,
            final(self).key_at(r.0 as int) == key@,
            final(self).val_at(r.0 as int) == value,
            r.1 is None,
            r.0 == old(self).free@[old(self).free@.len() - 1],
            !old(self).order@.contains(r.0 as int),
            final(self).order@ == seq![r.0 as int] + old(self).order@,
            forall|s: int|
                old(self).order@.contains(s) && s != r.0 as int ==> final(self).key_at(s) == old(
                    self,
                ).key_at(s) && final(self).val_at(s) == old(self).val_at(s),
    {
        let ghost ord0 = self.order@;
        let occupied = self.len - self.free.len();
        let oldh = self.head_index;
        {
            let node = self.new_head_node(key, value);
            let idx = self.free.pop().unwrap();
            proof {
                assert(old(self).free@.contains(idx));
                assert(self.buffer@[idx as int] is None);
                assert(!ord0.contains(idx as int));
            }
            let slot_ref = &mut self.buffer[idx];
            *slot_ref = Some(node);
            if occupied > 0 {
                proof {
                    assert(oldh as int == ord0[0]);
                    assert(ord0.contains(ord0[0]));
                    assert(self.buffer@[oldh as int] is Some);
                }
                set_prev(&mut self.buffer, oldh, Some(idx));
            }
            self.head_index = idx;
            if occupied == 0 {
                self.tail_index = idx;
            }
            self.order = Ghost(seq![idx as int] + ord0);
            proof {
                lemma_push_links::<V>(old(self).buffer@, self.buffer@, ord0, idx as int);
                lemma_cons_contains(ord0, idx as int);
                let ord1 = self.order@;
                assert forall|i: int| 0 <= i < self.free@.len() implies self.buffer@[
                    #[trigger] self.free@[i] as int] is None by {
                    assert(self.free@[i] == old(self).free@[i]);
                    assert(old(self).free@[i] != idx) by {
                        assert(old(self).free@[old(self).free@.len() - 1] == idx);
                    }
                    assert(old(self).buffer@[old(self).free@[i] as int] is None);
                    assert(old(self).free@[i] as int != idx as int && (ord0.len() == 0 || old(
                        self,
                    ).free@[i] as int != ord0[0]));
                }
                assert(self.free@.no_duplicates()) by {
                    assert forall|i: int, j: int|
                        0 <= i < self.free@.len() && 0 <= j < self.free@.len() && i
                            != j implies self.free@[i] != self.free@[j] by {
                        assert(self.free@[i] == old(self).free@[i] && self.free@[j] == old(
                            self,
                        ).free@[j]);
                    }
                }
                assert forall|i: int| 0 <= i < ord1.len() implies 0 <= #[trigger] ord1[i]
                    < self.len as int by {
                    if i > 0 {
                        assert(ord1[i] == ord0[i - 1]);
                    }
                }
                if ord0.len() > 0 {
                    assert(ord1[ord1.len() - 1] == ord0[ord0.len() - 1]);
                }
                assert forall|x: int| 0 <= x < self.len as int implies ((
                #[trigger] self.buffer@[x]) is Some <==> ord1.contains(x)) by {
                    if x != idx as int {
                        assert(old(self).buffer@[x] is Some <==> ord0.contains(x));
                    }
                }
                assert forall|x: int|
                    0 <= x < self.len as int && (#[trigger] self.buffer@[x])
                        is None implies self.free@.contains(x as usize) by {
                    assert(x != idx as int);
                    assert(old(self).buffer@[x] is None);
                    assert(old(self).free@.contains(x as usize));
                    let w = choose|w: int|
                        0 <= w < old(self).free@.len() && old(self).free@[w] == x as usize;
                    assert(w != old(self).free@.len() - 1) by {
                        assert(old(self).free@[old(self).free@.len() - 1] == idx);
                    }
                    assert(self.free@[w] == x as usize);
                }
                assert(self.key_at(idx as int) == key@ && self.val_at(idx as int) == value);
                assert forall|x: int|
                    ord0.contains(x) && x != idx as int implies self.key_at(x) == old(self).key_at(
                    x,
                ) && self.val_at(x) == old(self).val_at(x) by {
                    assert(old(self).buffer@[x] is Some);
                }
                assert forall|i: int, j: int|
                    0 <= i < ord1.len() && 0 <= j < ord1.len() && i != j implies self.key_at(
                    #[trigger] ord1[i],
                ) != self.key_at(#[trigger] ord1[j]) by {
                    if i > 0 {
                        assert(ord1[i] == ord0[i - 1]);
                        assert(ord0.contains(ord0[i - 1]));
                    }
                    if j > 0 {
                        assert(ord1[j] == ord0[j - 1]);
                        assert(ord0.contains(ord0[j - 1]));
                    }
                    if i > 0 && j > 0 {
                        assert(old(self).key_at(ord0[i - 1]) != old(self).key_at(ord0[j - 1]));
                    }
                }
            }
            (idx, None)
        }
    }

    /// The eviction path of `push_front`: the arena is full and no slot
    /// is free, so the tail (least recently used) entry is overwritten
    /// in place and becomes the new head; its key is handed back.
    #[verifier::spinoff_prover]
    #[verifier::rlimit(100)]
    fn push_front_evict(&mut self, key: String, value: V) -> (r: (usize, Option<String>))
        requires
            old(self).arena_inv(),
            old(self).free@.len() == 0,
            old(self).len == old(self).capacity,
            forall|i: int|
                0 <= i < old(self).order@.len() ==> old(self).key_at(
                    #[trigger] old(self).order@[i],
                ) != key@,
        ensures
            final(self).arena_inv(),
            final(self).capacity == old(self).capacity,
            final(self).map == old(self).map,
            r.0 < final(self).len,
            final(self).key_at(r.0 as int) == key@,
            final(self).val_at(r.0 as int) == value,
            r.1 is Some,
            r.1->Some_0@ == old(self).key_at(old(self).order@[old(self).order@.len() - 1]),
            r.0 as int == old(self).order@[old(self).order@.len() - 1],
            final(self).order@ == seq![r.0 as int] + old(self).order@.drop_last(),
            forall|s: int|
                old(self).order@.contains(s) && s != r.0 as int ==> final(self).key_at(s) == old(
                    self,
                ).key_at(s) && final(self).val_at(s) == old(self).val_at(s),
    {
        let ghost ord0 = self.order@;
        let ghost p = ord0.len() - 1;
        let t = self.tail_index;
        proof {
            assert(ord0.len() + self.free@.len() == self.len as int);
            assert(ord0.len() == self.capacity as int);
            assert(t as int == ord0[p]);
            assert(ord0.contains(t as int));
            assert(ord0.index_of(t as int) == p) by {
                let w = ord0.index_of(t as int);
                assert(0 <= w < ord0.len() && ord0[w] == t as int);
                if w != p {
                    assert(ord0[w] != ord0[p]);
                }
            }
            ord0.remove_ensures(p);
            lemma_remove_contains(ord0, p);
        }
        let kv = self.remove(t).unwrap();
        let (evicted_key, _) = kv;
        let ghost ord_mid = self.order@;
        proof {
            assert(ord_mid == ord0.remove(p));
            assert(self.free@.len() == 1 && self.free@[0] == t);
            assert forall|i: int| 0 <= i < ord_mid.len() implies self.key_at(
                #[trigger] ord_mid[i],
            ) != key@ by {
                assert(ord_mid[i] == ord0[i]);
                assert(ord0.contains(ord0[i]));
                assert(ord0[i] != ord0[p]);
                assert(self.key_at(ord_mid[i]) == old(self).key_at(ord0[i]));
            }
        }
        let (idx, _none) = self.push_front_reuse(key, value);
        proof {
            assert(idx == t);
            assert(self.order@ =~= seq![t as int] + ord0.drop_last());
            assert(self.key_at(t as int) == key@ && self.val_at(t as int) == value);
            assert forall|s: int|
                ord0.contains(s) && s != t as int implies self.key_at(s) == old(self).key_at(s)
                && self.val_at(s) == old(self).val_at(s) by {
                assert(ord_mid.contains(s));
            }
        }
        (t, Some(evicted_key))
    }

    /// Overwrites the value stored at `index`, leaving the key, the
    /// links and the recency order untouched.
    fn replace_at_index(&mut self, index: usize, value: V)
        requires
            old(self).inv(),
            old(self).order@.contains(index as int),
        ensures
            final(self).inv(),
            final(self).capacity == old(self).capacity,
            final(self).order@ == old(self).order@,
            final(self).map == old(self).map,
            final(self).key_at(index as int) == old(self).key_at(index as int),
            final(self).val_at(index as int) == value,
            forall|s: int|
                old(self).order@.contains(s) && s != index as int ==> final(self).key_at(s) == old(
                    self,
                ).key_at(s) && final(self).val_at(s) == old(self).val_at(s),
    {
        let ghost ord0 = self.order@;
        proof {
            let w = choose|w: int| 0 <= w < ord0.len() && ord0[w] == index as int;
            assert(0 <= ord0[w] < self.len as int);
        }
        let slot = &mut self.buffer[index];
        match slot {
            Some(node) => {
                node.value = value;
            },
            None => {},
        }
        proof {
            assert forall|i: int| 0 <= i < ord0.len() implies {
                &&& self.buffer@[#[trigger] ord0[i]] is Some
                &&& self.buffer@[ord0[i]]->Some_0.previous == old(self).buffer@[ord0[i]]
                    ->Some_0.previous
                &&& self.buffer@[ord0[i]]->Some_0.next == old(self).buffer@[ord0[i]]->Some_0.next
                &&& self.key_at(ord0[i]) == old(self).key_at(ord0[i])
            } by {
                if ord0[i] != index as int {
                    assert(self.buffer@[ord0[i]] == old(self).buffer@[ord0[i]]);
                }
            }
            assert forall|x: int| 0 <= x < self.capacity as int implies ((
            #[trigger] self.buffer@[x]) is Some <==> old(self).buffer@[x] is Some) by {
                if x != index as int {
                    assert(self.buffer@[x] == old(self).buffer@[x]);
                }
            }
            assert forall|i: int| 0 <= i < self.free@.len() implies self.buffer@[
                #[trigger] self.free@[i] as int] is None by {
                assert(old(self).buffer@[self.free@[i] as int] is None);
            }
            assert forall|s: int|
                old(self).order@.contains(s) && s != index as int implies self.key_at(s) == old(
                self,
            ).key_at(s) && self.val_at(s) == old(self).val_at(s) by {
                assert(self.buffer@[s] == old(self).buffer@[s]);
            }
        }
    }

    /// After a fresh key `k` has been pushed to the head (evicting the
    /// tail entry when `evicted` carries its key) and the key index has
    /// been updated accordingly, the whole cache invariant holds again
    /// and the abstract view has changed exactly as eviction dictates.
    proof fn lemma_set_new_restores_inv(
        self,
        pre: Self,
        ord0: Seq<int>,
        k: Seq<char>,
        v: V,
        s: usize,
        evicted: Option<Seq<char>>,
    )
        requires
            pre.inv(),
            ord0 == pre.order@,
            self.arena_inv(),
            self.capacity == pre.capacity,
            forall|i: int| 0 <= i < ord0.len() ==> pre.key_at(#[trigger] ord0[i]) != k,
            (self.order@ == if evicted is None {
                seq![s as int] + ord0
            } else {
                seq![s as int] + ord0.drop_last()
            }),
            evicted is Some ==> ord0.len() > 0 && s as int == ord0[ord0.len() - 1] && evicted
                ->Some_0 == pre.key_at(ord0[ord0.len() - 1]),
            evicted is None ==> !ord0.contains(s as int),
            self.key_at(s as int) == k,
            self.val_at(s as int) == v,
            forall|x: int|
                ord0.contains(x) && x != s as int ==> self.key_at(x) == pre.key_at(x)
                    && self.val_at(x) == pre.val_at(x),
            (self.map@ == match evicted {
                Option::None => pre.map@.insert(k, s),
                Option::Some(ek) => pre.map@.insert(k, s).remove(ek),
            }),
        ensures
            self.inv(),
            (self.entries() == if evicted is None {
                seq![(k, v)] + pre.entries()
            } else {
                seq![(k, v)] + pre.entries().drop_last()
            }),
    {
        let ord1 = self.order@;
        let base = if evicted is None {
            ord0
        } else {
            ord0.drop_last()
        };
        if evicted is Some {
            ord0.remove_ensures(ord0.len() - 1);
            lemma_remove_contains(ord0, ord0.len() - 1);
            assert(ord0.remove(ord0.len() - 1) =~= base);
        }
        assert(!base.contains(s as int) && base.no_duplicates()) by {
            if evicted is Some {
                assert(!ord0.remove(ord0.len() - 1).contains(s as int));
            }
        }
        lemma_cons_contains(base, s as int);
        assert forall|i: int| 0 <= i < base.len() implies #[trigger] base[i] == ord0[i]
            && ord0.contains(ord0[i]) && base[i] != s as int by {
            assert(base.contains(base[i]));
        }
        assert forall|i: int|
            0 <= i < ord1.len() implies self.map@.contains_key(
                self.key_at(#[trigger] ord1[i]),
            ) && self.map@[self.key_at(ord1[i])] == ord1[i] as usize by {
            if i == 0 {
                assert(ord1[0] == s as int);
                if evicted is Some {
                    assert(pre.key_at(ord0[ord0.len() - 1]) != k);
                }
            } else {
                let x = base[i - 1];
                assert(ord1[i] == x);
                assert(self.key_at(x) == pre.key_at(x));
                let w = choose|w: int| 0 <= w < ord0.len() && ord0[w] == x;
                assert(pre.map@.contains_key(pre.key_at(ord0[w])) && pre.map@[pre.key_at(ord0[w])]
                    == ord0[w] as usize);
                assert(pre.key_at(x) != k);
                if evicted is Some {
                    assert(pre.key_at(x) != evicted->Some_0) by {
                        assert(x == ord0[i - 1]);
                        assert(i - 1 < ord0.len() - 1);
                        assert(pre.key_at(ord0[i - 1]) != pre.key_at(ord0[ord0.len() - 1]));
                    }
                }
            }
        }
        assert forall|kk: Seq<char>| #[trigger] self.map@.contains_key(kk) implies ord1.contains(
            self.map@[kk] as int,
        ) && self.key_at(self.map@[kk] as int) == kk by {
            if kk == k {
                assert(self.map@[kk] == s);
                assert(ord1[0] == s as int);
                assert(ord1.contains(s as int));
            } else {
                assert(pre.map@.contains_key(kk));
                let m = pre.map@[kk];
                assert(ord0.contains(m as int) && pre.key_at(m as int) == kk);
                assert(m as int != s as int) by {
                    if evicted is Some {
                        if m as int == ord0[ord0.len() - 1] {
                            assert(kk == evicted->Some_0);
                            assert(!self.map@.contains_key(kk));
                        }
                    }
                }
                assert(base.contains(m as int)) by {
                    if evicted is Some {
                        assert(ord0.remove(ord0.len() - 1).contains(m as int));
                    }
                }
                assert(ord1.contains(m as int));
                assert(self.key_at(m as int) == kk);
                assert(self.map@[kk] == m);
            }
        }
        let es_base = if evicted is None {
            pre.entries()
        } else {
            pre.entries().drop_last()
        };
        assert forall|i: int| 0 <= i < self.entries().len() implies self.entries()[i] == (seq![
            (k, v),
        ] + es_base)[i] by {
            if i == 0 {
                assert(ord1[0] == s as int);
            } else {
                assert(ord1[i] == base[i - 1]);
                assert(es_base[i - 1] == pre.entries()[i - 1]);
                assert(pre.entries()[i - 1] == (pre.key_at(ord0[i - 1]), pre.val_at(ord0[i - 1])));
                assert(self.key_at(base[i - 1]) == pre.key_at(base[i - 1]));
            }
        }
        assert(self.entries() =~= seq![(k, v)] + es_base);
    }

    /// Stores `value` under `key`.
    ///
    /// A new key is inserted at the head of the recency order; if the
    /// cache is full, the least-recently-used entry is evicted to make
    /// room.  A key already present keeps its place in the recency
    /// order: only its value changes.  Updating is deliberately not a
    /// "use" of the entry — only [`Self::get`] refreshes recency — which
    /// can be surprising, but is part of this cache's contract.
    #[verifier::rlimit(60)]
    pub fn set(&mut self, key: String, value: V)
        requires
            old(self).inv(),
        ensures
            final(self).inv(),
            final(self).spec_capacity() == old(self).spec_capacity(),
            has_key(old(self).entries(), key@) ==> final(self).entries() == old(
                self,
            ).entries().update(key_index(old(self).entries(), key@), (key@, value)),
            !has_key(old(self).entries(), key@) && old(self).spec_len() < old(
                self,
            ).spec_capacity() ==> final(self).entries() == seq![(key@, value)] + old(
                self,
            ).entries(),
            !has_key(old(self).entries(), key@) && old(self).spec_len() >= old(
                self,
            ).spec_capacity() ==> final(self).entries() == seq![(key@, value)] + old(
                self,
            ).entries().drop_last(),
    {
        let ghost ord0 = self.order@;
        let ghost es0 = self.entries();
        if !self.map.contains_key(key.as_str()) {
            proof {
                assert forall|i: int| 0 <= i < ord0.len() implies self.key_at(
                    #[trigger] ord0[i],
                ) != key@ by {
                    assert(self.map@.contains_key(self.key_at(ord0[i])));
                }
                assert(!has_key(es0, key@)) by {
                    if has_key(es0, key@) {
                        let w = choose|w: int| 0 <= w < es0.len() && es0[w].0 == key@;
                        assert(es0[w].0 == self.key_at(ord0[w]));
                    }
                }
            }
            let key2 = key.clone();
            let (new_index, removed_key) = self.push_front(key2, value);
            let ghost ord1 = self.order@;
            self.map.insert(key, new_index);
            match removed_key {
                Some(old_key) => {
                    self.map.remove(old_key.as_str());
                    proof {
                        self.lemma_set_new_restores_inv(
                            *old(self),
                            ord0,
                            key@,
                            value,
                            new_index,
                            Some(old_key@),
                        );
                    }
                },
                None => {
                    proof {
                        self.lemma_set_new_restores_inv(
                            *old(self),
                            ord0,
                            key@,
                            value,
                            new_index,
                            None,
                        );
                    }
                },
            }
        } else {
            let existing = *self.map.get(key.as_str()).unwrap();
            proof {
                assert(self.map@.contains_key(key@));
                assert(self.order@.contains(existing as int));
                assert(self.key_at(existing as int) == key@);
            }
            let ghost w = choose|w: int| 0 <= w < ord0.len() && ord0[w] == existing as int;
            proof {
                assert(es0[w].0 == key@);
                assert(has_key(es0, key@));
                assert(key_index(es0, key@) == w) by {
                    let ki = key_index(es0, key@);
                    assert(0 <= ki < es0.len() && es0[ki].0 == key@);
                    if ki != w {
                        assert(self.key_at(ord0[ki]) != self.key_at(ord0[w]));
                    }
                }
            }
            self.replace_at_index(existing, value);
            proof {
                assert forall|i: int| 0 <= i < self.entries().len() implies self.entries()[i]
                    == es0.update(w, (key@, value))[i] by {
                    if i != w {
                        assert(ord0.contains(ord0[i]));
                        assert(ord0[i] != existing as int) by {
                            if ord0[i] == ord0[w] {
                                assert(ord0.no_duplicates());
                            }
                        }
                    }
                }
                assert(self.entries() =~= es0.update(w, (key@, value)));
            }
        }
    }

    /// Looks `key` up.  A hit moves the entry to the head of the
    /// recency order — a `get` is a "use" — and returns a reference to
    /// its value; a miss returns `None` and changes nothing.
    #[verifier::rlimit(60)]
    pub fn get<'a>(&'a mut self, key: &str) -> (r: Option<&'a V>)
        requires
            old(self).inv(),
        ensures
            final(self).inv(),
            final(self).spec_capacity() == old(self).spec_capacity(),
            r is Some <==> has_key(old(self).entries(), key@),
            !has_key(old(self).entries(), key@) ==> final(self).entries() == old(self).entries(),
            has_key(old(self).entries(), key@) ==> ({
                let p = key_index(old(self).entries(), key@);
                &&& *r->Some_0 == old(self).entries()[p].1
                &&& final(self).entries() == seq![(key@, old(self).entries()[p].1)] + old(
                    self,
                ).entries().remove(p)
            }),
    {
        let ghost ord0 = self.order@;
        let ghost es0 = self.entries();
        let index_opt: Option<usize> = match self.map.get(key) {
            Some(i) => Some(*i),
            None => None,
        };
        match index_opt {
            Some(index) => {
                let ghost w = ord0.index_of(index as int);
                proof {
                    assert(self.map@.contains_key(key@));
                    assert(ord0.contains(index as int));
                    assert(self.key_at(index as int) == key@);
                    assert(0 <= w < ord0.len() && ord0[w] == index as int);
                    assert(es0[w].0 == key@);
                    assert(has_key(es0, key@));
                    assert(key_index(es0, key@) == w) by {
                        let ki = key_index(es0, key@);
                        assert(0 <= ki < es0.len() && es0[ki].0 == key@);
                        if ki != w {
                            assert(self.key_at(ord0[ki]) != self.key_at(ord0[w]));
                        }
                    }
                    es0.remove_ensures(w);
                }
                let kv = self.remove(index).unwrap();
                let ghost ord_mid = self.order@;
                let (k2, v2) = kv;
                let k3 = k2.clone();
                proof {
                    assert(ord_mid == ord0.remove(w));
                    ord0.remove_ensures(w);
                    lemma_remove_contains(ord0, w);
                    assert forall|i: int| 0 <= i < ord_mid.len() implies self.key_at(
                        #[trigger] ord_mid[i],
                    ) != k2@ by {
                        let i0 = if i < w {
                            i
                        } else {
                            i + 1
                        };
                        assert(ord_mid[i] == ord0[i0]);
                        assert(ord0.contains(ord0[i0]));
                        assert(ord0[i0] != ord0[w]);
                        assert(self.key_at(ord_mid[i]) == old(self).key_at(ord0[i0]));
                        assert(old(self).key_at(ord0[i0]) != old(self).key_at(ord0[w]));
                    }
                    assert(ord_mid.len() < self.capacity as int);
                }
                let (new_index, evicted) = self.push_front(k2, v2);
                proof {
                    assert(evicted is None);
                }
                self.map.insert(k3, new_index);
                proof {
                    self.lemma_get_restores_inv(
                        *old(self),
                        ord0,
                        ord_mid,
                        w,
                        key@,
                        old(self).val_at(ord0[w]),
                        new_index,
                    );
                }
                proof {
                    assert(new_index < self.buffer@.len());
                    assert(self.order@[0] == new_index as int);
                    assert(self.order@.contains(new_index as int));
                    assert(self.buffer@[new_index as int] is Some);
                }
                let slot = &self.buffer[new_index];
                match slot {
                    Some(node) => Some(&node.value),
                    None => None,
                }
            },
            None => {
                proof {
                    assert(!self.map@.contains_key(key@));
                    assert(!has_key(es0, key@)) by {
                        if has_key(es0, key@) {
                            let ki = key_index(es0, key@);
                            assert(es0[ki].0 == self.key_at(ord0[ki]));
                            assert(self.map@.contains_key(self.key_at(ord0[ki])));
                        }
                    }
                }
                None
            },
        }
    }

    /// After a present entry has been detached from position `w` of the
    /// recency order and re-inserted at the head under the same key and
    /// value, with the key index pointed at the new slot, the whole
    /// cache invariant holds again and the abstract view is the old one
    /// with that entry moved to the front.
    proof fn lemma_get_restores_inv(
        self,
        pre: Self,
        ord0: Seq<int>,
        ord_mid: Seq<int>,
        w: int,
        k: Seq<char>,
        v: V,
        s: usize,
    )
        requires
            pre.inv(),
            ord0 == pre.order@,
            0 <= w < ord0.len(),
            pre.key_at(ord0[w]) == k,
            pre.val_at(ord0[w]) == v,
            ord_mid == ord0.remove(w),
            self.arena_inv(),
            self.capacity == pre.capacity,
            self.order@ == seq![s as int] + ord_mid,
            !ord_mid.contains(s as int),
            self.key_at(s as int) == k,
            self.val_at(s as int) == v,
            forall|x: int|
                ord_mid.contains(x) ==> self.key_at(x) == pre.key_at(x) && self.val_at(x)
                    == pre.val_at(x),
            self.map@ == pre.map@.insert(k, s),
        ensures
            self.inv(),
            self.entries() == seq![(k, v)] + pre.entries().remove(w),
    {
        let ord1 = self.order@;
        ord0.remove_ensures(w);
        lemma_remove_contains(ord0, w);
        lemma_cons_contains(ord_mid, s as int);
        pre.entries().remove_ensures(w);
        assert forall|i: int| 0 <= i < ord_mid.len() implies {
            &&& ord_mid.contains(#[trigger] ord_mid[i])
            &&& ord0.contains(ord_mid[i])
            &&& ord_mid[i] != ord0[w]
        } by {
            let i0 = if i < w {
                i
            } else {
                i + 1
            };
            assert(ord_mid[i] == ord0[i0]);
            assert(ord0.contains(ord0[i0]));
        }
        assert forall|i: int|
            0 <= i < ord1.len() implies self.map@.contains_key(self.key_at(#[trigger] ord1[i]))
            && self.map@[self.key_at(ord1[i])] == ord1[i] as usize by {
            if i == 0 {
                assert(ord1[0] == s as int);
            } else {
                let x = ord_mid[i - 1];
                assert(ord1[i] == x);
                assert(self.key_at(x) == pre.key_at(x));
                let u = choose|u: int| 0 <= u < ord0.len() && ord0[u] == x;
                assert(pre.map@.contains_key(pre.key_at(ord0[u])) && pre.map@[pre.key_at(ord0[u])]
                    == ord0[u] as usize);
                assert(pre.key_at(x) != k) by {
                    assert(u != w);
                    assert(pre.key_at(ord0[u]) != pre.key_at(ord0[w]));
                }
            }
        }
        assert forall|kk: Seq<char>| #[trigger] self.map@.contains_key(kk) implies ord1.contains(
            self.map@[kk] as int,
        ) && self.key_at(self.map@[kk] as int) == kk by {
            if kk == k {
                assert(self.map@[kk] == s);
                assert(ord1[0] == s as int);
                assert(ord1.contains(s as int));
            } else {
                assert(pre.map@.contains_key(kk));
                let m = pre.map@[kk];
                assert(ord0.contains(m as int) && pre.key_at(m as int) == kk);
                assert(m as int != ord0[w]) by {
                    if m as int == ord0[w] {
                        assert(kk == pre.key_at(ord0[w]));
                    }
                }
                assert(ord_mid.contains(m as int));
                assert(m as int != s as int);
                assert(ord1.contains(m as int));
                assert(self.key_at(m as int) == kk);
                assert(self.map@[kk] == m);
            }
        }
        assert forall|i: int| 0 <= i < self.entries().len() implies self.entries()[i] == (seq![
            (k, v),
        ] + pre.entries().remove(w))[i] by {
            if i == 0 {
                assert(ord1[0] == s as int);
            } else {
                let x = ord_mid[i - 1];
                assert(ord1[i] == x);
                let i0 = if i - 1 < w {
                    i - 1
                } else {
                    i
                };
                assert(ord_mid[i - 1] == ord0[i0]);
                assert(pre.entries().remove(w)[i - 1] == pre.entries()[i0]);
                assert(pre.entries()[i0] == (pre.key_at(ord0[i0]), pre.val_at(ord0[i0])));
                assert(self.key_at(x) == pre.key_at(x));
            }
        }
        assert(self.entries() =~= seq![(k, v)] + pre.entries().remove(w));
    }
}

/// A well-formed cache never holds more entries than its capacity, and
/// its keys are pairwise distinct, so the number of entries equals the
/// number of distinct keys the key index maps.
pub proof fn lemma_len_bounded_keys_distinct<V>(c: LruCache<V>)
    requires
        c.inv(),
    ensures
        c.spec_len() <= c.spec_capacity(),
        keys_of(c.entries()).no_duplicates(),
        c.spec_len() == keys_of(c.entries()).to_set().len(),
{
    let ks = keys_of(c.entries());
    assert forall|i: int, j: int|
        0 <= i < ks.len() && 0 <= j < ks.len() && i != j implies ks[i] != ks[j] by {
        assert(ks[i] == c.entries()[i].0 && ks[j] == c.entries()[j].0);
        assert(c.entries()[i].0 == c.key_at(c.order@[i]));
        assert(c.entries()[j].0 == c.key_at(c.order@[j]));
    }
    ks.unique_seq_to_set();
}

/// A key just stored by `set` is found again: it stands at the head of
/// the recency order, carrying the stored value, so a `get` that
/// follows at once returns that value.
pub proof fn lemma_set_then_get<V>(pre: LruCache<V>, post: LruCache<V>, k: Seq<char>, v: V)
    requires
        post.inv(),
        !has_key(pre.entries(), k),
        (post.entries() == if pre.spec_len() < pre.spec_capacity() {
            seq![(k, v)] + pre.entries()
        } else {
            seq![(k, v)] + pre.entries().drop_last()
        }),
    ensures
        has_key(post.entries(), k),
        key_index(post.entries(), k) == 0,
        post.entries()[0] == (k, v),
{
    assert(post.entries()[0] == (k, v));
    assert(has_key(post.entries(), k));
    let ki = key_index(post.entries(), k);
    assert(0 <= ki < post.entries().len() && post.entries()[ki].0 == k);
    if ki != 0 {
        assert(post.entries()[ki].0 == post.key_at(post.order@[ki]));
        assert(post.entries()[0].0 == post.key_at(post.order@[0]));
        assert(post.key_at(post.order@[ki]) != post.key_at(post.order@[0]));
    }
}

/// Inserting a fresh key into a full cache evicts exactly the least
/// recently used entry: afterwards the evicted key is absent and every
/// other old key is still present.
pub proof fn lemma_eviction_drops_lru<V>(pre: LruCache<V>, post: LruCache<V>, k: Seq<char>, v: V)
    requires
        pre.inv(),
        pre.spec_len() == pre.spec_capacity(),
        !has_key(pre.entries(), k),
        post.entries() == seq![(k, v)] + pre.entries().drop_last(),
    ensures
        pre.spec_len() > 0,
        !has_key(post.entries(), pre.entries().last().0),
        forall|j: int|
            0 <= j < pre.entries().len() - 1 ==> has_key(
                post.entries(),
                (#[trigger] pre.entries()[j]).0,
            ),
{
    let es0 = pre.entries();
    let lru = es0.last().0;
    assert(lru == pre.key_at(pre.order@[es0.len() - 1]));
    assert(!has_key(post.entries(), lru)) by {
        if has_key(post.entries(), lru) {
            let w = choose|w: int| 0 <= w < post.entries().len() && post.entries()[w].0 == lru;
            if w == 0 {
                assert(es0[es0.len() - 1].0 == lru);
                assert(has_key(es0, lru));
            } else {
                assert(post.entries()[w] == es0[w - 1]);
                assert(es0[w - 1].0 == pre.key_at(pre.order@[w - 1]));
                assert(pre.key_at(pre.order@[w - 1]) != pre.key_at(pre.order@[es0.len() - 1]));
            }
        }
    }
    assert forall|j: int| 0 <= j < es0.len() - 1 implies has_key(
        post.entries(),
        (#[trigger] es0[j]).0,
    ) by {
        assert(post.entries()[j + 1] == es0[j]);
    }
}

/// A hit is a "use": immediately after `get` found `k`, a walk over the
/// cache yields `k`'s value first.
pub proof fn lemma_hit_yields_first<V>(
    post: LruCache<V>,
    rest: Seq<(Seq<char>, V)>,
    k: Seq<char>,
    v: V,
)
    requires
        post.entries() == seq![(k, v)] + rest,
    ensures
        post.spec_len() > 0,
        post.entries()[0] == (k, v),
        values_of(post.entries())[0] == v,
{
    assert(post.entries()[0] == (k, v));
}

/// Walking an unchanged cache is repeatable: any two walks started on
/// the same cache produce the same sequence of values.
pub proof fn lemma_iter_idempotent<'a, 'b, V>(
    c: LruCache<V>,
    i1: LruCacheIter<'a, V>,
    i2: LruCacheIter<'b, V>,
)
    requires
        i1.remaining() == values_of(c.entries()),
        i2.remaining() == values_of(c.entries()),
    ensures
        i1.remaining() == i2.remaining(),
{
}

} // verus!
