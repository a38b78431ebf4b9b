//! A generational arena: a growable slot table that hands out stable
//! `Index` handles (slot position plus generation stamp), supports O(1)
//! insertion and removal through an intrusive free list, and guarantees
//! that a handle made stale by a removal can never alias a value stored
//! later in the same slot.

use vstd::prelude::*;
use vstd::seq_lib::*;
use vstd::pervasive::VecAdditionalExecFns;

mod typed_arena;
mod typed_index;
mod typed_index2;
mod typed_iter_mut;

pub use typed_arena::TypedArena;
pub use typed_arena::TypedIter;
pub use typed_index::TypedIndex;
pub use typed_index2::TypedIndex2;
pub use typed_iter_mut::TypedIterMut;

verus! {

/// An index (and generation) into an `Arena`.
///
/// To get an `Index`, insert an element into an `Arena`; the `Index` for
/// that element is returned.
#[derive(Clone, Copy, Debug, PartialEq, Eq, PartialOrd, Ord, Hash, Structural)]
pub struct Index {
    /// The slot position this handle refers to.
    pub index: usize,
    /// The generation stamp the slot carried when the handle was issued.
    pub generation: u64,
}

impl Index {
    /// Create a new `Index` from its raw parts.
    ///
    /// The parts should have been returned from an earlier call to
    /// `into_raw_parts`; arbitrary values give a handle that no lookup
    /// matches.
    pub fn from_raw_parts(a: usize, b: u64) -> (r: Index)
        ensures
            r == (Index { index: a, generation: b }),
    {
        Index { index: a, generation: b }
    }

    /// Convert this `Index` into its raw parts.
    pub fn into_raw_parts(self) -> (r: (usize, u64))
        ensures
            r == (self.index, self.generation),
    {
        (self.index, self.generation)
    }
}

/// One storage cell of the arena: either a link in the free list or an
/// occupied slot holding a generation stamp and a value.
pub enum Entry<T> {
    /// The slot is empty; `next_free` links to the next free slot.
    Free { next_free: Option<usize> },
    /// The slot holds `value`, stamped with `generation`.
    Occupied { generation: u64, value: T },
}

impl<T> Entry<T> {
    /// The generation stamp of an occupied entry.
    pub open spec fn gen_of(&self) -> u64 {
        match self {
            Entry::Occupied { generation, .. } => *generation,
            Entry::Free { .. } => 0,
        }
    }

    /// The value of an occupied entry.
    pub open spec fn value_of(&self) -> T {
        match self {
            Entry::Occupied { value, .. } => *value,
            Entry::Free { .. } => vstd::pervasive::arbitrary(),
        }
    }

}

/// The `Arena` allows inserting and removing elements that are referred
/// to by `Index`.
pub struct Arena<T> {
    items: Vec<Entry<T>>,
    generation: u64,
    free_list_head: Option<usize>,
    len: usize,
    free_order: Ghost<Seq<usize>>,
}

impl<T> Arena<T> {
    /// The sequence of slots, in storage order.
    pub closed spec fn slots(&self) -> Seq<Entry<T>> {
        self.items@
    }

    /// The arena's generation counter; it is bumped on every removal.
    pub closed spec fn current_generation(&self) -> u64 {
        self.generation
    }

    /// The free slots, in the order the free list visits them.
    pub closed spec fn free_list(&self) -> Seq<usize> {
        self.free_order@
    }

    /// The first free slot, if any; it is the slot the next insertion uses.
    pub closed spec fn free_head(&self) -> Option<usize> {
        self.free_list_head
    }

    /// The number of occupied slots.
    pub closed spec fn len_spec(&self) -> usize {
        self.len
    }

    /// The number of slots, occupied or free.
    pub open spec fn capacity_spec(&self) -> nat {
        self.slots().len()
    }

    /// Well-formedness: the free list visits exactly the free slots, each
    /// once, linked in order and ending in `None`; `len` counts the
    /// occupied slots; and no occupied slot is stamped beyond the arena's
    /// generation counter.
    pub closed spec fn wf(&self) -> bool {
        let s = self.items@;
        let fl = self.free_order@;
        &&& fl.no_duplicates()
        &&& forall|k: int| 0 <= k < fl.len() ==> (#[trigger] fl[k]) < s.len()
        &&& forall|k: int|
            0 <= k < fl.len() ==> (#[trigger] s[fl[k] as int]) == (Entry::<T>::Free {
                next_free: if k + 1 < fl.len() {
                    Some(fl[k + 1])
                } else {
                    None
                },
            })
        &&& self.free_list_head == (if fl.len() > 0 {
            Some(fl[0])
        } else {
            None::<usize>
        })
        &&& forall|i: int| 0 <= i < s.len() && (#[trigger] s[i]) is Free ==> fl.contains(i as usize)
        &&& self.len + fl.len() == s.len()
        &&& forall|i: int|
            0 <= i < s.len() && (#[trigger] s[i]) is Occupied ==> s[i].gen_of()
                <= self.generation
    }

    /// The handle `i` currently refers to an occupied slot: its position is
    /// in range, the slot is occupied, and the stamps agree.
    pub open spec fn valid(&self, i: Index) -> bool {
        &&& i.index < self.slots().len()
        &&& self.slots()[i.index as int] is Occupied
        &&& self.slots()[i.index as int].gen_of() == i.generation
    }

    /// The value the handle `i` refers to (meaningful when `valid(i)`).
    pub open spec fn value_of(&self, i: Index) -> T {
        self.slots()[i.index as int].value_of()
    }

    /// The handle `i` is permanently dead: its stamp lies strictly below
    /// the arena's generation counter and its slot does not match it. No
    /// later operation can make such a handle valid again, because a slot
    /// is only ever re-stamped with the current counter, which never
    /// decreases.
    pub open spec fn lost(&self, i: Index) -> bool {
        i.generation < self.current_generation() && !self.valid(i)
    }

    /// Every handle valid in `pre` is valid in `post` and refers to the
    /// same value.
    pub open spec fn preserves_valid(pre: Self, post: Self) -> bool {
        forall|h: Index|
            #[trigger] pre.valid(h) ==> post.valid(h) && post.value_of(h) == pre.value_of(h)
    }

    /// Every handle dead in `pre` is still dead in `post`.
    pub open spec fn preserves_lost(pre: Self, post: Self) -> bool {
        forall|h: Index| #[trigger] pre.lost(h) ==> post.lost(h)
    }
}

pub const DEFAULT_CAPACITY: usize = 4;

impl<T> Default for Arena<T> {
    /// The default arena is empty, with the default capacity.
    fn default() -> (r: Self)
        ensures
            r.wf(),
            r.len_spec() == 0,
            r.current_generation() == 0,
            r.capacity_spec() == DEFAULT_CAPACITY,
            forall|j: int| 0 <= j < r.slots().len() ==> (#[trigger] r.slots()[j]) is Free,
    {
        Arena::new()
    }
}

impl<T> Arena<T> {
    /// Constructs a new, empty `Arena` with the default capacity.
    pub fn new() -> (r: Arena<T>)
        ensures
            r.wf(),
            r.len_spec() == 0,
            r.current_generation() == 0,
            r.capacity_spec() == DEFAULT_CAPACITY,
            forall|j: int| 0 <= j < r.slots().len() ==> (#[trigger] r.slots()[j]) is Free,
            r.free_list() == Seq::new(r.capacity_spec(), |k: int| k as usize),
    {
        Arena::with_capacity(DEFAULT_CAPACITY)
    }

    /// Constructs a new, empty `Arena<T>` with the specified capacity
    /// (normalized to at least one slot), every slot free and threaded
    /// into one free list in ascending order.
    pub fn with_capacity(n: usize) -> (r: Arena<T>)
        ensures
            r.wf(),
            r.len_spec() == 0,
            r.current_generation() == 0,
            r.capacity_spec() == (if n == 0 { 1nat } else { n as nat }),
            forall|j: int| 0 <= j < r.slots().len() ==> (#[trigger] r.slots()[j]) is Free,
            r.free_list() == Seq::new(r.capacity_spec(), |k: int| k as usize),
    {
        let m = if n == 0 { 1 } else { n };
        let mut arena = Arena {
            items: Vec::new(),
            generation: 0,
            free_list_head: None,
            len: 0,
            free_order: Ghost(Seq::empty()),
        };
        arena.reserve(m);
        proof {
            assert(arena.free_list() =~= Seq::new(arena.capacity_spec(), |k: int| k as usize));
        }
        arena
    }

    /// Allocate space for `additional_capacity` more slots in the arena.
    /// The new slots are threaded into the free list ahead of the existing
    /// free slots, so they are reused first.
    #[verifier::rlimit(50)]
    pub fn reserve(&mut self, additional_capacity: usize)
        requires
            old(self).wf(),
            old(self).slots().len() + additional_capacity <= usize::MAX,
        ensures
            final(self).wf(),
            final(self).current_generation() == old(self).current_generation(),
            final(self).len_spec() == old(self).len_spec(),
            final(self).slots().len() == old(self).slots().len() + additional_capacity,
            forall|j: int|
                0 <= j < old(self).slots().len() ==> final(self).slots()[j]
                    == old(self).slots()[j],
            forall|j: int|
                old(self).slots().len() <= j < final(self).slots().len()
                    ==> final(self).slots()[j] == (Entry::<T>::Free {
                    next_free: if j == final(self).slots().len() - 1 {
                        old(self).free_head()
                    } else {
                        Some((j + 1) as usize)
                    },
                }),
            final(self).free_list() == Seq::new(
                additional_capacity as nat,
                |k: int| (old(self).slots().len() + k) as usize,
            ) + old(self).free_list(),
            Self::preserves_valid(*old(self), *final(self)),
            Self::preserves_lost(*old(self), *final(self)),
    {
        if additional_capacity == 0 {
            proof {
                assert(final(self).free_list() =~= Seq::new(
                    0nat,
                    |k: int| (old(self).slots().len() + k) as usize,
                ) + old(self).free_list());
            }
            return;
        }
        let start = self.items.len();
        let end = start + additional_capacity;
        let old_head = self.free_list_head;
        let mut i = start;
        while i < end
            invariant
                start <= i <= end,
                start < end <= usize::MAX,
                self.generation == old(self).current_generation(),
                self.len == old(self).len_spec(),
                self.free_list_head == old(self).free_head(),
                self.free_order@ == old(self).free_list(),
                self.items@.len() == i,
                forall|j: int| 0 <= j < start ==> self.items@[j] == old(self).slots()[j],
                forall|j: int|
                    start <= j < i ==> self.items@[j] == (Entry::<T>::Free {
                        next_free: if j == end - 1 {
                            old(self).free_head()
                        } else {
                            Some((j + 1) as usize)
                        },
                    }),
                old_head == old(self).free_head(),
                end == start + additional_capacity,
                start == old(self).slots().len(),
            decreases end - i,
        {
            if i == end - 1 {
                self.items.push(Entry::Free { next_free: old_head });
            } else {
                self.items.push(Entry::Free { next_free: Some(i + 1) });
            }
            i += 1;
        }
        self.free_list_head = Some(start);
        proof {
            let old_fl = old(self).free_list();
            let fresh = Seq::new(additional_capacity as nat, |k: int| (start + k) as usize);
            self.free_order@ = fresh + old_fl;
            let fl = self.free_order@;
            let s = self.items@;
            assert forall|p: int, q: int|
                0 <= p < fl.len() && 0 <= q < fl.len() && p != q implies fl[p] != fl[q] by {
                if p >= fresh.len() && q >= fresh.len() {
                    assert(old_fl[p - fresh.len()] != old_fl[q - fresh.len()]);
                }
            }
            assert forall|k: int| 0 <= k < fl.len() implies (#[trigger] s[fl[k] as int]) == (
            Entry::<T>::Free {
                next_free: if k + 1 < fl.len() {
                    Some(fl[k + 1])
                } else {
                    None
                },
            }) by {
                if k < fresh.len() {
                    assert(fl[k] == start + k);
                    assert(s[fl[k] as int] == self.items@[start + k]);
                    if k + 1 < fresh.len() {
                        assert(fl[k + 1] == start + k + 1);
                    } else if old_fl.len() > 0 {
                        assert(fl[k + 1] == old_fl[0]);
                    }
                } else {
                    let kk = k - fresh.len();
                    assert(fl[k] == old_fl[kk]);
                    assert(old(self).slots()[old_fl[kk] as int] == (Entry::<T>::Free {
                        next_free: if kk + 1 < old_fl.len() {
                            Some(old_fl[kk + 1])
                        } else {
                            None
                        },
                    }));
                    assert(fl[k] < start);
                    assert(s[fl[k] as int] == old(self).slots()[fl[k] as int]);
                    if kk + 1 < old_fl.len() {
                        assert(fl[k + 1] == old_fl[kk + 1]);
                    }
                }
            }
            assert forall|i: int|
                0 <= i < s.len() && (#[trigger] s[i]) is Occupied implies s[i].gen_of()
                <= self.generation by {
                if i < start {
                    assert(s[i] == old(self).slots()[i]);
                } else {
                    assert(s[i] is Free);
                }
            }
            assert forall|j: int| 0 <= j < s.len() && (#[trigger] s[j]) is Free implies fl.contains(
                j as usize,
            ) by {
                if j < start {
                    assert(old(self).slots()[j] is Free);
                    assert(old_fl.contains(j as usize));
                    let k = old_fl.index_of(j as usize);
                    assert(fl[k + fresh.len()] == j as usize);
                } else {
                    assert(fl[j - start] == j as usize);
                }
            }
        }
    }

    /// Get the length of this arena: the number of occupied slots.
    pub fn len(&self) -> (r: usize)
        ensures
            r == self.len_spec(),
    {
        self.len
    }

    /// Returns true if the arena contains no elements.
    pub fn is_empty(&self) -> (r: bool)
        ensures
            r == (self.len_spec() == 0),
    {
        self.len == 0
    }

    /// Get the capacity of this arena: the number of slots it can fill
    /// without further allocation.
    pub fn capacity(&self) -> (r: usize)
        ensures
            r == self.capacity_spec(),
    {
        self.items.len()
    }

    /// Get a shared reference to the element behind `i`, or `None` if the
    /// position is out of range, the slot is free, or the stamps differ.
    pub fn get(&self, i: Index) -> (r: Option<&T>)
        ensures
            r is Some <==> self.valid(i),
            r is Some ==> *r.unwrap() == self.value_of(i),
    {
        if i.index < self.items.len() {
            match &self.items[i.index] {
                Entry::Occupied { generation, value } => {
                    if *generation == i.generation {
                        Some(value)
                    } else {
                        None
                    }
                },
                _ => None,
            }
        } else {
            None
        }
    }

    /// Is the element behind `i` in the arena?
    pub fn contains(&self, i: Index) -> (r: bool)
        ensures
            r == self.valid(i),
    {
        self.get(i).is_some()
    }
}

/// How many slots an insertion into a full arena adds: the current
/// capacity, but at least one.
pub open spec fn grow_amount(cap: nat) -> nat {
    if cap == 0 {
        1
    } else {
        cap
    }
}

/// A sequence of distinct slot positions, all below `n` and all avoiding
/// the position `x`, has fewer than `n` elements.
proof fn lemma_distinct_indices_bound(fl: Seq<usize>, n: int, x: usize)
    requires
        fl.no_duplicates(),
        forall|k: int| 0 <= k < fl.len() ==> (#[trigger] fl[k]) < n,
        x < n,
        !fl.contains(x),
    ensures
        fl.len() < n,
{
    let f = |u: usize| u as int;
    let m = fl.map_values(f);
    assert(vstd::relations::injective(f)) by {
        assert(forall|a: usize, b: usize| #[trigger] f(a) == #[trigger] f(b) ==> a == b);
    }
    fl.lemma_no_duplicates_injective(f);
    m.unique_seq_to_set();
    let range = vstd::set_lib::set_int_range(0, n);
    vstd::set_lib::lemma_int_range(0, n);
    let allowed = range.remove(x as int);
    assert(m.to_set().subset_of(allowed)) by {
        assert forall|e: int| m.to_set().contains(e) implies allowed.contains(e) by {
            let k = choose|k: int| 0 <= k < m.len() && m[k] == e;
            assert(fl[k] < n);
            assert(fl[k] != x);
        }
    }
    vstd::set_lib::lemma_len_subset(m.to_set(), allowed);
    assert(allowed.len() == n - 1) by {
        assert(range.contains(x as int));
    }
}

impl<T> Arena<T> {
    /// The shape of a successful allocation: slot `h.index` (the old free
    /// head) has been claimed, stamped with the unchanged generation
    /// counter, and filled with `value`; everything else stands.
    proof fn lemma_occupy(pre: Self, post: Self, h: Index, value: T)
        requires
            pre.wf(),
            pre.slots().len() <= usize::MAX,
            pre.free_list().len() > 0,
            h == (Index { index: pre.free_list()[0], generation: pre.current_generation() }),
            post.slots() == pre.slots().update(
                h.index as int,
                Entry::Occupied { generation: h.generation, value: value },
            ),
            post.free_list() == pre.free_list().drop_first(),
            post.free_head() == (if pre.free_list().len() > 1 {
                Some(pre.free_list()[1])
            } else {
                None::<usize>
            }),
            post.current_generation() == pre.current_generation(),
            post.len_spec() == pre.len_spec() + 1,
        ensures
            post.wf(),
            post.valid(h),
            post.value_of(h) == value,
            Self::preserves_valid(pre, post),
            Self::preserves_lost(pre, post),
    {
        let s = pre.slots();
        let fl = pre.free_list();
        let s2 = post.slots();
        let fl2 = post.free_list();
        let hi = fl[0];
        assert(s[hi as int] is Free);
        assert forall|p: int, q: int|
            0 <= p < fl2.len() && 0 <= q < fl2.len() && p != q implies fl2[p] != fl2[q] by {
            assert(fl[p + 1] != fl[q + 1]);
        }
        assert forall|k: int| 0 <= k < fl2.len() implies (#[trigger] s2[fl2[k] as int]) == (
        Entry::<T>::Free {
            next_free: if k + 1 < fl2.len() {
                Some(fl2[k + 1])
            } else {
                None
            },
        }) by {
            assert(fl2[k] == fl[k + 1]);
            assert(fl[k + 1] != hi);
            assert(s[fl[k + 1] as int] == (Entry::<T>::Free {
                next_free: if k + 2 < fl.len() {
                    Some(fl[k + 2])
                } else {
                    None
                },
            }));
            if k + 1 < fl2.len() {
                assert(fl2[k + 1] == fl[k + 2]);
            }
        }
        assert forall|j: int| 0 <= j < s2.len() && (#[trigger] s2[j]) is Free implies fl2.contains(
            j as usize,
        ) by {
            assert(s2[hi as int] is Occupied);
            assert(j != hi as int);
            assert(s[j] is Free);
            assert(fl.contains(j as usize));
            let k = fl.index_of(j as usize);
            assert(0 <= k < fl.len() && fl[k] == j as usize);
            assert(j as usize != hi);
            assert(k != 0);
            assert(fl2[k - 1] == j as usize);
        }
        assert forall|j: int|
            0 <= j < s2.len() && (#[trigger] s2[j]) is Occupied implies s2[j].gen_of()
            <= post.current_generation() by {
            if j != hi as int {
                assert(s2[j] == s[j]);
            }
        }
        assert(post.wf());
        assert forall|h2: Index| #[trigger] pre.valid(h2) implies post.valid(h2)
            && post.value_of(h2) == pre.value_of(h2) by {
            assert(h2.index != hi);
            assert(s2[h2.index as int] == s[h2.index as int]);
        }
        assert forall|h2: Index| #[trigger] pre.lost(h2) implies post.lost(h2) by {
            if h2.index == hi {
                assert(s2[h2.index as int].gen_of() == pre.current_generation());
            } else if h2.index < s.len() {
                assert(s2[h2.index as int] == s[h2.index as int]);
            }
        }
    }

    /// Pop the head of the free list and stamp a handle for it, counting
    /// the slot as occupied; the slot itself is written by the caller.
    fn try_alloc_next_index(&mut self) -> (r: Option<Index>)
        requires
            old(self).wf(),
        ensures
            old(self).free_list().len() == 0 ==> r is None && *final(self) == *old(self),
            old(self).free_list().len() > 0 ==> ({
                &&& r == Some(Index {
                    index: old(self).free_list()[0],
                    generation: old(self).current_generation(),
                })
                &&& final(self).slots() == old(self).slots()
                &&& final(self).free_list() == old(self).free_list().drop_first()
                &&& final(self).free_head() == (if old(self).free_list().len() > 1 {
                    Some(old(self).free_list()[1])
                } else {
                    None::<usize>
                })
                &&& final(self).len_spec() == old(self).len_spec() + 1
                &&& final(self).current_generation() == old(self).current_generation()
            }),
    {
        match self.free_list_head {
            None => None,
            Some(i) => {
                proof {
                    assert(self.items.len() == self.items@.len());
                    assert(self.free_order@[0] == i);
                    assert(self.items@[i as int] is Free);
                }
                match &self.items[i] {
                    Entry::Free { next_free } => {
                        let nf = *next_free;
                        self.free_list_head = nf;
                        self.len = self.len + 1;
                        proof {
                            self.free_order@ = self.free_order@.drop_first();
                        }
                        Some(Index { index: i, generation: self.generation })
                    },
                    Entry::Occupied { .. } => {
                        proof {
                            assert(false);
                        }
                        None
                    },
                }
            },
        }
    }

    /// Attempts to insert `value` into the arena using existing capacity.
    ///
    /// Succeeds, filling the slot at the head of the free list, if and
    /// only if some slot is free; otherwise hands `value` back unchanged
    /// and leaves the arena untouched.
    pub fn try_insert(&mut self, value: T) -> (r: Result<Index, T>)
        requires
            old(self).wf(),
        ensures
            final(self).wf(),
            final(self).current_generation() == old(self).current_generation(),
            final(self).capacity_spec() == old(self).capacity_spec(),
            Self::preserves_valid(*old(self), *final(self)),
            Self::preserves_lost(*old(self), *final(self)),
            old(self).free_list().len() == 0 ==> r == Err::<Index, T>(value) && *final(self)
                == *old(self),
            old(self).free_list().len() > 0 ==> ({
                let h = Index {
                    index: old(self).free_list()[0],
                    generation: old(self).current_generation(),
                };
                &&& r == Ok::<Index, T>(h)
                &&& final(self).valid(h)
                &&& final(self).value_of(h) == value
                &&& final(self).slots() == old(self).slots().update(
                    h.index as int,
                    Entry::Occupied { generation: h.generation, value: value },
                )
                &&& final(self).free_list() == old(self).free_list().drop_first()
                &&& final(self).len_spec() == old(self).len_spec() + 1
            }),
    {
        match self.try_alloc_next_index() {
            None => Err(value),
            Some(index) => {
                proof {
                    assert(old(self).items.len() == old(self).items@.len());
                    assert(old(self).free_list()[0] < old(self).slots().len());
                }
                self.items.set(
                    index.index,
                    Entry::Occupied { generation: self.generation, value },
                );
                proof {
                    Self::lemma_occupy(*old(self), *self, index, value);
                }
                Ok(index)
            },
        }
    }

    /// Insert `value` into the arena, allocating more capacity if
    /// necessary. When no slot is free, the capacity is doubled (from
    /// empty: one slot) and the first fresh slot is used.
    pub fn insert(&mut self, value: T) -> (r: Index)
        requires
            old(self).wf(),
            old(self).free_list().len() > 0 || old(self).slots().len() + grow_amount(
                old(self).slots().len(),
            ) <= usize::MAX,
        ensures
            final(self).wf(),
            final(self).current_generation() == old(self).current_generation(),
            r.generation == old(self).current_generation(),
            final(self).valid(r),
            final(self).value_of(r) == value,
            final(self).len_spec() == old(self).len_spec() + 1,
            Self::preserves_valid(*old(self), *final(self)),
            Self::preserves_lost(*old(self), *final(self)),
            old(self).free_list().len() > 0 ==> ({
                &&& r.index == old(self).free_list()[0]
                &&& final(self).capacity_spec() == old(self).capacity_spec()
                &&& final(self).slots() == old(self).slots().update(
                    r.index as int,
                    Entry::Occupied { generation: r.generation, value: value },
                )
                &&& final(self).free_list() == old(self).free_list().drop_first()
            }),
            old(self).free_list().len() == 0 ==> ({
                let cap = old(self).slots().len();
                let grown = grow_amount(cap);
                &&& r.index == cap
                &&& final(self).capacity_spec() == cap + grown
                &&& (forall|j: int|
                    0 <= j < cap ==> final(self).slots()[j] == old(self).slots()[j])
                &&& final(self).slots()[cap as int] == (Entry::Occupied {
                    generation: r.generation,
                    value: value,
                })
                &&& (forall|j: int|
                    cap < j < cap + grown ==> (#[trigger] final(self).slots()[j]) is Free)
                &&& final(self).free_list() == Seq::new(
                    (grown - 1) as nat,
                    |k: int| (cap + 1 + k) as usize,
                )
            }),
    {
        match self.try_insert(value) {
            Ok(i) => i,
            Err(value) => self.insert_slow_path(value),
        }
    }

    /// Grow the arena (doubling its capacity, at least one slot) and
    /// insert into the first fresh slot; called when no slot is free.
    fn insert_slow_path(&mut self, value: T) -> (r: Index)
        requires
            old(self).wf(),
            old(self).free_list().len() == 0,
            old(self).slots().len() + grow_amount(old(self).slots().len()) <= usize::MAX,
        ensures
            final(self).wf(),
            final(self).current_generation() == old(self).current_generation(),
            r.generation == old(self).current_generation(),
            final(self).valid(r),
            final(self).value_of(r) == value,
            final(self).len_spec() == old(self).len_spec() + 1,
            Self::preserves_valid(*old(self), *final(self)),
            Self::preserves_lost(*old(self), *final(self)),
            ({
                let cap = old(self).slots().len();
                let grown = grow_amount(cap);
                &&& r.index == cap
                &&& final(self).capacity_spec() == cap + grown
                &&& (forall|j: int|
                    0 <= j < cap ==> final(self).slots()[j] == old(self).slots()[j])
                &&& final(self).slots()[cap as int] == (Entry::Occupied {
                    generation: r.generation,
                    value: value,
                })
                &&& (forall|j: int|
                    cap < j < cap + grown ==> (#[trigger] final(self).slots()[j]) is Free)
                &&& final(self).free_list() == Seq::new(
                    (grown - 1) as nat,
                    |k: int| (cap + 1 + k) as usize,
                )
            }),
    {
        let len = self.items.len();
        let additional = if len == 0 { 1 } else { len };
        self.reserve(additional);
        let r = match self.try_insert(value) {
            Ok(i) => i,
            Err(_) => {
                proof {
                    assert(false);
                }
                Index { index: 0, generation: 0 }
            },
        };
        proof {
            let cap = old(self).slots().len();
            let grown = grow_amount(cap);
            assert(final(self).free_list() =~= Seq::new(
                (grown - 1) as nat,
                |k: int| (cap + 1 + k) as usize,
            ));
        }
        r
    }

    /// Attempts to insert the value returned by `create` into the arena
    /// using existing capacity. `create` is called with the new value's
    /// associated handle, so a value can know its own handle.
    ///
    /// Succeeds if and only if some slot is free; otherwise hands
    /// `create` back unchanged and leaves the arena untouched.
    pub fn try_insert_with<F: FnOnce(Index) -> T>(&mut self, create: F) -> (r: Result<Index, F>)
        requires
            old(self).wf(),
            forall|h: Index| call_requires(create, (h,)),
        ensures
            final(self).wf(),
            final(self).current_generation() == old(self).current_generation(),
            final(self).capacity_spec() == old(self).capacity_spec(),
            Self::preserves_valid(*old(self), *final(self)),
            Self::preserves_lost(*old(self), *final(self)),
            old(self).free_list().len() == 0 ==> (r matches Err(f) && f == create) && *final(self) == *old(self),
            old(self).free_list().len() > 0 ==> ({
                let h = Index {
                    index: old(self).free_list()[0],
                    generation: old(self).current_generation(),
                };
                &&& r == Ok::<Index, F>(h)
                &&& final(self).valid(h)
                &&& call_ensures(create, (h,), final(self).value_of(h))
                &&& final(self).slots() == old(self).slots().update(
                    h.index as int,
                    Entry::Occupied {
                        generation: h.generation,
                        value: final(self).value_of(h),
                    },
                )
                &&& final(self).free_list() == old(self).free_list().drop_first()
                &&& final(self).len_spec() == old(self).len_spec() + 1
            }),
    {
        match self.try_alloc_next_index() {
            None => Err(create),
            Some(index) => {
                proof {
                    assert(old(self).items.len() == old(self).items@.len());
                    assert(old(self).free_list()[0] < old(self).slots().len());
                }
                let value = create(index);
                self.items.set(
                    index.index,
                    Entry::Occupied { generation: index.generation, value },
                );
                proof {
                    Self::lemma_occupy(*old(self), *self, index, value);
                }
                Ok(index)
            },
        }
    }

    /// Insert the value returned by `create` into the arena, allocating
    /// more capacity if necessary. `create` is called with the new
    /// value's associated handle, so a value can know its own handle.
    pub fn insert_with<F: FnOnce(Index) -> T>(&mut self, create: F) -> (r: Index)
        requires
            old(self).wf(),
            forall|h: Index| call_requires(create, (h,)),
            old(self).free_list().len() > 0 || old(self).slots().len() + grow_amount(
                old(self).slots().len(),
            ) <= usize::MAX,
        ensures
            final(self).wf(),
            final(self).current_generation() == old(self).current_generation(),
            r.generation == old(self).current_generation(),
            final(self).valid(r),
            call_ensures(create, (r,), final(self).value_of(r)),
            final(self).len_spec() == old(self).len_spec() + 1,
            Self::preserves_valid(*old(self), *final(self)),
            Self::preserves_lost(*old(self), *final(self)),
            old(self).free_list().len() > 0 ==> r.index == old(self).free_list()[0] && final(self).capacity_spec() == old(self).capacity_spec(),
            old(self).free_list().len() == 0 ==> r.index == old(self).slots().len() && final(self).capacity_spec() == old(self).slots().len() + grow_amount(old(self).slots().len()),
    {
        match self.try_insert_with(create) {
            Ok(i) => i,
            Err(create) => self.insert_with_slow_path(create),
        }
    }

    /// Grow the arena (doubling its capacity, at least one slot) and
    /// insert through `create` into the first fresh slot; called when no
    /// slot is free.
    fn insert_with_slow_path<F: FnOnce(Index) -> T>(&mut self, create: F) -> (r: Index)
        requires
            old(self).wf(),
            old(self).free_list().len() == 0,
            forall|h: Index| call_requires(create, (h,)),
            old(self).slots().len() + grow_amount(old(self).slots().len()) <= usize::MAX,
        ensures
            final(self).wf(),
            final(self).current_generation() == old(self).current_generation(),
            r.generation == old(self).current_generation(),
            final(self).valid(r),
            call_ensures(create, (r,), final(self).value_of(r)),
            final(self).len_spec() == old(self).len_spec() + 1,
            Self::preserves_valid(*old(self), *final(self)),
            Self::preserves_lost(*old(self), *final(self)),
            r.index == old(self).slots().len(),
            final(self).capacity_spec() == old(self).slots().len() + grow_amount(
                old(self).slots().len(),
            ),
    {
        let len = self.items.len();
        let additional = if len == 0 { 1 } else { len };
        self.reserve(additional);
        match self.try_insert_with(create) {
            Ok(i) => i,
            Err(_) => {
                proof {
                    assert(false);
                }
                Index { index: 0, generation: 0 }
            },
        }
    }

    /// The shape of a removal: the occupied slot behind the valid handle
    /// `i` has been emptied and pushed onto the free list, and the
    /// generation counter bumped, so `i` is dead for good.
    proof fn lemma_release(pre: Self, post: Self, i: Index)
        requires
            pre.wf(),
            pre.slots().len() <= usize::MAX,
            pre.valid(i),
            pre.current_generation() < u64::MAX,
            post.slots() == pre.slots().update(
                i.index as int,
                Entry::Free { next_free: pre.free_head() },
            ),
            post.free_list() == seq![i.index] + pre.free_list(),
            post.free_head() == Some(i.index),
            post.current_generation() == pre.current_generation() + 1,
            post.len_spec() + 1 == pre.len_spec(),
        ensures
            post.wf(),
            post.lost(i),
            forall|h: Index|
                #[trigger] pre.valid(h) && h != i ==> post.valid(h) && post.value_of(h)
                    == pre.value_of(h),
            Self::preserves_lost(pre, post),
    {
        let s = pre.slots();
        let fl = pre.free_list();
        let s2 = post.slots();
        let fl2 = post.free_list();
        let x = i.index;
        assert(!fl.contains(x)) by {
            if fl.contains(x) {
                let k = fl.index_of(x);
                assert(s[fl[k] as int] is Free);
            }
        }
        assert forall|p: int, q: int|
            0 <= p < fl2.len() && 0 <= q < fl2.len() && p != q implies fl2[p] != fl2[q] by {
            if p >= 1 && q >= 1 {
                assert(fl[p - 1] != fl[q - 1]);
            } else if p == 0 {
                assert(fl2[q] == fl[q - 1]);
            } else {
                assert(fl2[p] == fl[p - 1]);
            }
        }
        assert forall|k: int| 0 <= k < fl2.len() implies (#[trigger] s2[fl2[k] as int]) == (
        Entry::<T>::Free {
            next_free: if k + 1 < fl2.len() {
                Some(fl2[k + 1])
            } else {
                None
            },
        }) by {
            if k == 0 {
                assert(fl2[0] == x);
                if fl.len() > 0 {
                    assert(fl2[1] == fl[0]);
                }
            } else {
                assert(fl2[k] == fl[k - 1]);
                assert(fl[k - 1] != x);
                assert(s[fl[k - 1] as int] == (Entry::<T>::Free {
                    next_free: if k < fl.len() {
                        Some(fl[k])
                    } else {
                        None
                    },
                }));
                if k + 1 < fl2.len() {
                    assert(fl2[k + 1] == fl[k]);
                }
            }
        }
        assert forall|j: int| 0 <= j < s2.len() && (#[trigger] s2[j]) is Free implies fl2.contains(
            j as usize,
        ) by {
            if j == x as int {
                assert(fl2[0] == j as usize);
            } else {
                assert(s[j] is Free);
                assert(fl.contains(j as usize));
                let k = fl.index_of(j as usize);
                assert(fl2[k + 1] == j as usize);
            }
        }
        assert forall|j: int|
            0 <= j < s2.len() && (#[trigger] s2[j]) is Occupied implies s2[j].gen_of()
            <= post.current_generation() by {
            assert(j != x as int);
            assert(s2[j] == s[j]);
        }
        assert(post.wf());
        assert forall|h: Index| #[trigger] pre.valid(h) && h != i implies post.valid(h)
            && post.value_of(h) == pre.value_of(h) by {
            assert(h.index != x);
            assert(s2[h.index as int] == s[h.index as int]);
        }
        assert forall|h: Index| #[trigger] pre.lost(h) implies post.lost(h) by {
            if h.index != x && h.index < s.len() {
                assert(s2[h.index as int] == s[h.index as int]);
            }
        }
    }

    /// Remove the element behind the handle `i` from the arena.
    ///
    /// Returns the value if and only if `i` is currently valid; a stale,
    /// free-slot or out-of-range handle leaves the arena untouched. On
    /// success the generation counter is bumped, so `i` can never match
    /// again.
    pub fn remove(&mut self, i: Index) -> (r: Option<T>)
        requires
            old(self).wf(),
            old(self).valid(i) ==> old(self).current_generation() < u64::MAX,
        ensures
            final(self).wf(),
            r is Some <==> old(self).valid(i),
            !old(self).valid(i) ==> *final(self) == *old(self) && r is None,
            old(self).valid(i) ==> ({
                &&& r == Some(old(self).value_of(i))
                &&& final(self).slots() == old(self).slots().update(
                    i.index as int,
                    Entry::Free { next_free: old(self).free_head() },
                )
                &&& final(self).free_list() == seq![i.index] + old(self).free_list()
                &&& final(self).current_generation() == old(self).current_generation() + 1
                &&& final(self).len_spec() + 1 == old(self).len_spec()
                &&& final(self).lost(i)
            }),
            final(self).capacity_spec() == old(self).capacity_spec(),
            final(self).current_generation() >= old(self).current_generation(),
            forall|h: Index|
                #[trigger] old(self).valid(h) && h != i ==> final(self).valid(h)
                    && final(self).value_of(h) == old(self).value_of(h),
            Self::preserves_lost(*old(self), *final(self)),
    {
        if i.index >= self.items.len() {
            return None;
        }
        let gen_matches = match &self.items[i.index] {
            Entry::Occupied { generation, .. } => *generation == i.generation,
            _ => false,
        };
        if !gen_matches {
            return None;
        }
        proof {
            assert(self.items.len() == self.items@.len());
            lemma_distinct_indices_bound(self.free_order@, self.items@.len() as int, i.index);
        }
        let mut entry = Entry::Free { next_free: self.free_list_head };
        self.items.set_and_swap(i.index, &mut entry);
        self.generation = self.generation + 1;
        self.free_list_head = Some(i.index);
        self.len = self.len - 1;
        proof {
            self.free_order@ = seq![i.index] + self.free_order@;
            Self::lemma_release(*old(self), *self, i);
        }
        match entry {
            Entry::Occupied { generation: _, value } => Some(value),
            Entry::Free { .. } => {
                proof {
                    assert(false);
                }
                None
            },
        }
    }

    /// Get an exclusive reference to the element behind `i`, or `None` if
    /// the position is out of range, the slot is free, or the stamps
    /// differ. Writing through the reference changes only that value.
    pub fn get_mut(&mut self, i: Index) -> (r: Option<&mut T>)
        ensures
            r is Some <==> old(self).valid(i),
            r is None ==> *final(self) == *old(self),
            (match r {
                Some(p) => {
                    &&& *p == old(self).value_of(i)
                    &&& final(self).slots() == old(self).slots().update(
                        i.index as int,
                        Entry::Occupied { generation: i.generation, value: *final(p) },
                    )
                    &&& final(self).current_generation() == old(self).current_generation()
                    &&& final(self).free_list() == old(self).free_list()
                    &&& final(self).free_head() == old(self).free_head()
                    &&& final(self).len_spec() == old(self).len_spec()
                },
                None => true,
            }),
            old(self).wf() ==> final(self).wf(),
            forall|h: Index| final(self).valid(h) == old(self).valid(h),
            Self::preserves_lost(*old(self), *final(self)),
    {
        if i.index >= self.items.len() {
            return None;
        }
        let gen_matches = match &self.items[i.index] {
            Entry::Occupied { generation, .. } => *generation == i.generation,
            _ => false,
        };
        if !gen_matches {
            return None;
        }
        match &mut self.items[i.index] {
            Entry::Occupied { generation: _, value } => Some(value),
            _ => {
                proof {
                    assert(false);
                }
                None
            },
        }
    }

    /// Direct access to the element behind a handle that the caller has
    /// already established to be live. An absent handle is a caller
    /// contract violation.
    pub fn index(&self, i: Index) -> (r: &T)
        requires
            self.valid(i),
        ensures
            *r == self.value_of(i),
    {
        self.get(i).unwrap()
    }

    /// Direct exclusive access to the element behind a handle that the
    /// caller has already established to be live. An absent handle is a
    /// caller contract violation.
    pub fn index_mut(&mut self, i: Index) -> (r: &mut T)
        requires
            old(self).valid(i),
        ensures
            *r == old(self).value_of(i),
            final(self).slots() == old(self).slots().update(
                i.index as int,
                Entry::Occupied { generation: i.generation, value: *final(r) },
            ),
            final(self).current_generation() == old(self).current_generation(),
            final(self).free_list() == old(self).free_list(),
            final(self).free_head() == old(self).free_head(),
            final(self).len_spec() == old(self).len_spec(),
            old(self).wf() ==> final(self).wf(),
            forall|h: Index| final(self).valid(h) == old(self).valid(h),
            Self::preserves_lost(*old(self), *final(self)),
    {
        self.get_mut(i).unwrap()
    }

    /// Given a bare position without a generation, get a shared reference
    /// to the element there together with its current `Index`, or `None`
    /// if the position is out of range or the slot is free.
    pub fn get_unknown_gen(&self, i: usize) -> (r: Option<(&T, Index)>)
        ensures
            r is Some <==> (i < self.slots().len() && self.slots()[i as int] is Occupied),
            (match r {
                Some(p) => {
                    &&& p.1 == (Index { index: i, generation: self.slots()[i as int].gen_of() })
                    &&& self.valid(p.1)
                    &&& *p.0 == self.value_of(p.1)
                },
                None => true,
            }),
    {
        if i < self.items.len() {
            match &self.items[i] {
                Entry::Occupied { generation, value } => {
                    Some((value, Index { index: i, generation: *generation }))
                },
                _ => None,
            }
        } else {
            None
        }
    }

    /// Given a bare position without a generation, get an exclusive
    /// reference to the element there together with its current `Index`,
    /// or `None` if the position is out of range or the slot is free.
    pub fn get_unknown_gen_mut(&mut self, i: usize) -> (r: Option<(&mut T, Index)>)
        ensures
            r is Some <==> (i < old(self).slots().len() && old(self).slots()[i as int]
                is Occupied),
            r is None ==> *final(self) == *old(self),
            (match r {
                Some(p) => {
                    &&& p.1 == (Index {
                        index: i,
                        generation: old(self).slots()[i as int].gen_of(),
                    })
                    &&& old(self).valid(p.1)
                    &&& *p.0 == old(self).value_of(p.1)
                    &&& final(self).slots() == old(self).slots().update(
                        i as int,
                        Entry::Occupied { generation: p.1.generation, value: *final(p.0) },
                    )
                    &&& final(self).current_generation() == old(self).current_generation()
                    &&& final(self).free_list() == old(self).free_list()
                    &&& final(self).free_head() == old(self).free_head()
                    &&& final(self).len_spec() == old(self).len_spec()
                },
                None => true,
            }),
            old(self).wf() ==> final(self).wf(),
            forall|h: Index| final(self).valid(h) == old(self).valid(h),
            Self::preserves_lost(*old(self), *final(self)),
    {
        if i >= self.items.len() {
            return None;
        }
        let occupied = match &self.items[i] {
            Entry::Occupied { .. } => true,
            _ => false,
        };
        if !occupied {
            return None;
        }
        match &mut self.items[i] {
            Entry::Occupied { generation, value } => {
                let idx = Index { index: i, generation: *generation };
                Some((value, idx))
            },
            _ => {
                proof {
                    assert(false);
                }
                None
            },
        }
    }
}

/// The number of free slots in `s`.
spec fn count_free<T>(s: Seq<Entry<T>>) -> int
    decreases s.len(),
{
    if s.len() == 0 {
        0
    } else {
        count_free(s.drop_last()) + if s.last() is Free {
            1int
        } else {
            0int
        }
    }
}

/// One past the highest occupied position in `s`, or zero when every
/// slot is free.
pub open spec fn occupied_extent<T>(s: Seq<Entry<T>>) -> int
    decreases s.len(),
{
    if s.len() == 0 {
        0
    } else if s.last() is Occupied {
        s.len() as int
    } else {
        occupied_extent(s.drop_last())
    }
}

/// The free positions of `s`, highest first.
pub open spec fn free_positions_desc<T>(s: Seq<Entry<T>>) -> Seq<usize>
    decreases s.len(),
{
    if s.len() == 0 {
        Seq::empty()
    } else if s.last() is Free {
        seq![(s.len() - 1) as usize] + free_positions_desc(s.drop_last())
    } else {
        free_positions_desc(s.drop_last())
    }
}

/// A sequence of distinct positions that points at free slots and covers
/// every free slot has exactly as many elements as `s` has free slots.
proof fn lemma_free_count<T>(s: Seq<Entry<T>>, fl: Seq<usize>)
    requires
        s.len() <= usize::MAX,
        fl.no_duplicates(),
        forall|k: int|
            0 <= k < fl.len() ==> (#[trigger] fl[k]) < s.len() && s[fl[k] as int] is Free,
        forall|i: int| 0 <= i < s.len() && (#[trigger] s[i]) is Free ==> fl.contains(i as usize),
    ensures
        fl.len() == count_free(s),
    decreases s.len(),
{
    if s.len() == 0 {
        if fl.len() > 0 {
            assert(fl[0] < 0);
        }
    } else {
        let s2 = s.drop_last();
        let x = (s.len() - 1) as usize;
        if s.last() is Free {
            assert(s[x as int] is Free);
            assert(fl.contains(x));
            let k = fl.index_of(x);
            let fl2 = fl.subrange(0, k) + fl.subrange(k + 1, fl.len() as int);
            assert forall|m: int| 0 <= m < fl2.len() implies (#[trigger] fl2[m]) < s2.len()
                && s2[fl2[m] as int] is Free by {
                let orig: int = if m < k {
                    m
                } else {
                    m + 1
                };
                assert(fl2[m] == fl[orig]);
                assert(fl[orig] != x);
                assert(s2[fl2[m] as int] == s[fl2[m] as int]);
            }
            assert forall|i: int|
                0 <= i < s2.len() && (#[trigger] s2[i]) is Free implies fl2.contains(
                i as usize,
            ) by {
                assert(s[i] == s2[i]);
                assert(fl.contains(i as usize));
                let m = fl.index_of(i as usize);
                assert(i as usize != x);
                assert(m != k);
                if m < k {
                    assert(fl2[m] == i as usize);
                } else {
                    assert(fl2[m - 1] == i as usize);
                }
            }
            assert forall|p: int, q: int|
                0 <= p < fl2.len() && 0 <= q < fl2.len() && p != q implies fl2[p] != fl2[q] by {
                let po: int = if p < k {
                    p
                } else {
                    p + 1
                };
                let qo: int = if q < k {
                    q
                } else {
                    q + 1
                };
                assert(fl2[p] == fl[po]);
                assert(fl2[q] == fl[qo]);
            }
            lemma_free_count(s2, fl2);
        } else {
            assert forall|m: int| 0 <= m < fl.len() implies (#[trigger] fl[m]) < s2.len()
                && s2[fl[m] as int] is Free by {
                assert(s[fl[m] as int] is Free);
                assert(fl[m] != x);
                assert(s2[fl[m] as int] == s[fl[m] as int]);
            }
            assert forall|i: int|
                0 <= i < s2.len() && (#[trigger] s2[i]) is Free implies fl.contains(
                i as usize,
            ) by {
                assert(s[i] == s2[i]);
            }
            lemma_free_count(s2, fl);
        }
    }
}

/// A sequence with no occupied slot is all free slots.
proof fn lemma_count_free_all<T>(s: Seq<Entry<T>>)
    requires
        forall|j: int| 0 <= j < s.len() ==> !((#[trigger] s[j]) is Occupied),
    ensures
        count_free(s) == s.len(),
    decreases s.len(),
{
    if s.len() > 0 {
        assert(s.last() == s[s.len() - 1]);
        lemma_count_free_all(s.drop_last());
    }
}

/// Free-slot counts agree between sequences with the same occupancy.
proof fn lemma_count_free_congruent<T>(a: Seq<Entry<T>>, b: Seq<Entry<T>>)
    requires
        a.len() == b.len(),
        forall|j: int| 0 <= j < a.len() ==> ((#[trigger] a[j]) is Free <==> b[j] is Free),
    ensures
        count_free(a) == count_free(b),
    decreases a.len(),
{
    if a.len() > 0 {
        assert(a.last() == a[a.len() - 1]);
        lemma_count_free_congruent(a.drop_last(), b.drop_last());
    }
}

/// Dropping an all-free tail removes exactly that many free slots from
/// the count.
proof fn lemma_count_free_trunc<T>(s: Seq<Entry<T>>, m: int)
    requires
        0 <= m <= s.len(),
        forall|j: int| m <= j < s.len() ==> (#[trigger] s[j]) is Free,
    ensures
        count_free(s.subrange(0, m)) == count_free(s) - (s.len() - m),
    decreases s.len() - m,
{
    if m == s.len() {
        assert(s.subrange(0, m) =~= s);
    } else {
        assert(s.last() == s[s.len() - 1]);
        assert(s.drop_last().subrange(0, m) =~= s.subrange(0, m));
        lemma_count_free_trunc(s.drop_last(), m);
    }
}

/// The handle/value pairs of the occupied slots of `s`, in storage
/// order, where `s` starts at arena position `base`.
pub open spec fn occupied_items<T>(s: Seq<Entry<T>>, base: int) -> Seq<(Index, T)>
    decreases s.len(),
{
    if s.len() == 0 {
        Seq::empty()
    } else {
        match s[0] {
            Entry::Occupied { generation, value } => seq![
                (Index { index: base as usize, generation }, value),
            ] + occupied_items(s.drop_first(), base + 1),
            Entry::Free { .. } => occupied_items(s.drop_first(), base + 1),
        }
    }
}

/// The values of the occupied slots of `s`, in storage order.
pub open spec fn occupied_values<T>(s: Seq<Entry<T>>) -> Seq<T>
    decreases s.len(),
{
    if s.len() == 0 {
        Seq::empty()
    } else {
        match s[0] {
            Entry::Occupied { value, .. } => seq![value] + occupied_values(s.drop_first()),
            Entry::Free { .. } => occupied_values(s.drop_first()),
        }
    }
}

/// Counting free slots from the front agrees with the definition.
proof fn lemma_count_free_first<T>(s: Seq<Entry<T>>)
    requires
        s.len() > 0,
    ensures
        count_free(s) == count_free(s.drop_first()) + if s[0] is Free {
            1int
        } else {
            0int
        },
    decreases s.len(),
{
    if s.len() == 1 {
        assert(s.drop_first() =~= Seq::empty());
        assert(s.drop_last() =~= Seq::empty());
        assert(s.last() == s[0]);
    } else {
        lemma_count_free_first(s.drop_last());
        assert(s.drop_last().drop_first() =~= s.drop_first().drop_last());
        assert(s.drop_last()[0] == s[0]);
        assert(s.drop_first().last() == s.last());
    }
}

/// There are as many occupied handle/value pairs as occupied slots.
proof fn lemma_occupied_items_len<T>(s: Seq<Entry<T>>, base: int)
    ensures
        occupied_items(s, base).len() == s.len() - count_free(s),
        occupied_values(s).len() == s.len() - count_free(s),
    decreases s.len(),
{
    if s.len() > 0 {
        lemma_count_free_first(s);
        lemma_occupied_items_len(s.drop_first(), base + 1);
    }
}

/// Dropping the last slot drops the last pair when that slot is
/// occupied, and nothing otherwise.
proof fn lemma_occupied_items_last<T>(s: Seq<Entry<T>>, base: int)
    requires
        s.len() > 0,
    ensures
        s.last() is Occupied ==> occupied_items(s, base) == occupied_items(s.drop_last(), base)
            + seq![
            (
                Index {
                    index: (base + s.len() - 1) as usize,
                    generation: s.last().gen_of(),
                },
                s.last().value_of(),
            ),
        ] && occupied_values(s) == occupied_values(s.drop_last()) + seq![s.last().value_of()],
        s.last() is Free ==> occupied_items(s, base) == occupied_items(s.drop_last(), base)
            && occupied_values(s) == occupied_values(s.drop_last()),
    decreases s.len(),
{
    if s.len() == 1 {
        assert(s.drop_first() =~= Seq::empty());
        assert(s.drop_last() =~= Seq::empty());
        assert(s.last() == s[0]);
        assert(occupied_items(s.drop_first(), base + 1) =~= Seq::empty());
        assert(occupied_values(s.drop_first()) =~= Seq::empty());
        assert(occupied_items(s.drop_last(), base) =~= Seq::empty());
        assert(occupied_values(s.drop_last()) =~= Seq::empty());
        if s[0] is Occupied {
            assert(occupied_items(s, base) =~= occupied_items(s.drop_last(), base) + seq![
                (
                    Index {
                        index: (base + s.len() - 1) as usize,
                        generation: s.last().gen_of(),
                    },
                    s.last().value_of(),
                ),
            ]);
            assert(occupied_values(s) =~= occupied_values(s.drop_last()) + seq![
                s.last().value_of(),
            ]);
        }
    } else {
        lemma_occupied_items_last(s.drop_first(), base + 1);
        assert(s.drop_first().drop_last() =~= s.drop_last().drop_first());
        assert(s.drop_first().last() == s.last());
        assert(s.drop_last()[0] == s[0]);
        if s.last() is Occupied {
            assert(occupied_items(s, base) =~= occupied_items(s.drop_last(), base) + seq![
                (
                    Index {
                        index: (base + s.len() - 1) as usize,
                        generation: s.last().gen_of(),
                    },
                    s.last().value_of(),
                ),
            ]);
            assert(occupied_values(s) =~= occupied_values(s.drop_last()) + seq![
                s.last().value_of(),
            ]);
        } else {
            assert(occupied_items(s, base) =~= occupied_items(s.drop_last(), base));
            assert(occupied_values(s) =~= occupied_values(s.drop_last()));
        }
    }
}

/// Split two exclusive element references out of one vector, at the
/// distinct positions `i < j`.
fn two_mut<A>(v: &mut Vec<A>, i: usize, j: usize) -> (r: (&mut A, &mut A))
    requires
        i < j < old(v)@.len(),
    ensures
        *r.0 == old(v)@[i as int],
        *r.1 == old(v)@[j as int],
        final(v)@ =~= old(v)@.update(i as int, *final(r.0)).update(j as int, *final(r.1)),
{
    let s = v.as_mut_slice();
    let (xs, ys) = s.split_at_mut(j);
    let b = ys.first_mut().unwrap();
    let (ws, zs) = xs.split_at_mut(i);
    let a = zs.first_mut().unwrap();
    (a, b)
}

impl<T> Arena<T> {
    /// Take the value reference out of an exclusive entry reference, or
    /// `None` for a free entry. The generation stamp stays as it is.
    fn entry_value_mut(e: &mut Entry<T>) -> (r: Option<&mut T>)
        ensures
            r is Some <==> (*old(e)) is Occupied,
            (match r {
                Some(p) => {
                    &&& *p == old(e).value_of()
                    &&& *final(e) == (Entry::Occupied {
                        generation: old(e).gen_of(),
                        value: *final(p),
                    })
                },
                None => *final(e) == *old(e),
            }),
    {
        match e {
            Entry::Occupied { generation: _, value } => Some(value),
            Entry::Free { .. } => None,
        }
    }

    /// Reduces the backing storage to one past the highest occupied slot
    /// (to nothing when the arena is empty), and rebuilds the free list
    /// from the remaining free slots, highest first.
    #[verifier::rlimit(60)]
    pub fn shrink_to_fit(&mut self)
        requires
            old(self).wf(),
        ensures
            final(self).wf(),
            final(self).len_spec() == old(self).len_spec(),
            final(self).current_generation() == old(self).current_generation(),
            final(self).capacity_spec() == occupied_extent(old(self).slots()),
            forall|j: int|
                0 <= j < final(self).slots().len() && (#[trigger] old(self).slots()[j])
                    is Occupied ==> final(self).slots()[j] == old(self).slots()[j],
            forall|j: int|
                0 <= j < final(self).slots().len() && !((#[trigger] old(self).slots()[j])
                    is Occupied) ==> (final(self).slots()[j]) is Free,
            final(self).free_list() == free_positions_desc(final(self).slots()),
            Self::preserves_valid(*old(self), *final(self)),
            forall|h: Index| #[trigger] final(self).valid(h) ==> old(self).valid(h),
            Self::preserves_lost(*old(self), *final(self)),
    {
        let ghost s_old = self.items@;
        let ghost fl_old = self.free_order@;
        let mut new_len = self.items.len();
        proof {
            assert(s_old.subrange(0, s_old.len() as int) =~= s_old);
        }
        loop
            invariant
                new_len <= s_old.len(),
                *self == *old(self),
                self.items@ == s_old,
                forall|j: int| new_len <= j < s_old.len() ==> (#[trigger] s_old[j]) is Free,
                occupied_extent(s_old) == occupied_extent(s_old.subrange(0, new_len as int)),
            ensures
                new_len <= s_old.len(),
                forall|j: int| new_len <= j < s_old.len() ==> (#[trigger] s_old[j]) is Free,
                occupied_extent(s_old) == occupied_extent(s_old.subrange(0, new_len as int)),
                new_len == 0 || s_old[new_len - 1] is Occupied,
                *self == *old(self),
            decreases new_len,
        {
            if new_len == 0 {
                break;
            }
            let is_occ = match &self.items[new_len - 1] {
                Entry::Occupied { .. } => true,
                _ => false,
            };
            if is_occ {
                break;
            }
            proof {
                let sub = s_old.subrange(0, new_len as int);
                assert(sub.last() == s_old[new_len - 1]);
                assert(sub.drop_last() =~= s_old.subrange(0, new_len - 1));
            }
            new_len = new_len - 1;
        }
        proof {
            if new_len > 0 {
                let sub = s_old.subrange(0, new_len as int);
                assert(sub.last() == s_old[new_len - 1]);
            }
            assert(occupied_extent(s_old) == new_len);
        }
        self.items.truncate(new_len);
        self.free_list_head = None;
        proof {
            self.free_order@ = Seq::empty();
        }
        let ghost s0 = self.items@;
        let mut i: usize = 0;
        while i < self.items.len()
            invariant
                i <= s0.len(),
                self.items@.len() == s0.len(),
                s0 == s_old.subrange(0, s0.len() as int),
                s0.len() == new_len <= s_old.len(),
                self.generation == old(self).current_generation(),
                self.len == old(self).len_spec(),
                forall|j: int| i <= j < s0.len() ==> self.items@[j] == s0[j],
                forall|j: int|
                    0 <= j < i && (#[trigger] s0[j]) is Occupied ==> self.items@[j] == s0[j],
                forall|j: int|
                    0 <= j < i && !((#[trigger] s0[j]) is Occupied) ==> (self.items@[j]) is Free,
                ({
                    let fl = self.free_order@;
                    let s = self.items@;
                    &&& fl.no_duplicates()
                    &&& forall|k: int| 0 <= k < fl.len() ==> (#[trigger] fl[k]) < i
                    &&& forall|k: int|
                        0 <= k < fl.len() ==> (#[trigger] s[fl[k] as int]) == (Entry::<T>::Free {
                            next_free: if k + 1 < fl.len() {
                                Some(fl[k + 1])
                            } else {
                                None
                            },
                        })
                    &&& self.free_list_head == (if fl.len() > 0 {
                        Some(fl[0])
                    } else {
                        None::<usize>
                    })
                    &&& forall|j: int|
                        0 <= j < i && (#[trigger] s[j]) is Free ==> fl.contains(j as usize)
                    &&& fl == free_positions_desc(s.subrange(0, i as int))
                }),
            decreases s0.len() - i,
        {
            let ghost items_prev = self.items@;
            let ghost fl_prev = self.free_order@;
            let is_free = match &self.items[i] {
                Entry::Free { .. } => true,
                _ => false,
            };
            if is_free {
                let h = self.free_list_head;
                self.items.set(i, Entry::Free { next_free: h });
                self.free_list_head = Some(i);
                proof {
                    self.free_order@ = seq![i] + self.free_order@;
                    let fl = self.free_order@;
                    let s = self.items@;
                    assert forall|p: int, q: int|
                        0 <= p < fl.len() && 0 <= q < fl.len() && p != q implies fl[p]
                        != fl[q] by {
                        if p >= 1 && q >= 1 {
                            assert(fl[p] == fl_prev[p - 1]);
                            assert(fl[q] == fl_prev[q - 1]);
                        } else if p == 0 {
                            assert(fl[q] == fl_prev[q - 1] < i);
                        } else {
                            assert(fl[p] == fl_prev[p - 1] < i);
                        }
                    }
                    assert forall|k: int| 0 <= k < fl.len() implies (#[trigger] s[fl[k] as int])
                        == (Entry::<T>::Free {
                        next_free: if k + 1 < fl.len() {
                            Some(fl[k + 1])
                        } else {
                            None
                        },
                    }) by {
                        if k == 0 {
                            assert(fl[0] == i);
                            if fl_prev.len() > 0 {
                                assert(fl[1] == fl_prev[0]);
                            }
                        } else {
                            assert(fl[k] == fl_prev[k - 1]);
                            assert(fl_prev[k - 1] < i);
                            assert(s[fl[k] as int] == items_prev[fl[k] as int]);
                            if k + 1 < fl.len() {
                                assert(fl[k + 1] == fl_prev[k]);
                            }
                        }
                    }
                    assert forall|j: int|
                        0 <= j < i + 1 && (#[trigger] s[j]) is Free implies fl.contains(
                        j as usize,
                    ) by {
                        if j == i as int {
                            assert(fl[0] == j as usize);
                        } else {
                            assert(s[j] == items_prev[j]);
                            assert(fl_prev.contains(j as usize));
                            let k = fl_prev.index_of(j as usize);
                            assert(fl[k + 1] == j as usize);
                        }
                    }
                    let sub_prev = items_prev.subrange(0, i as int);
                    let sub_now = s.subrange(0, i as int);
                    let sub_next = s.subrange(0, i + 1);
                    assert(sub_now =~= sub_prev);
                    assert(sub_next.last() == s[i as int]);
                    assert(sub_next.drop_last() =~= sub_now);
                    assert(fl =~= free_positions_desc(sub_next));
                }
            } else {
                proof {
                    let s = self.items@;
                    let sub_now = s.subrange(0, i as int);
                    let sub_next = s.subrange(0, i + 1);
                    assert(sub_next.last() == s[i as int]);
                    assert(sub_next.drop_last() =~= sub_now);
                    assert(self.free_order@ == free_positions_desc(sub_next));
                }
            }
            i = i + 1;
        }
        proof {
            let s = self.items@;
            let fl = self.free_order@;
            assert(s.subrange(0, s.len() as int) =~= s);
            assert(self.items.len() == self.items@.len());
            assert forall|k: int| 0 <= k < fl.len() implies (#[trigger] fl[k]) < s.len()
                && s[fl[k] as int] is Free by {}
            lemma_free_count(s, fl);
            lemma_count_free_congruent(s, s0);
            assert forall|k: int| 0 <= k < fl_old.len() implies (#[trigger] fl_old[k])
                < s_old.len() && s_old[fl_old[k] as int] is Free by {}
            assert forall|j: int|
                0 <= j < s_old.len() && (#[trigger] s_old[j]) is Free implies fl_old.contains(
                j as usize,
            ) by {}
            lemma_free_count(s_old, fl_old);
            lemma_count_free_trunc(s_old, new_len as int);
            assert(s0 =~= s_old.subrange(0, new_len as int));
            assert(fl.len() == count_free(s0));
            assert(self.len + fl.len() == s.len());
            assert forall|j: int|
                0 <= j < s.len() && (#[trigger] s[j]) is Occupied implies s[j].gen_of()
                <= self.generation by {
                assert(s[j] == s0[j]);
                assert(s0[j] == s_old[j]);
            }
            assert(self.wf());
            assert forall|h: Index| #[trigger] old(self).valid(h) implies self.valid(h)
                && self.value_of(h) == old(self).value_of(h) by {
                assert(s_old[h.index as int] is Occupied);
                assert(h.index < new_len);
                assert(s0[h.index as int] == s_old[h.index as int]);
                assert(s[h.index as int] == s0[h.index as int]);
            }
            assert forall|h: Index| #[trigger] self.valid(h) implies old(self).valid(h) by {
                assert(s0[h.index as int] is Occupied);
                assert(s[h.index as int] == s0[h.index as int]);
            }
            assert forall|h: Index| #[trigger] old(self).lost(h) implies self.lost(h) by {
                if self.valid(h) {
                    assert(old(self).valid(h));
                }
            }
        }
    }

    /// Retains only the elements for which the predicate answers `true`.
    ///
    /// Every occupied slot is visited once, in ascending position order;
    /// slots the predicate rejects are removed through the normal removal
    /// path, so their handles die for good and the generation counter is
    /// bumped once per removal. In particular a predicate that always
    /// answers `true` changes nothing, and one that always answers
    /// `false` empties the arena.
    pub fn retain<F: Fn(Index, &T) -> bool>(&mut self, predicate: F)
        requires
            old(self).wf(),
            forall|h: Index, v: &T| call_requires(predicate, (h, v)),
            old(self).current_generation() + old(self).len_spec() <= u64::MAX,
        ensures
            final(self).wf(),
            final(self).capacity_spec() == old(self).capacity_spec(),
            final(self).len_spec() <= old(self).len_spec(),
            final(self).current_generation() == old(self).current_generation() + (old(self).len_spec() - final(self).len_spec()),
            forall|j: int|
                0 <= j < old(self).slots().len() && (#[trigger] old(self).slots()[j])
                    is Occupied ==> ({
                    let h = Index { index: j as usize, generation: old(self).slots()[j].gen_of() };
                    let v = old(self).slots()[j].value_of();
                    ||| (final(self).slots()[j] == old(self).slots()[j] && call_ensures(
                        predicate,
                        (h, &v),
                        true,
                    ))
                    ||| ((final(self).slots()[j]) is Free && final(self).lost(h) && call_ensures(
                        predicate,
                        (h, &v),
                        false,
                    ))
                }),
            forall|j: int|
                0 <= j < old(self).slots().len() && !((#[trigger] old(self).slots()[j])
                    is Occupied) ==> final(self).slots()[j] == old(self).slots()[j],
            final(self).free_list().skip(
                old(self).len_spec() - final(self).len_spec(),
            ) == old(self).free_list(),
            Self::preserves_lost(*old(self), *final(self)),
            (forall|h: Index, v: &T, b: bool| call_ensures(predicate, (h, v), b) ==> b) ==> ({
                &&& final(self).slots() == old(self).slots()
                &&& final(self).len_spec() == old(self).len_spec()
                &&& final(self).current_generation() == old(self).current_generation()
                &&& final(self).free_list() == old(self).free_list()
            }),
            (forall|h: Index, v: &T, b: bool| call_ensures(predicate, (h, v), b) ==> !b) ==> ({
                &&& final(self).len_spec() == 0
                &&& forall|h: Index| #[trigger] old(self).valid(h) ==> final(self).lost(h)
            }),
    {
        let ghost pre = *old(self);
        let ghost mut removed: Seq<usize> = Seq::empty();
        let cap = self.items.len();
        let mut j: usize = 0;
        while j < cap
            invariant
                j <= cap,
                cap == pre.slots().len(),
                self.items@.len() == cap,
                self.wf(),
                forall|h: Index, v: &T| call_requires(predicate, (h, v)),
                self.current_generation() + self.len_spec() == pre.current_generation()
                    + pre.len_spec(),
                pre.current_generation() + pre.len_spec() <= u64::MAX,
                self.current_generation() >= pre.current_generation(),
                self.len_spec() <= pre.len_spec(),
                self.current_generation() == pre.current_generation() + (pre.len_spec()
                    - self.len_spec()),
                forall|i: int| j <= i < cap ==> self.slots()[i] == pre.slots()[i],
                forall|i: int|
                    0 <= i < j && (#[trigger] pre.slots()[i]) is Occupied ==> ({
                        let h = Index {
                            index: i as usize,
                            generation: pre.slots()[i].gen_of(),
                        };
                        let v = pre.slots()[i].value_of();
                        ||| (self.slots()[i] == pre.slots()[i] && call_ensures(
                            predicate,
                            (h, &v),
                            true,
                        ))
                        ||| ((self.slots()[i]) is Free && self.lost(h) && call_ensures(
                            predicate,
                            (h, &v),
                            false,
                        ))
                    }),
                forall|i: int|
                    0 <= i < cap && !((#[trigger] pre.slots()[i]) is Occupied) ==> self.slots()[i]
                        == pre.slots()[i],
                removed.len() == pre.len_spec() - self.len_spec(),
                self.free_list() == removed + pre.free_list(),
                Self::preserves_lost(pre, *self),
            decreases cap - j,
        {
            let to_remove: Option<Index> = match &self.items[j] {
                Entry::Occupied { generation, value } => {
                    let idx = Index { index: j, generation: *generation };
                    if predicate(idx, value) {
                        None
                    } else {
                        Some(idx)
                    }
                },
                _ => None,
            };
            if let Some(idx) = to_remove {
                proof {
                    assert(!self.free_order@.contains(idx.index)) by {
                        if self.free_order@.contains(idx.index) {
                            let k = self.free_order@.index_of(idx.index);
                            assert(self.items@[self.free_order@[k] as int] is Free);
                        }
                    }
                    assert(self.items.len() == self.items@.len());
                    lemma_distinct_indices_bound(self.free_order@, self.items@.len() as int, idx.index);
                    assert(self.len_spec() >= 1);
                }
                let ghost before = *self;
                let _ = self.remove(idx);
                proof {
                    removed = seq![idx.index] + removed;
                    assert(self.free_list() =~= removed + pre.free_list());
                    assert forall|h2: Index| #[trigger] pre.lost(h2) implies self.lost(h2) by {
                        assert(before.lost(h2));
                    }
                }
            }
            j = j + 1;
        }
        proof {
            assert(self.free_list().skip(removed.len() as int) =~= pre.free_list());
            if forall|h: Index, v: &T, b: bool| call_ensures(predicate, (h, v), b) ==> b {
                assert forall|i: int| 0 <= i < cap implies self.slots()[i] == pre.slots()[i] by {
                    if pre.slots()[i] is Occupied {
                        let h = Index {
                            index: i as usize,
                            generation: pre.slots()[i].gen_of(),
                        };
                        let v = pre.slots()[i].value_of();
                        if !(self.slots()[i] == pre.slots()[i]) {
                            assert(call_ensures(predicate, (h, &v), false));
                        }
                    }
                }
                assert(self.slots() =~= pre.slots());
                assert forall|k: int|
                    0 <= k < self.free_list().len() implies (#[trigger] self.free_list()[k])
                    < self.slots().len() && self.slots()[self.free_list()[k] as int] is Free by {}
                lemma_free_count(self.slots(), self.free_list());
                assert forall|k: int|
                    0 <= k < pre.free_list().len() implies (#[trigger] pre.free_list()[k])
                    < pre.slots().len() && pre.slots()[pre.free_list()[k] as int] is Free by {}
                lemma_free_count(pre.slots(), pre.free_list());
                lemma_count_free_congruent(self.slots(), pre.slots());
                assert(removed.len() == 0);
                assert(self.free_list() =~= pre.free_list());
            }
            if forall|h: Index, v: &T, b: bool| call_ensures(predicate, (h, v), b) ==> !b {
                assert forall|h: Index| #[trigger] pre.valid(h) implies self.lost(h) by {
                    let i = h.index as int;
                    assert(pre.slots()[i] is Occupied);
                    let hh = Index { index: h.index, generation: pre.slots()[i].gen_of() };
                    let v = pre.slots()[i].value_of();
                    if self.slots()[i] == pre.slots()[i] && call_ensures(predicate, (hh, &v), true) {
                        assert(false);
                    }
                    assert(self.lost(hh));
                }
                assert forall|i: int|
                    0 <= i < cap && (#[trigger] self.slots()[i]) is Occupied implies false by {
                    assert(pre.slots()[i] is Occupied);
                }
                let s = self.slots();
                let fl = self.free_list();
                lemma_count_free_all(s);
                assert forall|k: int| 0 <= k < fl.len() implies (#[trigger] fl[k]) < s.len()
                    && s[fl[k] as int] is Free by {}
                lemma_free_count(s, fl);
                assert(self.len_spec() == 0);
            }
        }
    }

    /// Clear all the items inside the arena, but keep its allocation:
    /// every slot becomes free, rethreaded into one ascending free list.
    /// The generation counter deliberately stays where it is; existing
    /// handles become invalid because their slots are now free, not
    /// because the counter moved.
    pub fn clear(&mut self)
        requires
            old(self).wf(),
        ensures
            final(self).wf(),
            final(self).len_spec() == 0,
            final(self).current_generation() == old(self).current_generation(),
            final(self).capacity_spec() == old(self).capacity_spec(),
            forall|j: int|
                0 <= j < final(self).slots().len() ==> (#[trigger] final(self).slots()[j]) is Free,
            final(self).free_list() == Seq::new(final(self).capacity_spec(), |k: int| k as usize),
            forall|h: Index| !final(self).valid(h),
            Self::preserves_lost(*old(self), *final(self)),
    {
        let cap = self.items.len();
        self.items.clear();
        self.len = 0;
        self.free_list_head = None;
        proof {
            self.free_order@ = Seq::empty();
        }
        self.reserve(cap);
        proof {
            assert(self.free_order@ =~= Seq::new(self.items@.len(), |k: int| k as usize));
        }
    }

    /// Get exclusive references to the elements behind `i1` and `i2` in
    /// one call. Each side is `Some` exactly when its handle is valid —
    /// except that two handles sharing a slot must carry different
    /// generations (a caller contract), and then only the newer one can
    /// yield a reference. Writes through the two references are
    /// independent.
    pub fn get2_mut(&mut self, i1: Index, i2: Index) -> (r: (Option<&mut T>, Option<&mut T>))
        requires
            i1.index == i2.index ==> i1.generation != i2.generation,
        ensures
            r.0 is Some <==> (old(self).valid(i1) && (i1.index != i2.index || i1.generation
                > i2.generation)),
            r.1 is Some <==> (old(self).valid(i2) && (i1.index != i2.index || i2.generation
                > i1.generation)),
            final(self).current_generation() == old(self).current_generation(),
            final(self).free_list() == old(self).free_list(),
            final(self).free_head() == old(self).free_head(),
            final(self).len_spec() == old(self).len_spec(),
            (match r {
                (Some(p), Some(q)) => final(self).slots() == old(self).slots().update(
                    i1.index as int,
                    Entry::Occupied { generation: i1.generation, value: *final(p) },
                ).update(
                    i2.index as int,
                    Entry::Occupied { generation: i2.generation, value: *final(q) },
                ) && *p == old(self).value_of(i1) && *q == old(self).value_of(i2),
                (Some(p), None) => final(self).slots() == old(self).slots().update(
                    i1.index as int,
                    Entry::Occupied { generation: i1.generation, value: *final(p) },
                ) && *p == old(self).value_of(i1),
                (None, Some(q)) => final(self).slots() == old(self).slots().update(
                    i2.index as int,
                    Entry::Occupied { generation: i2.generation, value: *final(q) },
                ) && *q == old(self).value_of(i2),
                (None, None) => final(self).slots() == old(self).slots(),
            }),
            old(self).wf() ==> final(self).wf(),
            forall|h: Index| final(self).valid(h) == old(self).valid(h),
            Self::preserves_lost(*old(self), *final(self)),
    {
        let len = self.items.len();
        if i1.index == i2.index {
            if i1.generation > i2.generation {
                return (self.get_mut(i1), None);
            }
            return (None, self.get_mut(i2));
        }
        if i1.index >= len {
            return (None, self.get_mut(i2));
        }
        if i2.index >= len {
            return (self.get_mut(i1), None);
        }
        let v1 = self.contains(i1);
        let v2 = self.contains(i2);
        if v1 && v2 {
            let first_is_lower = i1.index < i2.index;
            let (lo, hi) = if first_is_lower {
                (i1.index, i2.index)
            } else {
                (i2.index, i1.index)
            };
            let (a, b) = two_mut(&mut self.items, lo, hi);
            let pa = Self::entry_value_mut(a);
            let pb = Self::entry_value_mut(b);
            if first_is_lower {
                (pa, pb)
            } else {
                (pb, pa)
            }
        } else if v1 {
            (self.get_mut(i1), None)
        } else if v2 {
            (None, self.get_mut(i2))
        } else {
            (None, None)
        }
    }
}

/// The free positions of `s`, lowest first, where `s` starts at arena
/// position `base`.
pub open spec fn free_positions_asc<T>(s: Seq<Entry<T>>, base: int) -> Seq<usize>
    decreases s.len(),
{
    if s.len() == 0 {
        Seq::empty()
    } else if s[0] is Free {
        seq![base as usize] + free_positions_asc(s.drop_first(), base + 1)
    } else {
        free_positions_asc(s.drop_first(), base + 1)
    }
}

/// The highest generation stamp among the present pairs of a decoded
/// slot listing, or zero when none is present.
pub open spec fn highest_stamp<T>(s: Seq<Option<(u64, T)>>) -> u64
    decreases s.len(),
{
    if s.len() == 0 {
        0
    } else {
        let rest = highest_stamp(s.drop_last());
        match s.last() {
            Some(p) => if p.0 > rest {
                p.0
            } else {
                rest
            },
            None => rest,
        }
    }
}

impl<T> Arena<T> {
    /// A well-formed arena has exactly as many free slots on its free
    /// list as its capacity exceeds its length.
    pub proof fn lemma_wf_counts(self)
        requires
            self.wf(),
        ensures
            self.len_spec() + self.free_list().len() == self.capacity_spec(),
            self.len_spec() <= self.capacity_spec(),
    {
    }

    /// A dead handle is never contained. Together with the fact that
    /// every operation preserves deadness, a handle whose removal
    /// succeeded can never be found in the arena again, however the
    /// slot is reused.
    pub proof fn lemma_lost_not_valid(self, h: Index)
        requires
            self.lost(h),
        ensures
            !self.valid(h),
    {
    }

    /// Any handle stamped from the arena's present generation counter
    /// differs from every dead handle: removal bumped the counter past
    /// the dead handle's stamp, and the counter never moves back. So
    /// reinserting after removals hands out only fresh handles.
    pub proof fn lemma_fresh_handle_differs(self, dead: Index, fresh: Index)
        requires
            self.lost(dead),
            fresh.generation == self.current_generation(),
        ensures
            fresh != dead,
    {
    }

    /// Rebuild an arena from a dense slot listing, as a decoder hands it
    /// over: each present pair becomes an occupied slot carrying its
    /// stamp and value, each absent slot stays free, and positions are
    /// preserved exactly. The free list threads the absent slots lowest
    /// first, and the generation counter becomes the highest stamp seen.
    pub fn from_slots(entries: Vec<Option<(u64, T)>>) -> (r: Arena<T>)
        ensures
            r.wf(),
            r.capacity_spec() == entries@.len(),
            r.current_generation() == highest_stamp(entries@),
            forall|j: int|
                0 <= j < entries@.len() && entries@[j] is Some ==> (#[trigger] r.slots()[j]) == (
                Entry::Occupied { generation: (entries@[j]->0).0, value: (entries@[j]->0).1 }),
            forall|j: int|
                0 <= j < entries@.len() && entries@[j] is None ==> (#[trigger] r.slots()[j])
                    is Free,
            r.free_list() == free_positions_asc(r.slots(), 0),
            r.len_spec() + r.free_list().len() == entries@.len(),
    {
        let ghost orig = entries@;
        proof {
            assert(entries.len() == entries@.len());
        }
        let mut entries = entries;
        let mut items: Vec<Entry<T>> = Vec::new();
        let mut generation: u64 = 0;
        let mut occupied: usize = 0;
        while entries.len() > 0
            invariant
                items@.len() + entries@.len() == orig.len(),
                orig.len() <= usize::MAX,
                entries@ == orig.subrange(items@.len() as int, orig.len() as int),
                generation == highest_stamp(orig.subrange(0, items@.len() as int)),
                occupied as int == items@.len() - count_free(items@),
                occupied <= items@.len(),
                forall|j: int|
                    0 <= j < items@.len() && orig[j] is Some ==> (#[trigger] items@[j]) == (
                    Entry::Occupied { generation: (orig[j]->0).0, value: (orig[j]->0).1 }),
                forall|j: int|
                    0 <= j < items@.len() && orig[j] is None ==> (#[trigger] items@[j]) == (
                    Entry::<T>::Free { next_free: None }),
                forall|j: int|
                    0 <= j < items@.len() && (#[trigger] items@[j]) is Occupied
                        ==> items@[j].gen_of() <= generation,
            decreases entries@.len(),
        {
            proof {
                assert(entries@[0] == orig[items@.len() as int]);
                assert(entries@.drop_first() =~= entries@.subrange(1, entries@.len() as int));
                assert(orig.subrange(0, items@.len() as int + 1).drop_last() =~= orig.subrange(
                    0,
                    items@.len() as int,
                ));
                assert(orig.subrange(0, items@.len() as int + 1).last() == orig[items@.len() as int]);
                assert(items@.push(Entry::Occupied {
                    generation: 0u64,
                    value: vstd::pervasive::arbitrary::<T>(),
                }).drop_last() =~= items@);
            }
            match entries.remove(0) {
                Some((g, value)) => {
                    if g > generation {
                        generation = g;
                    }
                    occupied = occupied + 1;
                    proof {
                        assert(items@.push(Entry::Occupied { generation: g, value }).drop_last()
                            =~= items@);
                    }
                    items.push(Entry::Occupied { generation: g, value });
                },
                None => {
                    proof {
                        assert(items@.push(Entry::<T>::Free { next_free: None }).drop_last()
                            =~= items@);
                    }
                    items.push(Entry::Free { next_free: None });
                },
            }
        }
        proof {
            assert(orig.subrange(0, orig.len() as int) =~= orig);
        }
        let ghost built = items@;
        let mut arena = Arena {
            items,
            generation,
            free_list_head: None,
            len: occupied,
            free_order: Ghost(Seq::empty()),
        };
        let mut i = arena.items.len();
        while i > 0
            invariant
                i <= built.len() == arena.items@.len(),
                arena.generation == generation,
                arena.len == occupied,
                occupied as int == built.len() - count_free(built),
                forall|j: int| 0 <= j < i ==> arena.items@[j] == built[j],
                forall|j: int|
                    i <= j < built.len() && (#[trigger] built[j]) is Occupied ==> arena.items@[j]
                        == built[j],
                forall|j: int|
                    i <= j < built.len() && !((#[trigger] built[j]) is Occupied)
                        ==> (arena.items@[j]) is Free,
                forall|j: int|
                    0 <= j < built.len() && (#[trigger] built[j]) is Occupied ==> built[j].gen_of()
                        <= generation,
                ({
                    let fl = arena.free_order@;
                    let s = arena.items@;
                    &&& forall|k: int| 0 <= k < fl.len() ==> i <= (#[trigger] fl[k]) < s.len()
                    &&& forall|k: int|
                        0 <= k < fl.len() ==> (#[trigger] s[fl[k] as int]) == (Entry::<T>::Free {
                            next_free: if k + 1 < fl.len() {
                                Some(fl[k + 1])
                            } else {
                                None
                            },
                        })
                    &&& arena.free_list_head == (if fl.len() > 0 {
                        Some(fl[0])
                    } else {
                        None::<usize>
                    })
                    &&& forall|j: int|
                        i <= j < s.len() && (#[trigger] s[j]) is Free ==> fl.contains(j as usize)
                    &&& fl.no_duplicates()
                    &&& fl == free_positions_asc(
                        s.subrange(i as int, s.len() as int),
                        i as int,
                    )
                }),
            decreases i,
        {
            let ghost items_prev = arena.items@;
            let ghost fl_prev = arena.free_order@;
            let at = i - 1;
            let is_free = match &arena.items[at] {
                Entry::Free { .. } => true,
                _ => false,
            };
            if is_free {
                let h = arena.free_list_head;
                arena.items.set(at, Entry::Free { next_free: h });
                arena.free_list_head = Some(at);
                proof {
                    arena.free_order@ = seq![at] + arena.free_order@;
                    let fl = arena.free_order@;
                    let s = arena.items@;
                    assert forall|p: int, q: int|
                        0 <= p < fl.len() && 0 <= q < fl.len() && p != q implies fl[p]
                        != fl[q] by {
                        if p >= 1 && q >= 1 {
                            assert(fl[p] == fl_prev[p - 1]);
                            assert(fl[q] == fl_prev[q - 1]);
                        } else if p == 0 {
                            assert(fl[q] == fl_prev[q - 1] > at);
                        } else {
                            assert(fl[p] == fl_prev[p - 1] > at);
                        }
                    }
                    assert forall|k: int| 0 <= k < fl.len() implies (#[trigger] s[fl[k] as int])
                        == (Entry::<T>::Free {
                        next_free: if k + 1 < fl.len() {
                            Some(fl[k + 1])
                        } else {
                            None
                        },
                    }) by {
                        if k == 0 {
                            assert(fl[0] == at);
                            if fl_prev.len() > 0 {
                                assert(fl[1] == fl_prev[0]);
                            }
                        } else {
                            assert(fl[k] == fl_prev[k - 1]);
                            assert(fl_prev[k - 1] > at);
                            assert(s[fl[k] as int] == items_prev[fl[k] as int]);
                            if k + 1 < fl.len() {
                                assert(fl[k + 1] == fl_prev[k]);
                            }
                        }
                    }
                    assert forall|j: int|
                        at <= j < s.len() && (#[trigger] s[j]) is Free implies fl.contains(
                        j as usize,
                    ) by {
                        if j == at as int {
                            assert(fl[0] == j as usize);
                        } else {
                            assert(s[j] == items_prev[j]);
                            assert(fl_prev.contains(j as usize));
                            let k = fl_prev.index_of(j as usize);
                            assert(fl[k + 1] == j as usize);
                        }
                    }
                    let sub_prev = items_prev.subrange(i as int, s.len() as int);
                    let sub_next = s.subrange(at as int, s.len() as int);
                    assert(sub_next[0] == s[at as int]);
                    assert(sub_next.drop_first() =~= s.subrange(i as int, s.len() as int));
                    assert(s.subrange(i as int, s.len() as int) =~= sub_prev);
                    assert(fl =~= free_positions_asc(sub_next, at as int));
                }
            } else {
                proof {
                    let s = arena.items@;
                    let sub_next = s.subrange(at as int, s.len() as int);
                    assert(sub_next[0] == s[at as int]);
                    assert(sub_next.drop_first() =~= s.subrange(i as int, s.len() as int));
                    assert(arena.free_order@ == free_positions_asc(sub_next, at as int));
                }
            }
            i = at;
        }
        proof {
            let s = arena.items@;
            let fl = arena.free_order@;
            assert(s.subrange(0, s.len() as int) =~= s);
            assert(arena.items.len() == arena.items@.len());
            assert forall|k: int| 0 <= k < fl.len() implies (#[trigger] fl[k]) < s.len()
                && s[fl[k] as int] is Free by {}
            lemma_free_count(s, fl);
            lemma_count_free_congruent(s, built);
            assert(arena.len + fl.len() == s.len());
            assert forall|j: int|
                0 <= j < s.len() && (#[trigger] s[j]) is Occupied implies s[j].gen_of()
                <= arena.generation by {
                assert(built[j] is Occupied);
                assert(s[j] == built[j]);
            }
            assert(arena.wf());
            assert forall|j: int|
                0 <= j < orig.len() && orig[j] is Some implies (#[trigger] s[j]) == (
            Entry::Occupied { generation: (orig[j]->0).0, value: (orig[j]->0).1 }) by {
                assert(built[j] is Occupied);
                assert(s[j] == built[j]);
            }
            assert forall|j: int|
                0 <= j < orig.len() && orig[j] is None implies (#[trigger] s[j]) is Free by {
                assert(built[j] == (Entry::<T>::Free { next_free: None }));
            }
        }
        arena
    }
}

/// An iterator that has removed every element from the arena and hands
/// them out as handle/value pairs, front to back or back to front.
///
/// The entries leave the arena the moment `drain` is called, so they
/// are gone even when this iterator is dropped without being consumed.
pub struct Drain<T> {
    entries: Vec<Entry<T>>,
    front: usize,
    len: usize,
}

impl<T> Drain<T> {
    /// The handle/value pairs not yet handed out, in storage order.
    pub closed spec fn remaining(&self) -> Seq<(Index, T)> {
        occupied_items(self.entries@, self.front as int)
    }

    /// The counter matches the remaining pairs and positions stay within
    /// machine bounds.
    pub closed spec fn wf(&self) -> bool {
        &&& self.front + self.entries@.len() <= usize::MAX
        &&& self.len == self.remaining().len()
    }

    /// How many pairs are left.
    pub fn len(&self) -> (r: usize)
        requires
            self.wf(),
        ensures
            r == self.remaining().len(),
    {
        self.len
    }

    /// The exact number of remaining pairs, as a lower and upper bound.
    pub fn size_hint(&self) -> (r: (usize, Option<usize>))
        requires
            self.wf(),
        ensures
            r.0 == self.remaining().len(),
            r.1 == Some(r.0),
    {
        (self.len, Some(self.len))
    }

    /// The next handle/value pair from the front, or `None` once no pair
    /// is left (and forever after).
    pub fn next(&mut self) -> (r: Option<(Index, T)>)
        requires
            old(self).wf(),
        ensures
            final(self).wf(),
            r is Some <==> old(self).remaining().len() > 0,
            r is None ==> final(self).remaining() == old(self).remaining(),
            r is Some ==> r.unwrap() == old(self).remaining()[0] && final(self).remaining()
                == old(self).remaining().drop_first(),
    {
        loop
            invariant
                self.wf(),
                self.remaining() == old(self).remaining(),
            decreases self.entries@.len(),
        {
            if self.entries.len() == 0 {
                return None;
            }
            proof {
                assert(self.entries@.drop_first() =~= self.entries@.subrange(
                    1,
                    self.entries@.len() as int,
                ));
            }
            let e = self.entries.remove(0);
            let at = self.front;
            self.front = self.front + 1;
            match e {
                Entry::Occupied { generation, value } => {
                    self.len = self.len - 1;
                    return Some((Index { index: at, generation }, value));
                },
                Entry::Free { .. } => {},
            }
        }
    }

    /// The next handle/value pair from the back, or `None` once no pair
    /// is left (and forever after).
    pub fn next_back(&mut self) -> (r: Option<(Index, T)>)
        requires
            old(self).wf(),
        ensures
            final(self).wf(),
            r is Some <==> old(self).remaining().len() > 0,
            r is None ==> final(self).remaining() == old(self).remaining(),
            r is Some ==> r.unwrap() == old(self).remaining().last() && final(self).remaining()
                == old(self).remaining().drop_last(),
    {
        loop
            invariant
                self.wf(),
                self.remaining() == old(self).remaining(),
            decreases self.entries@.len(),
        {
            proof {
                if self.entries@.len() > 0 {
                    lemma_occupied_items_last(self.entries@, self.front as int);
                    assert(self.entries@.subrange(0, self.entries@.len() - 1)
                        =~= self.entries@.drop_last());
                }
            }
            match self.entries.pop() {
                None => {
                    return None;
                },
                Some(Entry::Occupied { generation, value }) => {
                    self.len = self.len - 1;
                    let at = self.front + self.entries.len();
                    return Some((Index { index: at, generation }, value));
                },
                Some(Entry::Free { .. }) => {},
            }
        }
    }
}

/// An iterator over the values of an arena that has been consumed,
/// front to back or back to front.
pub struct IntoIter<T> {
    entries: Vec<Entry<T>>,
    len: usize,
}

impl<T> IntoIter<T> {
    /// The values not yet handed out, in storage order.
    pub closed spec fn remaining(&self) -> Seq<T> {
        occupied_values(self.entries@)
    }

    /// The counter matches the remaining values.
    pub closed spec fn wf(&self) -> bool {
        self.len == self.remaining().len()
    }

    /// How many values are left.
    pub fn len(&self) -> (r: usize)
        requires
            self.wf(),
        ensures
            r == self.remaining().len(),
    {
        self.len
    }

    /// The exact number of remaining values, as a lower and upper bound.
    pub fn size_hint(&self) -> (r: (usize, Option<usize>))
        requires
            self.wf(),
        ensures
            r.0 == self.remaining().len(),
            r.1 == Some(r.0),
    {
        (self.len, Some(self.len))
    }

    /// The next value from the front, or `None` once no value is left
    /// (and forever after).
    pub fn next(&mut self) -> (r: Option<T>)
        requires
            old(self).wf(),
        ensures
            final(self).wf(),
            r is Some <==> old(self).remaining().len() > 0,
            r is None ==> final(self).remaining() == old(self).remaining(),
            r is Some ==> r.unwrap() == old(self).remaining()[0] && final(self).remaining()
                == old(self).remaining().drop_first(),
    {
        loop
            invariant
                self.wf(),
                self.remaining() == old(self).remaining(),
            decreases self.entries@.len(),
        {
            if self.entries.len() == 0 {
                return None;
            }
            proof {
                assert(self.entries@.drop_first() =~= self.entries@.subrange(
                    1,
                    self.entries@.len() as int,
                ));
            }
            let e = self.entries.remove(0);
            match e {
                Entry::Occupied { generation: _, value } => {
                    self.len = self.len - 1;
                    return Some(value);
                },
                Entry::Free { .. } => {},
            }
        }
    }

    /// The next value from the back, or `None` once no value is left
    /// (and forever after).
    pub fn next_back(&mut self) -> (r: Option<T>)
        requires
            old(self).wf(),
        ensures
            final(self).wf(),
            r is Some <==> old(self).remaining().len() > 0,
            r is None ==> final(self).remaining() == old(self).remaining(),
            r is Some ==> r.unwrap() == old(self).remaining().last() && final(self).remaining()
                == old(self).remaining().drop_last(),
    {
        loop
            invariant
                self.wf(),
                self.remaining() == old(self).remaining(),
            decreases self.entries@.len(),
        {
            proof {
                if self.entries@.len() > 0 {
                    lemma_occupied_items_last(self.entries@, 0);
                    assert(self.entries@.subrange(0, self.entries@.len() - 1)
                        =~= self.entries@.drop_last());
                }
            }
            match self.entries.pop() {
                None => {
                    return None;
                },
                Some(Entry::Occupied { generation: _, value }) => {
                    self.len = self.len - 1;
                    return Some(value);
                },
                Some(Entry::Free { .. }) => {},
            }
        }
    }
}

/// An iterator over shared references to the elements of an arena,
/// yielding handle/reference pairs front to back or back to front.
pub struct Iter<'a, T> {
    entries: &'a Vec<Entry<T>>,
    pos: usize,
    end: usize,
    len: usize,
}

impl<'a, T> Iter<'a, T> {
    /// The handle/value pairs not yet handed out, in storage order.
    pub closed spec fn remaining(&self) -> Seq<(Index, T)> {
        occupied_items(
            self.entries@.subrange(self.pos as int, self.end as int),
            self.pos as int,
        )
    }

    /// The cursors stay within the slots and the counter matches the
    /// remaining pairs.
    pub closed spec fn wf(&self) -> bool {
        &&& self.pos <= self.end <= self.entries@.len()
        &&& self.len == self.remaining().len()
    }

    /// How many pairs are left.
    pub fn len(&self) -> (r: usize)
        requires
            self.wf(),
        ensures
            r == self.remaining().len(),
    {
        self.len
    }

    /// The exact number of remaining pairs, as a lower and upper bound.
    pub fn size_hint(&self) -> (r: (usize, Option<usize>))
        requires
            self.wf(),
        ensures
            r.0 == self.remaining().len(),
            r.1 == Some(r.0),
    {
        (self.len, Some(self.len))
    }

    /// The next handle/reference pair from the front, or `None` once no
    /// pair is left (and forever after).
    pub fn next(&mut self) -> (r: Option<(Index, &'a T)>)
        requires
            old(self).wf(),
        ensures
            final(self).wf(),
            r is Some <==> old(self).remaining().len() > 0,
            r is None ==> final(self).remaining() == old(self).remaining(),
            r is Some ==> (r.unwrap().0, *r.unwrap().1) == old(self).remaining()[0] && final(self).remaining() == old(self).remaining().drop_first(),
    {
        loop
            invariant
                self.wf(),
                self.remaining() == old(self).remaining(),
                self.entries == old(self).entries,
            decreases self.end - self.pos,
        {
            if self.pos >= self.end {
                return None;
            }
            proof {
                let sub = self.entries@.subrange(self.pos as int, self.end as int);
                assert(sub[0] == self.entries@[self.pos as int]);
                assert(sub.drop_first() =~= self.entries@.subrange(
                    self.pos + 1,
                    self.end as int,
                ));
            }
            let at = self.pos;
            self.pos = self.pos + 1;
            let entries = self.entries;
            match &entries[at] {
                Entry::Occupied { generation, value } => {
                    self.len = self.len - 1;
                    return Some((Index { index: at, generation: *generation }, value));
                },
                Entry::Free { .. } => {},
            }
        }
    }

    /// The next handle/reference pair from the back, or `None` once no
    /// pair is left (and forever after).
    pub fn next_back(&mut self) -> (r: Option<(Index, &'a T)>)
        requires
            old(self).wf(),
        ensures
            final(self).wf(),
            r is Some <==> old(self).remaining().len() > 0,
            r is None ==> final(self).remaining() == old(self).remaining(),
            r is Some ==> (r.unwrap().0, *r.unwrap().1) == old(self).remaining().last() && final(self).remaining() == old(self).remaining().drop_last(),
    {
        loop
            invariant
                self.wf(),
                self.remaining() == old(self).remaining(),
                self.entries == old(self).entries,
            decreases self.end - self.pos,
        {
            if self.pos >= self.end {
                return None;
            }
            proof {
                let sub = self.entries@.subrange(self.pos as int, self.end as int);
                lemma_occupied_items_last(sub, self.pos as int);
                assert(sub.drop_last() =~= self.entries@.subrange(
                    self.pos as int,
                    self.end - 1,
                ));
                assert(sub.last() == self.entries@[self.end - 1]);
            }
            self.end = self.end - 1;
            let at = self.end;
            let entries = self.entries;
            match &entries[at] {
                Entry::Occupied { generation, value } => {
                    self.len = self.len - 1;
                    return Some((Index { index: at, generation: *generation }, value));
                },
                Entry::Free { .. } => {},
            }
        }
    }
}

/// Two slots have the same shape when they are both free with the same
/// link, or both occupied with the same generation stamp; the stored
/// values may differ.
pub open spec fn same_shape<T>(a: Entry<T>, b: Entry<T>) -> bool {
    match (a, b) {
        (Entry::Free { next_free: n1 }, Entry::Free { next_free: n2 }) => n1 == n2,
        (Entry::Occupied { generation: g1, .. }, Entry::Occupied { generation: g2, .. }) => g1
            == g2,
        _ => false,
    }
}

/// An iterator over exclusive references to the elements of an arena,
/// yielding handle/reference pairs front to back or back to front.
///
/// Each returned reference borrows the iterator, so one element is
/// worked on at a time; writes through it land in the arena once the
/// iterator is done.
pub struct IterMut<'a, T> {
    entries: &'a mut Vec<Entry<T>>,
    pos: usize,
    end: usize,
    len: usize,
}

impl<'a, T> IterMut<'a, T> {
    /// The handle/value pairs not yet handed out, in storage order.
    pub closed spec fn remaining(&self) -> Seq<(Index, T)> {
        occupied_items(
            self.entries@.subrange(self.pos as int, self.end as int),
            self.pos as int,
        )
    }

    /// The cursors stay within the slots and the counter matches the
    /// remaining pairs.
    pub closed spec fn wf(&self) -> bool {
        &&& self.pos <= self.end <= self.entries@.len()
        &&& self.len == self.remaining().len()
    }

    /// How many pairs are left.
    pub fn len(&self) -> (r: usize)
        requires
            self.wf(),
        ensures
            r == self.remaining().len(),
    {
        self.len
    }

    /// The exact number of remaining pairs, as a lower and upper bound.
    pub fn size_hint(&self) -> (r: (usize, Option<usize>))
        requires
            self.wf(),
        ensures
            r.0 == self.remaining().len(),
            r.1 == Some(r.0),
    {
        (self.len, Some(self.len))
    }

    /// The next handle/reference pair from the front, or `None` once no
    /// pair is left (and forever after).
    #[verifier::spinoff_prover]
    pub fn next(&mut self) -> (r: Option<(Index, &mut T)>)
        requires
            old(self).wf(),
        ensures
            r is Some <==> old(self).remaining().len() > 0,
            r is Some ==> (r.unwrap().0, *r.unwrap().1) == old(self).remaining()[0],
            r is Some ==> final(self).remaining() == old(self).remaining().drop_first(),
            r is Some ==> final(self).wf(),
            r is None ==> final(self).remaining() == old(self).remaining() && final(self).wf(),
    {
        loop
            invariant
                self.wf(),
                self.remaining() == old(self).remaining(),
                self.entries == old(self).entries,
            decreases self.end - self.pos,
        {
            if self.pos >= self.end {
                return None;
            }
            proof {
                let sub = self.entries@.subrange(self.pos as int, self.end as int);
                assert(sub[0] == self.entries@[self.pos as int]);
                assert(sub.drop_first() =~= self.entries@.subrange(
                    self.pos + 1,
                    self.end as int,
                ));
            }
            let at = self.pos;
            self.pos = self.pos + 1;
            let occupied = match &self.entries[at] {
                Entry::Occupied { .. } => true,
                _ => false,
            };
            if occupied {
                self.len = self.len - 1;
                proof {
                    let es = self.entries@;
                    let at_ = at as int;
                    let end_ = self.end as int;
                    assert forall|e2: Entry<T>|
                        #[trigger] occupied_items(
                            es.update(at_, e2).subrange(at_ + 1, end_),
                            at_ + 1,
                        ) == occupied_items(es.subrange(at_ + 1, end_), at_ + 1) by {
                        assert(es.update(at_, e2).subrange(at_ + 1, end_) =~= es.subrange(
                            at_ + 1,
                            end_,
                        ));
                    }
                }
                match &mut self.entries[at] {
                    Entry::Occupied { generation, value } => {
                        let g = *generation;
                        return Some((Index { index: at, generation: g }, value));
                    },
                    _ => {
                        proof {
                            assert(false);
                        }
                        return None;
                    },
                }
            }
        }
    }
}

impl<'a, T> IterMut<'a, T> {
    /// The next handle/reference pair from the back, or `None` once no
    /// pair is left (and forever after).
    #[verifier::spinoff_prover]
    pub fn next_back(&mut self) -> (r: Option<(Index, &mut T)>)
        requires
            old(self).wf(),
        ensures
            r is Some <==> old(self).remaining().len() > 0,
            r is Some ==> (r.unwrap().0, *r.unwrap().1) == old(self).remaining().last(),
            r is Some ==> final(self).remaining() == old(self).remaining().drop_last(),
            r is Some ==> final(self).wf(),
            r is None ==> final(self).remaining() == old(self).remaining() && final(self).wf(),
    {
        loop
            invariant
                self.wf(),
                self.remaining() == old(self).remaining(),
                self.entries == old(self).entries,
            decreases self.end - self.pos,
        {
            if self.pos >= self.end {
                return None;
            }
            proof {
                let sub = self.entries@.subrange(self.pos as int, self.end as int);
                lemma_occupied_items_last(sub, self.pos as int);
                assert(sub.drop_last() =~= self.entries@.subrange(self.pos as int, self.end - 1));
                assert(sub.last() == self.entries@[self.end - 1]);
            }
            self.end = self.end - 1;
            let at = self.end;
            let occupied = match &self.entries[at] {
                Entry::Occupied { .. } => true,
                _ => false,
            };
            if occupied {
                self.len = self.len - 1;
                proof {
                    let es = self.entries@;
                    let at_ = at as int;
                    let pos_ = self.pos as int;
                    assert forall|e2: Entry<T>|
                        #[trigger] occupied_items(es.update(at_, e2).subrange(pos_, at_), pos_)
                            == occupied_items(es.subrange(pos_, at_), pos_) by {
                        assert(es.update(at_, e2).subrange(pos_, at_) =~= es.subrange(
                            pos_,
                            at_,
                        ));
                    }
                }
                match &mut self.entries[at] {
                    Entry::Occupied { generation, value } => {
                        let g = *generation;
                        return Some((Index { index: at, generation: g }, value));
                    },
                    _ => {
                        proof {
                            assert(false);
                        }
                        return None;
                    },
                }
            }
        }
    }
}

impl<T> Arena<T> {
    /// Well-formedness depends only on the shape of the slots: an arena
    /// whose slots agree shape for shape with a well-formed one, and
    /// whose other bookkeeping agrees, is itself well-formed.
    pub proof fn lemma_same_shape_wf(pre: Self, post: Self)
        requires
            pre.wf(),
            post.slots().len() == pre.slots().len(),
            forall|j: int|
                0 <= j < pre.slots().len() ==> same_shape(
                    pre.slots()[j],
                    #[trigger] post.slots()[j],
                ),
            post.current_generation() == pre.current_generation(),
            post.len_spec() == pre.len_spec(),
            post.free_list() == pre.free_list(),
            post.free_head() == pre.free_head(),
        ensures
            post.wf(),
    {
        let s = pre.slots();
        let s2 = post.slots();
        let fl = pre.free_list();
        assert forall|k: int| 0 <= k < fl.len() implies (#[trigger] s2[fl[k] as int]) == (
        Entry::<T>::Free {
            next_free: if k + 1 < fl.len() {
                Some(fl[k + 1])
            } else {
                None
            },
        }) by {
            assert(same_shape(s[fl[k] as int], s2[fl[k] as int]));
        }
        assert forall|j: int| 0 <= j < s2.len() && (#[trigger] s2[j]) is Free implies fl.contains(
            j as usize,
        ) by {
            assert(same_shape(s[j], s2[j]));
        }
        assert forall|j: int|
            0 <= j < s2.len() && (#[trigger] s2[j]) is Occupied implies s2[j].gen_of()
            <= post.current_generation() by {
            assert(same_shape(s[j], s2[j]));
        }
    }

    /// Iterate over exclusive references to the elements of this arena,
    /// yielding handle/reference pairs in storage order. The iterator
    /// borrows the arena; the slots keep their shape (occupancy, stamps
    /// and links), only the stored values can change through it.
    pub fn iter_mut(&mut self) -> (r: IterMut<'_, T>)
        requires
            old(self).wf(),
        ensures
            r.wf(),
            r.remaining() == occupied_items(old(self).slots(), 0),
            final(self).current_generation() == old(self).current_generation(),
            final(self).len_spec() == old(self).len_spec(),
            final(self).free_list() == old(self).free_list(),
            final(self).free_head() == old(self).free_head(),
    {
        proof {
            assert(self.items.len() == self.items@.len());
            assert forall|k: int|
                0 <= k < self.free_list().len() implies (#[trigger] self.free_list()[k])
                < self.slots().len() && self.slots()[self.free_list()[k] as int] is Free by {}
            lemma_free_count(self.slots(), self.free_list());
            lemma_occupied_items_len(self.slots(), 0);
            assert(self.items@.subrange(0, self.items@.len() as int) =~= self.items@);
        }
        let end = self.items.len();
        let n = self.len;
        IterMut { entries: &mut self.items, pos: 0, end, len: n }
    }

    /// Iterate over shared references to the elements of this arena,
    /// yielding handle/reference pairs in storage order.
    pub fn iter(&self) -> (r: Iter<'_, T>)
        requires
            self.wf(),
        ensures
            r.wf(),
            r.remaining() == occupied_items(self.slots(), 0),
    {
        proof {
            assert(self.items.len() == self.items@.len());
            assert forall|k: int|
                0 <= k < self.free_list().len() implies (#[trigger] self.free_list()[k])
                < self.slots().len() && self.slots()[self.free_list()[k] as int] is Free by {}
            lemma_free_count(self.slots(), self.free_list());
            lemma_occupied_items_len(self.slots(), 0);
            assert(self.items@.subrange(0, self.items@.len() as int) =~= self.items@);
        }
        Iter { entries: &self.items, pos: 0, end: self.items.len(), len: self.len }
    }

    /// Consume the arena, handing back an iterator over the values it
    /// held, in storage order.
    pub fn into_iter(self) -> (r: IntoIter<T>)
        requires
            self.wf(),
        ensures
            r.wf(),
            r.remaining() == occupied_values(self.slots()),
    {
        proof {
            assert(self.items.len() == self.items@.len());
            assert forall|k: int|
                0 <= k < self.free_list().len() implies (#[trigger] self.free_list()[k])
                < self.slots().len() && self.slots()[self.free_list()[k] as int] is Free by {}
            lemma_free_count(self.slots(), self.free_list());
            lemma_occupied_items_len(self.slots(), 0);
        }
        IntoIter { entries: self.items, len: self.len }
    }

    /// Remove every element from the arena at once, handing back an
    /// iterator over the removed handle/value pairs. The arena itself is
    /// left empty, with no backing storage and its generation counter
    /// untouched.
    pub fn drain(&mut self) -> (r: Drain<T>)
        requires
            old(self).wf(),
        ensures
            final(self).wf(),
            final(self).len_spec() == 0,
            final(self).capacity_spec() == 0,
            final(self).current_generation() == old(self).current_generation(),
            final(self).free_list() == Seq::<usize>::empty(),
            forall|h: Index| !final(self).valid(h),
            Self::preserves_lost(*old(self), *final(self)),
            r.wf(),
            r.remaining() == occupied_items(old(self).slots(), 0),
    {
        let mut taken: Vec<Entry<T>> = Vec::new();
        core::mem::swap(&mut self.items, &mut taken);
        let n = self.len;
        self.len = 0;
        self.free_list_head = None;
        proof {
            self.free_order@ = Seq::empty();
            assert(taken.len() == taken@.len());
            assert forall|k: int|
                0 <= k < old(self).free_list().len() implies (#[trigger] old(self).free_list()[k])
                < old(self).slots().len() && old(self).slots()[old(self).free_list()[k] as int]
                is Free by {}
            lemma_free_count(old(self).slots(), old(self).free_list());
            lemma_occupied_items_len(taken@, 0);
        }
        Drain { entries: taken, front: 0, len: n }
    }
}

} // verus!
