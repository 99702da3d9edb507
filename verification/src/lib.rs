//! A fixed-capacity circular (ring) buffer with overwrite-on-full insertion
//! and first-in-first-out removal.
//!
//! The buffer owns a fixed number of slots chosen at construction. `add`
//! never fails: when every slot is occupied it evicts the oldest element to
//! make room. `remove` yields the oldest element still held, or nothing when
//! the buffer is empty.

use vstd::prelude::*;

verus! {

/// How many places forward (circularly) slot `i` lies from slot `start`,
/// inside a ring of `cap` slots.
spec fn ring_distance(start: int, i: int, cap: int) -> int {
    if i >= start {
        i - start
    } else {
        cap - start + i
    }
}

/// The slot that lies `offset` places after `start` in a ring of `cap`
/// slots, for `0 <= start < cap` and `0 <= offset <= cap`.
spec fn ring_slot(start: int, offset: int, cap: int) -> int {
    if start + offset < cap {
        start + offset
    } else {
        start + offset - cap
    }
}

/// Stepping a cursor forward by one place wraps to slot zero at the end of
/// the ring.
proof fn lemma_wrap_increment(x: int, cap: int)
    requires
        0 < cap,
        0 <= x < cap,
    ensures
        (x + 1) % cap == if x + 1 < cap {
            x + 1
        } else {
            0
        },
{
    if x + 1 < cap {
        vstd::arithmetic::div_mod::lemma_small_mod((x + 1) as nat, cap as nat);
    } else {
        vstd::arithmetic::div_mod::lemma_mod_self_0(cap);
    }
}

pub struct RingBuffer<T: Copy> {
    data: Vec<Option<T>>,
    write_head: usize,
    read_head: usize,
}

impl<T: Copy> View for RingBuffer<T> {
    type V = Seq<T>;

    /// The elements currently held, oldest first.
    closed spec fn view(&self) -> Seq<T> {
        Seq::new(
            self.occupancy() as nat,
            |i: int| self.data@[ring_slot(self.read_head as int, i, self.data@.len() as int)]->0,
        )
    }
}

impl<T: Copy> RingBuffer<T> {
    /// The fixed number of slots, chosen at construction.
    pub closed spec fn capacity(&self) -> nat {
        self.data@.len()
    }

    /// The number of occupied slots, read off the two cursors; when the
    /// cursors coincide, the slot under the read cursor tells empty from
    /// full.
    closed spec fn occupancy(&self) -> int {
        let cap = self.data@.len() as int;
        if self.write_head != self.read_head {
            ring_distance(self.read_head as int, self.write_head as int, cap)
        } else if self.data@[self.read_head as int] is Some {
            cap
        } else {
            0
        }
    }

    /// Well-formedness: there is at least one slot, both cursors are in
    /// range, and the occupied slots are exactly the circular run that
    /// starts at the read cursor and holds the buffered elements.
    pub closed spec fn wf(&self) -> bool {
        let cap = self.data@.len() as int;
        &&& cap > 0
        &&& (self.read_head as int) < cap
        &&& (self.write_head as int) < cap
        &&& forall|i: int|
            0 <= i < cap ==> ((#[trigger] self.data@[i]) is Some <==> ring_distance(
                self.read_head as int,
                i,
                cap,
            ) < self.occupancy())
    }

    /// Creates a buffer with `ring_size` empty slots. A ring needs at least
    /// one slot, so a positive capacity is required of the caller; there is
    /// no degenerate zero-capacity buffer.
    pub fn new(ring_size: usize) -> (result: Self)
        requires
            ring_size > 0,
        ensures
            result.wf(),
            result@ == Seq::<T>::empty(),
            result.capacity() == ring_size,
    {
        let mut data: Vec<Option<T>> = Vec::new();
        let mut i: usize = 0;
        while i < ring_size
            invariant
                i <= ring_size,
                data@.len() == i,
                forall|j: int| 0 <= j < i ==> (#[trigger] data@[j]) is None,
            decreases ring_size - i,
        {
            data.push(None);
            i = i + 1;
        }
        let result = RingBuffer { data, write_head: 0, read_head: 0 };
        proof {
            assert(result@ =~= Seq::<T>::empty());
        }
        result
    }

    /// Returns how many elements the buffer currently holds, a number
    /// between zero and the capacity. The count is read off the two cursors
    /// in constant time; by well-formedness it equals the number of
    /// occupied slots.
    pub fn number_of_elements(&self) -> (count: usize)
        requires
            self.wf(),
        ensures
            count == self@.len(),
    {
        let cap = self.data.len();
        if self.write_head > self.read_head {
            self.write_head - self.read_head
        } else if self.write_head < self.read_head {
            cap - self.read_head + self.write_head
        } else if self.data[self.read_head].is_some() {
            cap
        } else {
            0
        }
    }

    /// What one insertion does to the buffered contents: the new element is
    /// appended at the young end; when the buffer is full, the oldest
    /// element is evicted to make room.
    pub open spec fn after_add(contents: Seq<T>, cap: nat, element: T) -> Seq<T> {
        if contents.len() < cap {
            contents.push(element)
        } else {
            contents.skip(1).push(element)
        }
    }

    /// Adds a new element at the young end of the ring. Never fails: if the
    /// ring is full, the oldest element is overwritten.
    pub fn add(&mut self, element: T)
        requires
            old(self).wf(),
        ensures
            final(self).wf(),
            final(self).capacity() == old(self).capacity(),
            final(self)@ == Self::after_add(old(self)@, old(self).capacity(), element),
            old(self)@.len() < old(self).capacity() ==> final(self)@ == old(self)@.push(element),
            old(self)@.len() == old(self).capacity() ==> final(self)@ == old(self)@.skip(1).push(
                element,
            ),
    {
        let cap = self.data.len();
        if self.number_of_elements() == cap {
            // buffer full: the slot under both cursors is overwritten and
            // both cursors step forward, discarding the oldest element
            self.data[self.write_head] = Some(element);
            self.write_head = (self.write_head + 1) % cap;
            self.read_head = (self.read_head + 1) % cap;
            proof {
                let capi = old(self).data@.len() as int;
                let r = old(self).read_head as int;
                lemma_wrap_increment(r, capi);
                assert forall|i: int| 0 <= i < capi implies (#[trigger] self.data@[i]) is Some by {
                    assert(old(self).data@[i] is Some);
                }
                assert(self.occupancy() == capi);
                assert forall|i: int| 0 <= i < self@.len() implies self@[i] == old(self)@.skip(
                    1,
                ).push(element)[i] by {
                    let s = ring_slot(self.read_head as int, i, capi);
                    if i < capi - 1 {
                        assert(s == ring_slot(r, i + 1, capi));
                        assert(ring_distance(r, s, capi) == i + 1);
                        assert(self.data@[s] == old(self).data@[s]);
                    } else {
                        assert(s == r);
                    }
                }
                assert(self@ =~= old(self)@.skip(1).push(element));
            }
        } else {
            self.data[self.write_head] = Some(element);
            self.write_head = (self.write_head + 1) % cap;
            proof {
                let capi = old(self).data@.len() as int;
                let r = old(self).read_head as int;
                let w = old(self).write_head as int;
                let n = old(self).occupancy();
                lemma_wrap_increment(w, capi);
                assert(ring_distance(r, w, capi) == n);
                assert forall|i: int| 0 <= i < capi implies ((#[trigger] self.data@[i]) is Some
                    <==> ring_distance(r, i, capi) < n + 1) by {
                    if i != w {
                        assert(old(self).data@[i] is Some <==> ring_distance(r, i, capi) < n);
                    }
                }
                if self.write_head as int != r {
                    assert(self.occupancy() == n + 1);
                } else {
                    assert(n + 1 == capi);
                    assert(self.data@[r] is Some);
                    assert(self.occupancy() == n + 1);
                }
                assert forall|i: int| 0 <= i < self@.len() implies self@[i] == old(self)@.push(
                    element,
                )[i] by {
                    let s = ring_slot(r, i, capi);
                    assert(ring_distance(r, s, capi) == i);
                    if i < n {
                        assert(s != w);
                        assert(self.data@[s] == old(self).data@[s]);
                    } else {
                        assert(s == w);
                    }
                }
                assert(self@ =~= old(self)@.push(element));
            }
        }
    }

    /// Removes the oldest element from the ring and returns it; on an empty
    /// buffer it returns `None` and changes nothing.
    pub fn remove(&mut self) -> (removed: Option<T>)
        requires
            old(self).wf(),
        ensures
            final(self).wf(),
            final(self).capacity() == old(self).capacity(),
            removed is Some <==> old(self)@.len() > 0,
            old(self)@.len() == 0 ==> removed is None && final(self)@ == old(self)@,
            old(self)@.len() > 0 ==> removed == Some(old(self)@[0]) && final(self)@ == old(
                self,
            )@.skip(1),
    {
        if self.number_of_elements() > 0 {
            let cap = self.data.len();
            let ret_val = self.data[self.read_head];
            self.data[self.read_head] = None;
            self.read_head = (self.read_head + 1) % cap;
            proof {
                let capi = old(self).data@.len() as int;
                let r = old(self).read_head as int;
                let n = old(self).occupancy();
                lemma_wrap_increment(r, capi);
                assert(old(self).data@[r] is Some);
                assert forall|i: int| 0 <= i < capi implies ((#[trigger] self.data@[i]) is Some
                    <==> ring_distance(self.read_head as int, i, capi) < n - 1) by {
                    if i != r {
                        assert(old(self).data@[i] is Some <==> ring_distance(r, i, capi) < n);
                    }
                }
                assert(self.occupancy() == n - 1);
                assert forall|i: int| 0 <= i < self@.len() implies self@[i] == old(self)@.skip(
                    1,
                )[i] by {
                    let s = ring_slot(self.read_head as int, i, capi);
                    assert(s == ring_slot(r, i + 1, capi));
                    assert(ring_distance(r, s, capi) == i + 1);
                    assert(self.data@[s] == old(self).data@[s]);
                }
                assert(self@ =~= old(self)@.skip(1));
            }
            ret_val
        } else {
            None
        }
    }

    /// The contents after inserting `elements` one by one, oldest first,
    /// into a buffer of capacity `cap` that held `contents`. Each step is
    /// the transition that `add` ensures.
    pub open spec fn after_add_all(contents: Seq<T>, cap: nat, elements: Seq<T>) -> Seq<T>
        decreases elements.len(),
    {
        if elements.len() == 0 {
            contents
        } else {
            Self::after_add_all(
                Self::after_add(contents, cap, elements[0]),
                cap,
                elements.skip(1),
            )
        }
    }

    /// A run of insertions keeps the newest elements: as long as everything
    /// fits, the contents are the old contents followed by the new elements;
    /// once the capacity is exceeded, only the newest `cap` of them remain.
    proof fn lemma_after_add_all_suffix(contents: Seq<T>, cap: nat, elements: Seq<T>)
        requires
            cap > 0,
            contents.len() <= cap,
        ensures
            contents.len() + elements.len() <= cap ==> Self::after_add_all(
                contents,
                cap,
                elements,
            ) == contents + elements,
            contents.len() + elements.len() > cap ==> Self::after_add_all(contents, cap, elements)
                == (contents + elements).skip(contents.len() + elements.len() - cap),
        decreases elements.len(),
    {
        if elements.len() == 0 {
            assert(contents + elements =~= contents);
        } else {
            let first = elements[0];
            let rest = elements.skip(1);
            let stepped = Self::after_add(contents, cap, first);
            if contents.len() < cap {
                assert(stepped =~= contents.push(first));
                Self::lemma_after_add_all_suffix(stepped, cap, rest);
                assert(stepped + rest =~= contents + elements);
            } else {
                assert(stepped =~= contents.skip(1).push(first));
                assert(stepped.len() == cap);
                Self::lemma_after_add_all_suffix(stepped, cap, rest);
                assert(stepped + rest =~= (contents + elements).skip(1));
                if stepped.len() + rest.len() > cap {
                    assert(((contents + elements).skip(1)).skip(
                        stepped.len() + rest.len() - cap,
                    ) =~= (contents + elements).skip(contents.len() + elements.len() - cap));
                }
            }
        }
    }

    /// Law: adding at most `cap` elements to an empty buffer of capacity
    /// `cap` keeps every one of them, in insertion order. In particular the
    /// count afterwards equals the number of elements added.
    pub proof fn lemma_fill_in_order(cap: nat, elements: Seq<T>)
        requires
            elements.len() <= cap,
        ensures
            Self::after_add_all(Seq::empty(), cap, elements) == elements,
    {
        if elements.len() == 0 {
            assert(elements =~= Seq::<T>::empty());
        } else {
            Self::lemma_after_add_all_suffix(Seq::empty(), cap, elements);
            assert(Seq::empty() + elements =~= elements);
        }
    }

    /// Law: adding more than `cap` elements to an empty buffer of capacity
    /// `cap` keeps exactly the newest `cap` of them, in insertion order; the
    /// oldest ones are evicted and can never be removed. In particular the
    /// count afterwards equals `cap`.
    pub proof fn lemma_overfill_evicts_oldest(cap: nat, elements: Seq<T>)
        requires
            cap > 0,
            elements.len() >= cap,
        ensures
            Self::after_add_all(Seq::empty(), cap, elements) == elements.skip(
                elements.len() - cap,
            ),
    {
        Self::lemma_after_add_all_suffix(Seq::empty(), cap, elements);
        if elements.len() > cap {
            assert((Seq::empty() + elements).skip(elements.len() - cap) =~= elements.skip(
                elements.len() - cap,
            ));
        } else {
            assert(Seq::empty() + elements =~= elements.skip(elements.len() - cap));
        }
    }

    /// Law: a well-formed buffer never holds more elements than its
    /// capacity, whatever sequence of calls produced it.
    pub proof fn lemma_len_at_most_capacity(&self)
        requires
            self.wf(),
        ensures
            self@.len() <= self.capacity(),
    {
    }
}

} // verus!
