//! Price-time priority order queues.
//!
//! A queue stores priority keys and always hands out a maximal one
//! first. The backing store is a vector kept sorted by priority, highest
//! first, so the head of the vector is the head of the queue and every
//! suffix is dominated by every prefix.

use vstd::prelude::*;

verus! {

/// A key index defines the priority ordering of queue elements: a total,
/// transitive relation together with executable decision procedures for
/// the relation and for key equality.
pub trait KeyIndx: Sized + Copy {
    /// Non-strict priority: `self` outranks or ties `other`.
    spec fn prio_geq(self, other: Self) -> bool;

    /// The relation is total (and hence reflexive).
    proof fn prio_total(a: Self, b: Self)
        ensures
            a.prio_geq(b) || b.prio_geq(a),
    ;

    /// The relation is transitive.
    proof fn prio_trans(a: Self, b: Self, c: Self)
        requires
            a.prio_geq(b),
            b.prio_geq(c),
        ensures
            a.prio_geq(c),
    ;

    /// Decides the priority relation.
    fn takes_priority(&self, other: &Self) -> (r: bool)
        ensures
            r == self.prio_geq(*other),
    ;

    /// Decides key equality.
    fn key_eq(&self, other: &Self) -> (r: bool)
        ensures
            r == (*self == *other),
    ;
}

/// A sequence is priority-sorted when every element outranks or ties
/// every element after it.
pub open spec fn prio_sorted<T: KeyIndx>(s: Seq<T>) -> bool {
    forall|i: int, j: int| 0 <= i <= j < s.len() ==> #[trigger] s[i].prio_geq(s[j])
}

/// The operations of an order queue. The backing implementation is
/// expected to behave as a priority queue: the head is always a maximal
/// element under the key ordering.
pub trait OrderQueue<T: KeyIndx>: Sized {
    /// The stored keys, in the order the queue would hand them out.
    spec fn contents(&self) -> Seq<T>;

    /// Well-formedness of the queue's internal state.
    spec fn wf(&self) -> bool;

    /// A well-formed queue hands its keys out in priority order.
    proof fn wf_sorted(&self)
        requires
            self.wf(),
        ensures
            prio_sorted(self.contents()),
    ;

    /// Pushes a key into the queue at its priority position.
    fn push(&mut self, item: T)
        requires
            old(self).wf(),
        ensures
            final(self).wf(),
            exists|i: int|
                0 <= i <= old(self).contents().len() && final(self).contents()
                    == old(self).contents().insert(i, item),
    ;

    /// Returns the key at the head of the queue, if any.
    fn peek(&self) -> (r: Option<&T>)
        requires
            self.wf(),
        ensures
            match r {
                Some(k) => self.contents().len() > 0 && *k == self.contents()[0],
                None => self.contents().len() == 0,
            },
    ;

    /// Removes and returns the key at the head of the queue, if any.
    fn pop(&mut self) -> (r: Option<T>)
        requires
            old(self).wf(),
        ensures
            final(self).wf(),
            match r {
                Some(k) => old(self).contents().len() > 0 && k == old(self).contents()[0]
                    && final(self).contents() == old(self).contents().drop_first(),
                None => old(self).contents().len() == 0 && final(self).contents()
                    == old(self).contents(),
            },
    ;

    /// Removes the first key equal to `item`, returning it; a miss
    /// leaves the queue unchanged and returns nothing.
    fn remove(&mut self, item: T) -> (r: Option<T>)
        requires
            old(self).wf(),
        ensures
            final(self).wf(),
            match r {
                Some(k) => k == item && exists|j: int|
                    0 <= j < old(self).contents().len() && old(self).contents()[j] == item
                        && final(self).contents() == old(self).contents().remove(j),
                None => final(self).contents() == old(self).contents()
                    && !old(self).contents().contains(item),
            },
    ;
}

/// Priority-order law: in a well-formed queue, a key that stands at or
/// above another in the hand-out order outranks or ties it under the
/// key ordering.
pub proof fn lemma_queue_priority_order<T: KeyIndx, Q: OrderQueue<T>>(q: &Q, i: int, j: int)
    requires
        q.wf(),
        0 <= i <= j < q.contents().len(),
    ensures
        q.contents()[i].prio_geq(q.contents()[j]),
{
    q.wf_sorted();
}

/// Removing any element of a priority-sorted sequence leaves it sorted.
proof fn lemma_prio_sorted_remove<T: KeyIndx>(s: Seq<T>, i: int)
    requires
        prio_sorted(s),
        0 <= i < s.len(),
    ensures
        prio_sorted(s.remove(i)),
{
    s.remove_ensures(i);
    let t = s.remove(i);
    assert forall|p: int, q: int| 0 <= p <= q < t.len() implies #[trigger] t[p].prio_geq(t[q]) by {
        if p < i {
            assert(t[p] == s[p]);
        } else {
            assert(t[p] == s[p + 1]);
        }
        if q < i {
            assert(t[q] == s[q]);
        } else {
            assert(t[q] == s[q + 1]);
        }
    }
}

/// An order queue backed by a vector kept sorted by priority, highest
/// first. Pushes insert at the key's priority position; pops take the
/// head; cancels search linearly, as arbitrary removal from a priority
/// structure must.
pub struct PriceTimePriorityOrderQueue<T> {
    keys: Vec<T>,
}

impl<T> PriceTimePriorityOrderQueue<T> where T: KeyIndx {
    pub fn new() -> (q: Self)
        ensures
            q.wf(),
            q.contents() == Seq::<T>::empty(),
    {
        Self { keys: Vec::with_capacity(16) }
    }

    pub fn with_capacity(capacity: usize) -> (q: Self)
        ensures
            q.wf(),
            q.contents() == Seq::<T>::empty(),
    {
        Self { keys: Vec::with_capacity(capacity) }
    }

    /// The position a new key belongs at: the first index whose key it
    /// outranks or ties.
    fn insert_index(&self, item: &T) -> (i: usize)
        requires
            self.wf(),
        ensures
            i <= self.keys@.len(),
            forall|j: int| 0 <= j < i ==> !item.prio_geq(#[trigger] self.keys@[j]),
            i < self.keys@.len() ==> item.prio_geq(self.keys@[i as int]),
    {
        let mut i: usize = 0;
        while i < self.keys.len()
            invariant
                i <= self.keys@.len(),
                forall|j: int| 0 <= j < i ==> !item.prio_geq(#[trigger] self.keys@[j]),
            decreases self.keys@.len() - i,
        {
            if item.takes_priority(&self.keys[i]) {
                return i;
            }
            i += 1;
        }
        i
    }
}

impl<T> OrderQueue<T> for PriceTimePriorityOrderQueue<T> where T: KeyIndx {
    closed spec fn contents(&self) -> Seq<T> {
        self.keys@
    }

    closed spec fn wf(&self) -> bool {
        prio_sorted(self.keys@)
    }

    proof fn wf_sorted(&self) {
    }

    fn push(&mut self, item: T) {
        let i = self.insert_index(&item);
        let ghost s = self.keys@;
        proof {
            assert forall|j: int| 0 <= j < i implies #[trigger] s[j].prio_geq(item) by {
                T::prio_total(item, s[j]);
            }
        }
        self.keys.insert(i, item);
        proof {
            let t = self.keys@;
            s.insert_ensures(i as int, item);
            assert forall|p: int, q: int| 0 <= p <= q < t.len() implies #[trigger] t[p].prio_geq(
                t[q],
            ) by {
                let ii = i as int;
                if q < ii {
                    assert(t[p] == s[p] && t[q] == s[q]);
                } else if p < ii && q == ii {
                    assert(t[p] == s[p] && t[q] == item);
                } else if p < ii && q > ii {
                    assert(t[p] == s[p] && t[q] == s[q - 1]);
                } else if p == ii && q == ii {
                    T::prio_total(item, item);
                } else if p == ii && q > ii {
                    assert(t[q] == s[q - 1]);
                    if q - 1 > ii {
                        assert(item.prio_geq(s[ii]));
                        assert(s[ii].prio_geq(s[q - 1]));
                        T::prio_trans(item, s[ii], s[q - 1]);
                    }
                } else {
                    assert(t[p] == s[p - 1] && t[q] == s[q - 1]);
                }
            }
            assert(t == s.insert(i as int, item));
            assert(s == old(self).contents());
            assert(self.contents() == old(self).contents().insert(i as int, item));
            assert(exists|x: int|
                0 <= x <= old(self).contents().len() && self.contents()
                    == #[trigger] old(self).contents().insert(x, item));
        }
    }

    fn peek(&self) -> (r: Option<&T>) {
        if self.keys.len() == 0 {
            None
        } else {
            Some(&self.keys[0])
        }
    }

    fn pop(&mut self) -> (r: Option<T>) {
        if self.keys.len() == 0 {
            None
        } else {
            let k = self.keys.remove(0);
            proof {
                lemma_prio_sorted_remove(old(self).keys@, 0);
                assert(self.keys@ =~= old(self).keys@.drop_first());
                assert(self.keys@ == old(self).keys@.remove(0));
            }
            Some(k)
        }
    }

    fn remove(&mut self, item: T) -> (r: Option<T>) {
        let mut j: usize = 0;
        while j < self.keys.len()
            invariant
                j <= self.keys@.len(),
                self.keys@ == old(self).keys@,
                prio_sorted(self.keys@),
                forall|k: int| 0 <= k < j ==> old(self).keys@[k] != item,
            decreases self.keys@.len() - j,
        {
            if self.keys[j].key_eq(&item) {
                self.keys.remove(j);
                proof {
                    lemma_prio_sorted_remove(old(self).keys@, j as int);
                    assert(self.contents() == old(self).contents().remove(j as int));
                    assert(old(self).contents()[j as int] == item);
                    assert(exists|x: int|
                        0 <= x < old(self).contents().len() && old(self).contents()[x] == item
                            && self.contents() == #[trigger] old(self).contents().remove(x));
                }
                return Some(item);
            }
            j += 1;
        }
        proof {
            assert(forall|k: int|
                0 <= k < old(self).keys@.len() ==> old(self).keys@[k] != item);
        }
        None
    }
}

} // verus!
