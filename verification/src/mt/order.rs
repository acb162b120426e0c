//! Putting numbered chunks back in order.

use std::collections::BTreeMap;

use vstd::prelude::*;

verus! {

/// Hands out chunks by number, each once, starting with number 0. Chunks that arrive too early
/// wait.
pub struct Order<T> {
    next: u64,
    waiting: BTreeMap<u64, T>,
    arrived: Ghost<Set<u64>>,
    handed: Ghost<Seq<T>>,
}

impl<T> Order<T> {
    /// The number of the chunk that is handed out next.
    pub closed spec fn next_number(&self) -> u64 {
        self.next
    }

    /// The chunks that have arrived too early.
    pub closed spec fn waiting_chunks(&self) -> Map<u64, T> {
        self.waiting@
    }

    /// The numbers of all chunks that have ever arrived.
    pub closed spec fn arrived_numbers(&self) -> Set<u64> {
        self.arrived@
    }

    /// The chunks that have been handed out, in this order.
    pub closed spec fn handed_out(&self) -> Seq<T> {
        self.handed@
    }

    /// Every chunk that has arrived has been handed out or waits, and what was handed out or waits
    /// has arrived.
    pub open spec fn wf(&self) -> bool {
        &&& self.handed_out().len() == self.next_number()
        &&& forall|number: u64| #[trigger]
            self.arrived_numbers().contains(number) ==> number < self.next_number()
                || self.waiting_chunks().contains_key(number)
        &&& forall|number: u64| #[trigger]
            self.waiting_chunks().contains_key(number) ==> self.arrived_numbers().contains(number)
        &&& forall|number: u64|
            number < self.next_number() ==> #[trigger] self.arrived_numbers().contains(number)
    }

    /// The chunks that were handed out are the first ones of `chunks`, in order, and those that
    /// wait are what `chunks` has under their numbers.
    pub open spec fn in_order(&self, chunks: spec_fn(u64) -> T) -> bool {
        &&& forall|i: int|
            0 <= i < self.handed_out().len() ==> #[trigger] self.handed_out()[i] == chunks(i as u64)
        &&& forall|number: u64| #[trigger]
            self.waiting_chunks().contains_key(number) ==> self.waiting_chunks()[number] == chunks(
                number,
            )
    }

    /// Nothing has arrived yet.
    pub fn new() -> (order: Self)
        ensures
            order.wf(),
            order.next_number() == 0,
            order.waiting_chunks() == Map::<u64, T>::empty(),
            order.arrived_numbers() == Set::<u64>::empty(),
            order.handed_out() == Seq::<T>::empty(),
    {
        Order {
            next: 0,
            waiting: BTreeMap::new(),
            arrived: Ghost(Set::empty()),
            handed: Ghost(Seq::empty()),
        }
    }

    /// The number of the chunk that is handed out next.
    pub fn next(&self) -> (next: u64)
        ensures
            next == self.next_number(),
    {
        self.next
    }

    /// Whether no chunk waits.
    pub fn is_empty(&self) -> (empty: bool)
        ensures
            empty == self.waiting_chunks().is_empty(),
    {
        self.waiting.is_empty()
    }

    /// Hands out the next chunk if it waits.
    pub fn take_next(&mut self) -> (chunk: Option<T>)
        requires
            old(self).wf(),
            old(self).next_number() < u64::MAX,
        ensures
            final(self).wf(),
            final(self).arrived_numbers() == old(self).arrived_numbers(),
            match chunk {
                Some(chunk) => {
                    &&& old(self).waiting_chunks().contains_key(old(self).next_number())
                    &&& chunk == old(self).waiting_chunks()[old(self).next_number()]
                    &&& final(self).next_number() == old(self).next_number() + 1
                    &&& final(self).handed_out() == old(self).handed_out().push(chunk)
                    &&& final(self).waiting_chunks() == old(self).waiting_chunks().remove(
                        old(self).next_number(),
                    )
                },
                None => {
                    &&& !old(self).waiting_chunks().contains_key(old(self).next_number())
                    &&& final(self).next_number() == old(self).next_number()
                    &&& final(self).handed_out() == old(self).handed_out()
                    &&& final(self).waiting_chunks() == old(self).waiting_chunks()
                },
            },
    {
        let next: u64 = self.next;
        let chunk = self.waiting.remove(&next);
        if chunk.is_some() {
            self.next = next + 1;
        }
        proof {
            if chunk is Some {
                self.handed@ = self.handed@.push(chunk->0);
            }
            assert(chunk is None ==> self.waiting@ =~= old(self).waiting@);
            assert(chunk is Some ==> self.waiting@ =~= old(self).waiting@.remove(next));
            assert forall|number: u64| #[trigger]
                self.waiting_chunks().contains_key(number) implies self.arrived_numbers().contains(
                number,
            ) by {
                assert(old(self).waiting_chunks().contains_key(number));
            }
            assert forall|number: u64| #[trigger]
                self.arrived_numbers().contains(number) implies number < self.next_number()
                || self.waiting_chunks().contains_key(number) by {
                assert(old(self).arrived_numbers().contains(number));
            }
            assert forall|n: u64|
                n < self.next_number() implies #[trigger] self.arrived_numbers().contains(n) by {
                if n == next {
                    assert(old(self).waiting_chunks().contains_key(n));
                } else {
                    assert(old(self).arrived_numbers().contains(n));
                }
            }
        }
        chunk
    }

    /// Takes a chunk that arrives, and hands it out if it is the next one.
    pub fn accept(&mut self, number: u64, chunk: T) -> (out: Option<T>)
        requires
            old(self).wf(),
            old(self).next_number() < u64::MAX,
        ensures
            final(self).arrived_numbers() == old(self).arrived_numbers().insert(number),
            final(self).wf(),
            if number == old(self).next_number() {
                &&& out == Some(chunk)
                &&& final(self).next_number() == old(self).next_number() + 1
                &&& final(self).handed_out() == old(self).handed_out().push(chunk)
                &&& final(self).waiting_chunks() == old(self).waiting_chunks()
            } else {
                &&& out is None
                &&& final(self).next_number() == old(self).next_number()
                &&& final(self).handed_out() == old(self).handed_out()
                &&& final(self).waiting_chunks() == old(self).waiting_chunks().insert(
                    number,
                    chunk,
                )
            },
    {
        proof {
            self.arrived@ = self.arrived@.insert(number);
            if number == self.next {
                self.handed@ = self.handed@.push(chunk);
            }
        }
        let out: Option<T> = if number == self.next {
            self.next = self.next + 1;
            Some(chunk)
        } else {
            self.waiting.insert(number, chunk);
            None
        };
        proof {
            assert forall|n: u64| #[trigger]
                self.waiting_chunks().contains_key(n) implies self.arrived_numbers().contains(
                n,
            ) by {
                if n != number {
                    assert(old(self).waiting_chunks().contains_key(n));
                }
            }
            assert forall|n: u64| #[trigger] self.arrived_numbers().contains(n) implies n
                < self.next_number() || self.waiting_chunks().contains_key(n) by {
                if n != number {
                    assert(old(self).arrived_numbers().contains(n));
                }
            }
            assert forall|n: u64|
                n < self.next_number() implies #[trigger] self.arrived_numbers().contains(n) by {
                if n != number {
                    assert(old(self).arrived_numbers().contains(n));
                }
            }
        }
        out
    }

    /// No chunk is kept back: if all chunks below `count` have arrived and the next one does not
    /// wait, then all of them have been handed out.
    pub proof fn lemma_nothing_kept_back(&self, count: u64)
        requires
            self.wf(),
            forall|number: u64|
                number < count ==> #[trigger] self.arrived_numbers().contains(number),
            !self.waiting_chunks().contains_key(self.next_number()),
        ensures
            self.next_number() >= count,
    {
        if self.next_number() < count {
            assert(self.arrived_numbers().contains(self.next_number()));
        }
    }

    /// No chunk is made up: what was handed out has arrived.
    pub proof fn lemma_nothing_made_up(&self, number: u64)
        requires
            self.wf(),
            number < self.next_number(),
        ensures
            self.arrived_numbers().contains(number),
    {
    }
}

/// Taking the next chunk keeps the order.
pub proof fn lemma_take_next_in_order<T>(
    before: &Order<T>,
    after: &Order<T>,
    chunks: spec_fn(u64) -> T,
)
    requires
        before.wf(),
        before.in_order(chunks),
        before.waiting_chunks().contains_key(before.next_number()),
        after.handed_out() == before.handed_out().push(
            before.waiting_chunks()[before.next_number()],
        ),
        after.waiting_chunks() == before.waiting_chunks().remove(before.next_number()),
    ensures
        after.in_order(chunks),
{
    assert forall|number: u64| #[trigger]
        after.waiting_chunks().contains_key(number) implies after.waiting_chunks()[number]
        == chunks(number) by {
        assert(before.waiting_chunks().contains_key(number));
    }
}

/// A chunk that arrives under its number keeps the order: it is handed out at once if it is the
/// next one, and waits otherwise.
pub proof fn lemma_accept_in_order<T>(
    before: &Order<T>,
    after: &Order<T>,
    number: u64,
    chunks: spec_fn(u64) -> T,
)
    requires
        before.wf(),
        before.in_order(chunks),
        if number == before.next_number() {
            &&& after.handed_out() == before.handed_out().push(chunks(number))
            &&& after.waiting_chunks() == before.waiting_chunks()
        } else {
            &&& after.handed_out() == before.handed_out()
            &&& after.waiting_chunks() == before.waiting_chunks().insert(number, chunks(number))
        },
    ensures
        after.in_order(chunks),
{
    assert forall|n: u64| #[trigger]
        after.waiting_chunks().contains_key(n) implies after.waiting_chunks()[n]
        == chunks(n) by {
        if n != number || number == before.next_number() {
            assert(before.waiting_chunks().contains_key(n));
        }
    }
}

/// A chunk that arrives is handed out at once if it is the next one, and otherwise waits under its
/// number, and none that waits is lost. If every chunk arrives under its own number, those that
/// were handed out are the first ones, in order.
pub proof fn lemma_accept_hands_out_in_order<T>(
    order: &mut Order<T>,
    number: u64,
    out: Option<T>,
    chunks: spec_fn(u64) -> T,
)
    requires
        old(order).wf(),
        old(order).in_order(chunks),
        call_ensures(Order::<T>::accept, (order, number, chunks(number)), out),
    ensures
        out == if number == old(order).next_number() {
            Some(chunks(number))
        } else {
            None
        },
        final(order).handed_out() == if out is Some {
            old(order).handed_out().push(chunks(number))
        } else {
            old(order).handed_out()
        },
        final(order).next_number() == final(order).handed_out().len(),
        final(order).in_order(chunks),
        out is None ==> final(order).waiting_chunks().contains_key(number),
        forall|n: u64| #[trigger]
            old(order).waiting_chunks().contains_key(n)
                ==> final(order).waiting_chunks().contains_key(n),
{
    lemma_accept_in_order(old(order), final(order), number, chunks);
}

/// The next chunk is handed out just if it waits, and all others go on waiting.
pub proof fn lemma_take_next_hands_out_in_order<T>(
    order: &mut Order<T>,
    out: Option<T>,
    chunks: spec_fn(u64) -> T,
)
    requires
        old(order).wf(),
        old(order).in_order(chunks),
        call_ensures(Order::<T>::take_next, (order,), out),
    ensures
        out is Some <==> old(order).waiting_chunks().contains_key(old(order).next_number()),
        out is Some ==> out == Some(chunks(old(order).next_number())),
        final(order).handed_out() == if out is Some {
            old(order).handed_out().push(chunks(old(order).next_number()))
        } else {
            old(order).handed_out()
        },
        final(order).next_number() == final(order).handed_out().len(),
        final(order).in_order(chunks),
        forall|n: u64| #[trigger]
            old(order).waiting_chunks().contains_key(n) && n != old(order).next_number()
                ==> final(order).waiting_chunks().contains_key(n),
{
    if out is Some {
        lemma_take_next_in_order(old(order), final(order), chunks);
    }
}

} // verus!
