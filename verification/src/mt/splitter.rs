//! Cutting input into units of work.

use vstd::prelude::*;

verus! {

/// Collects input until there is enough for a unit of work.
pub struct Splitter {
    current: Vec<u8>,
    unit_size: usize,
    units: Ghost<Seq<Seq<u8>>>,
    input: Ghost<Seq<u8>>,
}

/// All units one after the other.
pub open spec fn joined(units: Seq<Seq<u8>>) -> Seq<u8>
    decreases units.len(),
{
    if units.len() == 0 {
        Seq::empty()
    } else {
        joined(units.drop_last()) + units.last()
    }
}

/// Units of the same size make up a multiple of it.
pub proof fn lemma_joined_len(units: Seq<Seq<u8>>, size: int)
    requires
        forall|i: int| 0 <= i < units.len() ==> (#[trigger] units[i]).len() == size,
    ensures
        joined(units).len() == size * units.len(),
    decreases units.len(),
{
    if units.len() > 0 {
        let rest = units.drop_last();
        assert forall|i: int| 0 <= i < rest.len() implies (#[trigger] rest[i]).len() == size by {
            assert(rest[i] == units[i]);
        }
        lemma_joined_len(rest, size);
        assert(size * rest.len() + size == size * units.len()) by (nonlinear_arith)
            requires
                rest.len() + 1 == units.len(),
        ;
    } else {
        assert(size * 0 == 0);
    }
}

/// Each unit stands in what the units make up, right behind those before it.
pub proof fn lemma_joined_holds_units(units: Seq<Seq<u8>>, i: int)
    requires
        0 <= i < units.len(),
    ensures
        ({
            let start = joined(units.take(i)).len() as int;
            &&& start + units[i].len() <= joined(units).len()
            &&& joined(units).subrange(start, start + units[i].len()) == units[i]
            &&& joined(units.take(i + 1)).len() == start + units[i].len()
            &&& i == 0 ==> start == 0
            &&& i == units.len() - 1 ==> start + units[i].len() == joined(units).len()
        }),
    decreases units.len(),
{
    let start = joined(units.take(i)).len() as int;
    let rest = units.drop_last();
    assert(units.take(i + 1).drop_last() =~= units.take(i));
    assert(units.take(0) =~= Seq::<Seq<u8>>::empty());
    if i < rest.len() {
        lemma_joined_holds_units(rest, i);
        assert(rest.take(i) =~= units.take(i));
        assert(joined(units).subrange(start, start + units[i].len()) =~= joined(rest).subrange(
            start,
            start + units[i].len(),
        ));
    } else {
        assert(rest =~= units.take(i));
        assert(units.take(i + 1) =~= units);
        assert(joined(units).subrange(start, start + units[i].len()) =~= units[i]);
    }
}

impl Splitter {
    /// The bytes that are not part of a unit yet.
    pub closed spec fn collected(&self) -> Seq<u8> {
        self.current@
    }

    /// The size of a unit.
    pub closed spec fn size(&self) -> int {
        self.unit_size as int
    }

    /// The units that have been taken so far.
    pub closed spec fn taken(&self) -> Seq<Seq<u8>> {
        self.units@
    }

    /// All bytes that were ever put in.
    pub closed spec fn all_input(&self) -> Seq<u8> {
        self.input@
    }

    /// No byte is lost, made up or moved: the units and what is not part of one yet make up the
    /// input. No unit is larger than it should be, and none is empty.
    pub open spec fn wf(&self) -> bool {
        &&& 1 <= self.size()
        &&& self.collected().len() <= self.size()
        &&& joined(self.taken()) + self.collected() == self.all_input()
        &&& forall|i: int|
            0 <= i < self.taken().len() ==> 1 <= (#[trigger] self.taken()[i]).len() <= self.size()
    }

    /// Nothing has been put in yet.
    pub fn new(unit_size: usize) -> (splitter: Self)
        requires
            unit_size >= 1,
        ensures
            splitter.wf(),
            splitter.size() == unit_size,
            splitter.collected() == Seq::<u8>::empty(),
            splitter.taken() == Seq::<Seq<u8>>::empty(),
            splitter.all_input() == Seq::<u8>::empty(),
    {
        let splitter = Splitter {
            current: Vec::new(),
            unit_size,
            units: Ghost(Seq::empty()),
            input: Ghost(Seq::empty()),
        };
        assert(joined(Seq::<Seq<u8>>::empty()) + Seq::<u8>::empty() =~= Seq::<u8>::empty());
        splitter
    }

    /// Takes as much of `buf` as still belongs to the current unit, and returns how much that is.
    pub fn fill(&mut self, buf: &[u8]) -> (taken: usize)
        requires
            old(self).wf(),
        ensures
            final(self).wf(),
            final(self).size() == old(self).size(),
            final(self).taken() == old(self).taken(),
            taken == if buf@.len() < old(self).size() - old(self).collected().len() {
                buf@.len() as int
            } else {
                old(self).size() - old(self).collected().len()
            },
            final(self).collected() == old(self).collected() + buf@.take(taken as int),
            final(self).all_input() == old(self).all_input() + buf@.take(taken as int),
    {
        let room: usize = self.unit_size.saturating_sub(self.current.len());
        let taken: usize = if buf.len() < room { buf.len() } else { room };
        if taken > 0 {
            self.current.extend_from_slice(vstd::slice::slice_subrange(buf, 0, taken));
        }
        proof {
            let part = buf@.take(taken as int);
            self.input@ = self.input@ + part;
            assert(self.current@ =~= old(self).current@ + part);
            assert(joined(self.units@) + (old(self).current@ + part) =~= (joined(self.units@)
                + old(self).current@) + part);
        }
        taken
    }

    /// Whether the current unit is complete.
    pub fn is_full(&self) -> (full: bool)
        ensures
            full == (self.collected().len() >= self.size()),
    {
        self.current.len() >= self.unit_size
    }

    /// Whether there is nothing in the current unit.
    pub fn is_empty(&self) -> (empty: bool)
        ensures
            empty == (self.collected().len() == 0),
    {
        self.current.len() == 0
    }

    /// Takes the current unit, complete or not.
    pub fn take_unit(&mut self) -> (unit: Vec<u8>)
        requires
            old(self).wf(),
            old(self).collected().len() > 0,
        ensures
            final(self).wf(),
            final(self).size() == old(self).size(),
            unit@ == old(self).collected(),
            final(self).collected() == Seq::<u8>::empty(),
            final(self).taken() == old(self).taken().push(unit@),
            final(self).all_input() == old(self).all_input(),
    {
        let mut unit: Vec<u8> = Vec::new();
        std::mem::swap(&mut unit, &mut self.current);
        proof {
            self.units@ = self.units@.push(unit@);
            assert(self.units@.drop_last() =~= old(self).units@);
            assert(joined(self.units@) + Seq::<u8>::empty() =~= joined(old(self).units@) + unit@);
        }
        unit
    }
}

/// Filling takes as much as fits into the current unit, or all there is, and taking the unit gives
/// just the bytes that were put in since the last one, in their order.
pub proof fn lemma_fill_then_take(
    splitter: &mut Splitter,
    buf: &[u8],
    taken: usize,
    next: &mut Splitter,
    unit: Vec<u8>,
)
    requires
        old(splitter).wf(),
        call_ensures(Splitter::fill, (splitter, buf), taken),
        *old(next) == *final(splitter),
        call_ensures(Splitter::take_unit, (next,), unit),
    ensures
        taken == buf@.len() || old(splitter).collected().len() + taken == old(splitter).size(),
        taken <= buf@.len(),
        old(splitter).collected().len() + taken <= old(splitter).size(),
        unit@ == old(splitter).collected() + buf@.take(taken as int),
        final(next).collected().len() == 0,
        final(next).taken() == old(splitter).taken().push(unit@),
        joined(final(next).taken()) == joined(old(splitter).taken()) + unit@,
{
    assert(final(next).taken().drop_last() =~= old(splitter).taken());
}

} // verus!
