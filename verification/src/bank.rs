//! Banks: slot-addressed stores of component values.
use vstd::prelude::*;

verus! {

/// A store of values of one component type. A value is addressed by the slot
/// that [`Bank::add`] returned for it. Slots given back with [`Bank::del`] are
/// handed out again before the store grows.
pub struct Bank<C> {
    components: Vec<C>,
    holes: Vec<usize>,
}

/// What a bank holds: the value in each slot, and the reclaimed slots in the
/// order in which they were given back.
pub struct BankView<C> {
    pub slots: Seq<C>,
    pub holes: Seq<usize>,
}

impl<C> BankView<C> {
    /// Each reclaimed slot exists and is listed once, and the slots can be
    /// counted in a `usize`.
    pub open spec fn wf(self) -> bool {
        &&& self.slots.len() <= usize::MAX
        &&& self.holes.no_duplicates()
        &&& forall|i: int| 0 <= i < self.holes.len() ==> (#[trigger] self.holes[i]) < self.slots.len()
    }

    /// Whether `pos` is a slot that was handed out and not given back since.
    pub open spec fn is_live(self, pos: usize) -> bool {
        pos < self.slots.len() && !self.holes.contains(pos)
    }

    /// The slot that the next `add` returns: the slot reclaimed last, or a new
    /// one at the end when there is none.
    pub open spec fn next_slot(self) -> usize {
        if self.holes.len() > 0 {
            self.holes.last()
        } else {
            self.slots.len() as usize
        }
    }

    /// Whether one more value can be added: there is a reclaimed slot, or the
    /// number of slots is below `usize::MAX`.
    pub open spec fn has_room(self) -> bool {
        self.holes.len() > 0 || self.slots.len() < usize::MAX
    }

    /// The bank after `value` was added.
    pub open spec fn added(self, value: C) -> BankView<C> {
        if self.holes.len() > 0 {
            BankView { slots: self.slots.update(self.holes.last() as int, value), holes: self.holes.drop_last() }
        } else {
            BankView { slots: self.slots.push(value), holes: self.holes }
        }
    }

    /// The bank after slot `pos` was given back. The value stays where it is.
    pub open spec fn deleted(self, pos: usize) -> BankView<C> {
        BankView { slots: self.slots, holes: self.holes.push(pos) }
    }

    /// The bank after the value in slot `pos` was replaced.
    pub open spec fn stored(self, pos: usize, value: C) -> BankView<C> {
        BankView { slots: self.slots.update(pos as int, value), holes: self.holes }
    }
}

impl<C> View for Bank<C> {
    type V = BankView<C>;

    closed spec fn view(&self) -> BankView<C> {
        BankView { slots: self.components@, holes: self.holes@ }
    }
}

impl<C> Bank<C> {
    /// An empty bank.
    pub fn new() -> (bank: Bank<C>)
        ensures
            bank@.wf(),
            bank@.slots == Seq::<C>::empty(),
            bank@.holes == Seq::<usize>::empty(),
    {
        Bank { components: Vec::new(), holes: Vec::new() }
    }

    /// Stores `c` and returns its slot: the slot reclaimed last when there is
    /// one, else a new slot at the end. That the call returns shows that
    /// there was room for the value.
    pub fn add(&mut self, c: C) -> (pos: usize)
        requires
            old(self)@.wf(),
        ensures
            old(self)@.has_room(),
            pos == old(self)@.next_slot(),
            final(self)@ == old(self)@.added(c),
            final(self)@.wf(),
            final(self)@.is_live(pos),
    {
        match self.holes.pop() {
            Some(pos) => {
                assert(old(self)@.holes.last() == pos);
                assert(self@.holes == old(self)@.holes.drop_last());
                self.components[pos] = c;
                pos
            },
            None => {
                let pos: usize = self.components.len();
                self.components.push(c);
                assert(self.components.len() == self.components@.len());
                pos
            },
        }
    }

    /// Gives slot `pos` back. Its value is not cleared; the next `add`
    /// overwrites it.
    pub fn del(&mut self, pos: usize)
        requires
            old(self)@.wf(),
            old(self)@.is_live(pos),
        ensures
            final(self)@ == old(self)@.deleted(pos),
            final(self)@.wf(),
    {
        self.holes.push(pos);
    }

    /// The value in slot `pos`, for reading.
    pub fn peek(&self, pos: usize) -> (c: &C)
        requires
            self@.is_live(pos),
        ensures
            *c == self@.slots[pos as int],
    {
        &self.components[pos]
    }

    /// The value in slot `pos`, for reading and writing.
    pub fn get(&mut self, pos: usize) -> (c: &mut C)
        requires
            old(self)@.is_live(pos),
        ensures
            *c == old(self)@.slots[pos as int],
            final(self)@ == old(self)@.stored(pos, *final(c)),
    {
        &mut self.components[pos]
    }
}

/// Adding a value leaves every live slot live and its value in place, and
/// returns none of them.
pub proof fn lemma_added_keeps<C>(bank: BankView<C>, value: C, slot: usize)
    requires
        bank.wf(),
        bank.has_room(),
        bank.is_live(slot),
    ensures
        bank.added(value).is_live(slot),
        bank.added(value).slots[slot as int] == bank.slots[slot as int],
        bank.next_slot() != slot,
{
    lemma_added(bank, value);
    let after = bank.added(value);
    if bank.holes.len() > 0 {
        let last = bank.holes.len() - 1;
        assert(bank.holes[last] == bank.holes.last());
        if after.holes.contains(slot) {
            let i = choose|i: int| 0 <= i < after.holes.len() && after.holes[i] == slot;
            assert(bank.holes[i] == slot);
        }
    }
}

/// Adding a value keeps a bank well formed; the slot it returns is live
/// afterwards and holds the value.
pub proof fn lemma_added<C>(bank: BankView<C>, value: C)
    requires
        bank.wf(),
        bank.has_room(),
    ensures
        bank.added(value).wf(),
        bank.added(value).is_live(bank.next_slot()),
        bank.added(value).slots[bank.next_slot() as int] == value,
        bank.next_slot() < usize::MAX,
{
    let after = bank.added(value);
    if bank.holes.len() > 0 {
        let last = bank.holes.len() - 1;
        assert(bank.holes[last] == bank.holes.last());
        assert forall|i: int| 0 <= i < after.holes.len() implies (#[trigger] after.holes[i]) < after.slots.len() by {
            assert(bank.holes[i] == after.holes[i]);
        }
        if after.holes.contains(bank.holes.last()) {
            let i = choose|i: int| 0 <= i < after.holes.len() && after.holes[i] == bank.holes.last();
            assert(bank.holes[i] == bank.holes[last]);
        }
    }
}

/// Giving a slot back keeps a bank well formed and leaves every other live
/// slot live.
pub proof fn lemma_deleted_keeps<C>(bank: BankView<C>, pos: usize, slot: usize)
    requires
        bank.wf(),
        bank.is_live(pos),
        bank.is_live(slot),
        slot != pos,
    ensures
        bank.deleted(pos).wf(),
        bank.deleted(pos).is_live(slot),
{
    lemma_deleted(bank, pos);
    let after = bank.deleted(pos);
    if after.holes.contains(slot) {
        let i = choose|i: int| 0 <= i < after.holes.len() && after.holes[i] == slot;
        assert(bank.holes[i] == slot);
    }
}

/// Giving a live slot back keeps a bank well formed.
pub proof fn lemma_deleted<C>(bank: BankView<C>, pos: usize)
    requires
        bank.wf(),
        bank.is_live(pos),
    ensures
        bank.deleted(pos).wf(),
        !bank.deleted(pos).is_live(pos),
{
    let after = bank.deleted(pos);
    assert(after.holes[after.holes.len() - 1] == pos);
    assert forall|i: int, j: int| 0 <= i < after.holes.len() && 0 <= j < after.holes.len() && i != j
        implies after.holes[i]
        != after.holes[j] by {
        if i < bank.holes.len() {
            assert(bank.holes[i] == after.holes[i]);
        }
        if j < bank.holes.len() {
            assert(bank.holes[j] == after.holes[j]);
        }
    }
}

/// A slot that is given back is the slot that the next `add` returns, and the
/// bank does not grow for it.
pub proof fn lemma_slot_reuse<C>(bank: BankView<C>, pos: usize, value: C)
    requires
        bank.wf(),
        bank.is_live(pos),
    ensures
        bank.deleted(pos).next_slot() == pos,
        bank.deleted(pos).added(value) == bank.stored(pos, value),
{
    let after = bank.deleted(pos);
    assert(after.holes.drop_last() =~= bank.holes);
}

/// While a bank has reclaimed slots, `add` returns one of them and the bank
/// keeps its size.
pub proof fn lemma_add_prefers_holes<C>(bank: BankView<C>, value: C)
    requires
        bank.wf(),
        bank.holes.len() > 0,
    ensures
        bank.holes.contains(bank.next_slot()),
        bank.added(value).slots.len() == bank.slots.len(),
        bank.added(value).holes.len() == bank.holes.len() - 1,
{
    assert(bank.holes[bank.holes.len() - 1] == bank.holes.last());
}

} // verus!
