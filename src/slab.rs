//! Fixed-capacity slot tables whose keys carry a generation, so that a key
//! kept past a `free` never reaches the slot's next occupant.
use vstd::prelude::*;

verus! {

/// Names one occupant of a slot table: the token (its slot's place in the
/// token space) and the generation the slot had when it was filled.
#[derive(Debug, Clone, Copy, PartialEq, Eq, Structural)]
pub struct Key {
    pub token: usize,
    pub generation: u64,
}

/// Why an allocation failed.
#[derive(Debug, Clone, Copy, PartialEq, Eq, Structural)]
pub enum SlotError {
    /// Every slot is taken.
    CapacityExceeded,
}

/// One slot: its current generation, whether it is out of service, and its occupant.
pub struct Slot<T> {
    pub generation: u64,
    pub retired: bool,
    pub value: Option<T>,
}

/// The number of occupied slots in `s`.
pub open spec fn count_occupied<T>(s: Seq<Slot<T>>) -> nat
    decreases s.len(),
{
    if s.len() == 0 {
        0
    } else {
        count_occupied(s.drop_last()) + if s.last().value is Some { 1nat } else { 0nat }
    }
}

/// Replacing one slot changes the count of occupied slots by the difference
/// of the two slots' occupancy.
pub proof fn lemma_count_update<T>(s: Seq<Slot<T>>, i: int, x: Slot<T>)
    requires
        0 <= i < s.len(),
    ensures
        count_occupied(s.update(i, x)) + (if s[i].value is Some { 1int } else { 0int })
            == count_occupied(s) + (if x.value is Some { 1int } else { 0int }),
    decreases s.len(),
{
    let u = s.update(i, x);
    if i == s.len() - 1 {
        assert(u.drop_last() =~= s.drop_last());
    } else {
        lemma_count_update(s.drop_last(), i, x);
        assert(u.drop_last() =~= s.drop_last().update(i, x));
    }
}

/// An empty slot leaves the count of occupied slots below the length.
pub proof fn lemma_count_below<T>(s: Seq<Slot<T>>, i: int)
    requires
        0 <= i < s.len(),
        s[i].value is None,
    ensures
        count_occupied(s) < s.len(),
    decreases s.len(),
{
    lemma_count_at_most(s.drop_last());
    if i < s.len() - 1 {
        lemma_count_below(s.drop_last(), i);
    }
}

/// At most every slot is occupied.
pub proof fn lemma_count_at_most<T>(s: Seq<Slot<T>>)
    ensures
        count_occupied(s) <= s.len(),
    decreases s.len(),
{
    if s.len() > 0 {
        lemma_count_at_most(s.drop_last());
    }
}

/// A table of `capacity` slots whose tokens run from `base` on.
pub struct SlotTable<T> {
    slots: Vec<Slot<T>>,
    base: usize,
}

impl<T> SlotTable<T> {
    pub closed spec fn slots_spec(&self) -> Seq<Slot<T>> {
        self.slots@
    }

    /// The first token of the table's range.
    pub closed spec fn base_spec(&self) -> nat {
        self.base as nat
    }

    pub open spec fn capacity_spec(&self) -> nat {
        self.slots_spec().len()
    }

    /// The token range is representable and retired slots hold nothing.
    pub open spec fn wf(&self) -> bool {
        &&& self.base_spec() + self.capacity_spec() <= usize::MAX
        &&& forall|i: int| 0 <= i < self.capacity_spec() && #[trigger] self.slots_spec()[i].retired
            ==> self.slots_spec()[i].value is None
    }

    /// The token lies in this table's range.
    pub open spec fn in_range(&self, token: int) -> bool {
        self.base_spec() <= token < self.base_spec() + self.capacity_spec()
    }

    /// The slot that a token names.
    pub open spec fn slot_of(&self, token: int) -> Slot<T> {
        self.slots_spec()[token - self.base_spec()]
    }

    /// `k` names the current occupant of its slot.
    pub open spec fn resolves(&self, k: Key) -> bool {
        &&& self.in_range(k.token as int)
        &&& self.slot_of(k.token as int).value is Some
        &&& self.slot_of(k.token as int).generation == k.generation
    }

    /// The occupant that a resolving key names.
    pub open spec fn value_at(&self, k: Key) -> T {
        self.slot_of(k.token as int).value.unwrap()
    }

    /// `k` was issued for an occupant that has since been freed: no key of
    /// that generation or below is issued again for that slot.
    pub open spec fn stale(&self, k: Key) -> bool {
        &&& self.in_range(k.token as int)
        &&& (self.slot_of(k.token as int).retired || k.generation < self.slot_of(k.token as int).generation)
    }

    /// Some slot can take a new occupant.
    pub open spec fn has_vacancy(&self) -> bool {
        exists|i: int| 0 <= i < self.capacity_spec() && #[trigger] self.slots_spec()[i].value is None
            && !self.slots_spec()[i].retired
    }

    /// How many slots are occupied.
    pub open spec fn occupied(&self) -> nat {
        count_occupied(self.slots_spec())
    }

    /// The table after `allocate` filled an empty slot with `value` under key `k`.
    pub open spec fn allocated(&self, after: &Self, value: T, k: Key) -> bool {
        &&& !self.resolves(k)
        &&& !self.stale(k)
        &&& self.in_range(k.token as int)
        &&& self.slot_of(k.token as int).value is None
        &&& after.resolves(k)
        &&& after.value_at(k) == value
        &&& after.occupied() == self.occupied() + 1
        &&& self.same_except(after, k.token as int)
    }

    /// Two tables agree on every slot but the one of `token`.
    pub open spec fn same_except(&self, after: &Self, token: int) -> bool {
        &&& after.base_spec() == self.base_spec()
        &&& after.capacity_spec() == self.capacity_spec()
        &&& forall|t: int| #[trigger] self.in_range(t) && t != token ==> after.slot_of(t) == self.slot_of(t)
    }

    /// The table after `free` emptied the slot of `k`: `k` and all keys
    /// before it are stale.
    pub open spec fn freed(&self, after: &Self, k: Key) -> bool {
        &&& after.stale(k)
        &&& !after.resolves(k)
        &&& after.slot_of(k.token as int).value is None
        &&& after.occupied() + 1 == self.occupied()
        &&& forall|j: Key| #[trigger] self.stale(j) ==> after.stale(j)
        &&& self.same_except(after, k.token as int)
    }

    /// Makes a table of `cap` empty slots with tokens from `base` on.
    pub fn new(base: usize, cap: usize) -> (r: SlotTable<T>)
        requires
            base + cap <= usize::MAX,
        ensures
            r.wf(),
            r.base_spec() == base,
            r.capacity_spec() == cap,
            r.occupied() == 0,
            forall|k: Key| !r.resolves(k) && !r.stale(k),
            cap > 0 ==> r.has_vacancy(),
    {
        let mut slots: Vec<Slot<T>> = Vec::new();
        let mut i: usize = 0;
        while i < cap
            invariant
                i <= cap,
                slots@.len() == i,
                forall|j: int| 0 <= j < i ==> (#[trigger] slots@[j]).value is None && !slots@[j].retired
                    && slots@[j].generation == 0,
                count_occupied(slots@) == 0,
            decreases cap - i,
        {
            let ghost before = slots@;
            slots.push(Slot { generation: 0, retired: false, value: None });
            assert(slots@.drop_last() =~= before);
            i += 1;
        }
        let r = SlotTable { slots, base };
        if cap > 0 {
            assert(r.slots_spec()[0].value is None);
        }
        r
    }

    pub fn base(&self) -> (r: usize)
        ensures
            r == self.base_spec(),
    {
        self.base
    }

    pub fn capacity(&self) -> (r: usize)
        ensures
            r == self.capacity_spec(),
    {
        self.slots.len()
    }

    /// Whether `k` names a current occupant.
    pub fn contains(&self, k: Key) -> (r: bool)
        ensures
            r == self.resolves(k),
    {
        if k.token < self.base || k.token - self.base >= self.slots.len() {
            return false;
        }
        let slot = &self.slots[k.token - self.base];
        slot.value.is_some() && slot.generation == k.generation
    }

    /// The occupant `k` names, if it is current.
    pub fn get(&self, k: Key) -> (r: Option<&T>)
        ensures
            r is Some <==> self.resolves(k),
            r matches Some(v) ==> *v == self.value_at(k),
    {
        if !self.contains(k) {
            return None;
        }
        self.slots[k.token - self.base].value.as_ref()
    }

    /// Stores `value` in the first empty slot and returns its key, or reports
    /// that every slot is taken. A returned key was never issued before for
    /// its slot, so no key kept from an earlier occupant resolves to it.
    pub fn allocate(&mut self, value: T) -> (r: Result<Key, SlotError>)
        requires
            old(self).wf(),
        ensures
            final(self).wf(),
            r is Err <==> !old(self).has_vacancy(),
            r is Err ==> *final(self) == *old(self),
            r matches Ok(k) ==> old(self).allocated(&*final(self), value, k),
            forall|j: Key| #[trigger] old(self).stale(j) ==> final(self).stale(j),
    {
        let mut i: usize = 0;
        while i < self.slots.len() && (self.slots[i].value.is_some() || self.slots[i].retired)
            invariant
                i <= self.slots@.len(),
                forall|j: int| 0 <= j < i ==> !(#[trigger] self.slots@[j].value is None && !self.slots@[j].retired),
            decreases self.slots@.len() - i,
        {
            i += 1;
        }
        if i == self.slots.len() {
            return Err(SlotError::CapacityExceeded);
        }
        let generation = self.slots[i].generation;
        let k = Key { token: self.base + i, generation };
        let ghost before = self.slots@;
        proof {
            lemma_count_update(before, i as int, Slot { generation, retired: false, value: Some(value) });
        }
        self.slots.set(i, Slot { generation, retired: false, value: Some(value) });
        assert(self.slots@ == before.update(i as int, Slot { generation, retired: false, value: Some(value) }));
        Ok(k)
    }

    /// Empties the slot of `k` and returns its occupant, if `k` is current;
    /// from then on `k` is stale. A slot whose generation cannot grow any
    /// further is retired instead of reused.
    pub fn free(&mut self, k: Key) -> (r: Option<T>)
        requires
            old(self).wf(),
        ensures
            final(self).wf(),
            r is Some <==> old(self).resolves(k),
            r matches Some(v) ==> v == old(self).value_at(k) && old(self).freed(&*final(self), k),
            r is None ==> *final(self) == *old(self),
    {
        if !self.contains(k) {
            return None;
        }
        let i = k.token - self.base;
        let ghost before = self.slots@;
        let retired = self.slots[i].generation == u64::MAX;
        let generation: u64 = if retired { u64::MAX } else { self.slots[i].generation + 1 };
        let mut emptied = Slot { generation, retired, value: None };
        proof {
            lemma_count_update(before, i as int, emptied);
        }
        self.slots.set_and_swap(i, &mut emptied);
        assert(self.slots@ == before.update(i as int, Slot { generation, retired, value: None }));
        emptied.value
    }

    /// A mutable reference to the occupant that a current key names.
    pub fn get_mut(&mut self, k: Key) -> (r: &mut T)
        requires
            old(self).wf(),
            old(self).resolves(k),
        ensures
            *r == old(self).value_at(k),
            final(self).wf(),
            final(self).resolves(k),
            final(self).value_at(k) == *final(r),
            old(self).same_except(&*final(self), k.token as int),
            final(self).slots_spec() == old(self).slots_spec().update(k.token - old(self).base_spec(),
                Slot { generation: k.generation, retired: false, value: Some(*final(r)) }),
            forall|j: Key| #[trigger] old(self).stale(j) <==> final(self).stale(j),
    {
        let i = k.token - self.base;
        let slot = &mut self.slots[i];
        slot.value.as_mut().unwrap()
    }
}

/// Agreeing outside one slot is transitive.
pub proof fn lemma_same_except_trans<T>(a: SlotTable<T>, b: SlotTable<T>, c: SlotTable<T>, token: int)
    requires
        a.same_except(&b, token),
        b.same_except(&c, token),
    ensures
        a.same_except(&c, token),
{
    assert forall|t: int| #[trigger] a.in_range(t) && t != token implies c.slot_of(t) == a.slot_of(t) by {
        assert(b.in_range(t));
    }
}

/// Every table agrees with itself outside any slot.
pub proof fn lemma_same_except_refl<T>(a: SlotTable<T>, token: int)
    ensures
        a.same_except(&a, token),
{
}

/// No key resolves once it is stale, whatever was allocated since.
pub proof fn lemma_stale_never_resolves<T>(t: SlotTable<T>, k: Key)
    requires
        t.wf(),
        t.stale(k),
    ensures
        !t.resolves(k),
{
}

/// Freeing a key and allocating again never hands that key out anew, and the
/// freed key does not resolve to the new occupant.
pub proof fn lemma_free_then_allocate<T>(t0: SlotTable<T>, t1: SlotTable<T>, t2: SlotTable<T>, k: Key, v: T, k2: Key)
    requires
        t0.wf(),
        t0.resolves(k),
        t0.freed(&t1, k),
        t1.allocated(&t2, v, k2),
    ensures
        k2 != k,
        !t2.resolves(k),
{
}

/// A table whose every slot is occupied has no room left: an allocation
/// beyond its capacity fails.
pub proof fn lemma_full_table_refuses<T>(t: SlotTable<T>)
    requires
        t.wf(),
        t.occupied() == t.capacity_spec(),
    ensures
        !t.has_vacancy(),
{
    if t.has_vacancy() {
        let i = choose|i: int| 0 <= i < t.capacity_spec() && #[trigger] t.slots_spec()[i].value is None
            && !t.slots_spec()[i].retired;
        lemma_count_below(t.slots_spec(), i);
    }
}

} // verus!