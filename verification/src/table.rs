//! Slot tables: a freed slot is empty, and a new object takes the
//! lowest empty slot before the table grows.

use vstd::prelude::*;

verus! {

/// `slot` is where the next object of `table` goes: the lowest empty
/// slot, or the table's length when every slot is taken.
pub open spec fn allocates<T>(table: Seq<Option<T>>, slot: int) -> bool {
    &&& 0 <= slot <= table.len()
    &&& slot < table.len() ==> table[slot] is None
    &&& forall|j: int| 0 <= j < slot ==> (#[trigger] table[j]) is Some
}

/// The table with `item` in `slot`, one longer where `slot` is its length.
pub open spec fn installed<T>(table: Seq<Option<T>>, slot: int, item: T) -> Seq<Option<T>> {
    if slot < table.len() {
        table.update(slot, Some(item))
    } else {
        table.push(Some(item))
    }
}

/// The table with `slot` emptied.
pub open spec fn vacated<T>(table: Seq<Option<T>>, slot: int) -> Seq<Option<T>> {
    table.update(slot, None)
}

/// Whether every slot of `table` is taken.
pub open spec fn full<T>(table: Seq<Option<T>>) -> bool {
    forall|j: int| 0 <= j < table.len() ==> (#[trigger] table[j]) is Some
}

/// A table has one place for its next object.
pub proof fn lemma_allocates_unique<T>(table: Seq<Option<T>>, a: int, b: int)
    requires
        allocates(table, a),
        allocates(table, b),
    ensures
        a == b,
{
    if a < b {
        assert(table[a] is Some);
    } else if b < a {
        assert(table[b] is Some);
    }
}

/// In a full table, the slot that was freed is the one that the next
/// object takes; the table is then full again at its old length, and the
/// object after that makes it grow by one.
pub proof fn lemma_freed_slot_is_reused_once<T>(
    table: Seq<Option<T>>,
    freed: int,
    first: T,
    slot: int,
    next: int,
)
    requires
        full(table),
        0 <= freed < table.len(),
        allocates(vacated(table, freed), slot),
        allocates(installed(vacated(table, freed), slot, first), next),
    ensures
        slot == freed,
        installed(vacated(table, freed), slot, first).len() == table.len(),
        full(installed(vacated(table, freed), slot, first)),
        next == table.len(),
{
    let holed = vacated(table, freed);
    assert(holed[freed] is None);
    if slot > freed {
        assert(holed[freed] is Some);
    }
    if slot < freed {
        assert(holed[slot] == table[slot]);
        assert(table[slot] is Some);
    }
    let again = installed(holed, slot, first);
    assert forall|j: int| 0 <= j < again.len() implies (#[trigger] again[j]) is Some by {
        if j != freed {
            assert(again[j] == table[j]);
        }
    }
    if next < again.len() {
        assert(again[next] is Some);
    }
}

/// Finds the place for the next object of `table`.
pub fn find_free<T>(table: &Vec<Option<T>>) -> (slot: usize)
    ensures
        allocates(table@, slot as int),
{
    let mut slot: usize = 0;
    while slot < table.len()
        invariant
            slot <= table@.len(),
            forall|j: int| 0 <= j < slot ==> (#[trigger] table@[j]) is Some,
        decreases table@.len() - slot,
    {
        if table[slot].is_none() {
            return slot;
        }
        slot += 1;
    }
    slot
}

} // verus!
