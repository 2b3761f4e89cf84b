//! Numbered slots for clients and devices, kept in a `slab::Slab`.
use crate::client::Client;
use crate::device::Device;
use slab::Slab;
use vstd::prelude::*;

verus! {

/// A slab gives each value that is put into it a number, its slot, and reuses the numbers of
/// values that were taken out.
#[verifier::external_type_specification]
#[verifier::external_body]
#[verifier::reject_recursive_types(T)]
pub struct ExSlab<T>(slab::Slab<T>);

/// The clients in a slab, by slot.
pub uninterp spec fn client_slots(slab: Slab<Client>) -> Map<usize, Client>;

/// The slots that clients have left, the last one to be left at the end.
pub uninterp spec fn client_free(slab: Slab<Client>) -> Seq<usize>;

/// The devices in a slab, by slot.
pub uninterp spec fn device_slots(slab: Slab<Device>) -> Map<usize, Device>;

/// The slots that devices have left, the last one to be left at the end.
pub uninterp spec fn device_free(slab: Slab<Device>) -> Seq<usize>;

/// The slot that the next value will get, where `taken` are in use and `free` were left: the last
/// one that was left, or else the one behind all that are in use.
pub open spec fn next_slot(taken: Set<usize>, free: Seq<usize>) -> usize {
    if free.len() > 0 {
        free.last()
    } else {
        taken.len() as usize
    }
}

/// The slots that are still free once the next value has got its slot.
pub open spec fn still_free(free: Seq<usize>) -> Seq<usize> {
    if free.len() > 0 {
        free.drop_last()
    } else {
        free
    }
}

/// Whether the slots in use and those that were left are all there are, up to some number, and
/// none is both.
pub open spec fn accounted(taken: Set<usize>, free: Seq<usize>) -> bool {
    &&& taken.finite()
    &&& taken.len() + free.len() <= usize::MAX
    &&& free.no_duplicates()
    &&& forall|slot: usize| #[trigger]
        taken.contains(slot) ==> slot < taken.len() + free.len() && !free.contains(slot)
    &&& forall|i: int| 0 <= i < free.len() ==> #[trigger] free[i] < taken.len() + free.len()
}

/// What contracts say of a slab, for each kind of value that is kept in one.
pub(crate) trait Slotted: Sized {
    /// The values in the slab, by slot.
    spec fn slots(slab: Slab<Self>) -> Map<usize, Self>;

    /// The slots that values have left, the last one to be left at the end.
    spec fn free(slab: Slab<Self>) -> Seq<usize>;
}

impl Slotted for Client {
    open spec fn slots(slab: Slab<Self>) -> Map<usize, Self> {
        client_slots(slab)
    }

    open spec fn free(slab: Slab<Self>) -> Seq<usize> {
        client_free(slab)
    }
}

impl Slotted for Device {
    open spec fn slots(slab: Slab<Self>) -> Map<usize, Self> {
        device_slots(slab)
    }

    open spec fn free(slab: Slab<Self>) -> Seq<usize> {
        device_free(slab)
    }
}

/// `Slab::new`, for clients: nothing is in it or was.
#[verifier::external_body]
pub(crate) fn no_clients() -> (made: Slab<Client>)
    ensures
        (client_slots(made) == Map::<usize, Client>::empty()),
        client_free(made) == Seq::<usize>::empty(),
{
    Slab::new()
}

/// `Slab::new`, for devices: nothing is in it or was.
#[verifier::external_body]
pub(crate) fn no_devices() -> (made: Slab<Device>)
    ensures
        (device_slots(made) == Map::<usize, Device>::empty()),
        device_free(made) == Seq::<usize>::empty(),
{
    Slab::new()
}

/// `Slab::insert` puts the value into the slot that was left last, or behind all others if none
/// is free. A slot is a place in a vector, and those never have as many as `isize::MAX` of them.
#[verifier::external_body]
pub(crate) fn insert<T: Slotted>(slab: &mut Slab<T>, value: T) -> (slot: usize)
    ensures
        slot == next_slot(T::slots(*old(slab)).dom(), T::free(*old(slab))),
        !T::slots(*old(slab)).contains_key(slot),
        T::slots(*final(slab)) == T::slots(*old(slab)).insert(slot, value),
        T::free(*final(slab)) == still_free(T::free(*old(slab))),
        slot < isize::MAX,
{
    slab.insert(value)
}

/// `Slab::vacant_key` tells the slot that the next value will get, which is free.
#[verifier::external_body]
pub(crate) fn vacant_key<T: Slotted>(slab: &Slab<T>) -> (slot: usize)
    ensures
        slot == next_slot(T::slots(*slab).dom(), T::free(*slab)),
        !T::slots(*slab).contains_key(slot),
{
    slab.vacant_key()
}

/// `Slab::iter` goes through the slots that are in use, in ascending order.
#[verifier::external_body]
pub(crate) fn taken<T: Slotted>(slab: &Slab<T>) -> (slots: Vec<usize>)
    ensures
        listed(slots@, T::slots(*slab).dom()),
{
    slab.iter().map(|(slot, _)| slot).collect()
}

/// `Slab::get` gives the value in a slot, if the slot is in use.
#[verifier::external_body]
pub(crate) fn get<T: Slotted>(slab: &Slab<T>, slot: usize) -> (r: Option<&T>)
    ensures
        r is Some <==> T::slots(*slab).contains_key(slot),
        r matches Some(value) ==> *value == T::slots(*slab)[slot],
{
    slab.get(slot)
}

/// `Slab::contains` tells whether a slot is in use.
#[verifier::external_body]
pub(crate) fn contains<T: Slotted>(slab: &Slab<T>, slot: usize) -> (r: bool)
    ensures
        r == T::slots(*slab).contains_key(slot),
{
    slab.contains(slot)
}

/// `Slab::remove` takes out the value in a slot that is in use, which is the next to be used.
#[verifier::external_body]
pub(crate) fn remove<T: Slotted>(slab: &mut Slab<T>, slot: usize) -> (value: T)
    requires
        T::slots(*old(slab)).contains_key(slot),
    ensures
        value == T::slots(*old(slab))[slot],
        T::slots(*final(slab)) == T::slots(*old(slab)).remove(slot),
        T::free(*final(slab)) == T::free(*old(slab)).push(slot),
{
    slab.remove(slot)
}

/// `Slab::retain` takes out each value of which the function that it is given says no, here the
/// ones whose slots are among `gone`, in ascending order, and leaves the others where they are.
#[verifier::external_body]
pub(crate) fn retain<T: Slotted>(slab: &mut Slab<T>, gone: &Vec<usize>)
    ensures
        T::slots(*final(slab)) == T::slots(*old(slab)).remove_keys(gone@.to_set()),
        T::free(*final(slab)) == T::free(*old(slab)) + in_order(
            T::slots(*old(slab)).dom().intersect(gone@.to_set()),
        ),
{
    slab.retain(|slot, _| stays(gone, slot))
}

/// Whether `slot` is not among `gone`.
fn stays(gone: &Vec<usize>, slot: usize) -> (r: bool)
    ensures
        r == !gone@.contains(slot),
{
    let mut i: usize = 0;
    while i < gone.len()
        invariant
            i <= gone@.len(),
            forall|j: int| 0 <= j < i ==> gone@[j] != slot,
        decreases gone.len() - i,
    {
        if gone[i] == slot {
            return false;
        }
        i += 1;
    }
    true
}

/// Whether `slots` are those of `set`, each once and in ascending order.
pub open spec fn listed(slots: Seq<usize>, set: Set<usize>) -> bool {
    &&& forall|i: int, j: int| 0 <= i < j < slots.len() ==> slots[i] < slots[j]
    &&& slots.to_set() == set
}

/// The members of `set` in ascending order.
pub open spec fn in_order(set: Set<usize>) -> Seq<usize> {
    choose|slots: Seq<usize>| listed(slots, set)
}

proof fn lemma_listed_once(a: Seq<usize>, b: Seq<usize>, i: int)
    requires
        forall|i: int, j: int| 0 <= i < j < a.len() ==> a[i] < a[j],
        forall|i: int, j: int| 0 <= i < j < b.len() ==> b[i] < b[j],
        a.to_set() == b.to_set(),
        0 <= i < a.len(),
    ensures
        i < b.len(),
        a[i] == b[i],
    decreases i,
{
    assert forall|k: int| 0 <= k < i implies k < b.len() && a[k] == b[k] by {
        lemma_listed_once(a, b, k);
    }
    assert(a.to_set().contains(a[i]));
    assert(b.contains(a[i]));
    let m = choose|m: int| 0 <= m < b.len() && b[m] == a[i];
    if m < i {
        assert(a[m] == b[m]);
    }
    assert(b.to_set().contains(b[i]));
    assert(a.contains(b[i]));
    let n = choose|n: int| 0 <= n < a.len() && a[n] == b[i];
    if n < i {
        assert(a[n] == b[n]);
    }
    if m > i {
        assert(b[i] < b[m]);
    }
    if n > i {
        assert(a[i] < a[n]);
    }
}

/// There is only one way to list a set.
pub proof fn lemma_in_order(slots: Seq<usize>, set: Set<usize>)
    requires
        listed(slots, set),
    ensures
        slots == in_order(set),
{
    let other = in_order(set);
    assert(listed(other, set));
    assert forall|i: int| 0 <= i < slots.len() implies i < other.len() && slots[i] == other[i] by {
        lemma_listed_once(slots, other, i);
    }
    if slots.len() < other.len() {
        lemma_listed_once(other, slots, slots.len() as int);
    }
    if other.len() < slots.len() {
        lemma_listed_once(slots, other, other.len() as int);
    }
    assert(slots =~= other);
}

/// A finite set has a greatest member.
proof fn lemma_greatest(set: Set<usize>) -> (greatest: usize)
    requires
        set.finite(),
        set.len() > 0,
    ensures
        set.contains(greatest),
        forall|slot: usize| #[trigger] set.contains(slot) ==> slot <= greatest,
    decreases set.len(),
{
    let some = set.choose();
    let others = set.remove(some);
    if others.len() == 0 {
        assert forall|slot: usize| #[trigger] set.contains(slot) implies slot <= some by {
            if slot != some {
                assert(others.contains(slot));
            }
        }
        some
    } else {
        let greatest = lemma_greatest(others);
        assert forall|slot: usize| #[trigger] set.contains(slot) implies slot <= greatest || slot
            == some by {
            if slot != some {
                assert(others.contains(slot));
            }
        }
        if some > greatest {
            some
        } else {
            greatest
        }
    }
}

/// A finite set can be listed.
pub proof fn lemma_listed(set: Set<usize>)
    requires
        set.finite(),
    ensures
        listed(in_order(set), set),
    decreases set.len(),
{
    if set.len() == 0 {
        assert(Seq::<usize>::empty().to_set() =~= set);
        assert(listed(seq![], set));
    } else {
        let greatest = lemma_greatest(set);
        let others = set.remove(greatest);
        lemma_listed(others);
        let first = in_order(others);
        let all = first.push(greatest);
        assert forall|i: int, j: int| 0 <= i < j < all.len() implies all[i] < all[j] by {
            if j == first.len() {
                assert(first.to_set().contains(first[i]));
                assert(others.contains(first[i]));
            }
        }
        assert forall|slot: usize| all.to_set().contains(slot) == set.contains(slot) by {
            if set.contains(slot) && slot != greatest {
                assert(others.contains(slot));
                assert(first.to_set().contains(slot));
                let i = choose|i: int| 0 <= i < first.len() && first[i] == slot;
                assert(all[i] == slot);
            }
            if set.contains(slot) && slot == greatest {
                assert(all[first.len() as int] == slot);
            }
            if all.contains(slot) {
                let i = choose|i: int| 0 <= i < all.len() && all[i] == slot;
                if i < first.len() {
                    assert(first.to_set().contains(first[i]));
                }
            }
        }
        assert(all.to_set() =~= set);
        assert(listed(all, set));
    }
}

/// The slot that the next value will get is not in use.
pub proof fn lemma_next_is_free(taken: Set<usize>, free: Seq<usize>)
    requires
        accounted(taken, free),
    ensures
        !taken.contains(next_slot(taken, free)),
{
    if free.len() > 0 {
        assert(free.contains(free[free.len() - 1]));
    }
}

/// The slots stay accounted for when the next one is used.
pub proof fn lemma_used(taken: Set<usize>, free: Seq<usize>)
    requires
        accounted(taken, free),
        next_slot(taken, free) < usize::MAX,
    ensures
        accounted(taken.insert(next_slot(taken, free)), still_free(free)),
{
    lemma_next_is_free(taken, free);
    let slot = next_slot(taken, free);
    let now = taken.insert(slot);
    let left = still_free(free);
    if free.len() > 0 {
        assert(free[free.len() - 1] < taken.len() + free.len());
        assert forall|i: int| 0 <= i < left.len() implies #[trigger] left[i] < now.len()
            + left.len() by {
            assert(free[i] < taken.len() + free.len());
        }
        assert forall|other: usize| #[trigger] now.contains(other) implies other < now.len()
            + left.len() && !left.contains(other) by {
            if left.contains(other) {
                let i = choose|i: int| 0 <= i < left.len() && left[i] == other;
                assert(free[i] == other);
                assert(free.contains(other));
            }
        }
    }
}

/// The slots stay accounted for when some are left, in ascending order.
pub proof fn lemma_left(taken: Set<usize>, free: Seq<usize>, gone: Set<usize>)
    requires
        accounted(taken, free),
    ensures
        accounted(taken.difference(gone), free + in_order(taken.intersect(gone))),
{
    let out = taken.intersect(gone);
    let now = taken.difference(gone);
    let list = in_order(out);
    let left = free + list;
    lemma_listed(out);
    list.unique_seq_to_set();
    lemma_parts(taken, gone);
    assert forall|i: int| 0 <= i < left.len() implies #[trigger] left[i] < now.len()
        + left.len() by {
        if i < free.len() {
            assert(free[i] < taken.len() + free.len());
        } else {
            assert(list.to_set().contains(list[i - free.len()]));
            assert(taken.contains(list[i - free.len()]));
        }
    }
    assert forall|i: int, j: int| 0 <= i < j < left.len() implies left[i] != left[j] by {
        if i < free.len() && j >= free.len() {
            assert(list.to_set().contains(list[j - free.len()]));
            assert(taken.contains(list[j - free.len()]));
            assert(free.contains(free[i]));
        } else if i >= free.len() {
            assert(list[i - free.len()] < list[j - free.len()]);
        }
    }
    assert forall|slot: usize| #[trigger] now.contains(slot) implies slot < now.len() + left.len()
        && !left.contains(slot) by {
        assert(taken.contains(slot));
        if left.contains(slot) {
            let i = choose|i: int| 0 <= i < left.len() && left[i] == slot;
            if i < free.len() {
                assert(free.contains(free[i]));
            } else {
                assert(list.to_set().contains(list[i - free.len()]));
            }
        }
    }
}

proof fn lemma_parts(set: Set<usize>, part: Set<usize>)
    requires
        set.finite(),
    ensures
        set.difference(part).len() + set.intersect(part).len() == set.len(),
    decreases set.len(),
{
    if set.len() == 0 {
        assert(set.difference(part) =~= set);
        assert(set.intersect(part) =~= set);
    } else {
        let some = set.choose();
        let others = set.remove(some);
        lemma_parts(others, part);
        if part.contains(some) {
            assert(set.difference(part) =~= others.difference(part));
            assert(set.intersect(part) =~= others.intersect(part).insert(some));
        } else {
            assert(set.difference(part) =~= others.difference(part).insert(some));
            assert(set.intersect(part) =~= others.intersect(part));
        }
    }
}

/// The slot to be used next is the last that was left; without one, it is the number of slots in
/// use. Using it leaves the other free ones as they are.
pub proof fn law_next_slot(taken: Set<usize>, free: Seq<usize>, slot: usize)
    ensures
        next_slot(taken, free.push(slot)) == slot,
        still_free(free.push(slot)) == free,
        free.len() == 0 && taken.len() <= usize::MAX ==> next_slot(taken, free) == taken.len()
            && still_free(free) == free,
{
    assert(free.push(slot).drop_last() =~= free);
}

/// Listing a set that has an order goes through it in that order.
pub proof fn law_listing_ascends(set: Set<usize>, i: int, j: int)
    requires
        set.finite(),
    ensures
        0 <= i < j < in_order(set).len() ==> in_order(set)[i] < in_order(set)[j],
        0 <= i < in_order(set).len() ==> set.contains(in_order(set)[i]),
{
    lemma_listed(set);
    if 0 <= i < in_order(set).len() {
        assert(in_order(set).to_set().contains(in_order(set)[i]));
    }
}

} // verus!
