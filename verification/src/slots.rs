//! The table of queries: slots that the socket owns and can add to, or slots
//! that the caller lends it.

use vstd::prelude::*;

use crate::query::{DnsQuery, QueryModel};

verus! {

/// `managed::ManagedSlice`, a slice that is owned or mutably borrowed.
#[verifier::external_type_specification]
#[verifier::external_body]
#[verifier::reject_recursive_types(T)]
pub struct ExManagedSlice<'a, T: 'a>(managed::ManagedSlice<'a, T>);

/// The slots that a managed slice holds, in order.
pub uninterp spec fn slot_items(
    slots: managed::ManagedSlice<'_, Option<DnsQuery>>,
) -> Seq<Option<DnsQuery>>;

/// Whether the slots are owned rather than borrowed.
pub uninterp spec fn slots_owned(slots: managed::ManagedSlice<'_, Option<DnsQuery>>) -> bool;

/// `ManagedSlice::from` on a vector: the slots are owned.
#[verifier::external_body]
fn slots_from_vec<'a>(slots: Vec<Option<DnsQuery>>) -> (r: managed::ManagedSlice<
    'a,
    Option<DnsQuery>,
>)
    ensures
        slot_items(r) == slots@,
        slots_owned(r),
{
    managed::ManagedSlice::from(slots)
}

/// `ManagedSlice::from` on a mutable slice: the slots are borrowed.
#[verifier::external_body]
fn slots_from_slice<'a>(slots: &'a mut [Option<DnsQuery>]) -> (r: managed::ManagedSlice<
    'a,
    Option<DnsQuery>,
>)
    ensures
        slot_items(r) == old(slots)@,
        !slots_owned(r),
{
    managed::ManagedSlice::from(slots)
}

/// `ManagedSlice::deref`: the slots as a slice.
#[verifier::external_body]
fn slots_as_slice<'b, 'a>(slots: &'b managed::ManagedSlice<'a, Option<DnsQuery>>) -> (r: &'b [Option<
    DnsQuery,
>])
    ensures
        r@ == slot_items(*slots),
{
    std::ops::Deref::deref(slots)
}

/// `ManagedSlice::deref_mut`: the slots as a mutable slice. What is written
/// there is written to the slots, and they stay owned or borrowed.
#[verifier::external_body]
fn slots_as_mut_slice<'b, 'a>(slots: &'b mut managed::ManagedSlice<'a, Option<DnsQuery>>) -> (r:
    &'b mut [Option<DnsQuery>])
    ensures
        r@ == slot_items(*old(slots)),
        slot_items(*final(slots)) == final(r)@,
        slots_owned(*final(slots)) == slots_owned(*old(slots)),
{
    std::ops::DerefMut::deref_mut(slots)
}

/// The variants of `ManagedSlice` told apart: the vector of owned slots, to
/// which slots can be added, or nothing where the slots are borrowed.
#[verifier::external_body]
fn slots_as_mut_vec<'b, 'a>(slots: &'b mut managed::ManagedSlice<'a, Option<DnsQuery>>) -> (r: Option<
    &'b mut Vec<Option<DnsQuery>>,
>)
    ensures
        r is Some <==> slots_owned(*old(slots)),
        slots_owned(*final(slots)) == slots_owned(*old(slots)),
        r matches Some(items) ==> items@ == slot_items(*old(slots)) && slot_items(*final(slots))
            == final(items)@,
        r is None ==> slot_items(*final(slots)) == slot_items(*old(slots)),
{
    match slots {
        managed::ManagedSlice::Borrowed(_) => None,
        managed::ManagedSlice::Owned(items) => Some(items),
    }
}

/// A slot as a mathematical value.
pub open spec fn slot_model(slot: Option<DnsQuery>) -> Option<QueryModel> {
    match slot {
        Some(query) => Some(query@),
        None => None,
    }
}

/// A string of slots as a mathematical value.
pub open spec fn slot_models(slots: Seq<Option<DnsQuery>>) -> Seq<Option<QueryModel>> {
    slots.map_values(|slot: Option<DnsQuery>| slot_model(slot))
}

/// The slots for the queries of a socket.
#[derive(Debug)]
pub struct QuerySlots<'a> {
    inner: managed::ManagedSlice<'a, Option<DnsQuery>>,
}

impl<'a> View for QuerySlots<'a> {
    type V = Seq<Option<QueryModel>>;

    closed spec fn view(&self) -> Seq<Option<QueryModel>> {
        slot_models(slot_items(self.inner))
    }
}

impl<'a> QuerySlots<'a> {
    /// Whether slots can be added.
    pub closed spec fn growable(&self) -> bool {
        slots_owned(self.inner)
    }

    /// Slots that the socket owns, and adds to when all are taken.
    pub fn owned(slots: Vec<Option<DnsQuery>>) -> (r: QuerySlots<'a>)
        ensures
            r@ == slot_models(slots@),
            r.growable(),
    {
        QuerySlots { inner: slots_from_vec(slots) }
    }

    /// Slots that the caller lends: there will be no more of them.
    pub fn borrowed(slots: &'a mut [Option<DnsQuery>]) -> (r: QuerySlots<'a>)
        ensures
            r@ == slot_models(old(slots)@),
            !r.growable(),
    {
        QuerySlots { inner: slots_from_slice(slots) }
    }

    /// How many slots there are.
    pub fn len(&self) -> (len: usize)
        ensures
            len == self@.len(),
    {
        slots_as_slice(&self.inner).len()
    }

    /// The slot at an index.
    pub(crate) fn get(&self, at: usize) -> (slot: &Option<DnsQuery>)
        requires
            at < self@.len(),
        ensures
            slot_model(*slot) == self@[at as int],
    {
        &slots_as_slice(&self.inner)[at]
    }

    /// The slot at an index, to be changed.
    pub(crate) fn get_mut(&mut self, at: usize) -> (slot: &mut Option<DnsQuery>)
        requires
            at < old(self)@.len(),
        ensures
            slot_model(*slot) == old(self)@[at as int],
            final(self)@ == old(self)@.update(at as int, slot_model(*final(slot))),
            final(self).growable() == old(self).growable(),
    {
        let ghost before = slot_items(self.inner);
        let items = slots_as_mut_slice(&mut self.inner);
        let slot = &mut items[at];
        proof {
            assert(slot_models(before.update(at as int, *final(slot))) =~= slot_models(
                before,
            ).update(at as int, slot_model(*final(slot))));
        }
        slot
    }

    /// Adds a free slot, where slots can be added.
    pub(crate) fn grow(&mut self) -> (grown: bool)
        ensures
            grown == old(self).growable(),
            final(self).growable() == old(self).growable(),
            final(self)@ == (if grown {
                old(self)@.push(None)
            } else {
                old(self)@
            }),
    {
        let ghost before = slot_items(self.inner);
        match slots_as_mut_vec(&mut self.inner) {
            Some(items) => {
                items.push(None);
                proof {
                    assert(slot_models(before.push(None)) =~= slot_models(before).push(None));
                }
                true
            },
            None => false,
        }
    }
}

} // verus!
