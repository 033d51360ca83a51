use crate::modifier::Modifier;
use vstd::prelude::*;

verus! {

/// A modifier as the stat thinks of it: the modifier and the order it was
/// added under. Lower orders apply earlier.
pub struct Ranked<Mo> {
    pub modifier: Mo,
    pub order: i32,
}

/// The entries that are still owned, in the sequence they stood in.
/// `alive[i]` says whether the owner of `entries[i]` is still there; an entry
/// that `alive` is too short to speak of counts as abandoned.
pub open spec fn retained<T>(entries: Seq<T>, alive: Seq<bool>) -> Seq<T>
    decreases entries.len(),
{
    if entries.len() == 0 {
        entries
    } else {
        let earlier = retained(entries.drop_last(), alive);
        if entries.len() <= alive.len() && alive[entries.len() - 1] {
            earlier.push(entries.last())
        } else {
            earlier
        }
    }
}

/// Whether each entry's owner is still there, when `holds` tells it of the
/// entry itself.
pub open spec fn owned_by<T>(entries: Seq<T>, holds: spec_fn(T) -> bool) -> Seq<bool> {
    Seq::new(entries.len(), |i: int| holds(entries[i]))
}

/// The index at which `placed` puts the entry.
pub open spec fn place_of<Mo>(sorted: Seq<Ranked<Mo>>, entry: Ranked<Mo>) -> int
    decreases sorted.len(),
{
    if sorted.len() > 0 && entry.order < sorted.last().order {
        place_of(sorted.drop_last(), entry)
    } else {
        sorted.len() as int
    }
}

/// `entry` put into `sorted` behind every entry whose order is not greater
/// than its own, so that among equal orders the newcomer goes last.
pub open spec fn placed<Mo>(sorted: Seq<Ranked<Mo>>, entry: Ranked<Mo>) -> Seq<Ranked<Mo>>
    decreases sorted.len(),
{
    if sorted.len() > 0 && entry.order < sorted.last().order {
        placed(sorted.drop_last(), entry).push(sorted.last())
    } else {
        sorted.push(entry)
    }
}

/// The entries by ascending order; entries of equal order keep the sequence
/// they had in `entries`.
pub open spec fn ranked<Mo>(entries: Seq<Ranked<Mo>>) -> Seq<Ranked<Mo>>
    decreases entries.len(),
{
    if entries.len() == 0 {
        entries
    } else {
        placed(ranked(entries.drop_last()), entries.last())
    }
}

/// No entry is followed by one of a lower order.
pub open spec fn ascending<Mo>(entries: Seq<Ranked<Mo>>) -> bool {
    forall|i: int, j: int| 0 <= i < j < entries.len() ==> entries[i].order <= entries[j].order
}

/// The entries that were added under `order`.
pub open spec fn of_order<Mo>(order: i32) -> spec_fn(Ranked<Mo>) -> bool {
    |e: Ranked<Mo>| e.order == order
}

/// `base` run through every entry's modifier, first entry first.
pub open spec fn combined<Mo: Modifier>(base: Mo::Value, entries: Seq<Ranked<Mo>>) -> Mo::Value
    decreases entries.len(),
{
    if entries.len() == 0 {
        base
    } else {
        entries.last().modifier.applied(combined(base, entries.drop_last()))
    }
}

} // verus!
