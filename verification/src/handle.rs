use std::rc::Rc;
use std::rc::Weak;
use vstd::prelude::*;

verus! {

/// An empty marker: a `StatModifierHandle` owns one of these and nothing else.
pub struct StatModifierHandleTag;

/// Returned by `Stat::add_modifier`. The modifier stays in force while this
/// handle, or a clone of it, exists; once the last one is dropped the stat
/// forgets the modifier on its next read or add.
pub type StatModifierHandle = Rc<StatModifierHandleTag>;

/// The stat's side of a handle: it watches the tag without keeping it alive.
///
/// Holds a `std::rc::Weak`, which has no form the verifier can read, so the
/// whole value is opaque to it.
#[verifier::external_body]
pub(crate) struct Owner {
    weak: Weak<StatModifierHandleTag>,
}

/// `Rc::downgrade`: a watcher for `handle`. Nothing is claimed of the result.
#[verifier::external_body]
pub(crate) fn observe(handle: &StatModifierHandle) -> Owner {
    Owner { weak: Rc::downgrade(handle) }
}

/// `Weak::upgrade`: the handle again if some clone of it still exists, `None`
/// once all are dropped. Which of the two comes back depends on what the rest
/// of the program has done, so nothing is claimed of the result.
#[verifier::external_body]
pub(crate) fn upgrade(owner: &Owner) -> Option<StatModifierHandle> {
    owner.weak.upgrade()
}

} // verus!
