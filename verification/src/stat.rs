use crate::handle::{observe, upgrade, Owner, StatModifierHandle, StatModifierHandleTag};
use crate::lemmas::{lemma_placed_at, lemma_ranked_len, lemma_retained_len};
use crate::model::{combined, ranked, retained, Ranked};
use crate::modifier::Modifier;
use std::rc::Rc;
use vstd::prelude::*;

verus! {

/// This stat can hold no more modifiers: every one of its places is taken by
/// a modifier whose handle is still held.
#[derive(Debug, Clone, Copy)]
pub struct ModifiersFullError;

struct ModifierMeta<Mo> {
    modifier: Mo,
    order: i32,
    owner: Owner,
}

impl<Mo> ModifierMeta<Mo> {
    spec fn rank(self) -> Ranked<Mo> {
        Ranked { modifier: self.modifier, order: self.order }
    }
}

/// A value that modifiers act on. `M` is the greatest number of modifiers the
/// stat holds at one time.
///
/// A modifier counts for as long as the handle that `add_modifier` returned
/// for it, or a clone of that handle, exists. The stat does not hear of a
/// dropped handle; it asks at every read and every add and forgets the
/// modifiers it finds abandoned. Modifiers apply lowest order first, and
/// among equal orders in the sequence in which they were added.
pub struct Stat<Mo: Modifier, const M: usize> {
    pub base_value: Mo::Value,
    // base_value run through the modifiers, as of the last read or add
    value: Mo::Value,
    modifiers: Vec<ModifierMeta<Mo>>,
}

impl<Mo: Modifier, const M: usize> Stat<Mo, M> {
    /// The modifiers the stat holds, in the sequence it would apply them.
    pub closed spec fn modifiers(self) -> Seq<Ranked<Mo>> {
        self.modifiers@.map_values(|meta: ModifierMeta<Mo>| meta.rank())
    }

    /// The value that the modifiers start from.
    pub closed spec fn base(self) -> Mo::Value {
        self.base_value
    }

    /// The value the stat computed at its last read or add.
    pub closed spec fn cached_value(self) -> Mo::Value {
        self.value
    }

    /// The stat holds no more modifiers than it has room for.
    pub open spec fn well_formed(self) -> bool {
        self.modifiers().len() <= M
    }

    /// `self` is what a read makes of `before` when `alive` tells which of
    /// its modifiers are still owned.
    pub open spec fn settled_from(self, before: Self, alive: Seq<bool>) -> bool {
        &&& self.base() == before.base()
        &&& self.modifiers() == ranked(retained(before.modifiers(), alive))
        &&& self.cached_value() == combined(self.base(), self.modifiers())
    }

    /// `self` is what an add makes of `before` when `alive` tells which of
    /// its modifiers are still owned: with room left once the abandoned ones
    /// are forgotten, `entry` is taken in (`accepted`); with none, nothing
    /// changes.
    pub open spec fn added_to(
        self,
        before: Self,
        alive: Seq<bool>,
        entry: Ranked<Mo>,
        accepted: bool,
    ) -> bool {
        let kept = retained(before.modifiers(), alive);
        if kept.len() < M {
            &&& accepted
            &&& self.base() == before.base()
            &&& self.modifiers() == ranked(kept.push(entry))
            &&& self.cached_value() == combined(self.base(), self.modifiers())
        } else {
            &&& !accepted
            &&& self == before
        }
    }

    /// Creates a stat with no modifiers.
    pub fn new(base_value: Mo::Value) -> (stat: Self)
        ensures
            stat.well_formed(),
            stat.base() == base_value,
            stat.cached_value() == base_value,
            stat.modifiers() == Seq::<Ranked<Mo>>::empty(),
    {
        let stat = Stat { base_value, value: base_value, modifiers: Vec::new() };
        assert(stat.modifiers() =~= Seq::<Ranked<Mo>>::empty());
        stat
    }

    /// The value that the modifiers start from. Verified callers outside
    /// this module read the field through here.
    pub fn get_base_value(&self) -> (base_value: Mo::Value)
        ensures
            base_value == self.base(),
    {
        self.base_value
    }

    /// Replaces the value that the modifiers start from. The modifiers stay,
    /// and the value the stat last computed stays until the next read or add.
    pub fn set_base_value(&mut self, base_value: Mo::Value)
        ensures
            final(self).base() == base_value,
            final(self).modifiers() == old(self).modifiers(),
            final(self).cached_value() == old(self).cached_value(),
    {
        self.base_value = base_value;
    }

    /// Asks every modifier's owner whether its handle is still held.
    pub fn liveness(&self) -> (alive: Vec<bool>)
        ensures
            alive@.len() == self.modifiers().len(),
    {
        let mut alive: Vec<bool> = Vec::new();
        let mut i: usize = 0;
        while i < self.modifiers.len()
            invariant
                i <= self.modifiers@.len(),
                alive@.len() == i,
            decreases self.modifiers@.len() - i,
        {
            let held = match upgrade(&self.modifiers[i].owner) {
                Some(_key) => true,
                None => false,
            };
            alive.push(held);
            i += 1;
        }
        alive
    }

    /// Adds a modifier under its own default order.
    pub fn add_modifier(&mut self, modifier: Mo) -> (added: Result<
        StatModifierHandle,
        ModifiersFullError,
    >)
        ensures
            old(self).well_formed() ==> final(self).well_formed(),
            exists|alive: Seq<bool>|
                alive.len() == old(self).modifiers().len() && #[trigger] final(self).added_to(
                    *old(self),
                    alive,
                    (Ranked { modifier, order: modifier.intrinsic_order() }),
                    added is Ok,
                ),
            old(self).modifiers().len() < M ==> added is Ok,
            added is Err ==> *final(self) == *old(self),
    {
        let order = modifier.default_order();
        self.add_modifier_with_order(modifier, order)
    }

    /// Adds a modifier under the given order. Modifiers whose handles were
    /// dropped are forgotten first; if every place is then still taken the
    /// add fails and the stat is left as it was. On success the value is
    /// computed afresh, and the handle that comes back keeps the modifier in
    /// force.
    pub fn add_modifier_with_order(&mut self, modifier: Mo, order: i32) -> (added: Result<
        StatModifierHandle,
        ModifiersFullError,
    >)
        ensures
            old(self).well_formed() ==> final(self).well_formed(),
            exists|alive: Seq<bool>|
                alive.len() == old(self).modifiers().len() && #[trigger] final(self).added_to(
                    *old(self),
                    alive,
                    (Ranked { modifier, order }),
                    added is Ok,
                ),
            old(self).modifiers().len() < M ==> added is Ok,
            added is Err ==> *final(self) == *old(self),
    {
        let ghost entries = self.modifiers();
        let alive = self.liveness();
        proof {
            lemma_retained_len(entries, alive@);
        }
        self.add_modifier_with_liveness(&alive, modifier, order)
    }

    /// The add itself, for a given answer to "which owners are still there":
    /// `alive[i]` speaks for the `i`-th modifier the stat holds.
    pub fn add_modifier_with_liveness(
        &mut self,
        alive: &Vec<bool>,
        modifier: Mo,
        order: i32,
    ) -> (added: Result<StatModifierHandle, ModifiersFullError>)
        ensures
            old(self).well_formed() ==> final(self).well_formed(),
            final(self).added_to(*old(self), alive@, (Ranked { modifier, order }), added is Ok),
    {
        if self.live_count(alive) >= M {
            return Err(ModifiersFullError);
        }
        self.update_modifiers(alive);
        let ghost kept = self.modifiers();
        let key = Rc::new(StatModifierHandleTag);
        let owner = observe(&key);
        self.modifiers.push(ModifierMeta { modifier, order, owner });
        proof {
            assert(self.modifiers() =~= kept.push(Ranked { modifier, order }));
            lemma_ranked_len(kept.push(Ranked { modifier, order }));
        }
        self.calculate_value();
        Ok(key)
    }

    /// The base value with the modifiers applied whose handles are still
    /// held, lowest order first. Modifiers whose handles were dropped are
    /// forgotten, and the value is computed afresh on every call.
    pub fn value(&mut self) -> (value: Mo::Value)
        ensures
            old(self).well_formed() ==> final(self).well_formed(),
            exists|alive: Seq<bool>|
                alive.len() == old(self).modifiers().len() && #[trigger] final(self).settled_from(
                    *old(self),
                    alive,
                ),
            value == final(self).cached_value(),
            old(self).modifiers().len() == 0 ==> value == old(self).base(),
    {
        let alive = self.liveness();
        self.value_with_liveness(&alive)
    }

    /// The read itself, for a given answer to "which owners are still there":
    /// `alive[i]` speaks for the `i`-th modifier the stat holds.
    pub fn value_with_liveness(&mut self, alive: &Vec<bool>) -> (value: Mo::Value)
        ensures
            old(self).well_formed() ==> final(self).well_formed(),
            final(self).settled_from(*old(self), alive@),
            value == final(self).cached_value(),
    {
        proof {
            lemma_retained_len(self.modifiers(), alive@);
            lemma_ranked_len(retained(self.modifiers(), alive@));
        }
        self.update_modifiers(alive);
        self.calculate_value();
        self.value
    }

    // how many modifiers would outlive update_modifiers
    fn live_count(&self, alive: &Vec<bool>) -> (count: usize)
        ensures
            count == retained(self.modifiers(), alive@).len(),
    {
        let ghost entries = self.modifiers();
        let n: usize = self.modifiers.len();
        let mut count: usize = 0;
        let mut seen: usize = 0;
        while seen < n
            invariant
                count <= seen <= n,
                entries.len() == n,
                count == retained(entries.take(seen as int), alive@).len(),
            decreases n - seen,
        {
            proof {
                assert(entries.take(seen + 1).drop_last() =~= entries.take(seen as int));
            }
            if seen < alive.len() && alive[seen] {
                count += 1;
            }
            seen += 1;
        }
        assert(entries.take(n as int) =~= entries);
        count
    }

    // forget the modifiers whose owner is gone
    fn update_modifiers(&mut self, alive: &Vec<bool>)
        ensures
            final(self).base() == old(self).base(),
            final(self).cached_value() == old(self).cached_value(),
            final(self).modifiers() == retained(old(self).modifiers(), alive@),
    {
        let ghost before = self.modifiers();
        let n: usize = self.modifiers.len();
        let mut seen: usize = 0;
        let mut kept: usize = 0;
        while seen < n
            invariant
                kept <= seen <= n,
                before.len() == n,
                self.modifiers@.len() == kept + (n - seen),
                retained(before.take(seen as int), alive@).len() == kept,
                self.modifiers() == retained(before.take(seen as int), alive@) + before.skip(seen as int),
                self.base_value == old(self).base_value,
                self.value == old(self).value,
            decreases n - seen,
        {
            let ghost looked = retained(before.take(seen as int), alive@);
            let ghost current = self.modifiers();
            proof {
                assert(before.take(seen + 1).drop_last() =~= before.take(seen as int));
                assert(before.take(seen + 1).last() == before[seen as int]);
                assert(current[kept as int] == before.skip(seen as int)[0]);
            }
            if seen < alive.len() && alive[seen] {
                proof {
                    assert(retained(before.take(seen + 1), alive@) == looked.push(before[seen as int]));
                    assert(current =~= looked.push(before[seen as int]) + before.skip(seen + 1));
                }
                kept += 1;
            } else {
                self.modifiers.remove(kept);
                proof {
                    assert(retained(before.take(seen + 1), alive@) == looked);
                    assert(self.modifiers() =~= current.remove(kept as int));
                    assert(current.remove(kept as int) =~= looked + before.skip(seen + 1));
                }
            }
            seen += 1;
        }
        assert(before.take(n as int) =~= before);
        assert(self.modifiers() =~= retained(before, alive@));
    }

    // put the modifiers in order and run the base value through them
    fn calculate_value(&mut self)
        ensures
            final(self).base() == old(self).base(),
            final(self).modifiers() == ranked(old(self).modifiers()),
            final(self).cached_value() == combined(final(self).base(), final(self).modifiers()),
    {
        let ghost before = self.modifiers();
        let n: usize = self.modifiers.len();
        let mut i: usize = 0;
        while i < n
            invariant
                i <= n,
                before.len() == n,
                self.modifiers@.len() == n,
                self.base_value == old(self).base_value,
                self.modifiers() == ranked(before.take(i as int)) + before.skip(i as int),
            decreases n - i,
        {
            let ghost sorted = ranked(before.take(i as int));
            proof {
                lemma_ranked_len(before.take(i as int));
            }
            let ghost current = self.modifiers();
            let ghost raw = self.modifiers@;
            let meta = self.modifiers.remove(i);
            proof {
                assert(current[i as int] == raw[i as int].rank());
                assert(current[i as int] == before.skip(i as int)[0]);
                assert(self.modifiers() =~= current.remove(i as int));
                assert(current.remove(i as int) =~= sorted + before.skip(i + 1));
            }
            let mut j: usize = i;
            while j > 0 && meta.order < self.modifiers[j - 1].order
                invariant
                    j <= i < n,
                    self.modifiers@.len() == n - 1,
                    forall|k: int| j <= k < i ==> meta.order < (#[trigger] self.modifiers@[k]).order,
                decreases j,
            {
                j -= 1;
            }
            proof {
                let rest = self.modifiers();
                assert forall|k: int| 0 <= k < i implies sorted[k] == (#[trigger] self.modifiers@[k]).rank() by {
                    assert(rest[k] == self.modifiers@[k].rank());
                    assert(rest[k] == sorted[k]);
                }
                assert forall|k: int| j <= k < sorted.len() implies meta.order < (#[trigger] sorted[k]).order by {
                    assert(sorted[k] == self.modifiers@[k].rank());
                }
                lemma_placed_at(sorted, meta.rank(), j as int);
                assert(before.take(i + 1).drop_last() =~= before.take(i as int));
                assert(before.take(i + 1).last() == before[i as int]);
                assert(ranked(before.take(i + 1)) == sorted.insert(j as int, meta.rank()));
            }
            let ghost rest = self.modifiers();
            self.modifiers.insert(j, meta);
            proof {
                assert(self.modifiers() =~= rest.insert(j as int, meta.rank()));
                assert(rest.insert(j as int, meta.rank()) =~= sorted.insert(j as int, meta.rank())
                    + before.skip(i + 1));
            }
            i += 1;
        }
        assert(before.take(n as int) =~= before);
        assert(self.modifiers() =~= ranked(before));

        let mut value = self.base_value;
        let mut k: usize = 0;
        while k < n
            invariant
                k <= n,
                self.modifiers@.len() == n,
                self.base_value == old(self).base_value,
                self.modifiers() == ranked(before),
                value == combined(self.base_value, self.modifiers().take(k as int)),
            decreases n - k,
        {
            proof {
                assert(self.modifiers().take(k + 1).drop_last() =~= self.modifiers().take(k as int));
                assert(self.modifiers().take(k + 1).last() == self.modifiers@[k as int].rank());
            }
            self.modifiers[k].modifier.apply(&mut value);
            k += 1;
        }
        assert(self.modifiers().take(n as int) =~= self.modifiers());
        self.value = value;
    }
}

} // verus!
