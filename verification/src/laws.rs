use crate::lemmas::{
    lemma_filter_narrowed, lemma_ranked_ascending, lemma_ranked_by_order_alone, lemma_ranked_filter, lemma_ranked_len,
    lemma_ranked_of_ascending, lemma_ranked_same_entries, lemma_ranked_stable, lemma_ranked_twice,
    lemma_retained_all, lemma_retained_fewer, lemma_retained_len, lemma_retained_owned_by,
};
use crate::model::{ascending, combined, of_order, owned_by, ranked, retained, Ranked};
use crate::modifier::Modifier;
use crate::stat::Stat;
use vstd::prelude::*;

verus! {

/// An add is accepted exactly when, with the abandoned modifiers forgotten,
/// the stat holds fewer than `M`.
pub proof fn law_add_accepted_iff_room<Mo: Modifier, const M: usize>(
    before: Stat<Mo, M>,
    after: Stat<Mo, M>,
    alive: Seq<bool>,
    entry: Ranked<Mo>,
    accepted: bool,
)
    requires
        after.added_to(before, alive, entry, accepted),
    ensures
        accepted <==> retained(before.modifiers(), alive).len() < M,
{
}

/// An add to a stat that holds fewer than `M` modifiers is accepted, whatever
/// has become of the handles, and leaves the stat within its capacity.
pub proof fn law_add_below_capacity<Mo: Modifier, const M: usize>(
    before: Stat<Mo, M>,
    after: Stat<Mo, M>,
    alive: Seq<bool>,
    entry: Ranked<Mo>,
    accepted: bool,
)
    requires
        after.added_to(before, alive, entry, accepted),
        before.modifiers().len() < M,
    ensures
        accepted,
        after.modifiers().len() <= before.modifiers().len() + 1,
        after.well_formed(),
{
    let kept = retained(before.modifiers(), alive);
    lemma_retained_len(before.modifiers(), alive);
    lemma_ranked_len(kept.push(entry));
}

/// The `k`-th of a run of adds: it takes `states[k]` to `states[k + 1]`.
pub open spec fn add_step<Mo: Modifier, const M: usize>(
    states: Seq<Stat<Mo, M>>,
    observed: Seq<Seq<bool>>,
    entries: Seq<Ranked<Mo>>,
    accepted: Seq<bool>,
    k: int,
) -> bool {
    states[k + 1].added_to(states[k], observed[k], entries[k], accepted[k])
}

/// Starting from a stat without modifiers, a run of no more than `M` adds is
/// accepted add by add, whatever the handles do in between.
pub proof fn law_adds_up_to_capacity<Mo: Modifier, const M: usize>(
    states: Seq<Stat<Mo, M>>,
    observed: Seq<Seq<bool>>,
    entries: Seq<Ranked<Mo>>,
    accepted: Seq<bool>,
)
    requires
        entries.len() <= M,
        states.len() == entries.len() + 1,
        observed.len() == entries.len(),
        accepted.len() == entries.len(),
        states[0].modifiers().len() == 0,
        forall|k: int|
            0 <= k < entries.len() ==> #[trigger] add_step(states, observed, entries, accepted, k),
    ensures
        forall|k: int| 0 <= k < entries.len() ==> #[trigger] accepted[k],
        forall|k: int| 0 <= k <= entries.len() ==> (#[trigger] states[k]).modifiers().len() <= k,
{
    assert forall|k: int| 0 <= k <= entries.len() implies (#[trigger] states[k]).modifiers().len()
        <= k && (k > 0 ==> accepted[k - 1]) by {
        lemma_adds_so_far(states, observed, entries, accepted, k);
    }
    assert forall|k: int| 0 <= k < entries.len() implies #[trigger] accepted[k] by {
        assert(states[k + 1].modifiers().len() <= k + 1);
    }
}

proof fn lemma_adds_so_far<Mo: Modifier, const M: usize>(
    states: Seq<Stat<Mo, M>>,
    observed: Seq<Seq<bool>>,
    entries: Seq<Ranked<Mo>>,
    accepted: Seq<bool>,
    upto: int,
)
    requires
        entries.len() <= M,
        states.len() == entries.len() + 1,
        observed.len() == entries.len(),
        accepted.len() == entries.len(),
        states[0].modifiers().len() == 0,
        forall|k: int|
            0 <= k < entries.len() ==> #[trigger] add_step(states, observed, entries, accepted, k),
        0 <= upto <= entries.len(),
    ensures
        states[upto].modifiers().len() <= upto,
        upto > 0 ==> accepted[upto - 1],
    decreases upto,
{
    if upto > 0 {
        let k = upto - 1;
        lemma_adds_so_far(states, observed, entries, accepted, k);
        assert(add_step(states, observed, entries, accepted, k));
        law_add_below_capacity(states[k], states[k + 1], observed[k], entries[k], accepted[k]);
    }
}

/// An add to a stat whose `M` modifiers are all still owned is refused, and
/// the stat is afterwards what it was before: base value, modifiers and the
/// value it last computed.
pub proof fn law_add_beyond_capacity<Mo: Modifier, const M: usize>(
    before: Stat<Mo, M>,
    after: Stat<Mo, M>,
    alive: Seq<bool>,
    entry: Ranked<Mo>,
    accepted: bool,
)
    requires
        after.added_to(before, alive, entry, accepted),
        before.modifiers().len() == M,
        alive.len() >= M,
        forall|i: int| 0 <= i < M ==> alive[i],
    ensures
        !accepted,
        after == before,
{
    lemma_retained_all(before.modifiers(), alive);
}

/// Once the handle of any one modifier is gone, the next add is accepted,
/// however full the stat was.
pub proof fn law_dropped_handle_frees_room<Mo: Modifier, const M: usize>(
    before: Stat<Mo, M>,
    after: Stat<Mo, M>,
    alive: Seq<bool>,
    entry: Ranked<Mo>,
    accepted: bool,
    gone: int,
)
    requires
        before.well_formed(),
        after.added_to(before, alive, entry, accepted),
        0 <= gone < before.modifiers().len(),
        gone >= alive.len() || !alive[gone],
    ensures
        accepted,
{
    lemma_retained_fewer(before.modifiers(), alive, gone);
}

/// What a read returns: the base value run through the modifiers that are
/// still owned, lowest order first and, among equal orders, in the sequence
/// the stat held them in. No owned modifier is left out and none is applied
/// twice.
pub proof fn law_read_applies_owned_in_order<Mo: Modifier, const M: usize>(
    before: Stat<Mo, M>,
    after: Stat<Mo, M>,
    alive: Seq<bool>,
    order: i32,
)
    requires
        after.settled_from(before, alive),
    ensures
        after.cached_value() == combined(before.base(), after.modifiers()),
        ascending(after.modifiers()),
        after.modifiers().to_multiset() == retained(before.modifiers(), alive).to_multiset(),
        after.modifiers().filter(of_order(order)) == retained(before.modifiers(), alive).filter(
            of_order(order),
        ),
{
    let kept = retained(before.modifiers(), alive);
    lemma_ranked_ascending(kept);
    lemma_ranked_same_entries(kept);
    lemma_ranked_stable(kept, order);
}

/// What an accepted add leaves behind: the owned modifiers and the new one,
/// lowest order first, the new one behind those of its own order, and the
/// value computed from them.
pub proof fn law_add_ranks_the_newcomer<Mo: Modifier, const M: usize>(
    before: Stat<Mo, M>,
    after: Stat<Mo, M>,
    alive: Seq<bool>,
    entry: Ranked<Mo>,
    order: i32,
)
    requires
        after.added_to(before, alive, entry, true),
    ensures
        after.cached_value() == combined(before.base(), after.modifiers()),
        ascending(after.modifiers()),
        after.modifiers().to_multiset() == retained(before.modifiers(), alive).to_multiset().insert(
            entry,
        ),
        after.modifiers().filter(of_order(order)) == retained(before.modifiers(), alive).push(
            entry,
        ).filter(of_order(order)),
{
    let kept = retained(before.modifiers(), alive);
    lemma_ranked_ascending(kept.push(entry));
    lemma_ranked_same_entries(kept.push(entry));
    lemma_ranked_stable(kept.push(entry), order);
    vstd::seq_lib::to_multiset_build(kept, entry);
}

/// Modifiers apply by their order, not by when they were added. Two stats
/// with the same base value that hold, of each order, the same owned
/// modifiers in the same sequence come out of a read with the same modifiers
/// in the same sequence and with the same value.
pub proof fn law_order_decides<Mo: Modifier, const M: usize>(
    one_before: Stat<Mo, M>,
    one_after: Stat<Mo, M>,
    one_alive: Seq<bool>,
    other_before: Stat<Mo, M>,
    other_after: Stat<Mo, M>,
    other_alive: Seq<bool>,
)
    requires
        one_after.settled_from(one_before, one_alive),
        other_after.settled_from(other_before, other_alive),
        one_before.base() == other_before.base(),
        forall|order: i32| #[trigger]
            retained(one_before.modifiers(), one_alive).filter(of_order(order)) == retained(
                other_before.modifiers(),
                other_alive,
            ).filter(of_order(order)),
    ensures
        one_after.modifiers() == other_after.modifiers(),
        one_after.cached_value() == other_after.cached_value(),
{
    lemma_ranked_by_order_alone(
        retained(one_before.modifiers(), one_alive),
        retained(other_before.modifiers(), other_alive),
    );
}

/// A modifier whose handle is gone counts for nothing, whether or not the
/// stat was read while the handle was still held. `earlier` and `later` tell
/// of each modifier whether it is still owned at the first and at the second
/// read; what is owned later was owned earlier. Reading at both times leaves
/// the stat as reading at the later time alone does.
pub proof fn law_reads_compose<Mo: Modifier, const M: usize>(
    before: Stat<Mo, M>,
    between: Stat<Mo, M>,
    after: Stat<Mo, M>,
    direct: Stat<Mo, M>,
    earlier: spec_fn(Ranked<Mo>) -> bool,
    later: spec_fn(Ranked<Mo>) -> bool,
)
    requires
        forall|e: Ranked<Mo>| #[trigger] later(e) ==> earlier(e),
        between.settled_from(before, owned_by(before.modifiers(), earlier)),
        after.settled_from(between, owned_by(between.modifiers(), later)),
        direct.settled_from(before, owned_by(before.modifiers(), later)),
    ensures
        after.modifiers() == direct.modifiers(),
        after.cached_value() == direct.cached_value(),
{
    let held = before.modifiers();
    lemma_retained_owned_by(held, earlier);
    lemma_retained_owned_by(held, later);
    lemma_retained_owned_by(between.modifiers(), later);
    lemma_ranked_filter(held.filter(earlier), later);
    lemma_filter_narrowed(held, earlier, later);
    lemma_ranked_twice(held.filter(later));
}

/// Reading twice with no handle dropped and no modifier added in between
/// returns the same value twice and leaves the same modifiers.
pub proof fn law_read_idempotent<Mo: Modifier, const M: usize>(
    before: Stat<Mo, M>,
    once: Stat<Mo, M>,
    twice: Stat<Mo, M>,
    alive: Seq<bool>,
    still: Seq<bool>,
)
    requires
        once.settled_from(before, alive),
        twice.settled_from(once, still),
        still.len() >= once.modifiers().len(),
        forall|i: int| 0 <= i < once.modifiers().len() ==> still[i],
    ensures
        twice.modifiers() == once.modifiers(),
        twice.cached_value() == once.cached_value(),
{
    lemma_retained_all(once.modifiers(), still);
    lemma_ranked_ascending(retained(before.modifiers(), alive));
    lemma_ranked_of_ascending(once.modifiers());
}

/// A read straight after an accepted add, with no handle dropped in between,
/// returns the value the add computed.
pub proof fn law_read_after_add<Mo: Modifier, const M: usize>(
    before: Stat<Mo, M>,
    added: Stat<Mo, M>,
    read: Stat<Mo, M>,
    alive: Seq<bool>,
    entry: Ranked<Mo>,
    still: Seq<bool>,
)
    requires
        added.added_to(before, alive, entry, true),
        read.settled_from(added, still),
        still.len() >= added.modifiers().len(),
        forall|i: int| 0 <= i < added.modifiers().len() ==> still[i],
    ensures
        read.modifiers() == added.modifiers(),
        read.cached_value() == added.cached_value(),
{
    lemma_retained_all(added.modifiers(), still);
    lemma_ranked_ascending(retained(before.modifiers(), alive).push(entry));
    lemma_ranked_of_ascending(added.modifiers());
}

} // verus!
