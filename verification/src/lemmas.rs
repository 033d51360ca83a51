use crate::model::{ascending, of_order, owned_by, place_of, placed, ranked, retained, Ranked};
use vstd::prelude::*;

verus! {

/// Nothing is gained by dropping entries: what is retained is no longer than
/// what there was.
pub proof fn lemma_retained_len<T>(entries: Seq<T>, alive: Seq<bool>)
    ensures
        retained(entries, alive).len() <= entries.len(),
    decreases entries.len(),
{
    if entries.len() > 0 {
        lemma_retained_len(entries.drop_last(), alive);
    }
}

/// Placing an entry makes the sequence one longer.
pub proof fn lemma_placed_len<Mo>(sorted: Seq<Ranked<Mo>>, entry: Ranked<Mo>)
    ensures
        placed(sorted, entry).len() == sorted.len() + 1,
    decreases sorted.len(),
{
    if sorted.len() > 0 && entry.order < sorted.last().order {
        lemma_placed_len(sorted.drop_last(), entry);
    }
}

/// Ranking keeps the number of entries.
pub proof fn lemma_ranked_len<Mo>(entries: Seq<Ranked<Mo>>)
    ensures
        ranked(entries).len() == entries.len(),
    decreases entries.len(),
{
    if entries.len() > 0 {
        lemma_ranked_len(entries.drop_last());
        lemma_placed_len(ranked(entries.drop_last()), entries.last());
    }
}

/// Where `placed` puts an entry: at the index `at` that has only greater
/// orders from it onwards and none greater just before it.
pub proof fn lemma_placed_at<Mo>(sorted: Seq<Ranked<Mo>>, entry: Ranked<Mo>, at: int)
    requires
        0 <= at <= sorted.len(),
        forall|k: int| at <= k < sorted.len() ==> entry.order < (#[trigger] sorted[k]).order,
        at > 0 ==> sorted[at - 1].order <= entry.order,
    ensures
        placed(sorted, entry) == sorted.insert(at, entry),
    decreases sorted.len(),
{
    if at == sorted.len() {
        assert(sorted.insert(at, entry) =~= sorted.push(entry));
    } else {
        let shorter = sorted.drop_last();
        assert(entry.order < sorted[sorted.len() - 1].order);
        assert forall|k: int| at <= k < shorter.len() implies entry.order < (#[trigger] shorter[k]).order by {
            assert(shorter[k] == sorted[k]);
        }
        lemma_placed_at(shorter, entry, at);
        assert(shorter.insert(at, entry).push(sorted.last()) =~= sorted.insert(at, entry));
    }
}

/// With every owner still there, nothing is dropped.
pub proof fn lemma_retained_all<T>(entries: Seq<T>, alive: Seq<bool>)
    requires
        entries.len() <= alive.len(),
        forall|i: int| 0 <= i < entries.len() ==> alive[i],
    ensures
        retained(entries, alive) == entries,
    decreases entries.len(),
{
    if entries.len() > 0 {
        lemma_retained_all(entries.drop_last(), alive);
        assert(entries.drop_last().push(entries.last()) =~= entries);
    }
}

/// With the owner of the entry at `gone` no longer there, fewer entries are
/// retained than there were.
pub proof fn lemma_retained_fewer<T>(entries: Seq<T>, alive: Seq<bool>, gone: int)
    requires
        0 <= gone < entries.len(),
        gone >= alive.len() || !alive[gone],
    ensures
        retained(entries, alive).len() < entries.len(),
    decreases entries.len(),
{
    if gone == entries.len() - 1 {
        lemma_retained_len(entries.drop_last(), alive);
    } else {
        lemma_retained_fewer(entries.drop_last(), alive, gone);
    }
}

/// Where `alive` agrees with a predicate on the entries, retaining is
/// filtering by that predicate.
pub proof fn lemma_retained_as_filter<T>(
    entries: Seq<T>,
    alive: Seq<bool>,
    holds: spec_fn(T) -> bool,
)
    requires
        entries.len() <= alive.len(),
        forall|i: int| 0 <= i < entries.len() ==> alive[i] == holds(entries[i]),
    ensures
        retained(entries, alive) == entries.filter(holds),
    decreases entries.len(),
{
    reveal(Seq::filter);
    if entries.len() > 0 {
        lemma_retained_as_filter(entries.drop_last(), alive, holds);
    }
}

/// Retaining by `owned_by` is filtering.
pub proof fn lemma_retained_owned_by<T>(entries: Seq<T>, holds: spec_fn(T) -> bool)
    ensures
        retained(entries, owned_by(entries, holds)) == entries.filter(holds),
{
    lemma_retained_as_filter(entries, owned_by(entries, holds), holds);
}

/// Filtering by a narrower predicate after a wider one is filtering by the
/// narrower one alone.
pub proof fn lemma_filter_narrowed<T>(
    entries: Seq<T>,
    wide: spec_fn(T) -> bool,
    narrow: spec_fn(T) -> bool,
)
    requires
        forall|e: T| #[trigger] narrow(e) ==> wide(e),
    ensures
        entries.filter(wide).filter(narrow) == entries.filter(narrow),
    decreases entries.len(),
{
    reveal(Seq::filter);
    if entries.len() > 0 {
        let shorter = entries.drop_last();
        lemma_filter_narrowed(shorter, wide, narrow);
        if wide(entries.last()) {
            shorter.filter(wide).lemma_filter_push(entries.last(), narrow);
        }
    }
}

/// `place_of` is the one index that has only greater orders from it onwards
/// and none greater just before it, and `placed` inserts there.
pub proof fn lemma_place_of<Mo>(sorted: Seq<Ranked<Mo>>, entry: Ranked<Mo>)
    ensures
        0 <= place_of(sorted, entry) <= sorted.len(),
        forall|k: int|
            place_of(sorted, entry) <= k < sorted.len() ==> entry.order < (#[trigger] sorted[k]).order,
        place_of(sorted, entry) > 0 ==> sorted[place_of(sorted, entry) - 1].order <= entry.order,
        placed(sorted, entry) == sorted.insert(place_of(sorted, entry), entry),
    decreases sorted.len(),
{
    let at = place_of(sorted, entry);
    if sorted.len() > 0 && entry.order < sorted.last().order {
        let shorter = sorted.drop_last();
        lemma_place_of(shorter, entry);
        assert forall|k: int| at <= k < sorted.len() implies entry.order < (#[trigger] sorted[k]).order by {
            if k < shorter.len() {
                assert(shorter[k] == sorted[k]);
            }
        }
        if at > 0 {
            assert(shorter[at - 1] == sorted[at - 1]);
        }
    }
    lemma_placed_at(sorted, entry, at);
}

/// Placing an entry into an ascending sequence leaves it ascending.
pub proof fn lemma_placed_ascending<Mo>(sorted: Seq<Ranked<Mo>>, entry: Ranked<Mo>)
    requires
        ascending(sorted),
    ensures
        ascending(placed(sorted, entry)),
{
    lemma_place_of(sorted, entry);
    let at = place_of(sorted, entry);
    let out = sorted.insert(at, entry);
    assert forall|i: int, j: int| 0 <= i < j < out.len() implies out[i].order <= out[j].order by {
        if i < at {
            assert(out[i] == sorted[i]);
            assert(sorted[i].order <= sorted[at - 1].order);
        } else if i > at {
            assert(out[i] == sorted[i - 1]);
        }
        if j < at {
            assert(out[j] == sorted[j]);
        } else if j > at {
            assert(out[j] == sorted[j - 1]);
        }
    }
}

/// Ranked entries are ascending.
pub proof fn lemma_ranked_ascending<Mo>(entries: Seq<Ranked<Mo>>)
    ensures
        ascending(ranked(entries)),
    decreases entries.len(),
{
    if entries.len() > 0 {
        lemma_ranked_ascending(entries.drop_last());
        lemma_placed_ascending(ranked(entries.drop_last()), entries.last());
    }
}

/// Ranking leaves an ascending sequence as it is.
pub proof fn lemma_ranked_of_ascending<Mo>(entries: Seq<Ranked<Mo>>)
    requires
        ascending(entries),
    ensures
        ranked(entries) == entries,
    decreases entries.len(),
{
    if entries.len() > 0 {
        let shorter = entries.drop_last();
        assert forall|i: int, j: int| 0 <= i < j < shorter.len() implies shorter[i].order
            <= shorter[j].order by {
            assert(shorter[i] == entries[i] && shorter[j] == entries[j]);
        }
        lemma_ranked_of_ascending(shorter);
        if shorter.len() > 0 {
            assert(shorter.last() == entries[entries.len() - 2]);
            assert(entries[entries.len() - 2].order <= entries[entries.len() - 1].order);
        }
        assert(shorter.push(entries.last()) =~= entries);
    }
}

/// Ranking a second time changes nothing.
pub proof fn lemma_ranked_twice<Mo>(entries: Seq<Ranked<Mo>>)
    ensures
        ranked(ranked(entries)) == ranked(entries),
{
    lemma_ranked_ascending(entries);
    lemma_ranked_of_ascending(ranked(entries));
}

/// Ranking neither loses nor invents an entry.
pub proof fn lemma_ranked_same_entries<Mo>(entries: Seq<Ranked<Mo>>)
    ensures
        ranked(entries).to_multiset() == entries.to_multiset(),
    decreases entries.len(),
{
    if entries.len() > 0 {
        let shorter = entries.drop_last();
        lemma_ranked_same_entries(shorter);
        lemma_place_of(ranked(shorter), entries.last());
        vstd::seq_lib::to_multiset_insert(
            ranked(shorter),
            place_of(ranked(shorter), entries.last()),
            entries.last(),
        );
        vstd::seq_lib::to_multiset_build(shorter, entries.last());
        assert(shorter.push(entries.last()) =~= entries);
    }
}

/// Placing and then filtering is filtering and then placing, provided the
/// entry passes the filter; an entry that does not pass leaves no trace.
pub proof fn lemma_placed_filter<Mo>(
    sorted: Seq<Ranked<Mo>>,
    entry: Ranked<Mo>,
    pred: spec_fn(Ranked<Mo>) -> bool,
)
    requires
        ascending(sorted),
    ensures
        placed(sorted, entry).filter(pred) == if pred(entry) {
            placed(sorted.filter(pred), entry)
        } else {
            sorted.filter(pred)
        },
    decreases sorted.len(),
{
    let passed = sorted.filter(pred);
    if sorted.len() > 0 && entry.order < sorted.last().order {
        let shorter = sorted.drop_last();
        let last = sorted.last();
        assert forall|i: int, j: int| 0 <= i < j < shorter.len() implies shorter[i].order
            <= shorter[j].order by {
            assert(shorter[i] == sorted[i] && shorter[j] == sorted[j]);
        }
        lemma_placed_filter(shorter, entry, pred);
        assert(shorter.push(last) =~= sorted);
        shorter.lemma_filter_push(last, pred);
        placed(shorter, entry).lemma_filter_push(last, pred);
        if pred(last) && pred(entry) {
            assert(shorter.filter(pred).push(last).drop_last() =~= shorter.filter(pred));
        }
    } else {
        sorted.lemma_filter_push(entry, pred);
        if pred(entry) && passed.len() > 0 {
            passed.lemma_filter_contains_rev(pred, passed.last());
            assert(passed.contains(passed.last()));
            sorted.lemma_filter_contains_rev(pred, passed.last());
            let at = choose|at: int| 0 <= at < sorted.len() && sorted[at] == passed.last();
            assert(sorted[at].order <= sorted[sorted.len() - 1].order);
        }
    }
}

/// Ranking and then filtering is filtering and then ranking.
pub proof fn lemma_ranked_filter<Mo>(entries: Seq<Ranked<Mo>>, pred: spec_fn(Ranked<Mo>) -> bool)
    ensures
        ranked(entries).filter(pred) == ranked(entries.filter(pred)),
    decreases entries.len(),
{
    if entries.len() == 0 {
        reveal(Seq::filter);
    } else {
        let shorter = entries.drop_last();
        let last = entries.last();
        lemma_ranked_filter(shorter, pred);
        lemma_ranked_ascending(shorter);
        lemma_placed_filter(ranked(shorter), last, pred);
        assert(shorter.push(last) =~= entries);
        shorter.lemma_filter_push(last, pred);
        if pred(last) {
            assert(shorter.filter(pred).push(last).drop_last() =~= shorter.filter(pred));
        }
    }
}

/// Entries of one order come out of ranking in the sequence they went in.
pub proof fn lemma_ranked_stable<Mo>(entries: Seq<Ranked<Mo>>, order: i32)
    ensures
        ranked(entries).filter(of_order(order)) == entries.filter(of_order(order)),
{
    let same = entries.filter(of_order(order));
    lemma_ranked_filter(entries, of_order(order));
    assert forall|i: int, j: int| 0 <= i < j < same.len() implies same[i].order <= same[j].order by {
        entries.lemma_filter_pred(of_order(order), i);
        entries.lemma_filter_pred(of_order(order), j);
    }
    lemma_ranked_of_ascending(same);
}

/// An ascending sequence is known by what it holds of each order: two that
/// agree order by order are the same sequence.
pub proof fn lemma_ascending_unique<Mo>(a: Seq<Ranked<Mo>>, b: Seq<Ranked<Mo>>)
    requires
        ascending(a),
        ascending(b),
        forall|order: i32| #[trigger] a.filter(of_order(order)) == b.filter(of_order(order)),
    ensures
        a == b,
    decreases a.len() + b.len(),
{
    reveal(Seq::filter);
    if a.len() == 0 || b.len() == 0 {
        if a.len() > 0 {
            a.lemma_filter_contains(of_order(a[0].order), 0);
            assert(a.filter(of_order(a[0].order)) == b.filter(of_order(a[0].order)));
        }
        if b.len() > 0 {
            b.lemma_filter_contains(of_order(b[0].order), 0);
            assert(a.filter(of_order(b[0].order)) == b.filter(of_order(b[0].order)));
        }
        assert(a =~= b);
    } else {
        let high_a = a.last().order;
        let high_b = b.last().order;
        a.lemma_filter_contains(of_order(high_a), a.len() - 1);
        assert(a.filter(of_order(high_a)) == b.filter(of_order(high_a)));
        b.lemma_filter_contains_rev(of_order(high_a), a.last());
        let in_b = choose|i: int| 0 <= i < b.len() && b[i] == a.last();
        assert(b[in_b].order <= b[b.len() - 1].order);
        b.lemma_filter_contains(of_order(high_b), b.len() - 1);
        assert(a.filter(of_order(high_b)) == b.filter(of_order(high_b)));
        a.lemma_filter_contains_rev(of_order(high_b), b.last());
        let in_a = choose|i: int| 0 <= i < a.len() && a[i] == b.last();
        assert(a[in_a].order <= a[a.len() - 1].order);
        assert(high_a == high_b);
        assert(a.filter(of_order(high_a)).last() == a.last());
        assert(b.filter(of_order(high_a)).last() == b.last());

        let shorter_a = a.drop_last();
        let shorter_b = b.drop_last();
        assert forall|i: int, j: int| 0 <= i < j < shorter_a.len() implies shorter_a[i].order
            <= shorter_a[j].order by {
            assert(shorter_a[i] == a[i] && shorter_a[j] == a[j]);
        }
        assert forall|i: int, j: int| 0 <= i < j < shorter_b.len() implies shorter_b[i].order
            <= shorter_b[j].order by {
            assert(shorter_b[i] == b[i] && shorter_b[j] == b[j]);
        }
        assert forall|order: i32| #[trigger]
            shorter_a.filter(of_order(order)) == shorter_b.filter(of_order(order)) by {
            assert(a.filter(of_order(order)) == b.filter(of_order(order)));
            if order == high_a {
                assert(a.filter(of_order(order)).drop_last() =~= shorter_a.filter(of_order(order)));
                assert(b.filter(of_order(order)).drop_last() =~= shorter_b.filter(of_order(order)));
            }
        }
        lemma_ascending_unique(shorter_a, shorter_b);
        assert(a =~= shorter_a.push(a.last()));
        assert(b =~= shorter_b.push(b.last()));
    }
}

/// Ranking goes by what there is of each order and by nothing else: how
/// entries of different orders were interleaved plays no part.
pub proof fn lemma_ranked_by_order_alone<Mo>(a: Seq<Ranked<Mo>>, b: Seq<Ranked<Mo>>)
    requires
        forall|order: i32| #[trigger] a.filter(of_order(order)) == b.filter(of_order(order)),
    ensures
        ranked(a) == ranked(b),
{
    lemma_ranked_ascending(a);
    lemma_ranked_ascending(b);
    assert forall|order: i32| #[trigger]
        ranked(a).filter(of_order(order)) == ranked(b).filter(of_order(order)) by {
        lemma_ranked_stable(a, order);
        lemma_ranked_stable(b, order);
        assert(a.filter(of_order(order)) == b.filter(of_order(order)));
    }
    lemma_ascending_unique(ranked(a), ranked(b));
}

} // verus!
