//! Sequences that stand for sets.
//!
//! An entry that holds a set is written as a flat sequence, so a set is kept
//! as a sequence in which nothing occurs twice. New members are taken in at
//! the end and members that are already there are passed over: what came
//! first stays first.

use vstd::prelude::*;

verus! {

/// `acc` after it has taken in `items` one by one, each at the end unless it
/// is already there.
pub open spec fn absorb<T>(acc: Seq<T>, items: Seq<T>) -> Seq<T>
    decreases items.len(),
{
    if items.len() == 0 {
        acc
    } else {
        let before = absorb(acc, items.drop_last());
        if before.contains(items.last()) {
            before
        } else {
            before.push(items.last())
        }
    }
}

/// The members of `items` in the order of their first occurrence.
pub open spec fn distinct<T>(items: Seq<T>) -> Seq<T> {
    absorb(Seq::empty(), items)
}

/// A sequence with one more item at its end holds what it held before, and
/// that item.
pub proof fn lemma_push_contains<T>(before: Seq<T>, last: T)
    ensures
        forall|x: T| before.push(last).contains(x) <==> before.contains(x) || x == last,
{
    let after = before.push(last);
    assert forall|x: T| after.contains(x) <==> before.contains(x) || x == last by {
        if after.contains(x) {
            let i = choose|i: int| 0 <= i < after.len() && after[i] == x;
            if i < before.len() {
                assert(before[i] == x);
            }
        }
        if before.contains(x) {
            let i = choose|i: int| 0 <= i < before.len() && before[i] == x;
            assert(after[i] == x);
        }
        if x == last {
            assert(after[after.len() - 1] == x);
        }
    }
}

/// Taking in items keeps what was there, in place, and adds nothing twice.
pub proof fn lemma_absorb<T>(acc: Seq<T>, items: Seq<T>)
    ensures
        acc.len() <= absorb(acc, items).len() <= acc.len() + items.len(),
        absorb(acc, items).take(acc.len() as int) == acc,
        acc.no_duplicates() ==> absorb(acc, items).no_duplicates(),
        absorb(acc, items).to_set() == acc.to_set().union(items.to_set()),
    decreases items.len(),
{
    if items.len() == 0 {
        assert(acc.take(acc.len() as int) =~= acc);
        assert(acc.to_set() =~= acc.to_set().union(items.to_set()));
    } else {
        let head = items.drop_last();
        let last = items.last();
        let before = absorb(acc, head);
        let after = absorb(acc, items);
        lemma_absorb(acc, head);
        assert(after.take(acc.len() as int) =~= before.take(acc.len() as int));
        assert(head.push(last) =~= items);
        lemma_push_contains(head, last);
        lemma_push_contains(before, last);
        assert forall|x: T| after.contains(x) <==> before.contains(x) || x == last by {
            if !before.contains(last) {
                assert(before.push(last).contains(x) <==> before.contains(x) || x == last);
            }
        }
        assert(after.to_set() =~= acc.to_set().union(items.to_set())) by {
            assert forall|x: T|
                after.to_set().contains(x) <==> acc.to_set().union(items.to_set()).contains(
                    x,
                ) by {
                assert(before.to_set().contains(x) <==> acc.to_set().union(
                    head.to_set(),
                ).contains(x));
            }
        }
    }
}

/// Taking in items that are all there already changes nothing.
pub proof fn lemma_absorb_known<T>(acc: Seq<T>, items: Seq<T>)
    requires
        forall|i: int| 0 <= i < items.len() ==> acc.contains(#[trigger] items[i]),
    ensures
        absorb(acc, items) == acc,
    decreases items.len(),
{
    if items.len() > 0 {
        assert forall|i: int| 0 <= i < items.drop_last().len() implies acc.contains(
            #[trigger] items.drop_last()[i],
        ) by {
            assert(items.drop_last()[i] == items[i]);
        }
        lemma_absorb_known(acc, items.drop_last());
        assert(acc.contains(items[items.len() - 1]));
    }
}

/// Taking in what another sequence has become by taking in `items` is
/// taking in that other sequence and then `items`.
pub proof fn lemma_absorb_absorbed<T>(acc: Seq<T>, other: Seq<T>, items: Seq<T>)
    ensures
        absorb(acc, absorb(other, items)) == absorb(absorb(acc, other), items),
    decreases items.len(),
{
    if items.len() > 0 {
        let head = items.drop_last();
        let last = items.last();
        let before = absorb(other, head);
        lemma_absorb_absorbed(acc, other, head);
        lemma_absorb(acc, before);
        if before.contains(last) {
            assert(before.to_set().contains(last));
            assert(acc.to_set().union(before.to_set()).contains(last));
            assert(absorb(acc, before).to_set().contains(last));
        } else {
            assert(before.push(last).drop_last() =~= before);
        }
    }
}

/// A sequence in which nothing occurs twice is its own sequence of distinct
/// members; more generally, taking in such a sequence whose members are all
/// new appends it.
pub proof fn lemma_absorb_new<T>(acc: Seq<T>, items: Seq<T>)
    requires
        items.no_duplicates(),
        forall|i: int| 0 <= i < items.len() ==> !acc.contains(#[trigger] items[i]),
    ensures
        absorb(acc, items) == acc + items,
    decreases items.len(),
{
    if items.len() == 0 {
        assert(acc + items =~= acc);
    } else {
        let head = items.drop_last();
        let last = items.last();
        assert forall|i: int| 0 <= i < head.len() implies !acc.contains(#[trigger] head[i]) by {
            assert(head[i] == items[i]);
        }
        lemma_absorb_new(acc, head);
        let before = acc + head;
        assert(!acc.contains(items[items.len() - 1]));
        if before.contains(last) {
            let i = choose|i: int| 0 <= i < before.len() && before[i] == last;
            if i < acc.len() {
                assert(acc[i] == last);
            } else {
                assert(items[i - acc.len()] == last);
            }
        }
        assert(before.push(last) =~= acc + items);
    }
}

/// `items` with every occurrence of `gone` left out.
pub open spec fn without<T>(items: Seq<T>, gone: T) -> Seq<T>
    decreases items.len(),
{
    if items.len() == 0 {
        items
    } else {
        let before = without(items.drop_last(), gone);
        if items.last() == gone {
            before
        } else {
            before.push(items.last())
        }
    }
}

/// Leaving a member out removes it and nothing else, and where nothing
/// occurred twice the sequence gets shorter by one.
pub proof fn lemma_without<T>(items: Seq<T>, gone: T)
    ensures
        forall|x: T| without(items, gone).contains(x) <==> items.contains(x) && x != gone,
        without(items, gone).len() <= items.len(),
        items.no_duplicates() ==> without(items, gone).no_duplicates(),
        items.no_duplicates() && items.contains(gone) ==> without(items, gone).len() + 1
            == items.len(),
        !items.contains(gone) ==> without(items, gone) == items,
    decreases items.len(),
{
    if items.len() > 0 {
        let head = items.drop_last();
        let last = items.last();
        let before = without(head, gone);
        let after = without(items, gone);
        lemma_without(head, gone);
        assert(head.push(last) =~= items);
        lemma_push_contains(head, last);
        lemma_push_contains(before, last);
        assert forall|x: T| after.contains(x) <==> items.contains(x) && x != gone by {
            assert(head.push(last).contains(x) <==> head.contains(x) || x == last);
            if last != gone {
                assert(before.push(last).contains(x) <==> before.contains(x) || x == last);
            }
        }
        if items.no_duplicates() {
            assert(head.no_duplicates()) by {
                assert forall|i: int, j: int|
                    0 <= i < head.len() && 0 <= j < head.len() && i != j implies head[i]
                    != head[j] by {
                    assert(items[i] != items[j]);
                }
            }
            if head.contains(last) {
                let i = choose|i: int| 0 <= i < head.len() && head[i] == last;
                assert(items[i] == items[items.len() - 1]);
            }
            assert(!before.contains(last));
            if last == gone {
                assert(!head.contains(gone));
                assert(before == head);
            }
        }
        if !items.contains(gone) {
            assert(last != gone);
            assert(!head.contains(gone));
            assert(before.push(last) =~= items);
        }
    }
}

} // verus!
