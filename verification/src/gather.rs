//! Sequences gathered from what a function picks index by index.

use vstd::prelude::*;
use vstd::seq_lib::*;

verus! {

/// The values that `pick` gives for the indices below `count`, in order.
pub open spec fn gather<T>(count: int, pick: spec_fn(int) -> Option<T>) -> Seq<T>
    decreases count,
{
    if count <= 0 {
        Seq::empty()
    } else {
        match pick(count - 1) {
            Some(value) => gather(count - 1, pick).push(value),
            None => gather(count - 1, pick),
        }
    }
}

/// `pick` gives `value` for an index below `count`.
pub open spec fn is_picked<T>(count: int, pick: spec_fn(int) -> Option<T>, value: T) -> bool {
    exists|index: int| 0 <= index < count && #[trigger] pick(index) == Some(value)
}

/// What `gather` holds are the values that `pick` gives below `count`.
pub proof fn lemma_gather_members<T>(count: int, pick: spec_fn(int) -> Option<T>)
    ensures
        forall|at: int|
            0 <= at < gather(count, pick).len() ==> is_picked(
                count,
                pick,
                #[trigger] gather(count, pick)[at],
            ),
        forall|index: int|
            0 <= index < count && (#[trigger] pick(index)) is Some ==> gather(count, pick).contains(
                pick(index).unwrap(),
            ),
    decreases count,
{
    if count > 0 {
        lemma_gather_members(count - 1, pick);
        let shorter = gather(count - 1, pick);
        let whole = gather(count, pick);
        assert forall|at: int| 0 <= at < whole.len() implies is_picked(
            count,
            pick,
            #[trigger] whole[at],
        ) by {
            if at < shorter.len() {
                assert(whole[at] == shorter[at]);
                assert(is_picked(count - 1, pick, shorter[at]));
                let index = choose|index: int|
                    0 <= index < count - 1 && #[trigger] pick(index) == Some(shorter[at]);
                assert(0 <= index < count && pick(index) == Some(whole[at]));
            } else {
                assert(pick(count - 1) == Some(whole[at]));
            }
        }
        assert forall|index: int| 0 <= index < count && (#[trigger] pick(index)) is Some implies whole.contains(
            pick(index).unwrap(),
        ) by {
            if index < count - 1 {
                assert(shorter.contains(pick(index).unwrap()));
                let at = choose|at: int| 0 <= at < shorter.len() && shorter[at] == pick(index).unwrap();
                assert(whole[at] == pick(index).unwrap());
            } else {
                assert(whole[whole.len() - 1] == pick(index).unwrap());
            }
        }
    }
}

/// Picks that agree below `count` gather the same values.
pub proof fn lemma_gather_agrees<T>(
    count: int,
    first: spec_fn(int) -> Option<T>,
    second: spec_fn(int) -> Option<T>,
)
    requires
        forall|index: int| 0 <= index < count ==> #[trigger] first(index) == second(index),
    ensures
        gather(count, first) == gather(count, second),
    decreases count,
{
    if count > 0 {
        lemma_gather_agrees(count - 1, first, second);
        assert(first(count - 1) == second(count - 1));
    }
}

/// The pick that applies `choice` to the element of `items` at an index.
pub open spec fn through<A, B>(items: Seq<A>, choice: spec_fn(A) -> Option<B>) -> spec_fn(
    int,
) -> Option<B> {
    |index: int| choice(items[index])
}

/// What `choice` gives for the elements of `items`, in their order.
pub open spec fn chosen<A, B>(items: Seq<A>, choice: spec_fn(A) -> Option<B>) -> Seq<B> {
    gather(items.len() as int, through(items, choice))
}

/// What is chosen from two sequences, one after the other, is what is
/// chosen from the first followed by what is chosen from the second.
pub proof fn lemma_chosen_concat<A, B>(
    first: Seq<A>,
    second: Seq<A>,
    choice: spec_fn(A) -> Option<B>,
)
    ensures
        chosen(first + second, choice) == chosen(first, choice) + chosen(second, choice),
    decreases second.len(),
{
    let whole = first + second;
    if second.len() == 0 {
        assert(whole =~= first);
        assert(chosen(second, choice) =~= Seq::<B>::empty());
        assert(chosen(first, choice) + chosen(second, choice) =~= chosen(first, choice));
    } else {
        let shorter = second.drop_last();
        lemma_chosen_concat(first, shorter, choice);
        assert(whole.drop_last() =~= first + shorter);
        assert(whole[whole.len() - 1] == second[second.len() - 1]);
        lemma_gather_agrees(
            whole.len() - 1,
            through(whole, choice),
            through(first + shorter, choice),
        );
        lemma_gather_agrees(
            second.len() - 1,
            through(second, choice),
            through(shorter, choice),
        );
        assert(chosen(whole, choice) =~= chosen(first, choice) + chosen(second, choice));
    }
}

/// What is chosen does not depend on the order of the items, but for its
/// own order: sequences that hold the same items, each as often, give the
/// same chosen values, each as often.
pub proof fn lemma_chosen_rearranged<A, B>(
    first: Seq<A>,
    second: Seq<A>,
    choice: spec_fn(A) -> Option<B>,
)
    requires
        first.to_multiset() == second.to_multiset(),
    ensures
        chosen(first, choice).to_multiset() == chosen(second, choice).to_multiset(),
    decreases first.len(),
{
    broadcast use group_to_multiset_ensures;

    first.to_multiset_ensures();
    second.to_multiset_ensures();
    if first.len() == 0 {
        assert(second.len() == 0);
    } else {
        let last = first[first.len() - 1];
        let shorter = first.drop_last();
        assert(first.to_multiset().count(last) > 0);
        assert(second.contains(last));
        let at = choose|at: int| 0 <= at < second.len() && second[at] == last;
        let before = second.take(at);
        let after = second.skip(at + 1);
        let without = second.remove(at);
        assert(second =~= before + seq![last] + after);
        assert(without =~= before + after);
        assert(first =~= shorter + seq![last]);
        assert(shorter =~= first.remove(first.len() - 1));
        assert(shorter.to_multiset() == without.to_multiset());
        lemma_chosen_rearranged(shorter, without, choice);
        lemma_chosen_concat(shorter, seq![last], choice);
        lemma_chosen_concat(before + seq![last], after, choice);
        lemma_chosen_concat(before, seq![last], choice);
        lemma_chosen_concat(before, after, choice);
        let one = chosen(seq![last], choice);
        lemma_multiset_commutative(chosen(shorter, choice), one);
        lemma_multiset_commutative(chosen(before, choice) + one, chosen(after, choice));
        lemma_multiset_commutative(chosen(before, choice), one);
        lemma_multiset_commutative(chosen(before, choice), chosen(after, choice));
        lemma_multiset_commutative(chosen(before, choice) + chosen(after, choice), one);
        assert(chosen(second, choice).to_multiset() =~= chosen(without, choice).to_multiset().add(
            one.to_multiset(),
        ));
    }
}

} // verus!
