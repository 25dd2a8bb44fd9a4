//! Run-length encoding as mathematics: what a list of runs stands for, which
//! list of runs encodes a sequence, and why there is exactly one.

use vstd::prelude::*;

verus! {

/// `count` consecutive copies of `item`.
pub struct Run<T> {
    pub count: u32,
    pub item: T,
}

/// The sequence that holds `item` `n` times.
pub open spec fn repeat<T>(item: T, n: nat) -> Seq<T> {
    Seq::new(n, |i: int| item)
}

/// What a list of runs stands for: each run written out, one after the other.
pub open spec fn expand<T>(runs: Seq<Run<T>>) -> Seq<T>
    decreases runs.len(),
{
    if runs.len() == 0 {
        Seq::empty()
    } else {
        expand(runs.drop_last()) + repeat(runs.last().item, runs.last().count as nat)
    }
}

/// No run is empty.
pub open spec fn counts_positive<T>(runs: Seq<Run<T>>) -> bool {
    forall|i: int| 0 <= i < runs.len() ==> (#[trigger] runs[i]).count >= 1
}

/// No two neighbouring runs repeat the same item, so no run could be longer.
pub open spec fn runs_maximal<T>(runs: Seq<Run<T>>) -> bool {
    forall|i: int, j: int|
        0 <= i && j == i + 1 && j < runs.len() ==> (#[trigger] runs[i]).item != (
        #[trigger] runs[j]).item
}

/// The shape of an encoder's output: no run is empty, and no run could be
/// longer.
pub open spec fn is_packed<T>(runs: Seq<Run<T>>) -> bool {
    counts_positive(runs) && runs_maximal(runs)
}

/// The run-length encoding of `items`, read from left to right: an item equal
/// to the one before it lengthens the last run, any other item starts a run.
pub open spec fn run_length_encode<T>(items: Seq<T>) -> Seq<Run<T>>
    decreases items.len(),
{
    if items.len() == 0 {
        Seq::empty()
    } else {
        let before = run_length_encode(items.drop_last());
        let x = items.last();
        if before.len() > 0 && before.last().item == x {
            before.drop_last().push(Run { count: (before.last().count + 1) as u32, item: x })
        } else {
            before.push(Run { count: 1, item: x })
        }
    }
}

/// Writing out one more run appends its copies.
pub proof fn lemma_expand_push<T>(runs: Seq<Run<T>>, run: Run<T>)
    ensures
        expand(runs.push(run)) == expand(runs) + repeat(run.item, run.count as nat),
{
    assert(runs.push(run).drop_last() =~= runs);
}

/// The written-out form is as long as the counts add up to, so no run is
/// longer than it.
pub proof fn lemma_expand_len<T>(runs: Seq<Run<T>>, i: int)
    requires
        0 <= i < runs.len(),
    ensures
        runs[i].count <= expand(runs).len(),
    decreases runs.len(),
{
    if i < runs.len() - 1 {
        lemma_expand_len(runs.drop_last(), i);
    }
}

/// Packed runs that are not empty write out to a sequence that is not empty
/// and ends in the last run's item.
pub proof fn lemma_expand_last<T>(runs: Seq<Run<T>>)
    requires
        runs.len() > 0,
        counts_positive(runs),
    ensures
        expand(runs).len() > 0,
        expand(runs).last() == runs.last().item,
{
    assert(runs.last() == runs[runs.len() - 1]);
}

/// Encoding loses nothing: the encoding of a sequence that fits the 32-bit
/// counts is packed and writes out to that sequence.
pub proof fn lemma_encode_round_trip<T>(items: Seq<T>)
    requires
        items.len() <= u32::MAX,
    ensures
        is_packed(run_length_encode(items)),
        expand(run_length_encode(items)) == items,
    decreases items.len(),
{
    if items.len() > 0 {
        let head = items.drop_last();
        let x = items.last();
        let before = run_length_encode(head);
        let after = run_length_encode(items);
        lemma_encode_round_trip(head);
        assert(items =~= head + seq![x]);
        if before.len() > 0 && before.last().item == x {
            let c = before.last().count;
            lemma_expand_len(before, before.len() - 1);
            assert(c + 1 <= u32::MAX);
            let grown = Run { count: (c + 1) as u32, item: x };
            assert(after == before.drop_last().push(grown));
            lemma_expand_push(before.drop_last(), grown);
            assert(repeat(x, (c + 1) as nat) =~= repeat(x, c as nat) + seq![x]);
            assert(expand(after) =~= expand(before) + seq![x]);
            assert forall|i: int| 0 <= i < after.len() implies (#[trigger] after[i]).count
                >= 1 by {
                if i < after.len() - 1 {
                    assert(after[i] == before[i]);
                }
            }
            assert forall|i: int, j: int| 0 <= i && j == i + 1 && j < after.len() implies (
            #[trigger] after[i]).item != (#[trigger] after[j]).item by {
                assert(after[i] == before[i]);
                assert(after[j].item == before[j].item);
            }
        } else {
            let fresh = Run { count: 1, item: x };
            assert(after == before.push(fresh));
            lemma_expand_push(before, fresh);
            assert(repeat(x, 1) =~= seq![x]);
            assert forall|i: int| 0 <= i < after.len() implies (#[trigger] after[i]).count
                >= 1 by {
                if i < after.len() - 1 {
                    assert(after[i] == before[i]);
                }
            }
            assert forall|i: int, j: int| 0 <= i && j == i + 1 && j < after.len() implies (
            #[trigger] after[i]).item != (#[trigger] after[j]).item by {
                assert(after[i] == before[i]);
                if j < after.len() - 1 {
                    assert(after[j] == before[j]);
                } else {
                    assert(before.last() == before[i]);
                }
            }
        }
    }
}

/// There is only one packed encoding: packed runs that write out to `items`
/// are the run-length encoding of `items`.
pub proof fn lemma_packed_is_encoding<T>(runs: Seq<Run<T>>, items: Seq<T>)
    requires
        is_packed(runs),
        expand(runs) == items,
    ensures
        runs == run_length_encode(items),
    decreases items.len(),
{
    if runs.len() == 0 {
    } else {
        let last = runs.last();
        let c = last.count;
        let x = last.item;
        let front = runs.drop_last();
        assert(last == runs[runs.len() - 1]);
        lemma_expand_last(runs);
        let head = items.drop_last();
        if c == 1 {
            assert(repeat(x, 1) =~= seq![x]);
            assert(expand(front) =~= head);
            assert(is_packed(front)) by {
                assert forall|i: int| 0 <= i < front.len() implies (#[trigger] front[i]).count
                    >= 1 by {
                    assert(front[i] == runs[i]);
                }
                assert forall|i: int, j: int| 0 <= i && j == i + 1 && j < front.len() implies (
                #[trigger] front[i]).item != (#[trigger] front[j]).item by {
                    assert(front[i] == runs[i]);
                    assert(front[j] == runs[j]);
                }
            }
            lemma_packed_is_encoding(front, head);
            if front.len() > 0 {
                assert(front.last() == runs[runs.len() - 2]);
            }
            assert(front.push(last) =~= runs);
        } else {
            let shrunk = Run { count: (c - 1) as u32, item: x };
            let shorter = front.push(shrunk);
            lemma_expand_push(front, shrunk);
            assert(repeat(x, c as nat) =~= repeat(x, (c - 1) as nat) + seq![x]);
            assert(expand(shorter) =~= head);
            assert(is_packed(shorter)) by {
                assert forall|i: int| 0 <= i < shorter.len() implies (
                #[trigger] shorter[i]).count >= 1 by {
                    if i < shorter.len() - 1 {
                        assert(shorter[i] == runs[i]);
                    }
                }
                assert forall|i: int, j: int|
                    0 <= i && j == i + 1 && j < shorter.len() implies (
                #[trigger] shorter[i]).item != (#[trigger] shorter[j]).item by {
                    assert(shorter[i] == runs[i]);
                    assert(shorter[j].item == runs[j].item);
                }
            }
            lemma_packed_is_encoding(shorter, head);
            assert(shorter.drop_last() =~= front);
            assert(front.push(last) =~= runs);
        }
    }
}

/// Every run that is not empty shows in the written-out form: some position
/// of it holds the run's item.
pub proof fn lemma_expand_holds_items<T>(runs: Seq<Run<T>>, j: int)
    requires
        0 <= j < runs.len(),
        runs[j].count >= 1,
    ensures
        exists|k: int| 0 <= k < expand(runs).len() && expand(runs)[k] == runs[j].item,
    decreases runs.len(),
{
    let front = expand(runs.drop_last());
    if j == runs.len() - 1 {
        assert(expand(runs)[front.len() as int] == runs[j].item);
    } else {
        lemma_expand_holds_items(runs.drop_last(), j);
        let k = choose|k: int| 0 <= k < front.len() && front[k] == runs.drop_last()[j].item;
        assert(expand(runs)[k] == runs[j].item);
    }
}

/// Every position of the written-out form holds the item of some run.
pub proof fn lemma_expand_items_from_runs<T>(runs: Seq<Run<T>>, k: int)
    requires
        0 <= k < expand(runs).len(),
    ensures
        exists|j: int| 0 <= j < runs.len() && runs[j].item == expand(runs)[k],
    decreases runs.len(),
{
    if runs.len() > 0 {
        let front = expand(runs.drop_last());
        if k < front.len() {
            lemma_expand_items_from_runs(runs.drop_last(), k);
            let j = choose|j: int|
                0 <= j < runs.drop_last().len() && runs.drop_last()[j].item == front[k];
            assert(runs[j].item == expand(runs)[k]);
        } else {
            assert(runs[runs.len() - 1].item == expand(runs)[k]);
        }
    }
}

/// An encoding has no more runs than the sequence has items.
pub proof fn lemma_encode_len<T>(items: Seq<T>)
    ensures
        run_length_encode(items).len() <= items.len(),
    decreases items.len(),
{
    if items.len() > 0 {
        lemma_encode_len(items.drop_last());
    }
}

} // verus!
