//! How good the returned rows are, and which latency stands for how many samples.

use std::collections::HashSet;
use std::time::Duration;

use vstd::multiset::Multiset;
use vstd::prelude::*;

use crate::mode::GROUND_TRUTH_WIDTH;

verus! {

/// Whether the exact first neighbour is among the first 1, 10 and 100 returned rows.
#[derive(Debug, Clone, Copy, PartialEq, Eq)]
pub struct FirstHit {
    pub r1: bool,
    pub r10: bool,
    pub r100: bool,
}

/// Whether `row` is among the first `rank` of `results`.
pub open spec fn hit_within(results: Seq<usize>, row: usize, rank: int) -> bool {
    exists|i: int| 0 <= i < results.len() && i < rank && #[trigger] results[i] == row
}

/// The rows of the exact neighbours that are among the results.
pub open spec fn shared_rows(results: Seq<usize>, exact: Seq<usize>) -> Seq<usize> {
    exact.filter(|row: usize| results.contains(row))
}

/// The zero-based position of the nearest rank of a percentage among `count` samples.
pub open spec fn nearest_rank(count: nat, percent: nat) -> int {
    let rank = (percent * count + 99) / 100;
    if rank == 0 {
        0
    } else {
        rank - 1
    }
}

fn contains_within(results: &[usize], row: usize, rank: usize) -> (hit: bool)
    ensures
        hit == hit_within(results@, row, rank as int),
{
    let mut i: usize = 0;
    while i < results.len() && i < rank
        invariant
            i <= results@.len(),
            i <= rank,
            forall|j: int| 0 <= j < i ==> results@[j] != row,
        decreases results@.len() - i,
    {
        if results[i] == row {
            assert(results@[i as int] == row);
            return true;
        }
        i = i + 1;
    }
    false
}

/// Looks for the exact first neighbour in the leading results.
pub fn first_hit(results: &[usize], exact_first: usize) -> (hit: FirstHit)
    ensures
        hit.r1 == hit_within(results@, exact_first, 1),
        hit.r10 == hit_within(results@, exact_first, 10),
        hit.r100 == hit_within(results@, exact_first, 100),
{
    FirstHit {
        r1: contains_within(results, exact_first, 1),
        r10: contains_within(results, exact_first, 10),
        r100: contains_within(results, exact_first, 100),
    }
}

/// How many hundredths of the exact top 100 are among the results.
pub fn overlap_at_100(results: &[usize], exact_top_100: &[usize]) -> (hundredths: usize)
    requires
        exact_top_100@.len() == GROUND_TRUTH_WIDTH,
    ensures
        hundredths == shared_rows(results@, exact_top_100@).len(),
{
    let mut returned: HashSet<usize> = HashSet::new();
    let mut i: usize = 0;
    while i < results.len()
        invariant
            i <= results@.len(),
            returned@ == results@.take(i as int).to_set(),
        decreases results@.len() - i,
    {
        returned.insert(results[i]);
        proof {
            let longer = results@.take(i + 1);
            assert(longer =~= results@.take(i as int).push(results@[i as int]));
            assert(longer.to_set() =~= results@.take(i as int).to_set().insert(
                results@[i as int],
            )) by {
                broadcast use vstd::seq_lib::group_seq_properties;

            }
        }
        i = i + 1;
    }
    assert(results@.take(results@.len() as int) =~= results@);
    let ghost keep = |row: usize| results@.contains(row);
    let mut hundredths: usize = 0;
    let mut j: usize = 0;
    assert(exact_top_100@.take(0).filter(keep) =~= seq![]) by {
        reveal(Seq::filter);
    }
    while j < exact_top_100.len()
        invariant
            j <= exact_top_100@.len(),
            hundredths <= j,
            returned@ == results@.to_set(),
            keep == (|row: usize| results@.contains(row)),
            hundredths == exact_top_100@.take(j as int).filter(keep).len(),
        decreases exact_top_100@.len() - j,
    {
        proof {
            let longer = exact_top_100@.take(j + 1);
            assert(longer.drop_last() =~= exact_top_100@.take(j as int));
            assert(longer.last() == exact_top_100@[j as int]);
            reveal(Seq::filter);
        }
        if returned.contains(&exact_top_100[j]) {
            hundredths = hundredths + 1;
        }
        j = j + 1;
    }
    assert(exact_top_100@.take(exact_top_100@.len() as int) =~= exact_top_100@);
    hundredths
}

/// The nearest-rank percentile of sorted samples.
pub fn percentile(sorted: &[Duration], percent: usize) -> (sample: Duration)
    requires
        sorted@.len() > 0,
        percent <= 100,
        percent * sorted@.len() <= usize::MAX,
    ensures
        0 <= nearest_rank(sorted@.len(), percent as nat) < sorted@.len(),
        sample == sorted@[nearest_rank(sorted@.len(), percent as nat)],
{
    let count: usize = sorted.len();
    assert(0 <= percent * count <= 100 * count) by (nonlinear_arith)
        requires
            0 <= percent <= 100,
            0 <= count,
    ;
    let scaled: usize = percent * count;
    let rank: usize = scaled / 100 + (if scaled % 100 == 0 {
        0
    } else {
        1
    });
    let position: usize = if rank == 0 {
        0
    } else {
        rank - 1
    };
    sorted[position]
}

/// A hit among fewer rows is a hit among more: the three rates never fall.
pub proof fn law_hits_grow_with_rank(results: Seq<usize>, row: usize, fewer: int, more: int)
    requires
        fewer <= more,
        hit_within(results, row, fewer),
    ensures
        hit_within(results, row, more),
{
}

/// A row that was returned first is a hit at every rank.
pub proof fn law_first_result_hits(results: Seq<usize>, rank: int)
    requires
        results.len() > 0,
        rank >= 1,
    ensures
        hit_within(results, results[0], rank),
{
}

/// Every returned row is a hit at every rank past its position, whatever rows come before
/// it.
pub proof fn law_returned_row_hits(results: Seq<usize>, position: int, rank: int)
    requires
        0 <= position < results.len(),
        position < rank,
    ensures
        hit_within(results, results[position], rank),
{
}

/// A row is a hit exactly when it is in the set of the leading rows: neither their order
/// nor a repeated row matters, nor does anything that was returned after them.
pub proof fn law_hits_are_the_leading_rows(results: Seq<usize>, row: usize, rank: int)
    requires
        0 <= rank,
    ensures
        rank <= results.len() ==> (hit_within(results, row, rank) <==> results.take(
            rank,
        ).to_set().contains(row)),
        rank > results.len() ==> (hit_within(results, row, rank) <==> results.to_set().contains(
            row,
        )),
{
    let lead = if rank <= results.len() {
        results.take(rank)
    } else {
        results
    };
    if hit_within(results, row, rank) {
        let i = choose|i: int| 0 <= i < results.len() && i < rank && #[trigger] results[i] == row;
        assert(lead[i] == row);
        assert(lead.contains(row));
    }
    if lead.contains(row) {
        let i = choose|i: int| 0 <= i < lead.len() && lead[i] == row;
        assert(results[i] == row);
    }
}

/// A row that is not among the leading rows is a miss, and looking at one row more makes a
/// difference only for that row.
pub proof fn law_one_more_rank(results: Seq<usize>, row: usize, rank: int)
    requires
        0 <= rank < results.len(),
    ensures
        hit_within(results, row, rank + 1) <==> hit_within(results, row, rank) || results[rank]
            == row,
        !hit_within(results, row, 0),
{
    if hit_within(results, row, rank + 1) && results[rank] != row {
        let i = choose|i: int|
            0 <= i < results.len() && i < rank + 1 && #[trigger] results[i] == row;
        assert(i < rank);
    }
}

/// The overlap lies between none and all of the exact neighbours.
pub proof fn law_overlap_bounded(results: Seq<usize>, exact: Seq<usize>)
    ensures
        0 <= shared_rows(results, exact).len() <= exact.len(),
{
    exact.lemma_filter_len(|row: usize| results.contains(row));
}

/// Results that hold every exact neighbour overlap in full.
pub proof fn law_overlap_of_complete_results(results: Seq<usize>, exact: Seq<usize>)
    requires
        forall|i: int| 0 <= i < exact.len() ==> results.contains(#[trigger] exact[i]),
    ensures
        shared_rows(results, exact) == exact,
    decreases exact.len(),
{
    reveal(Seq::filter);
    if exact.len() > 0 {
        let fewer = exact.drop_last();
        assert forall|i: int| 0 <= i < fewer.len() implies results.contains(
            #[trigger] fewer[i],
        ) by {
            assert(results.contains(exact[i]));
        }
        law_overlap_of_complete_results(results, fewer);
        assert(results.contains(exact[exact.len() - 1]));
        assert(exact =~= fewer.push(exact.last()));
    } else {
        assert(exact =~= seq![]);
    }
}

/// The order of the exact neighbours does not matter.
pub proof fn law_overlap_ignores_truth_order(
    results: Seq<usize>,
    exact: Seq<usize>,
    permuted: Seq<usize>,
)
    requires
        exact.to_multiset() == permuted.to_multiset(),
    ensures
        shared_rows(results, exact).len() == shared_rows(results, permuted).len(),
{
    let keep = |row: usize| results.contains(row);
    lemma_filter_count(exact, keep);
    lemma_filter_count(permuted, keep);
}

proof fn lemma_filter_count(rows: Seq<usize>, keep: spec_fn(usize) -> bool)
    ensures
        rows.filter(keep).len() == rows.to_multiset().filter(keep).len(),
    decreases rows.len(),
{
    broadcast use vstd::multiset::group_multiset_axioms;
    broadcast use vstd::seq_lib::group_to_multiset_ensures;

    reveal(Seq::filter);
    if rows.len() > 0 {
        let fewer = rows.drop_last();
        let last = rows.last();
        lemma_filter_count(fewer, keep);
        assert(rows =~= fewer.push(last));
        assert(rows.to_multiset() =~= fewer.to_multiset().insert(last));
        if keep(last) {
            assert(rows.to_multiset().filter(keep) =~= fewer.to_multiset().filter(keep).insert(
                last,
            ));
        } else {
            assert(rows.to_multiset().filter(keep) =~= fewer.to_multiset().filter(keep));
        }
    } else {
        assert(rows =~= Seq::empty());
        assert(rows.to_multiset().filter(keep) =~= Multiset::empty());
    }
}

/// Neither the order of the results nor a repeated row matters.
pub proof fn law_overlap_ignores_result_order(
    results: Seq<usize>,
    permuted: Seq<usize>,
    exact: Seq<usize>,
)
    requires
        results.to_set() == permuted.to_set(),
    ensures
        shared_rows(results, exact) == shared_rows(permuted, exact),
{
    assert forall|row: usize| results.contains(row) == permuted.contains(row) by {
        assert(results.to_set().contains(row) == results.contains(row));
        assert(permuted.to_set().contains(row) == permuted.contains(row));
    }
    assert((|row: usize| results.contains(row)) =~= (|row: usize| permuted.contains(row)));
}

/// More results never lower the overlap.
pub proof fn law_overlap_grows_with_results(
    fewer: Seq<usize>,
    more: Seq<usize>,
    exact: Seq<usize>,
)
    requires
        fewer.to_set().subset_of(more.to_set()),
    ensures
        shared_rows(fewer, exact).len() <= shared_rows(more, exact).len(),
    decreases exact.len(),
{
    reveal(Seq::filter);
    if exact.len() > 0 {
        law_overlap_grows_with_results(fewer, more, exact.drop_last());
        let last = exact.last();
        assert(fewer.to_set().contains(last) == fewer.contains(last));
        assert(more.to_set().contains(last) == more.contains(last));
    }
}

/// The overlap with distinct exact neighbours is the number of rows that are both returned
/// and exact.
pub proof fn law_overlap_is_the_intersection(results: Seq<usize>, exact: Seq<usize>)
    requires
        exact.no_duplicates(),
    ensures
        shared_rows(results, exact).len() == results.to_set().intersect(exact.to_set()).len(),
{
    let keep = |row: usize| results.contains(row);
    let shared = shared_rows(results, exact);
    lemma_filter_distinct(exact, keep);
    shared.unique_seq_to_set();
    assert(shared.to_set() =~= results.to_set().intersect(exact.to_set())) by {
        assert forall|row: usize| shared.to_set().contains(row) == results.to_set().intersect(
            exact.to_set(),
        ).contains(row) by {
            if shared.contains(row) {
                let i = choose|i: int| 0 <= i < shared.len() && shared[i] == row;
                exact.lemma_filter_pred(keep, i);
                assert(exact.contains(row));
            }
            if results.contains(row) && exact.contains(row) {
                let i = choose|i: int| 0 <= i < exact.len() && exact[i] == row;
                exact.lemma_filter_contains(keep, i);
            }
        }
    }
}

/// Every exact neighbour counts by itself, also one that is listed twice: one more of them
/// raises the overlap by one if it was returned, and else not at all.
pub proof fn law_every_exact_row_counts_once(results: Seq<usize>, exact: Seq<usize>, row: usize)
    ensures
        shared_rows(results, Seq::empty()).len() == 0,
        shared_rows(results, exact.push(row)).len() == shared_rows(results, exact).len() + (
        if results.to_set().contains(row) {
            1int
        } else {
            0
        }),
{
    reveal(Seq::filter);
    assert(exact.push(row).drop_last() =~= exact);
    assert(results.to_set().contains(row) == results.contains(row));
}

/// One more returned row raises the overlap with distinct exact neighbours by one if it is
/// one of them and was not returned before, and else not at all.
pub proof fn law_one_more_result(results: Seq<usize>, exact: Seq<usize>, row: usize)
    requires
        exact.no_duplicates(),
    ensures
        shared_rows(results.push(row), exact).len() == shared_rows(results, exact).len() + (
        if exact.contains(row) && !results.contains(row) {
            1int
        } else {
            0
        }),
{
    let more = results.push(row);
    law_overlap_is_the_intersection(results, exact);
    law_overlap_is_the_intersection(more, exact);
    let before = results.to_set().intersect(exact.to_set());
    let after = more.to_set().intersect(exact.to_set());
    assert(more.to_set() =~= results.to_set().insert(row)) by {
        assert forall|r: usize| more.to_set().contains(r) == results.to_set().insert(
            row,
        ).contains(r) by {
            if results.contains(r) {
                let i = choose|i: int| 0 <= i < results.len() && results[i] == r;
                assert(more[i] == r);
            }
            assert(more[results.len() as int] == row);
        }
    }
    if exact.contains(row) {
        assert(after =~= before.insert(row));
    } else {
        assert(after =~= before);
    }
}

/// A row that was not returned is a miss: the overlap with distinct exact neighbours
/// never exceeds the number of results.
pub proof fn law_missing_rows_are_misses(results: Seq<usize>, exact: Seq<usize>)
    requires
        exact.no_duplicates(),
    ensures
        shared_rows(results, exact).len() <= results.len(),
{
    let shared = shared_rows(results, exact);
    let keep = |row: usize| results.contains(row);
    lemma_filter_distinct(exact, keep);
    shared.unique_seq_to_set();
    results.lemma_cardinality_of_set();
    assert(shared.to_set().subset_of(results.to_set())) by {
        assert forall|row: usize| shared.to_set().contains(row) implies results.to_set().contains(
            row,
        ) by {
            let i = choose|i: int| 0 <= i < shared.len() && shared[i] == row;
            exact.lemma_filter_pred(keep, i);
        }
    }
    vstd::set_lib::lemma_len_subset(shared.to_set(), results.to_set());
}

proof fn lemma_filter_distinct(rows: Seq<usize>, keep: spec_fn(usize) -> bool)
    requires
        rows.no_duplicates(),
    ensures
        rows.filter(keep).no_duplicates(),
        forall|row: usize| rows.filter(keep).contains(row) ==> #[trigger] rows.contains(row),
    decreases rows.len(),
{
    reveal(Seq::filter);
    if rows.len() > 0 {
        let fewer = rows.drop_last();
        let last = rows.last();
        lemma_filter_distinct(fewer, keep);
        let kept = fewer.filter(keep);
        assert(!fewer.contains(last));
        assert forall|row: usize| rows.filter(keep).contains(row) implies #[trigger] rows.contains(
            row,
        ) by {
            if kept.contains(row) {
                assert(fewer.contains(row));
                let i = choose|i: int| 0 <= i < fewer.len() && fewer[i] == row;
                assert(rows[i] == row);
            } else {
                assert(rows[rows.len() - 1] == last);
            }
        }
        if keep(last) {
            let longer = kept.push(last);
            assert forall|i: int, j: int|
                0 <= i < longer.len() && 0 <= j < longer.len() && i != j implies longer[i]
                != longer[j] by {
                if i < kept.len() {
                    assert(kept.contains(kept[i]));
                }
                if j < kept.len() {
                    assert(kept.contains(kept[j]));
                }
            }
        }
    }
}

/// An exact first neighbour that is among the results counts towards the overlap.
pub proof fn law_hit_counts_towards_overlap(results: Seq<usize>, exact: Seq<usize>, rank: int)
    requires
        exact.len() > 0,
        hit_within(results, exact[0], rank),
    ensures
        shared_rows(results, exact).len() >= 1,
{
    let keep = |row: usize| results.contains(row);
    let i = choose|i: int|
        0 <= i < results.len() && i < rank && #[trigger] results[i] == exact[0];
    assert(results.contains(results[i]));
    exact.lemma_filter_contains(keep, 0);
}

/// The nearest rank is the least one that covers the percentage of the samples: the
/// samples up to it are enough, and without it they are too few.
pub proof fn law_nearest_rank_is_least(count: nat, percent: nat)
    requires
        count > 0,
        percent <= 100,
    ensures
        0 <= nearest_rank(count, percent) < count,
        100 * (nearest_rank(count, percent) + 1) >= percent * count,
        nearest_rank(count, percent) > 0 ==> 100 * nearest_rank(count, percent) < percent * count,
{
    assert(0 <= percent * count <= 100 * count) by (nonlinear_arith)
        requires
            0 <= percent <= 100,
            0 <= count,
    ;
}

/// A higher percentage never selects an earlier sample.
pub proof fn law_nearest_rank_grows(count: nat, lower: nat, higher: nat)
    requires
        lower <= higher,
    ensures
        nearest_rank(count, lower) <= nearest_rank(count, higher),
{
    assert(lower * count <= higher * count) by (nonlinear_arith)
        requires
            lower <= higher,
            0 <= count,
    ;
}

/// The ends of the range: zero percent selects the first sample and all of them the last.
pub proof fn law_nearest_rank_ends(count: nat)
    requires
        count > 0,
    ensures
        nearest_rank(count, 0) == 0,
        nearest_rank(count, 100) == count - 1,
{
}

} // verus!
