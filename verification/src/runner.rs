//! The measurement loop: every index gets every query, in an order that no index
//! profits from.
//!
//! A round hands one query to all indexes. Each round starts one index further than
//! the round before. Some rounds warm the indexes up; then every query has a timed
//! round, in which every search is sampled. A latency sample is of one search, and stands
//! with the result of that search. Progress is shown between the rounds, when the samples
//! of a round are taken: it is the same at the start and at the stop of every sample.

use std::time::Duration;

use vstd::prelude::*;

use crate::clock::{Stopwatch, SystemClock, lemma_span_is_kept, spanned};
use crate::io::{Sink, Write};
use crate::progress::{
    Progress, StageModel, advanced, fresh_stage, law_five_milestones, lemma_phase_advance,
    lemma_phase_begin, lemma_phase_finish, lemma_relayed_concat, lemma_relayed_nothing,
    milestone_line, phase_lines,
};
use crate::search::{Search, Searching};

verus! {

/// `std::hint::black_box` hands its argument back; that it keeps the compiler from
/// reasoning about it is not stated.
pub assume_specification<T>[ std::hint::black_box::<T> ](dummy: T) -> (same: T)
    ensures
        same == dummy,
;

/// The latencies of one index, and what it answered, query by query.
#[derive(Debug)]
pub struct TimedRun<T> {
    pub latencies: Vec<Duration>,
    pub results: Vec<T>,
}

/// The index that comes at `offset` in the round of a query.
pub open spec fn index_at(query: int, offset: int, index_count: int) -> int {
    (query + offset) % index_count
}

/// The place of an index in the round of a query.
pub open spec fn offset_of(index: int, query: int, index_count: int) -> int {
    (index - query) % index_count
}

/// How many rounds warm the indexes up.
pub open spec fn warm_rounds(query_count: nat, warm_query_count: nat) -> nat {
    if warm_query_count < query_count {
        warm_query_count
    } else {
        query_count
    }
}

/// The query of a round: the warm-up takes the first queries, the timed pass all.
pub open spec fn round_query(warm: nat, round: int) -> int {
    if round < warm {
        round
    } else {
        round - warm
    }
}

/// The search at `position`, counted over all rounds: its index and its query.
pub open spec fn call_at<Q>(queries: Seq<Q>, index_count: nat, warm: nat, position: int) -> (
    usize,
    Q,
) {
    let query = round_query(warm, position / index_count as int);
    (
        index_at(query, position % index_count as int, index_count as int) as usize,
        queries[query],
    )
}

/// All searches of a run, in order.
pub open spec fn all_calls<Q>(queries: Seq<Q>, index_count: nat, warm_query_count: nat) -> Seq<
    (usize, Q),
> {
    let warm = warm_rounds(queries.len(), warm_query_count);
    Seq::new(
        (warm + queries.len()) * index_count,
        |position: int| call_at(queries, index_count, warm, position),
    )
}

/// Whether a searcher that goes through `states` may answer `calls`, one after the
/// other and all of them well, with `answers`.
pub open spec fn conversed<Q, T, E, S: Search<Q, T, E>>(
    states: Seq<S>,
    calls: Seq<(usize, Q)>,
    answers: Seq<T>,
) -> bool {
    &&& answers.len() == calls.len()
    &&& states.len() == calls.len() + 1
    &&& forall|k: int|
        0 <= k < calls.len() ==> S::answered(
            states[k],
            calls[k].0,
            calls[k].1,
            states[k + 1],
            Ok(#[trigger] answers[k]),
        )
}

/// Whether a clock that goes through `clocks` may measure `samples` of the searches from
/// number `first` on: it is started with the searcher as it is before such a search, and
/// stopped with the searcher as that search leaves it. The progress is the same at the start
/// and at the stop, and in all searches of a round: `shows` has it round by round.
pub open spec fn clocked<S, C: Stopwatch<S, Progress<W>>, W: Write>(
    clocks: Seq<C>,
    states: Seq<S>,
    first: int,
    samples: Seq<Duration>,
    shows: Seq<Progress<W>>,
    index_count: nat,
) -> bool {
    &&& clocks.len() == samples.len() + 1
    &&& forall|k: int|
        0 <= k < samples.len() ==> spanned::<S, Progress<W>, C>(
            clocks[k],
            states[first + k],
            states[first + k + 1],
            shows[k / index_count as int],
            clocks[k + 1],
            #[trigger] samples[k],
        )
}

/// Whether each of `shows` is the progress after as many whole timed rounds as its number
/// says.
pub open spec fn shown_by_rounds<W: Write>(
    before: &Progress<W>,
    shows: Seq<Progress<W>>,
    query_count: nat,
    index_count: nat,
    warm_query_count: nat,
) -> bool {
    let warm = warm_rounds(query_count, warm_query_count);
    forall|round: int|
        0 <= round < shows.len() ==> run_shown(
            before,
            &#[trigger] shows[round],
            query_count,
            index_count,
            warm_query_count,
            (warm + round) as nat,
            false,
        )
}

/// The course of a run: the searcher goes through `states` and gives `answers`; the searches
/// of the timed pass take the clock through `clocks` and measure `samples`; and timed round
/// after timed round has the progress of `shows`.
pub struct Course<S, T, C, W: Write> {
    pub states: Seq<S>,
    pub answers: Seq<T>,
    pub clocks: Seq<C>,
    pub samples: Seq<Duration>,
    pub shows: Seq<Progress<W>>,
}

/// How many searches warm the indexes up.
pub open spec fn warm_calls(query_count: nat, index_count: nat, warm_query_count: nat) -> nat {
    warm_rounds(query_count, warm_query_count) * index_count
}

/// Whether all searches of a run may go well on this course, from `search` and `clock` to
/// `searched` and `left`, with what `runs` holds.
pub open spec fn played<Q, T, E, S: Search<Q, T, E>, C: Stopwatch<S, Progress<W>>, W: Write>(
    search: S,
    clock: C,
    queries: Seq<Q>,
    index_count: nat,
    warm_query_count: nat,
    before: &Progress<W>,
    searched: S,
    left: C,
    runs: Seq<TimedRun<T>>,
    course: Course<S, T, C, W>,
) -> bool {
    let calls = all_calls(queries, index_count, warm_query_count);
    let first = warm_calls(queries.len(), index_count, warm_query_count) as int;
    let warm = warm_rounds(queries.len(), warm_query_count);
    &&& course.states[0] == search
    &&& course.states.last() == searched
    &&& course.clocks[0] == clock
    &&& course.clocks.last() == left
    &&& conversed::<Q, T, E, S>(course.states, calls, course.answers)
    &&& course.samples.len() == queries.len() * index_count
    &&& clocked::<S, C, W>(
        course.clocks,
        course.states,
        first,
        course.samples,
        course.shows,
        index_count,
    )
    &&& course.shows.len() == queries.len()
    &&& shown_by_rounds(before, course.shows, queries.len(), index_count, warm_query_count)
    &&& collected(
        runs,
        course.answers,
        course.samples,
        index_count,
        warm,
        queries.len() as int,
        0,
    )
}

/// Whether the searches of a run may go well on this course, from `search` and `clock`, up
/// to one that takes the searcher to `searched` and fails with `error`. Where that search is
/// of the timed pass, the clock was started for it, with the progress that the run leaves as
/// `after`, and is left running as `left`.
pub open spec fn broke_off<Q, T, E, S: Search<Q, T, E>, C: Stopwatch<S, Progress<W>>, W: Write>(
    search: S,
    clock: C,
    queries: Seq<Q>,
    index_count: nat,
    warm_query_count: nat,
    before: &Progress<W>,
    searched: S,
    left: C,
    after: &Progress<W>,
    error: E,
    course: Course<S, T, C, W>,
) -> bool {
    let calls = all_calls(queries, index_count, warm_query_count);
    let first = warm_calls(queries.len(), index_count, warm_query_count) as int;
    let failed = course.answers.len() as int;
    &&& course.states[0] == search
    &&& course.clocks[0] == clock
    &&& failed < calls.len()
    &&& conversed::<Q, T, E, S>(course.states, calls.take(failed), course.answers)
    &&& S::answered(course.states.last(), calls[failed].0, calls[failed].1, searched, Err(error))
    &&& clocked::<S, C, W>(
        course.clocks,
        course.states,
        first,
        course.samples,
        course.shows,
        index_count,
    )
    &&& shown_by_rounds(before, course.shows, queries.len(), index_count, warm_query_count)
    &&& if failed < first {
        &&& course.samples.len() == 0
        &&& course.shows.len() == 0
        &&& left == course.clocks.last()
    } else {
        &&& course.samples.len() == failed - first
        &&& course.shows.len() == (failed - first) / index_count as int + 1
        &&& course.shows.last() == *after
        &&& C::started(course.clocks.last(), course.states.last(), *after, left)
    }
    &&& run_shown(
        before,
        after,
        queries.len(),
        index_count,
        warm_query_count,
        course.answers.len() / index_count,
        false,
    )
}

/// The stage that counts warm-up rounds.
pub open spec fn warm_stage(index_count: nat, warm_query_count: nat) -> StageModel {
    fresh_stage("warm search"@, "rounds"@, warm_query_count, Some(index_count))
}

/// The stage that counts timed rounds.
pub open spec fn timed_stage(query_count: nat, index_count: nat) -> StageModel {
    fresh_stage("timed search"@, "rounds"@, query_count, Some(index_count))
}

/// The lines of the whole warm-up.
pub open spec fn warm_lines(
    terminal: bool,
    query_count: nat,
    index_count: nat,
    warm_query_count: nat,
) -> Seq<Seq<char>> {
    if warm_query_count > 0 {
        phase_lines(
            terminal,
            warm_stage(index_count, warm_query_count),
            warm_rounds(query_count, warm_query_count),
            true,
        )
    } else {
        seq![]
    }
}

/// The lines that a run has shown after `rounds` rounds, warm-up rounds included.
pub open spec fn run_lines(
    terminal: bool,
    query_count: nat,
    index_count: nat,
    warm_query_count: nat,
    rounds: nat,
    finished: bool,
) -> Seq<Seq<char>> {
    let warm = warm_rounds(query_count, warm_query_count);
    if rounds < warm {
        phase_lines(terminal, warm_stage(index_count, warm_query_count), rounds, false)
    } else {
        warm_lines(terminal, query_count, index_count, warm_query_count) + (if query_count > 0 {
            phase_lines(
                terminal,
                timed_stage(query_count, index_count),
                (rounds - warm) as nat,
                finished,
            )
        } else {
            seq![]
        })
    }
}

/// What is under way after `rounds` rounds of a run that was given up there.
pub open spec fn run_stage(
    query_count: nat,
    index_count: nat,
    warm_query_count: nat,
    rounds: nat,
) -> StageModel {
    let warm = warm_rounds(query_count, warm_query_count);
    if rounds < warm {
        advanced(warm_stage(index_count, warm_query_count), rounds)
    } else {
        advanced(timed_stage(query_count, index_count), (rounds - warm) as nat)
    }
}

/// In the round of a query every index has exactly one place, and every place exactly
/// one index.
pub proof fn law_round_visits_every_index_once(
    query: int,
    index: int,
    offset: int,
    index_count: int,
)
    requires
        0 <= query,
        0 <= index < index_count,
        0 <= offset < index_count,
    ensures
        0 <= offset_of(index, query, index_count) < index_count,
        0 <= index_at(query, offset, index_count) < index_count,
        index_at(query, offset, index_count) == index <==> offset_of(index, query, index_count)
            == offset,
{
    let n = index_count;
    vstd::arithmetic::div_mod::lemma_fundamental_div_mod(query + offset, n);
    vstd::arithmetic::div_mod::lemma_fundamental_div_mod(index - query, n);
    vstd::arithmetic::div_mod::lemma_mod_bound(query + offset, n);
    vstd::arithmetic::div_mod::lemma_mod_bound(index - query, n);
    if index_at(query, offset, n) == index {
        let k = (query + offset) / n;
        assert(index - query == (-k) * n + offset) by (nonlinear_arith)
            requires
                query + offset == n * k + index,
        ;
        vstd::arithmetic::div_mod::lemma_fundamental_div_mod_converse(
            index - query,
            n,
            -k,
            offset,
        );
    }
    if offset_of(index, query, n) == offset {
        let k = (index - query) / n;
        assert(query + offset == (-k) * n + index) by (nonlinear_arith)
            requires
                index - query == n * k + offset,
        ;
        vstd::arithmetic::div_mod::lemma_fundamental_div_mod_converse(
            query + offset,
            n,
            -k,
            index,
        );
    }
}

/// The rounds rotate: the index that opens the round of a query is the one that comes
/// second in the round before.
pub proof fn law_rounds_rotate(query: int, offset: int, index_count: int)
    requires
        index_count > 0,
    ensures
        index_at(query + 1, offset, index_count) == index_at(query, offset + 1, index_count),
        index_at(query + index_count, offset, index_count) == index_at(query, offset, index_count),
{
    vstd::arithmetic::div_mod::lemma_mod_add_multiples_vanish(query + offset, index_count);
}

proof fn lemma_position(round: int, offset: int, index_count: int)
    requires
        0 <= round,
        0 <= offset < index_count,
    ensures
        0 <= round * index_count,
        (round * index_count + offset) / index_count == round,
        (round * index_count + offset) % index_count == offset,
        (round + 1) * index_count == round * index_count + index_count,
{
    assert(0 <= round * index_count) by (nonlinear_arith)
        requires
            0 <= round,
            0 <= index_count,
    ;
    assert((round + 1) * index_count == round * index_count + index_count) by (nonlinear_arith);
    vstd::arithmetic::div_mod::lemma_fundamental_div_mod_converse(
        round * index_count + offset,
        index_count,
        round,
        offset,
    );
}

proof fn lemma_conversed_step<Q, T, E, S: Search<Q, T, E>>(
    states: Seq<S>,
    calls: Seq<(usize, Q)>,
    answers: Seq<T>,
    end: S,
    answer: T,
)
    requires
        answers.len() < calls.len(),
        conversed::<Q, T, E, S>(states, calls.take(answers.len() as int), answers),
        S::answered(
            states.last(),
            calls[answers.len() as int].0,
            calls[answers.len() as int].1,
            end,
            Ok(answer),
        ),
    ensures
        conversed::<Q, T, E, S>(
            states.push(end),
            calls.take(answers.len() as int + 1),
            answers.push(answer),
        ),
{
    let longer = calls.take(answers.len() as int + 1);
    let more = answers.push(answer);
    let visited = states.push(end);
    assert forall|k: int| 0 <= k < longer.len() implies S::answered(
        visited[k],
        longer[k].0,
        longer[k].1,
        visited[k + 1],
        Ok(#[trigger] more[k]),
    ) by {
        if k < answers.len() {
            assert(more[k] == answers[k]);
            assert(calls.take(answers.len() as int)[k] == longer[k]);
        }
    }
}

proof fn lemma_clocked_step<S, C: Stopwatch<S, Progress<W>>, W: Write>(
    clocks: Seq<C>,
    states: Seq<S>,
    first: int,
    samples: Seq<Duration>,
    shows: Seq<Progress<W>>,
    index_count: nat,
    end: S,
    left: C,
    latency: Duration,
)
    requires
        0 <= first,
        states.len() == first + samples.len() + 1,
        clocked::<S, C, W>(clocks, states, first, samples, shows, index_count),
        spanned::<S, Progress<W>, C>(
            clocks.last(),
            states.last(),
            end,
            shows[samples.len() as int / index_count as int],
            left,
            latency,
        ),
    ensures
        clocked::<S, C, W>(
            clocks.push(left),
            states.push(end),
            first,
            samples.push(latency),
            shows,
            index_count,
        ),
{
    let read = clocks.push(left);
    let visited = states.push(end);
    let longer = samples.push(latency);
    assert forall|k: int| 0 <= k < longer.len() implies spanned::<S, Progress<W>, C>(
        read[k],
        visited[first + k],
        visited[first + k + 1],
        shows[k / index_count as int],
        read[k + 1],
        #[trigger] longer[k],
    ) by {
        if k < samples.len() {
            assert(longer[k] == samples[k]);
        }
    }
}

proof fn lemma_clocked_round<S, C: Stopwatch<S, Progress<W>>, W: Write>(
    clocks: Seq<C>,
    states: Seq<S>,
    first: int,
    samples: Seq<Duration>,
    shows: Seq<Progress<W>>,
    index_count: nat,
    shown: Progress<W>,
)
    requires
        index_count > 0,
        samples.len() == shows.len() * index_count,
        clocked::<S, C, W>(clocks, states, first, samples, shows, index_count),
    ensures
        clocked::<S, C, W>(clocks, states, first, samples, shows.push(shown), index_count),
{
    let n = index_count as int;
    let more = shows.push(shown);
    assert forall|k: int| 0 <= k < samples.len() implies spanned::<S, Progress<W>, C>(
        clocks[k],
        states[first + k],
        states[first + k + 1],
        more[k / n],
        clocks[k + 1],
        #[trigger] samples[k],
    ) by {
        assert(0 <= k / n < shows.len()) by (nonlinear_arith)
            requires
                0 <= k < shows.len() * n,
                n > 0,
        ;
        assert(more[k / n] == shows[k / n]);
    }
}

/// The answers and the samples of the timed rounds, as far as they go, sorted by index:
/// `rounds` whole rounds and the first `offset` places of the next.
pub open spec fn collected<T>(
    runs: Seq<TimedRun<T>>,
    answers: Seq<T>,
    samples: Seq<Duration>,
    index_count: nat,
    warm: nat,
    rounds: int,
    offset: int,
) -> bool {
    &&& runs.len() == index_count
    &&& forall|i: int|
        0 <= i < index_count ==> {
            let count = if offset_of(i, rounds, index_count as int) < offset {
                rounds + 1
            } else {
                rounds
            };
            &&& (#[trigger] runs[i]).results@.len() == count
            &&& runs[i].latencies@.len() == count
        }
    &&& forall|i: int, q: int|
        #![trigger runs[i].results@[q]]
        0 <= i < index_count && 0 <= q < runs[i].results@.len() ==> runs[i].results@[q]
            == answers[(warm + q) * index_count + offset_of(i, q, index_count as int)]
    &&& forall|i: int, q: int|
        #![trigger runs[i].latencies@[q]]
        0 <= i < index_count && 0 <= q < runs[i].latencies@.len() ==> runs[i].latencies@[q]
            == samples[q * index_count + offset_of(i, q, index_count as int)]
}

/// What `progress` has shown, and has under way, after some rounds of a run.
pub open spec fn run_shown<W: Write>(
    before: &Progress<W>,
    after: &Progress<W>,
    query_count: nat,
    index_count: nat,
    warm_query_count: nat,
    rounds: nat,
    finished: bool,
) -> bool {
    &&& after.sent_since(
        before,
        run_lines(
            before.on_terminal(),
            query_count,
            index_count,
            warm_query_count,
            rounds,
            finished,
        ),
    )
    &&& after.current() == (if !finished {
        Some(run_stage(query_count, index_count, warm_query_count, rounds))
    } else if query_count == 0 && warm_query_count == 0 {
        before.current()
    } else {
        None
    })
}

/// A run in which no search failed, with every round shown: it leaves the searcher and the
/// clock as the last search did.
pub open spec fn completed<Q, T, E, S: Search<Q, T, E>, C: Stopwatch<S, Progress<W>>, W: Write>(
    search: S,
    clock: C,
    queries: Seq<Q>,
    index_count: nat,
    warm_query_count: nat,
    before: &Progress<W>,
    searched: S,
    left: C,
    after: &Progress<W>,
    runs: Seq<TimedRun<T>>,
) -> bool {
    &&& exists|course: Course<S, T, C, W>| #[trigger]
        played::<Q, T, E, S, C, W>(
            search,
            clock,
            queries,
            index_count,
            warm_query_count,
            before,
            searched,
            left,
            runs,
            course,
        )
    &&& run_shown(
        before,
        after,
        queries.len(),
        index_count,
        warm_query_count,
        warm_rounds(queries.len(), warm_query_count) + queries.len(),
        true,
    )
}

/// A run that ended with the first search that failed, and showed the rounds before it: it
/// leaves the searcher as that search did, and the clock running if it was started for it.
pub open spec fn abandoned<Q, T, E, S: Search<Q, T, E>, C: Stopwatch<S, Progress<W>>, W: Write>(
    search: S,
    clock: C,
    queries: Seq<Q>,
    index_count: nat,
    warm_query_count: nat,
    before: &Progress<W>,
    searched: S,
    left: C,
    after: &Progress<W>,
    error: E,
) -> bool {
    exists|course: Course<S, T, C, W>| #[trigger]
        broke_off::<Q, T, E, S, C, W>(
            search,
            clock,
            queries,
            index_count,
            warm_query_count,
            before,
            searched,
            left,
            after,
            error,
            course,
        )
}

/// What a run gives, shows, and leaves behind.
pub open spec fn run_told<Q, T, E, S: Search<Q, T, E>, C: Stopwatch<S, Progress<W>>, W: Write>(
    search: S,
    clock: C,
    queries: Seq<Q>,
    index_count: nat,
    warm_query_count: nat,
    before: &Progress<W>,
    searched: S,
    left: C,
    after: &Progress<W>,
    result: Result<Vec<TimedRun<T>>, E>,
) -> bool {
    match result {
        Ok(runs) => completed::<Q, T, E, S, C, W>(
            search,
            clock,
            queries,
            index_count,
            warm_query_count,
            before,
            searched,
            left,
            after,
            runs@,
        ),
        Err(error) => abandoned::<Q, T, E, S, C, W>(
            search,
            clock,
            queries,
            index_count,
            warm_query_count,
            before,
            searched,
            left,
            after,
            error,
        ),
    }
}

/// Stores what a sampled search of an index gave.
pub fn record<T>(runs: &mut Vec<TimedRun<T>>, index: usize, latency: Duration, answer: T)
    requires
        index < old(runs)@.len(),
    ensures
        final(runs)@.len() == old(runs)@.len(),
        final(runs)@[index as int].latencies@ == old(runs)@[index as int].latencies@.push(latency),
        final(runs)@[index as int].results@ == old(runs)@[index as int].results@.push(answer),
        forall|i: int|
            0 <= i < old(runs)@.len() && i != index ==> #[trigger] final(runs)@[i] == old(
                runs,
            )@[i],
{
    runs[index].latencies.push(latency);
    runs[index].results.push(std::hint::black_box(answer));
}

/// Warms up every index with the first `warm_query_count` queries and then samples every
/// index on every query. A search that fails ends the run with its error.
#[verifier::rlimit(80)]
#[verifier::spinoff_prover]
pub fn run_sampled<Q, T, E, W: Write, S: Search<Q, T, E>, C: Stopwatch<S, Progress<W>>>(
    queries: &[Q],
    index_count: usize,
    warm_query_count: usize,
    progress: &mut Progress<W>,
    searcher: &mut S,
    clock: &mut C,
) -> (result: Result<Vec<TimedRun<T>>, E>)
    requires
        index_count > 0,
        queries@.len() + index_count <= usize::MAX,
        !old(clock).running(),
        forall|index: usize, q: int|
            index < index_count && 0 <= q < queries@.len() ==> #[trigger] old(searcher).ready(
                index,
                queries@[q],
            ),
    ensures
        old(progress).wf() ==> final(progress).wf(),
        run_told::<Q, T, E, S, C, W>(
            *old(searcher),
            *old(clock),
            queries@,
            index_count as nat,
            warm_query_count as nat,
            old(progress),
            *final(searcher),
            *final(clock),
            final(progress),
            result,
        ),
{
    let ghost search = *searcher;
    let ghost start = *clock;
    let ghost mut states: Seq<S> = seq![search];
    let ghost mut clocks: Seq<C> = seq![start];
    let ghost mut samples: Seq<Duration> = seq![];
    let ghost mut shows: Seq<Progress<W>> = seq![];
    let ghost m = queries@.len();
    let ghost n = index_count as nat;
    let ghost w = warm_query_count as nat;
    let ghost warm = warm_rounds(m, w);
    let ghost calls = all_calls(queries@, n, w);
    let ghost first = warm_calls(m, n, w) as int;
    let ghost mut answers: Seq<T> = seq![];
    let ghost terminal = progress.on_terminal();
    proof {
        assert(calls.take(0) =~= seq![]);
        assert(calls.len() == (warm + m) * n);
        lemma_relayed_nothing(progress.output(), progress.has_failed());
    }
    let rounds: usize = if warm_query_count < queries.len() {
        warm_query_count
    } else {
        queries.len()
    };
    if warm_query_count > 0 {
        progress.begin("warm search", "rounds", warm_query_count, Some(index_count));
        proof {
            lemma_phase_begin(old(progress), progress, warm_stage(n, w));
        }
    }
    let mut round: usize = 0;
    while round < rounds
        invariant
            round <= rounds,
            rounds == warm,
            index_count == n,
            n > 0,
            m == queries@.len(),
            w == warm_query_count,
            warm == warm_rounds(m, w),
            m + n <= usize::MAX,
            calls == all_calls(queries@, n, w),
            states[0] == search,
            states.last() == *searcher,
            search == *old(searcher),
            start == *old(clock),
            clocks[0] == start,
            clocks.last() == *clock,
            !clock.running(),
            first == warm_calls(m, n, w),
            clocked::<S, C, W>(clocks, states, first, samples, shows, n),
            terminal == old(progress).on_terminal(),
            forall|index: usize, q: int|
                index < n && 0 <= q < m ==> #[trigger] searcher.ready(index, queries@[q]),
            answers.len() == round * n,
            clocks == seq![start],
            samples.len() == 0,
            shows.len() == 0,
            conversed::<Q, T, E, S>(states, calls.take(answers.len() as int), answers),
            w > 0 ==> progress.wf() && progress.current() == Some(
                advanced(warm_stage(n, w), round as nat),
            ) && progress.sent_since(
                old(progress),
                phase_lines(terminal, warm_stage(n, w), round as nat, false),
            ),
            w == 0 ==> *progress == *old(progress),
        decreases rounds - round,
    {
        let mut offset: usize = 0;
        while offset < index_count
            invariant
                offset <= index_count,
                round < rounds,
                rounds == warm,
                index_count == n,
                n > 0,
                m == queries@.len(),
                w == warm_query_count,
                warm == warm_rounds(m, w),
                m + n <= usize::MAX,
                calls == all_calls(queries@, n, w),
                states[0] == search,
                states.last() == *searcher,
                search == *old(searcher),
                start == *old(clock),
                clocks[0] == start,
                clocks.last() == *clock,
                !clock.running(),
                first == warm_calls(m, n, w),
                clocked::<S, C, W>(clocks, states, first, samples, shows, n),
                terminal == old(progress).on_terminal(),
                forall|index: usize, q: int|
                    index < n && 0 <= q < m ==> #[trigger] searcher.ready(index, queries@[q]),
                answers.len() == round * n + offset,
                clocks == seq![start],
                samples.len() == 0,
                shows.len() == 0,
                conversed::<Q, T, E, S>(states, calls.take(answers.len() as int), answers),
                progress.wf(),
                progress.current() == Some(advanced(warm_stage(n, w), round as nat)),
                progress.sent_since(
                    old(progress),
                    phase_lines(terminal, warm_stage(n, w), round as nat, false),
                ),
            decreases index_count - offset,
        {
            let index: usize = (round + offset) % index_count;
            proof {
                lemma_position(round as int, offset as int, n as int);
                lemma_call_in_range(warm, m, n, round as int, offset as int);
                lemma_call_in_range(warm, 0, n, round as int, offset as int);
                assert(calls[answers.len() as int] == (index, queries@[round as int]));
            }
            match searcher.search(index, &queries[round]) {
                Ok(answer) => {
                    proof {
                        lemma_conversed_step::<Q, T, E, S>(
                            states,
                            calls,
                            answers,
                            *searcher,
                            answer,
                        );
                        states = states.push(*searcher);
                        answers = answers.push(answer);
                    }
                    let _ = std::hint::black_box(answer);
                },
                Err(error) => {
                    proof {
                        let course = Course { states, answers, clocks, samples, shows };
                        assert(broke_off::<Q, T, E, S, C, W>(
                            search,
                            start,
                            queries@,
                            n,
                            w,
                            old(progress),
                            *searcher,
                            *clock,
                            progress,
                            error,
                            course,
                        ));
                        assert(abandoned::<Q, T, E, S, C, W>(
                            search,
                            start,
                            queries@,
                            n,
                            w,
                            old(progress),
                            *searcher,
                            *clock,
                            progress,
                            error,
                        ));
                    }
                    return Err(error);
                },
            }
            offset = offset + 1;
        }
        let ghost shown = *progress;
        progress.advance(round + 1);
        proof {
            lemma_phase_advance(old(progress), &shown, progress, warm_stage(n, w), round as nat);
            lemma_position(round as int, 0, n as int);
        }
        round = round + 1;
    }
    if warm_query_count > 0 {
        let ghost shown = *progress;
        progress.finish();
        proof {
            lemma_phase_finish(old(progress), &shown, progress, warm_stage(n, w), warm);
        }
    }
    proof {
        if w == 0 {
            lemma_relayed_nothing(progress.output(), progress.has_failed());
        }
    }
    assert(progress.sent_since(old(progress), warm_lines(terminal, m, n, w)));
    let mut runs: Vec<TimedRun<T>> = Vec::new();
    let mut made: usize = 0;
    while made < index_count
        invariant
            made <= index_count,
            runs@.len() == made,
            forall|i: int|
                0 <= i < made ==> (#[trigger] runs@[i]).results@.len() == 0
                    && runs@[i].latencies@.len() == 0,
        decreases index_count - made,
    {
        runs.push(TimedRun { latencies: Vec::new(), results: Vec::new() });
        made = made + 1;
    }
    let ghost warmed = *progress;
    if queries.len() != 0 {
        progress.begin("timed search", "rounds", queries.len(), Some(index_count));
        proof {
            lemma_phase_begin(&warmed, progress, timed_stage(m, n));
        }
    }
    proof {
        assert forall|i: int| 0 <= i < n implies 0 <= #[trigger] offset_of(i, 0, n as int) by {
            law_round_visits_every_index_once(0, i, 0, n as int);
        }
    }
    assert(0 * n == 0) by (nonlinear_arith);
    let mut query: usize = 0;
    while query < queries.len()
        invariant
            query <= m,
            index_count == n,
            n > 0,
            m == queries@.len(),
            w == warm_query_count,
            warm == warm_rounds(m, w),
            m + n <= usize::MAX,
            calls == all_calls(queries@, n, w),
            states[0] == search,
            states.last() == *searcher,
            search == *old(searcher),
            start == *old(clock),
            clocks[0] == start,
            clocks.last() == *clock,
            !clock.running(),
            first == warm_calls(m, n, w),
            clocked::<S, C, W>(clocks, states, first, samples, shows, n),
            terminal == old(progress).on_terminal(),
            warmed.sent_since(old(progress), warm_lines(terminal, m, n, w)),
            forall|index: usize, q: int|
                index < n && 0 <= q < m ==> #[trigger] searcher.ready(index, queries@[q]),
            answers.len() == (warm + query) * n,
            samples.len() == query * n,
            shows.len() == query,
            shown_by_rounds(old(progress), shows, m, n, w),
            first + samples.len() == answers.len(),
            conversed::<Q, T, E, S>(states, calls.take(answers.len() as int), answers),
            collected(runs@, answers, samples, n, warm, query as int, 0),
            m > 0 ==> progress.wf() && progress.current() == Some(
                advanced(timed_stage(m, n), query as nat),
            ) && progress.sent_since(
                &warmed,
                phase_lines(terminal, timed_stage(m, n), query as nat, false),
            ),
            m == 0 ==> *progress == warmed,
        decreases m - query,
    {
        proof {
            lemma_relayed_concat(
                old(progress).output(),
                old(progress).has_failed(),
                warm_lines(terminal, m, n, w),
                warmed.output(),
                warmed.has_failed(),
                phase_lines(terminal, timed_stage(m, n), query as nat, false),
                progress.output(),
                progress.has_failed(),
            );
            assert(run_shown(old(progress), progress, m, n, w, warm + query as nat, false));
            lemma_clocked_round::<S, C, W>(clocks, states, first, samples, shows, n, *progress);
            shows = shows.push(*progress);
        }
        let mut offset: usize = 0;
        while offset < index_count
            invariant
                offset <= index_count,
                query < m,
                index_count == n,
                n > 0,
                m == queries@.len(),
                w == warm_query_count,
                warm == warm_rounds(m, w),
                m + n <= usize::MAX,
                calls == all_calls(queries@, n, w),
                states[0] == search,
                states.last() == *searcher,
                search == *old(searcher),
                start == *old(clock),
                clocks[0] == start,
                clocks.last() == *clock,
                !clock.running(),
                first == warm_calls(m, n, w),
                clocked::<S, C, W>(clocks, states, first, samples, shows, n),
                terminal == old(progress).on_terminal(),
                warmed.sent_since(old(progress), warm_lines(terminal, m, n, w)),
                forall|index: usize, q: int|
                    index < n && 0 <= q < m ==> #[trigger] searcher.ready(index, queries@[q]),
                answers.len() == (warm + query) * n + offset,
                samples.len() == query * n + offset,
                shows.len() == query + 1,
                shows.last() == *progress,
                shown_by_rounds(old(progress), shows, m, n, w),
                first + samples.len() == answers.len(),
                conversed::<Q, T, E, S>(states, calls.take(answers.len() as int), answers),
                collected(runs@, answers, samples, n, warm, query as int, offset as int),
                progress.wf(),
                progress.current() == Some(advanced(timed_stage(m, n), query as nat)),
                progress.sent_since(
                    &warmed,
                    phase_lines(terminal, timed_stage(m, n), query as nat, false),
                ),
            decreases index_count - offset,
        {
            let index: usize = (query + offset) % index_count;
            proof {
                lemma_position(warm + query, offset as int, n as int);
                lemma_position(query as int, offset as int, n as int);
                lemma_call_in_range(warm, m, n, warm + query, offset as int);
                assert(calls[answers.len() as int] == (index, queries@[query as int]));
            }
            let ghost asked = *searcher;
            let ghost ready = *clock;
            clock.start(&*searcher, &*progress);
            let ghost running = *clock;
            match searcher.search(index, &queries[query]) {
                Ok(answer) => {
                    let latency = clock.stop(&*searcher, &*progress);
                    assert(C::stopped(running, *searcher, *progress, *clock, latency));
                    assert(spanned::<S, Progress<W>, C>(
                        ready,
                        asked,
                        *searcher,
                        *progress,
                        *clock,
                        latency,
                    ));
                    let ghost before = runs@;
                    let ghost answered = answers.push(answer);
                    let ghost sampled = samples.push(latency);
                    proof {
                        lemma_conversed_step::<Q, T, E, S>(
                            states,
                            calls,
                            answers,
                            *searcher,
                            answer,
                        );
                        lemma_clocked_step::<S, C, W>(
                            clocks,
                            states,
                            first,
                            samples,
                            shows,
                            n,
                            *searcher,
                            *clock,
                            latency,
                        );
                        states = states.push(*searcher);
                        clocks = clocks.push(*clock);
                    }
                    record(&mut runs, index, latency, answer);
                    proof {
                        lemma_collected_step(
                            before,
                            runs@,
                            answers,
                            answered,
                            samples,
                            sampled,
                            n,
                            warm,
                            query as int,
                            offset as int,
                        );
                        answers = answered;
                        samples = sampled;
                    }
                },
                Err(error) => {
                    proof {
                        let course = Course { states, answers, clocks, samples, shows };
                        assert(broke_off::<Q, T, E, S, C, W>(
                            search,
                            start,
                            queries@,
                            n,
                            w,
                            old(progress),
                            *searcher,
                            *clock,
                            progress,
                            error,
                            course,
                        ));
                        assert(abandoned::<Q, T, E, S, C, W>(
                            search,
                            start,
                            queries@,
                            n,
                            w,
                            old(progress),
                            *searcher,
                            *clock,
                            progress,
                            error,
                        ));
                    }
                    return Err(error);
                },
            }
            offset = offset + 1;
        }
        let ghost shown = *progress;
        progress.advance(query + 1);
        proof {
            lemma_phase_advance(&warmed, &shown, progress, timed_stage(m, n), query as nat);
            lemma_position(warm + query, 0, n as int);
            lemma_position(query as int, 0, n as int);
            lemma_collected_round(runs@, answers, samples, n, warm, query as int);
        }
        query = query + 1;
    }
    if queries.len() != 0 {
        let ghost shown = *progress;
        progress.finish();
        proof {
            lemma_phase_finish(&warmed, &shown, progress, timed_stage(m, n), m);
            lemma_relayed_concat(
                old(progress).output(),
                old(progress).has_failed(),
                warm_lines(terminal, m, n, w),
                warmed.output(),
                warmed.has_failed(),
                phase_lines(terminal, timed_stage(m, n), m, true),
                progress.output(),
                progress.has_failed(),
            );
        }
    }
    proof {
        assert(calls.take(answers.len() as int) =~= calls);
        assert(warm_lines(terminal, m, n, w) + seq![] =~= warm_lines(terminal, m, n, w));
        let course = Course { states, answers, clocks, samples, shows };
        assert(played::<Q, T, E, S, C, W>(
            search,
            start,
            queries@,
            n,
            w,
            old(progress),
            *searcher,
            *clock,
            runs@,
            course,
        ));
        assert(completed::<Q, T, E, S, C, W>(
            search,
            start,
            queries@,
            n,
            w,
            old(progress),
            *searcher,
            *clock,
            progress,
            runs@,
        ));
    }
    Ok(runs)
}

/// Warms up every index with the first `warm_query_count` queries and then times every
/// index on every query by the system clock. A search that fails ends the run with its
/// error.
pub fn run_balanced_with_progress<Q, T, E, W: Write, S: Search<Q, T, E>>(
    queries: &[Q],
    index_count: usize,
    warm_query_count: usize,
    progress: &mut Progress<W>,
    search: &mut S,
) -> (result: Result<Vec<TimedRun<T>>, E>)
    requires
        index_count > 0,
        queries@.len() + index_count <= usize::MAX,
        forall|index: usize, q: int|
            index < index_count && 0 <= q < queries@.len() ==> #[trigger] old(search).ready(
                index,
                queries@[q],
            ),
    ensures
        old(progress).wf() ==> final(progress).wf(),
        exists|clock: SystemClock, left: SystemClock|
            clock.readings().len() == 0 && #[trigger] run_told::<Q, T, E, S, SystemClock, W>(
                *old(search),
                clock,
                queries@,
                index_count as nat,
                warm_query_count as nat,
                old(progress),
                *final(search),
                left,
                final(progress),
                result,
            ),
{
    let mut clock = SystemClock::new();
    run_sampled::<Q, T, E, W, S, SystemClock>(
        queries,
        index_count,
        warm_query_count,
        progress,
        search,
        &mut clock,
    )
}

/// Runs the benchmark without showing progress.
pub fn run_balanced<Q, T, E, S: Search<Q, T, E>>(
    queries: &[Q],
    index_count: usize,
    warm_query_count: usize,
    search: &mut S,
) -> (result: Result<Vec<TimedRun<T>>, E>)
    requires
        index_count > 0,
        queries@.len() + index_count <= usize::MAX,
        forall|index: usize, q: int|
            index < index_count && 0 <= q < queries@.len() ==> #[trigger] old(search).ready(
                index,
                queries@[q],
            ),
    ensures
        exists|
            clock: SystemClock,
            left: SystemClock,
            before: Progress<Sink>,
            after: Progress<Sink>,
        |
            clock.readings().len() == 0 && #[trigger] run_told::<Q, T, E, S, SystemClock, Sink>(
                *old(search),
                clock,
                queries@,
                index_count as nat,
                warm_query_count as nat,
                &before,
                *final(search),
                left,
                &after,
                result,
            ),
{
    let mut progress: Progress<Sink> = Progress::silent();
    run_balanced_with_progress::<Q, T, E, Sink, S>(
        queries,
        index_count,
        warm_query_count,
        &mut progress,
        search,
    )
}

proof fn lemma_call_in_range(warm: nat, m: nat, n: nat, round: int, offset: int)
    requires
        0 <= round < warm + m,
        0 <= offset < n,
    ensures
        round * n + offset < (warm + m) * n,
{
    assert(round * n + offset < (warm + m) * n) by (nonlinear_arith)
        requires
            0 <= round < warm + m,
            0 <= offset < n,
    ;
}

proof fn lemma_collected_step<T>(
    before: Seq<TimedRun<T>>,
    after: Seq<TimedRun<T>>,
    answers: Seq<T>,
    answered: Seq<T>,
    samples: Seq<Duration>,
    sampled: Seq<Duration>,
    n: nat,
    warm: nat,
    query: int,
    offset: int,
)
    requires
        0 <= query,
        0 <= offset < n,
        collected(before, answers, samples, n, warm, query, offset),
        answers.len() == (warm + query) * n + offset,
        answered == answers.push(answered.last()),
        answered.len() == answers.len() + 1,
        samples.len() == query * n + offset,
        sampled == samples.push(sampled.last()),
        sampled.len() == samples.len() + 1,
        after.len() == before.len(),
        ({
            let index = index_at(query, offset, n as int);
            &&& forall|i: int| 0 <= i < n && i != index ==> #[trigger] after[i] == before[i]
            &&& after[index].results@ == before[index].results@.push(answered.last())
            &&& after[index].latencies@ == before[index].latencies@.push(sampled.last())
        }),
    ensures
        collected(after, answered, sampled, n, warm, query, offset + 1),
{
    let index = index_at(query, offset, n as int);
    law_round_visits_every_index_once(query, 0, offset, n as int);
    law_round_visits_every_index_once(query, index, offset, n as int);
    assert forall|i: int| 0 <= i < n implies {
        let count = if offset_of(i, query, n as int) < offset + 1 {
            query + 1
        } else {
            query
        };
        &&& (#[trigger] after[i]).results@.len() == count
        &&& after[i].latencies@.len() == count
    } by {
        law_round_visits_every_index_once(query, i, offset, n as int);
        assert(before[i].latencies@.len() == before[i].results@.len());
    }
    assert forall|i: int, q: int|
        #![trigger after[i].results@[q]]
        0 <= i < n && 0 <= q < after[i].results@.len() implies after[i].results@[q]
        == answered[(warm + q) * n + offset_of(i, q, n as int)] by {
        law_round_visits_every_index_once(query, i, offset, n as int);
        law_round_visits_every_index_once(q, i, offset, n as int);
        if i == index && q == query {
        } else {
            assert(after[i].results@[q] == before[i].results@[q]);
            lemma_earlier_place(warm, n, query, offset, q, offset_of(i, q, n as int));
        }
    }
    assert forall|i: int, q: int|
        #![trigger after[i].latencies@[q]]
        0 <= i < n && 0 <= q < after[i].latencies@.len() implies after[i].latencies@[q]
        == sampled[q * n + offset_of(i, q, n as int)] by {
        law_round_visits_every_index_once(query, i, offset, n as int);
        law_round_visits_every_index_once(q, i, offset, n as int);
        if i == index && q == query {
        } else {
            assert(after[i].latencies@[q] == before[i].latencies@[q]);
            lemma_earlier_place(0, n, query, offset, q, offset_of(i, q, n as int));
        }
    }
}

proof fn lemma_earlier_place(warm: nat, n: nat, query: int, offset: int, q: int, place: int)
    requires
        0 <= q,
        0 <= place < n,
        0 <= offset,
        q < query || (q == query && place < offset),
    ensures
        0 <= (warm + q) * n + place < (warm + query) * n + offset,
{
    assert(0 <= (warm + q) * n) by (nonlinear_arith)
        requires
            0 <= q,
    ;
    if q < query {
        assert((warm + q) * n + n <= (warm + query) * n) by (nonlinear_arith)
            requires
                0 <= q < query,
                0 <= n,
        ;
    }
}

proof fn lemma_collected_round<T>(
    runs: Seq<TimedRun<T>>,
    answers: Seq<T>,
    samples: Seq<Duration>,
    n: nat,
    warm: nat,
    query: int,
)
    requires
        0 <= query,
        n > 0,
        collected(runs, answers, samples, n, warm, query, n as int),
    ensures
        collected(runs, answers, samples, n, warm, query + 1, 0),
{
    assert forall|i: int| 0 <= i < n implies (#[trigger] runs[i]).results@.len() == query + 1
        && runs[i].latencies@.len() == query + 1 && offset_of(i, query + 1, n as int) >= 0 by {
        law_round_visits_every_index_once(query, i, 0, n as int);
        law_round_visits_every_index_once(query + 1, i, 0, n as int);
    }
}

/// The timed pass answers every query on every index once, and the answer that stands
/// for an index and a query is the one that the search for that query on that index
/// gave.
pub proof fn law_every_pair_is_searched<Q>(
    queries: Seq<Q>,
    index_count: nat,
    warm_query_count: nat,
    index: int,
    query: int,
)
    requires
        0 <= index < index_count <= usize::MAX,
        0 <= query < queries.len(),
    ensures
        ({
            let warm = warm_rounds(queries.len(), warm_query_count);
            let calls = all_calls(queries, index_count, warm_query_count);
            let place = (warm + query) * index_count + offset_of(
                index,
                query,
                index_count as int,
            );
            &&& 0 <= place < calls.len()
            &&& calls[place] == (index as usize, queries[query])
        }),
{
    let warm = warm_rounds(queries.len(), warm_query_count);
    let n = index_count as int;
    let offset = offset_of(index, query, n);
    law_round_visits_every_index_once(query, index, 0, n);
    law_round_visits_every_index_once(query, index, offset, n);
    lemma_call_in_range(warm, queries.len(), index_count, warm + query, offset);
    lemma_position(warm + query, offset, n);
}

/// The warm-up takes the leading queries, and never more of them than there are.
pub proof fn law_warm_up_is_bounded(query_count: nat, warm_query_count: nat)
    ensures
        warm_rounds(query_count, warm_query_count) <= query_count,
        warm_rounds(query_count, warm_query_count) <= warm_query_count,
        warm_rounds(query_count, warm_query_count) == query_count || warm_rounds(
            query_count,
            warm_query_count,
        ) == warm_query_count,
{
}

/// The first round goes through the indexes from the first to the last. Every later place of
/// a round has the index after the one before it, and the first index after the last.
pub proof fn law_round_order(query: int, offset: int, index_count: int)
    requires
        0 <= query,
        0 <= offset,
        0 < index_count,
    ensures
        offset < index_count ==> index_at(0, offset, index_count) == offset,
        0 <= index_at(query, offset, index_count) < index_count,
        index_at(query, offset + 1, index_count) == (if index_at(query, offset, index_count) + 1
            == index_count {
            0
        } else {
            index_at(query, offset, index_count) + 1
        }),
{
    let n = index_count;
    let here = query + offset;
    vstd::arithmetic::div_mod::lemma_fundamental_div_mod(here, n);
    vstd::arithmetic::div_mod::lemma_mod_bound(here, n);
    if offset < n {
        vstd::arithmetic::div_mod::lemma_small_mod(offset as nat, n as nat);
    }
    let (k, r) = (here / n, here % n);
    if r + 1 == n {
        assert(here + 1 == (k + 1) * n + 0) by (nonlinear_arith)
            requires
                here == n * k + r,
                r + 1 == n,
        ;
        vstd::arithmetic::div_mod::lemma_fundamental_div_mod_converse(here + 1, n, k + 1, 0);
    } else {
        assert(here + 1 == k * n + (r + 1)) by (nonlinear_arith)
            requires
                here == n * k + r,
        ;
        vstd::arithmetic::div_mod::lemma_fundamental_div_mod_converse(here + 1, n, k, r + 1);
    }
}

/// The searches of a run, round by round: first a round for each leading query, for as many
/// as warm the indexes up, and then a round for each query. A round searches every index for
/// its query, from the index that the query's number gives on.
pub proof fn law_searches_in_order<Q>(
    queries: Seq<Q>,
    index_count: nat,
    warm_query_count: nat,
    query: int,
    offset: int,
)
    requires
        0 <= query < queries.len(),
        0 <= offset < index_count <= usize::MAX,
    ensures
        ({
            let calls = all_calls(queries, index_count, warm_query_count);
            let warm = warm_rounds(queries.len(), warm_query_count);
            let searched = (((query + offset) % (index_count as int)) as usize, queries[query]);
            &&& calls.len() == (warm + queries.len()) * index_count
            &&& query < warm ==> query * index_count + offset < calls.len()
            &&& query < warm ==> calls[query * index_count + offset] == searched
            &&& (warm + query) * index_count + offset < calls.len()
            &&& calls[(warm + query) * index_count + offset] == searched
        }),
{
    let warm = warm_rounds(queries.len(), warm_query_count);
    let n = index_count as int;
    lemma_position(warm + query, offset, n);
    lemma_call_in_range(warm, queries.len(), index_count, warm + query, offset);
    if query < warm {
        lemma_position(query, offset, n);
        lemma_call_in_range(warm, queries.len(), index_count, query, offset);
    }
}

/// After a run, every index has one latency and one result for every query. The result is
/// what a search of that index for that query answered, and the latency is what the clock
/// showed between a start right before that same search and a stop right after it. The
/// progress at the stop is the one at the start, that after the rounds before the query's.
pub proof fn law_samples_belong_to_their_searches<
    Q,
    T,
    E,
    S: Search<Q, T, E>,
    C: Stopwatch<S, Progress<W>>,
    W: Write,
>(
    search: S,
    clock: C,
    queries: Seq<Q>,
    index_count: nat,
    warm_query_count: nat,
    before: &Progress<W>,
    searched: S,
    left: C,
    after: &Progress<W>,
    runs: Seq<TimedRun<T>>,
    index: int,
    query: int,
)
    requires
        0 <= index < index_count <= usize::MAX,
        0 <= query < queries.len(),
        completed::<Q, T, E, S, C, W>(
            search,
            clock,
            queries,
            index_count,
            warm_query_count,
            before,
            searched,
            left,
            after,
            runs,
        ),
    ensures
        runs.len() == index_count,
        runs[index].latencies@.len() == queries.len(),
        runs[index].results@.len() == queries.len(),
        exists|asked: S, done: S, ready: C, running: C, read: C, shown: Progress<W>|
            {
                &&& #[trigger] S::answered(
                    asked,
                    index as usize,
                    queries[query],
                    done,
                    Ok(runs[index].results@[query]),
                )
                &&& #[trigger] C::started(ready, asked, shown, running)
                &&& #[trigger] C::stopped(
                    running,
                    done,
                    shown,
                    read,
                    runs[index].latencies@[query],
                )
                &&& run_shown(
                    before,
                    &shown,
                    queries.len(),
                    index_count,
                    warm_query_count,
                    (warm_rounds(queries.len(), warm_query_count) + query) as nat,
                    false,
                )
            },
{
    let warm = warm_rounds(queries.len(), warm_query_count);
    let calls = all_calls(queries, index_count, warm_query_count);
    let m = queries.len() as int;
    let n = index_count as int;
    let course = choose|course: Course<S, T, C, W>| #[trigger]
        played::<Q, T, E, S, C, W>(
            search,
            clock,
            queries,
            index_count,
            warm_query_count,
            before,
            searched,
            left,
            runs,
            course,
        );
    law_every_pair_is_searched(queries, index_count, warm_query_count, index, query);
    law_round_visits_every_index_once(m, index, 0, n);
    law_round_visits_every_index_once(query, index, 0, n);
    let offset = offset_of(index, query, n);
    let place = (warm + query) * n + offset;
    let k = query * n + offset;
    assert(place == warm_calls(queries.len(), index_count, warm_query_count) + k)
        by (nonlinear_arith)
        requires
            place == (warm + query) * n + offset,
            k == query * n + offset,
            warm_calls(queries.len(), index_count, warm_query_count) == warm * n,
    ;
    lemma_call_in_range(0, queries.len(), index_count, query, offset);
    lemma_position(query, offset, n);
    let Course { states, answers, clocks, samples, shows } = course;
    let shown = shows[query];
    assert(runs[index].results@[query] == answers[place]);
    assert(runs[index].latencies@[query] == samples[k]);
    assert(S::answered(
        states[place],
        calls[place].0,
        calls[place].1,
        states[place + 1],
        Ok(answers[place]),
    ));
    assert(spanned::<S, Progress<W>, C>(
        clocks[k],
        states[place],
        states[place + 1],
        shown,
        clocks[k + 1],
        samples[k],
    ));
    let running = choose|running: C|
        C::started(clocks[k], states[place], shown, running) && #[trigger] C::stopped(
            running,
            states[place + 1],
            shown,
            clocks[k + 1],
            samples[k],
        );
    assert(C::started(clocks[k], states[place], shown, running));
    assert(C::stopped(
        running,
        states[place + 1],
        shown,
        clocks[k + 1],
        runs[index].latencies@[query],
    ));
}

/// The latencies of a run are all that the system clock measured in it, in the order of the
/// searches of the timed pass: none is of the warm-up, and none is missing.
pub proof fn law_every_reading_is_stored<Q, T, E, S: Search<Q, T, E>, W: Write>(
    search: S,
    clock: SystemClock,
    queries: Seq<Q>,
    index_count: nat,
    warm_query_count: nat,
    before: &Progress<W>,
    searched: S,
    left: SystemClock,
    after: &Progress<W>,
    runs: Seq<TimedRun<T>>,
    index: int,
    query: int,
)
    requires
        0 <= index < index_count <= usize::MAX,
        0 <= query < queries.len(),
        clock.readings().len() == 0,
        completed::<Q, T, E, S, SystemClock, W>(
            search,
            clock,
            queries,
            index_count,
            warm_query_count,
            before,
            searched,
            left,
            after,
            runs,
        ),
    ensures
        left.readings().len() == queries.len() * index_count,
        runs[index].latencies@[query] == left.readings()[query * index_count + offset_of(
            index,
            query,
            index_count as int,
        )],
{
    let m = queries.len() as int;
    let n = index_count as int;
    let course = choose|course: Course<S, T, SystemClock, W>| #[trigger]
        played::<Q, T, E, S, SystemClock, W>(
            search,
            clock,
            queries,
            index_count,
            warm_query_count,
            before,
            searched,
            left,
            runs,
            course,
        );
    let first = warm_calls(queries.len(), index_count, warm_query_count) as int;
    let Course { states, clocks, samples, shows, .. } = course;
    lemma_readings::<S, W>(
        clocks,
        states,
        first,
        samples,
        shows,
        index_count,
        samples.len() as int,
    );
    assert(samples.take(samples.len() as int) =~= samples);
    assert(clock.readings() + samples =~= samples);
    law_round_visits_every_index_once(m, index, 0, n);
    assert(runs[index].latencies@.len() == m);
}

proof fn lemma_readings<S, W: Write>(
    clocks: Seq<SystemClock>,
    states: Seq<S>,
    first: int,
    samples: Seq<Duration>,
    shows: Seq<Progress<W>>,
    index_count: nat,
    count: int,
)
    requires
        clocked::<S, SystemClock, W>(clocks, states, first, samples, shows, index_count),
        0 <= count <= samples.len(),
    ensures
        clocks[count].readings() == clocks[0].readings() + samples.take(count),
    decreases count,
{
    if count == 0 {
        assert(clocks[0].readings() + samples.take(0) =~= clocks[0].readings());
    } else {
        let k = count - 1;
        lemma_readings::<S, W>(clocks, states, first, samples, shows, index_count, k);
        let shown = shows[k / index_count as int];
        assert(spanned::<S, Progress<W>, SystemClock>(
            clocks[k],
            states[first + k],
            states[first + k + 1],
            shown,
            clocks[count],
            samples[k],
        ));
        lemma_span_is_kept::<S, Progress<W>>(
            clocks[k],
            states[first + k],
            states[first + k + 1],
            shown,
            clocks[count],
            samples[k],
        );
        assert(clocks[0].readings() + samples.take(count) =~= (clocks[0].readings()
            + samples.take(k)).push(samples[k]));
    }
}

/// Whether a run may have gone through these states of the searcher and got these answers:
/// all of them where it gave results, which are then the answers of the timed pass; those
/// before the failure where it gave an error.
pub open spec fn search_history<Q, T, E, S: Search<Q, T, E>>(
    search: S,
    queries: Seq<Q>,
    index_count: nat,
    warm_query_count: nat,
    states: Seq<S>,
    answers: Seq<T>,
    searched: S,
    result: Result<Vec<TimedRun<T>>, E>,
) -> bool {
    let calls = all_calls(queries, index_count, warm_query_count);
    let warm = warm_rounds(queries.len(), warm_query_count);
    let made = answers.len() as int;
    &&& states[0] == search
    &&& made <= calls.len()
    &&& conversed::<Q, T, E, S>(states, calls.take(made), answers)
    &&& match result {
        Ok(runs) => {
            &&& made == calls.len()
            &&& states.last() == searched
            &&& runs@.len() == index_count
            &&& forall|i: int|
                0 <= i < index_count ==> (#[trigger] runs@[i]).results@.len() == queries.len()
            &&& forall|i: int, q: int|
                #![trigger runs@[i].results@[q]]
                0 <= i < index_count && 0 <= q < queries.len() ==> runs@[i].results@[q]
                    == answers[(warm + q) * index_count + offset_of(i, q, index_count as int)]
        },
        Err(error) => made < calls.len() && S::answered(
            states.last(),
            calls[made].0,
            calls[made].1,
            searched,
            Err(error),
        ),
    }
}

proof fn lemma_history<Q, T, E, S: Search<Q, T, E>, C: Stopwatch<S, Progress<W>>, W: Write>(
    search: S,
    clock: C,
    queries: Seq<Q>,
    index_count: nat,
    warm_query_count: nat,
    before: &Progress<W>,
    searched: S,
    left: C,
    after: &Progress<W>,
    result: Result<Vec<TimedRun<T>>, E>,
) -> (history: (Seq<S>, Seq<T>))
    requires
        run_told::<Q, T, E, S, C, W>(
            search,
            clock,
            queries,
            index_count,
            warm_query_count,
            before,
            searched,
            left,
            after,
            result,
        ),
    ensures
        search_history::<Q, T, E, S>(
            search,
            queries,
            index_count,
            warm_query_count,
            history.0,
            history.1,
            searched,
            result,
        ),
{
    let calls = all_calls(queries, index_count, warm_query_count);
    match result {
        Ok(runs) => {
            let course = choose|course: Course<S, T, C, W>| #[trigger]
                played::<Q, T, E, S, C, W>(
                    search,
                    clock,
                    queries,
                    index_count,
                    warm_query_count,
                    before,
                    searched,
                    left,
                    runs@,
                    course,
                );
            assert(calls.take(calls.len() as int) =~= calls);
            assert forall|i: int| 0 <= i < index_count implies (#[trigger] runs@[i]).results@.len()
                == queries.len() by {
                law_round_visits_every_index_once(
                    queries.len() as int,
                    i,
                    0,
                    index_count as int,
                );
            }
            (course.states, course.answers)
        },
        Err(error) => {
            let course = choose|course: Course<S, T, C, W>| #[trigger]
                broke_off::<Q, T, E, S, C, W>(
                    search,
                    clock,
                    queries,
                    index_count,
                    warm_query_count,
                    before,
                    searched,
                    left,
                    after,
                    error,
                    course,
                );
            (course.states, course.answers)
        },
    }
}

proof fn lemma_function_stays<Q, T, E, F: FnMut(usize, &Q) -> Result<T, E>>(
    states: Seq<Searching<F>>,
    calls: Seq<(usize, Q)>,
    answers: Seq<T>,
    count: int,
)
    requires
        conversed::<Q, T, E, Searching<F>>(states, calls, answers),
        0 <= count <= calls.len(),
    ensures
        states[count] == states[0],
    decreases count,
{
    if count > 0 {
        lemma_function_stays::<Q, T, E, F>(states, calls, answers, count - 1);
        let k = count - 1;
        assert(Search::answered(
            states[k],
            calls[k].0,
            calls[k].1,
            states[k + 1],
            Ok::<T, E>(answers[k]),
        ));
    }
}

/// A run with a function gives results of that function, or fails with an error that the
/// function gave for one of the indexes and one of the queries.
pub proof fn law_function_outcomes<
    Q,
    T,
    E,
    F: FnMut(usize, &Q) -> Result<T, E>,
    C: Stopwatch<Searching<F>, Progress<W>>,
    W: Write,
>(
    search: Searching<F>,
    clock: C,
    queries: Seq<Q>,
    index_count: nat,
    warm_query_count: nat,
    before: &Progress<W>,
    searched: Searching<F>,
    left: C,
    after: &Progress<W>,
    result: Result<Vec<TimedRun<T>>, E>,
)
    requires
        0 < index_count <= usize::MAX,
        run_told::<Q, T, E, Searching<F>, C, W>(
            search,
            clock,
            queries,
            index_count,
            warm_query_count,
            before,
            searched,
            left,
            after,
            result,
        ),
    ensures
        match result {
            Ok(runs) => {
                &&& runs@.len() == index_count
                &&& forall|i: int|
                    0 <= i < index_count ==> (#[trigger] runs@[i]).results@.len() == queries.len()
                &&& forall|i: int, q: int|
                    #![trigger runs@[i].results@[q]]
                    0 <= i < index_count && 0 <= q < queries.len() ==> call_ensures(
                        search.function,
                        (i as usize, &queries[q]),
                        Ok::<T, E>(runs@[i].results@[q]),
                    )
            },
            Err(error) => exists|index: usize, query: int|
                index < index_count && 0 <= query < queries.len() && #[trigger] call_ensures(
                    search.function,
                    (index, &queries[query]),
                    Err::<T, E>(error),
                ),
        },
{
    let calls = all_calls(queries, index_count, warm_query_count);
    let warm = warm_rounds(queries.len(), warm_query_count);
    let n = index_count as int;
    let (states, answers) = lemma_history::<Q, T, E, Searching<F>, C, W>(
        search,
        clock,
        queries,
        index_count,
        warm_query_count,
        before,
        searched,
        left,
        after,
        result,
    );
    let made = answers.len() as int;
    assert(calls.take(calls.len() as int) =~= calls);
    match result {
        Ok(runs) => {
            assert forall|i: int, q: int|
                #![trigger runs@[i].results@[q]]
                0 <= i < index_count && 0 <= q < queries.len() implies call_ensures(
                search.function,
                (i as usize, &queries[q]),
                Ok::<T, E>(runs@[i].results@[q]),
            ) by {
                law_every_pair_is_searched(queries, index_count, warm_query_count, i, q);
                let place = (warm + q) * n + offset_of(i, q, n);
                lemma_function_stays::<Q, T, E, F>(states, calls, answers, place);
                assert(runs@[i].results@[q] == answers[place]);
                assert(Search::answered(
                    states[place],
                    calls[place].0,
                    calls[place].1,
                    states[place + 1],
                    Ok::<T, E>(answers[place]),
                ));
            }
        },
        Err(error) => {
            lemma_function_stays::<Q, T, E, F>(states, calls.take(made), answers, made);
            let round = made / n;
            let query = round_query(warm, round);
            assert(0 <= round < warm + queries.len() && 0 <= made % n < n) by (nonlinear_arith)
                requires
                    0 <= made < (warm + queries.len()) * n,
                    n > 0,
                    round == made / n,
            ;
            let index = index_at(query, made % n, n);
            assert(0 <= index < n) by (nonlinear_arith)
                requires
                    n > 0,
                    index == (query + made % n) % n,
            ;
            assert(calls[made] == (index as usize, queries[query]));
            assert(call_ensures(
                search.function,
                (index as usize, &queries[query]),
                Err::<T, E>(error),
            ));
        },
    }
}

proof fn lemma_trace_grows<Q, T, E, S: Search<Q, T, E>>(
    trace: spec_fn(S) -> Seq<(usize, Q)>,
    states: Seq<S>,
    calls: Seq<(usize, Q)>,
    answers: Seq<T>,
    count: int,
)
    requires
        records_searches::<Q, T, E, S>(trace),
        conversed::<Q, T, E, S>(states, calls, answers),
        0 <= count <= calls.len(),
    ensures
        trace(states[count]) == trace(states[0]) + calls.take(count),
    decreases count,
{
    if count == 0 {
        assert(trace(states[0]) + calls.take(0) =~= trace(states[0]));
    } else {
        let k = count - 1;
        lemma_trace_grows::<Q, T, E, S>(trace, states, calls, answers, k);
        assert(S::answered(states[k], calls[k].0, calls[k].1, states[count], Ok(answers[k])));
        assert(trace(states[0]) + calls.take(count) =~= (trace(states[0]) + calls.take(k)).push(
            calls[k],
        ));
    }
}

/// Whether `trace` tells of a searcher all that it was ever asked for.
pub open spec fn records_searches<Q, T, E, S: Search<Q, T, E>>(
    trace: spec_fn(S) -> Seq<(usize, Q)>,
) -> bool {
    forall|before: S, index: usize, query: Q, after: S, answer: Result<T, E>| #[trigger]
        S::answered(before, index, query, after, answer) ==> trace(after) == trace(before).push(
            (index, query),
        )
}

/// A searcher that records what it is asked for sees exactly the searches of the run, in
/// order: all of them, `(warm + timed queries) * indexes` in number, where the run
/// completes; else those up to the one that failed, and none after it.
pub proof fn law_recorder_sees_every_search<
    Q,
    T,
    E,
    S: Search<Q, T, E>,
    C: Stopwatch<S, Progress<W>>,
    W: Write,
>(
    trace: spec_fn(S) -> Seq<(usize, Q)>,
    search: S,
    clock: C,
    queries: Seq<Q>,
    index_count: nat,
    warm_query_count: nat,
    before: &Progress<W>,
    searched: S,
    left: C,
    after: &Progress<W>,
    result: Result<Vec<TimedRun<T>>, E>,
)
    requires
        records_searches::<Q, T, E, S>(trace),
        run_told::<Q, T, E, S, C, W>(
            search,
            clock,
            queries,
            index_count,
            warm_query_count,
            before,
            searched,
            left,
            after,
            result,
        ),
    ensures
        ({
            let calls = all_calls(queries, index_count, warm_query_count);
            let warm = warm_rounds(queries.len(), warm_query_count);
            &&& calls.len() == (warm + queries.len()) * index_count
            &&& result is Ok ==> trace(searched) == trace(search) + calls
            &&& result is Err ==> exists|made: int|
                0 < made <= calls.len() && trace(searched) == trace(search) + #[trigger] calls.take(
                    made,
                )
        }),
{
    let calls = all_calls(queries, index_count, warm_query_count);
    let (states, answers) = lemma_history::<Q, T, E, S, C, W>(
        search,
        clock,
        queries,
        index_count,
        warm_query_count,
        before,
        searched,
        left,
        after,
        result,
    );
    let made = answers.len() as int;
    lemma_trace_grows::<Q, T, E, S>(trace, states, calls.take(made), answers, made);
    assert(calls.take(made).take(made) =~= calls.take(made));
    if result is Ok {
        assert(calls.take(made) =~= calls);
    } else {
        assert(trace(search) + calls.take(made + 1) =~= (trace(search) + calls.take(made)).push(
            calls[made],
        ));
    }
}

/// Whether a searcher's answers depend on nothing but its state, the index and the query.
pub open spec fn deterministic<Q, T, E, S: Search<Q, T, E>>() -> bool {
    forall|
        before: S,
        index: usize,
        query: Q,
        after: S,
        answer: Result<T, E>,
        again: S,
        other: Result<T, E>,
    |
        #[trigger] S::answered(before, index, query, after, answer) && #[trigger] S::answered(
            before,
            index,
            query,
            again,
            other,
        ) ==> again == after && other == answer
}

/// As far as two conversations with one deterministic searcher both go, they are the same.
proof fn lemma_same_conversation<Q, T, E, S: Search<Q, T, E>>(
    calls: Seq<(usize, Q)>,
    states: Seq<S>,
    answers: Seq<T>,
    other_states: Seq<S>,
    other_answers: Seq<T>,
    count: int,
)
    requires
        deterministic::<Q, T, E, S>(),
        answers.len() <= calls.len(),
        other_answers.len() <= calls.len(),
        conversed::<Q, T, E, S>(states, calls.take(answers.len() as int), answers),
        conversed::<Q, T, E, S>(
            other_states,
            calls.take(other_answers.len() as int),
            other_answers,
        ),
        states[0] == other_states[0],
        0 <= count <= answers.len(),
        count <= other_answers.len(),
    ensures
        states[count] == other_states[count],
        forall|k: int| 0 <= k < count ==> #[trigger] answers[k] == other_answers[k],
    decreases count,
{
    if count > 0 {
        lemma_same_conversation::<Q, T, E, S>(
            calls,
            states,
            answers,
            other_states,
            other_answers,
            count - 1,
        );
        let k = count - 1;
        assert(calls.take(answers.len() as int)[k] == calls[k]);
        assert(calls.take(other_answers.len() as int)[k] == calls[k]);
        assert(S::answered(states[k], calls[k].0, calls[k].1, states[k + 1], Ok(answers[k])));
        assert(S::answered(
            other_states[k],
            calls[k].0,
            calls[k].1,
            other_states[k + 1],
            Ok(other_answers[k]),
        ));
    }
}

/// A conversation with a deterministic searcher cannot go on where another one failed.
proof fn lemma_no_answer_after_failure<Q, T, E, S: Search<Q, T, E>>(
    calls: Seq<(usize, Q)>,
    states: Seq<S>,
    answers: Seq<T>,
    end: S,
    error: E,
    other_states: Seq<S>,
    other_answers: Seq<T>,
)
    requires
        deterministic::<Q, T, E, S>(),
        answers.len() < calls.len(),
        other_answers.len() <= calls.len(),
        conversed::<Q, T, E, S>(states, calls.take(answers.len() as int), answers),
        S::answered(
            states.last(),
            calls[answers.len() as int].0,
            calls[answers.len() as int].1,
            end,
            Err(error),
        ),
        conversed::<Q, T, E, S>(
            other_states,
            calls.take(other_answers.len() as int),
            other_answers,
        ),
        states[0] == other_states[0],
    ensures
        other_answers.len() <= answers.len(),
{
    let k = answers.len() as int;
    if other_answers.len() > k {
        lemma_same_conversation::<Q, T, E, S>(
            calls,
            states,
            answers,
            other_states,
            other_answers,
            k,
        );
        assert(calls.take(other_answers.len() as int)[k] == calls[k]);
        assert(S::answered(
            other_states[k],
            calls[k].0,
            calls[k].1,
            other_states[k + 1],
            Ok(other_answers[k]),
        ));
        let failure: Result<T, E> = Err(error);
        assert(S::answered(other_states[k], calls[k].0, calls[k].1, end, failure));
    }
}

/// What a run finds depends on the searcher alone, not on whether, where or how its progress
/// is shown, nor on the clock. Of two runs of one deterministic searcher with the same
/// queries, either both complete with the same results, or both fail with the same error;
/// both make the same searches and leave the searcher in the same state. In particular a
/// writer that cannot be written to turns no success into a failure.
pub proof fn law_progress_does_not_change_a_run<
    Q,
    T,
    E,
    S: Search<Q, T, E>,
    C: Stopwatch<S, Progress<V>>,
    D: Stopwatch<S, Progress<W>>,
    V: Write,
    W: Write,
>(
    search: S,
    queries: Seq<Q>,
    index_count: nat,
    warm_query_count: nat,
    clock: C,
    before: &Progress<V>,
    searched: S,
    left: C,
    after: &Progress<V>,
    result: Result<Vec<TimedRun<T>>, E>,
    other_clock: D,
    other_before: &Progress<W>,
    other_searched: S,
    other_left: D,
    other_after: &Progress<W>,
    other: Result<Vec<TimedRun<T>>, E>,
)
    requires
        deterministic::<Q, T, E, S>(),
        run_told::<Q, T, E, S, C, V>(
            search,
            clock,
            queries,
            index_count,
            warm_query_count,
            before,
            searched,
            left,
            after,
            result,
        ),
        run_told::<Q, T, E, S, D, W>(
            search,
            other_clock,
            queries,
            index_count,
            warm_query_count,
            other_before,
            other_searched,
            other_left,
            other_after,
            other,
        ),
    ensures
        searched == other_searched,
        match (result, other) {
            (Ok(runs), Ok(others)) => {
                &&& runs@.len() == others@.len() == index_count
                &&& forall|i: int|
                    0 <= i < index_count ==> (#[trigger] runs@[i]).results@ == others@[i].results@
            },
            (Err(error), Err(same)) => error == same,
            _ => false,
        },
        exists|states: Seq<S>, answers: Seq<T>|
            {
                &&& #[trigger] search_history::<Q, T, E, S>(
                    search,
                    queries,
                    index_count,
                    warm_query_count,
                    states,
                    answers,
                    searched,
                    result,
                )
                &&& search_history::<Q, T, E, S>(
                    search,
                    queries,
                    index_count,
                    warm_query_count,
                    states,
                    answers,
                    searched,
                    other,
                )
            },
{
    let calls = all_calls(queries, index_count, warm_query_count);
    let warm = warm_rounds(queries.len(), warm_query_count);
    let m = queries.len() as int;
    let n = index_count as int;
    let (states, answers) = lemma_history::<Q, T, E, S, C, V>(
        search,
        clock,
        queries,
        index_count,
        warm_query_count,
        before,
        searched,
        left,
        after,
        result,
    );
    let (other_states, other_answers) = lemma_history::<Q, T, E, S, D, W>(
        search,
        other_clock,
        queries,
        index_count,
        warm_query_count,
        other_before,
        other_searched,
        other_left,
        other_after,
        other,
    );
    assert(calls.take(calls.len() as int) =~= calls);
    if let Err(error) = result {
        lemma_no_answer_after_failure::<Q, T, E, S>(
            calls,
            states,
            answers,
            searched,
            error,
            other_states,
            other_answers,
        );
    }
    if let Err(error) = other {
        lemma_no_answer_after_failure::<Q, T, E, S>(
            calls,
            other_states,
            other_answers,
            other_searched,
            error,
            states,
            answers,
        );
    }
    let count = answers.len() as int;
    assert(count == other_answers.len());
    lemma_same_conversation::<Q, T, E, S>(
        calls,
        states,
        answers,
        other_states,
        other_answers,
        count,
    );
    assert(answers =~= other_answers);
    assert forall|k: int| 0 <= k < states.len() implies states[k] == other_states[k] by {
        lemma_same_conversation::<Q, T, E, S>(
            calls,
            states,
            answers,
            other_states,
            other_answers,
            k,
        );
    }
    assert(states =~= other_states);
    if let (Ok(runs), Ok(others)) = (result, other) {
        assert forall|i: int| 0 <= i < index_count implies (#[trigger] runs@[i]).results@
            == others@[i].results@ by {
            assert(others@[i].results@.len() == m);
            assert forall|q: int| 0 <= q < m implies runs@[i].results@[q]
                == others@[i].results@[q] by {
                let place = (warm + q) * n + offset_of(i, q, n);
                assert(runs@[i].results@[q] == answers[place]);
                assert(others@[i].results@[q] == other_answers[place]);
            }
            assert(runs@[i].results@ =~= others@[i].results@);
        }
    }
}

/// In a completed run every search was made, in order, each from where the one before it
/// left the searcher, and none of them failed, in the warm-up or after it. What is stored are
/// the answers of the searches after the warm-up.
pub proof fn law_completed_run_has_no_failure<
    Q,
    T,
    E,
    S: Search<Q, T, E>,
    C: Stopwatch<S, Progress<W>>,
    W: Write,
>(
    search: S,
    clock: C,
    queries: Seq<Q>,
    index_count: nat,
    warm_query_count: nat,
    before: &Progress<W>,
    searched: S,
    left: C,
    after: &Progress<W>,
    runs: Seq<TimedRun<T>>,
) -> (course: (Seq<S>, Seq<T>))
    requires
        completed::<Q, T, E, S, C, W>(
            search,
            clock,
            queries,
            index_count,
            warm_query_count,
            before,
            searched,
            left,
            after,
            runs,
        ),
    ensures
        ({
            let calls = all_calls(queries, index_count, warm_query_count);
            &&& course.0.len() == calls.len() + 1
            &&& course.0.first() == search
            &&& course.0.last() == searched
            &&& course.1.len() == calls.len()
            &&& forall|k: int|
                0 <= k < calls.len() ==> S::answered(
                    course.0[k],
                    calls[k].0,
                    calls[k].1,
                    course.0[k + 1],
                    Ok(#[trigger] course.1[k]),
                )
            &&& runs.len() == index_count
            &&& forall|index: int, query: int|
                #![trigger runs[index].results@[query]]
                0 <= index < index_count && 0 <= query < queries.len() ==> {
                    &&& runs[index].results@.len() == queries.len()
                    &&& runs[index].results@[query] == course.1[(warm_rounds(
                        queries.len(),
                        warm_query_count,
                    ) + query) * index_count + offset_of(index, query, index_count as int)]
                }
        }),
{
    let course = choose|course: Course<S, T, C, W>| #[trigger]
        played::<Q, T, E, S, C, W>(
            search,
            clock,
            queries,
            index_count,
            warm_query_count,
            before,
            searched,
            left,
            runs,
            course,
        );
    assert forall|index: int, query: int|
        #![trigger runs[index].results@[query]]
        0 <= index < index_count && 0 <= query < queries.len() implies runs[index].results@.len()
        == queries.len() by {
        law_round_visits_every_index_once(queries.len() as int, index, 0, index_count as int);
    }
    (course.states, course.answers)
}

/// A run that gives an error made the searches up to one that failed with that error, and
/// none after it. What was shown is what the whole rounds before it show.
pub proof fn law_abandoned_run_stops_at_the_failure<
    Q,
    T,
    E,
    S: Search<Q, T, E>,
    C: Stopwatch<S, Progress<W>>,
    W: Write,
>(
    search: S,
    clock: C,
    queries: Seq<Q>,
    index_count: nat,
    warm_query_count: nat,
    before: &Progress<W>,
    searched: S,
    left: C,
    after: &Progress<W>,
    error: E,
) -> (course: (Seq<S>, Seq<T>))
    requires
        index_count > 0,
        abandoned::<Q, T, E, S, C, W>(
            search,
            clock,
            queries,
            index_count,
            warm_query_count,
            before,
            searched,
            left,
            after,
            error,
        ),
    ensures
        ({
            let calls = all_calls(queries, index_count, warm_query_count);
            let warm = warm_rounds(queries.len(), warm_query_count);
            let failed = course.1.len() as int;
            let rounds = (failed / (index_count as int)) as nat;
            let stage = if rounds < warm {
                fresh_stage("warm search"@, "rounds"@, warm_query_count, Some(index_count))
            } else {
                fresh_stage("timed search"@, "rounds"@, queries.len(), Some(index_count))
            };
            let done = (if rounds < warm {
                rounds as int
            } else {
                rounds - warm
            }) as nat;
            &&& failed < calls.len()
            &&& course.0.len() == failed + 1
            &&& course.0.first() == search
            &&& forall|k: int|
                0 <= k < failed ==> S::answered(
                    course.0[k],
                    calls[k].0,
                    calls[k].1,
                    course.0[k + 1],
                    Ok(#[trigger] course.1[k]),
                )
            &&& S::answered(
                course.0.last(),
                calls[failed].0,
                calls[failed].1,
                searched,
                Err(error),
            )
            &&& after.current() == Some(advanced(stage, done))
            &&& after.sent_since(
                before,
                (if rounds < warm || warm_query_count == 0 {
                    seq![]
                } else {
                    phase_lines(
                        before.on_terminal(),
                        fresh_stage(
                            "warm search"@,
                            "rounds"@,
                            warm_query_count,
                            Some(index_count),
                        ),
                        warm,
                        true,
                    )
                }) + phase_lines(before.on_terminal(), stage, done, false),
            )
        }),
{
    let course = choose|course: Course<S, T, C, W>| #[trigger]
        broke_off::<Q, T, E, S, C, W>(
            search,
            clock,
            queries,
            index_count,
            warm_query_count,
            before,
            searched,
            left,
            after,
            error,
            course,
        );
    let calls = all_calls(queries, index_count, warm_query_count);
    let warm = warm_rounds(queries.len(), warm_query_count);
    let failed = course.answers.len() as int;
    let rounds = (failed / (index_count as int)) as nat;
    assert forall|k: int| 0 <= k < failed implies S::answered(
        course.states[k],
        calls[k].0,
        calls[k].1,
        course.states[k + 1],
        Ok(#[trigger] course.answers[k]),
    ) by {
        assert(calls.take(failed)[k] == calls[k]);
    }
    if queries.len() == 0 {
        assert((warm + queries.len()) * index_count == 0) by (nonlinear_arith)
            requires
                warm + queries.len() == 0,
        ;
    }
    if rounds < warm {
        let lines = phase_lines(
            before.on_terminal(),
            warm_stage(index_count, warm_query_count),
            rounds,
            false,
        );
        assert(seq![] + lines =~= lines);
    }
    (course.states, course.answers)
}

/// What a completed run shows: the stage of the warm-up, if one was asked for, and the stage
/// of the timed pass, if there are queries. Both are finished then.
pub proof fn law_completed_run_is_shown<
    Q,
    T,
    E,
    S: Search<Q, T, E>,
    C: Stopwatch<S, Progress<W>>,
    W: Write,
>(
    search: S,
    clock: C,
    queries: Seq<Q>,
    index_count: nat,
    warm_query_count: nat,
    before: &Progress<W>,
    searched: S,
    left: C,
    after: &Progress<W>,
    runs: Seq<TimedRun<T>>,
)
    requires
        completed::<Q, T, E, S, C, W>(
            search,
            clock,
            queries,
            index_count,
            warm_query_count,
            before,
            searched,
            left,
            after,
            runs,
        ),
    ensures
        ({
            let terminal = before.on_terminal();
            let warm = warm_rounds(queries.len(), warm_query_count);
            &&& after.current() == if queries.len() == 0 && warm_query_count == 0 {
                before.current()
            } else {
                None
            }
            &&& after.sent_since(
                before,
                (if warm_query_count == 0 {
                    seq![]
                } else {
                    phase_lines(
                        terminal,
                        fresh_stage(
                            "warm search"@,
                            "rounds"@,
                            warm_query_count,
                            Some(index_count),
                        ),
                        warm,
                        true,
                    )
                }) + (if queries.len() == 0 {
                    seq![]
                } else {
                    phase_lines(
                        terminal,
                        fresh_stage("timed search"@, "rounds"@, queries.len(), Some(index_count)),
                        queries.len(),
                        true,
                    )
                }),
            )
        }),
{
}

/// The five milestones of a stage.
pub open spec fn five_milestones(terminal: bool, stage: StageModel) -> Seq<Seq<char>> {
    seq![
        milestone_line(terminal, stage, 0),
        milestone_line(terminal, stage, 25),
        milestone_line(terminal, stage, 50),
        milestone_line(terminal, stage, 75),
        milestone_line(terminal, stage, 100),
    ]
}

/// A run that completes, with at least as many queries as it warms up with, shows the five
/// milestones of the warm-up and then those of the timed pass.
pub proof fn law_run_shows_both_phases(
    terminal: bool,
    query_count: nat,
    index_count: nat,
    warm_query_count: nat,
)
    requires
        0 < warm_query_count <= query_count,
    ensures
        run_lines(
            terminal,
            query_count,
            index_count,
            warm_query_count,
            warm_rounds(query_count, warm_query_count) + query_count,
            true,
        ) == five_milestones(terminal, warm_stage(index_count, warm_query_count))
            + five_milestones(terminal, timed_stage(query_count, index_count)),
{
    law_five_milestones(
        terminal,
        "warm search"@,
        "rounds"@,
        warm_query_count,
        Some(index_count),
        warm_query_count,
    );
    law_five_milestones(
        terminal,
        "timed search"@,
        "rounds"@,
        query_count,
        Some(index_count),
        query_count,
    );
}

/// A run gives results only if it completed, and an error only if it was abandoned for it.
pub proof fn law_run_completes_or_is_abandoned<
    Q,
    T,
    E,
    S: Search<Q, T, E>,
    C: Stopwatch<S, Progress<W>>,
    W: Write,
>(
    search: S,
    clock: C,
    queries: Seq<Q>,
    index_count: nat,
    warm_query_count: nat,
    before: &Progress<W>,
    searched: S,
    left: C,
    after: &Progress<W>,
    result: Result<Vec<TimedRun<T>>, E>,
)
    requires
        run_told::<Q, T, E, S, C, W>(
            search,
            clock,
            queries,
            index_count,
            warm_query_count,
            before,
            searched,
            left,
            after,
            result,
        ),
    ensures
        result matches Ok(runs) ==> completed::<Q, T, E, S, C, W>(
            search,
            clock,
            queries,
            index_count,
            warm_query_count,
            before,
            searched,
            left,
            after,
            runs@,
        ),
        result matches Err(error) ==> abandoned::<Q, T, E, S, C, W>(
            search,
            clock,
            queries,
            index_count,
            warm_query_count,
            before,
            searched,
            left,
            after,
            error,
        ),
{
}

} // verus!
