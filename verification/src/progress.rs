//! Best-effort progress, written apart from the report.
//!
//! A counted stage shows five milestones, 0%, 25%, 50%, 75% and 100%, each at most
//! once. A writer that refuses a message ends the output for good and nothing else.

use vstd::prelude::*;
use vstd::string::*;
use vstd::utf8::encode_utf8;

use crate::io::{Sink, Write};
use crate::text::{decimal, push_count};

verus! {

/// What a stage counts, and the next milestone that it has not shown yet.
pub struct StageModel {
    pub label: Seq<char>,
    pub unit: Seq<char>,
    pub total: nat,
    pub searches_per_unit: Option<nat>,
    pub next_percent: nat,
}

/// The product of two counts, held at the largest count.
pub open spec fn capped_product(a: nat, b: nat) -> nat {
    if a * b <= usize::MAX {
        a * b
    } else {
        usize::MAX as nat
    }
}

/// How many units a milestone stands for: its share of the total, rounded up.
pub open spec fn units_at(total: nat, percent: nat) -> nat {
    ((capped_product(total, percent) + 99) / 100) as nat
}

/// The counts that a milestone shows.
pub open spec fn milestone_counts(stage: StageModel, percent: nat) -> Seq<char> {
    let units = units_at(stage.total, percent);
    let rounds = stage.unit + "="@ + decimal(units) + "/"@ + decimal(stage.total);
    match stage.searches_per_unit {
        Some(per_unit) => rounds + ", searches="@ + decimal(capped_product(units, per_unit)) + "/"@
            + decimal(capped_product(stage.total, per_unit)),
        None => rounds,
    }
}

/// The text of a milestone. A terminal redraws one line until the stage is done.
pub open spec fn milestone_line(terminal: bool, stage: StageModel, percent: nat) -> Seq<char> {
    (if terminal {
        "\r"@
    } else {
        ""@
    }) + "progress: "@ + stage.label + " "@ + decimal(percent) + "% ("@ + milestone_counts(
        stage,
        percent,
    ) + ")"@ + (if terminal && percent < 100 {
        ""@
    } else {
        "\n"@
    })
}

/// The text of an event that has no counts.
pub open spec fn event_line(label: Seq<char>, state: Seq<char>) -> Seq<char> {
    "progress: "@ + label + " "@ + state + "\n"@
}

/// Whether `completed` of `total` units make up at least `percent` percent.
pub open spec fn reached(total: nat, completed: nat, percent: nat) -> bool {
    capped_product(completed, 100) >= capped_product(percent, total)
}

/// The first milestone from `percent` on that `completed` units do not reach, or 100.
pub open spec fn pending(total: nat, completed: nat, percent: nat) -> nat
    decreases 125 - percent,
{
    if percent < 100 && reached(total, completed, percent) {
        pending(total, completed, percent + 25)
    } else {
        percent
    }
}

/// The milestones from `percent` on, short of 100, that `completed` units reach.
pub open spec fn due_lines(
    terminal: bool,
    stage: StageModel,
    completed: nat,
    percent: nat,
) -> Seq<Seq<char>>
    decreases 125 - percent,
{
    if percent < 100 && reached(stage.total, completed, percent) {
        seq![milestone_line(terminal, stage, percent)] + due_lines(
            terminal,
            stage,
            completed,
            percent + 25,
        )
    } else {
        seq![]
    }
}

/// The stage after `completed` units.
pub open spec fn advanced(stage: StageModel, completed: nat) -> StageModel {
    StageModel { next_percent: pending(stage.total, completed, stage.next_percent), ..stage }
}

/// A stage that has shown no more than its first milestone.
pub open spec fn fresh_stage(
    label: Seq<char>,
    unit: Seq<char>,
    total: nat,
    searches_per_unit: Option<nat>,
) -> StageModel {
    StageModel { label, unit, total, searches_per_unit, next_percent: 25 }
}

/// The bytes of some lines, one after the other.
pub open spec fn encoded(lines: Seq<Seq<char>>) -> Seq<u8>
    decreases lines.len(),
{
    if lines.len() == 0 {
        seq![]
    } else {
        encoded(lines.drop_last()) + encode_utf8(lines.last())
    }
}

/// What becomes of a writer to which one message is sent: the message is written, and
/// flushed if the writer took it. After a refusal, of the write or of the flush, the writer
/// is left alone.
pub open spec fn delivered<W: Write>(
    before: W,
    failed_before: bool,
    message: Seq<u8>,
    after: W,
    failed_after: bool,
) -> bool {
    if failed_before {
        failed_after && after == before
    } else {
        ||| failed_after && W::wrote(before, message, after, false)
        ||| exists|written: W| #[trigger]
            W::wrote(before, message, written, true) && W::flushed(written, after, !failed_after)
    }
}

/// What becomes of a writer to which `lines` are sent in order, one message each.
pub open spec fn relayed<W: Write>(
    before: W,
    failed_before: bool,
    lines: Seq<Seq<char>>,
    after: W,
    failed_after: bool,
) -> bool
    decreases lines.len(),
{
    if lines.len() == 0 {
        after == before && failed_after == failed_before
    } else {
        exists|middle: W, failed: bool|
            {
                &&& relayed(before, failed_before, lines.drop_last(), middle, failed)
                &&& #[trigger] delivered(
                    middle,
                    failed,
                    encode_utf8(lines.last()),
                    after,
                    failed_after,
                )
            }
    }
}

/// Sending some lines and then some more is sending all of them.
pub proof fn lemma_relayed_concat<W: Write>(
    before: W,
    failed_before: bool,
    first: Seq<Seq<char>>,
    middle: W,
    failed_middle: bool,
    second: Seq<Seq<char>>,
    after: W,
    failed_after: bool,
)
    requires
        relayed(before, failed_before, first, middle, failed_middle),
        relayed(middle, failed_middle, second, after, failed_after),
    ensures
        relayed(before, failed_before, first + second, after, failed_after),
    decreases second.len(),
{
    if second.len() == 0 {
        assert(first + second =~= first);
    } else {
        let message = encode_utf8(second.last());
        let (late, failed) = choose|late: W, failed: bool|
            {
                &&& relayed(middle, failed_middle, second.drop_last(), late, failed)
                &&& #[trigger] delivered(late, failed, message, after, failed_after)
            };
        lemma_relayed_concat(
            before,
            failed_before,
            first,
            middle,
            failed_middle,
            second.drop_last(),
            late,
            failed,
        );
        assert((first + second).drop_last() =~= first + second.drop_last());
        assert((first + second).last() == second.last());
        assert(delivered(late, failed, message, after, failed_after));
    }
}

/// Sending nothing changes nothing.
pub proof fn lemma_relayed_nothing<W: Write>(writer: W, failed: bool)
    ensures
        relayed(writer, failed, seq![], writer, failed),
{
}

/// Sending one message.
proof fn lemma_relayed_one<W: Write>(
    before: W,
    failed_before: bool,
    line: Seq<char>,
    after: W,
    failed_after: bool,
)
    requires
        delivered(before, failed_before, encode_utf8(line), after, failed_after),
    ensures
        relayed(before, failed_before, seq![line], after, failed_after),
{
    let lines = seq![line];
    assert(lines.drop_last() =~= seq![]);
    lemma_relayed_nothing(before, failed_before);
    assert(relayed(before, failed_before, lines.drop_last(), before, failed_before));
    assert(delivered(before, failed_before, encode_utf8(lines.last()), after, failed_after));
}

/// The lines that a stage has shown once `completed` units are done, and with the
/// last milestone where it is finished.
pub open spec fn phase_lines(
    terminal: bool,
    stage: StageModel,
    completed: nat,
    finished: bool,
) -> Seq<Seq<char>> {
    seq![milestone_line(terminal, stage, 0)] + due_lines(
        terminal,
        stage,
        completed,
        stage.next_percent,
    ) + (if finished {
        seq![milestone_line(terminal, stage, 100)]
    } else {
        seq![]
    })
}

/// What is under way once `completed` units of a stage are done.
pub open spec fn phase_stage(stage: StageModel, completed: nat, finished: bool) -> Option<
    StageModel,
> {
    if finished {
        None
    } else {
        Some(advanced(stage, completed))
    }
}

proof fn lemma_due_step(
    terminal: bool,
    stage: StageModel,
    fewer: nat,
    more: nat,
    percent: nat,
    later: StageModel,
)
    requires
        fewer <= more,
        later == (StageModel { next_percent: later.next_percent, ..stage }),
    ensures
        pending(stage.total, more, pending(stage.total, fewer, percent)) == pending(
            stage.total,
            more,
            percent,
        ),
        due_lines(terminal, stage, fewer, percent) + due_lines(
            terminal,
            later,
            more,
            pending(stage.total, fewer, percent),
        ) == due_lines(terminal, stage, more, percent),
    decreases 125 - percent,
{
    assert(capped_product(fewer, 100) <= capped_product(more, 100));
    if percent < 100 && reached(stage.total, fewer, percent) {
        lemma_due_step(terminal, stage, fewer, more, percent + 25, later);
        let line = seq![milestone_line(terminal, stage, percent)];
        assert(due_lines(terminal, stage, fewer, percent) + due_lines(
            terminal,
            later,
            more,
            pending(stage.total, fewer, percent),
        ) =~= line + (due_lines(terminal, stage, fewer, percent + 25) + due_lines(
            terminal,
            later,
            more,
            pending(stage.total, fewer, percent + 25),
        )));
    } else {
        lemma_due_relabel(terminal, stage, more, percent, later);
        assert(due_lines(terminal, stage, fewer, percent) + due_lines(
            terminal,
            later,
            more,
            percent,
        ) =~= due_lines(terminal, stage, more, percent));
    }
}

proof fn lemma_due_relabel(
    terminal: bool,
    stage: StageModel,
    completed: nat,
    percent: nat,
    later: StageModel,
)
    requires
        later == (StageModel { next_percent: later.next_percent, ..stage }),
    ensures
        due_lines(terminal, later, completed, percent) == due_lines(
            terminal,
            stage,
            completed,
            percent,
        ),
    decreases 125 - percent,
{
    if percent < 100 {
        lemma_due_relabel(terminal, stage, completed, percent + 25, later);
        assert(milestone_line(terminal, later, percent) == milestone_line(
            terminal,
            stage,
            percent,
        ));
    }
}

/// It does not matter in how many steps a stage advances: advancing to `fewer` units
/// and then to `more` shows the same lines, and leaves the same stage, as advancing
/// to `more` at once. In particular no milestone is ever shown twice.
pub proof fn law_advance_in_steps(terminal: bool, stage: StageModel, fewer: nat, more: nat)
    requires
        fewer <= more,
    ensures
        advanced(advanced(stage, fewer), more) == advanced(stage, more),
        due_lines(terminal, stage, fewer, stage.next_percent) + due_lines(
            terminal,
            advanced(stage, fewer),
            more,
            advanced(stage, fewer).next_percent,
        ) == due_lines(terminal, stage, more, stage.next_percent),
{
    lemma_due_step(
        terminal,
        stage,
        fewer,
        more,
        stage.next_percent,
        advanced(stage, fewer),
    );
}

/// Going back, or standing still, shows nothing and changes nothing.
pub proof fn law_advance_backwards(terminal: bool, stage: StageModel, fewer: nat, more: nat)
    requires
        fewer <= more,
    ensures
        advanced(advanced(stage, more), fewer) == advanced(stage, more),
        due_lines(
            terminal,
            advanced(stage, more),
            fewer,
            advanced(stage, more).next_percent,
        ).len() == 0,
{
    lemma_pending_unreached(stage.total, more, stage.next_percent);
    assert(capped_product(fewer, 100) <= capped_product(more, 100));
}

proof fn lemma_pending_unreached(total: nat, completed: nat, percent: nat)
    ensures
        pending(total, completed, percent) < 100 ==> !reached(
            total,
            completed,
            pending(total, completed, percent),
        ),
    decreases 125 - percent,
{
    if percent < 100 && reached(total, completed, percent) {
        lemma_pending_unreached(total, completed, percent + 25);
    }
}

/// A stage that counts all its units and is then finished shows exactly the five
/// milestones, in order.
pub proof fn law_five_milestones(
    terminal: bool,
    label: Seq<char>,
    unit: Seq<char>,
    total: nat,
    searches_per_unit: Option<nat>,
    completed: nat,
)
    requires
        0 < total <= completed,
    ensures
        ({
            let stage = fresh_stage(label, unit, total, searches_per_unit);
            phase_lines(terminal, stage, completed, true) == seq![
                milestone_line(terminal, stage, 0),
                milestone_line(terminal, stage, 25),
                milestone_line(terminal, stage, 50),
                milestone_line(terminal, stage, 75),
                milestone_line(terminal, stage, 100),
            ]
        }),
{
    let stage = fresh_stage(label, unit, total, searches_per_unit);
    assert(25 * total <= completed * 100);
    assert(50 * total <= completed * 100);
    assert(75 * total <= completed * 100);
    reveal_with_fuel(due_lines, 4);
    assert(phase_lines(terminal, stage, completed, true) =~= seq![
        milestone_line(terminal, stage, 0),
        milestone_line(terminal, stage, 25),
        milestone_line(terminal, stage, 50),
        milestone_line(terminal, stage, 75),
        milestone_line(terminal, stage, 100),
    ]);
}

/// However a stage goes, it shows no more than five milestones.
pub proof fn law_milestones_are_bounded(
    terminal: bool,
    label: Seq<char>,
    unit: Seq<char>,
    total: nat,
    searches_per_unit: Option<nat>,
    completed: nat,
    finished: bool,
)
    ensures
        phase_lines(
            terminal,
            fresh_stage(label, unit, total, searches_per_unit),
            completed,
            finished,
        ).len() <= 5,
{
    reveal_with_fuel(due_lines, 4);
}

/// A milestone between the first and the last is past exactly when its share of the units
/// is done.
pub proof fn law_milestones_are_earned(total: nat, completed: nat, percent: nat)
    requires
        percent == 25 || percent == 50 || percent == 75,
    ensures
        percent < pending(total, completed, 25) <==> reached(total, completed, percent),
        percent * total <= usize::MAX ==> (reached(total, completed, percent) <==> 100 * completed
            >= percent * total),
{
    reveal_with_fuel(pending, 4);
}

/// Before any unit is done only the first milestone shows.
pub proof fn law_nothing_due_at_the_start(terminal: bool, stage: StageModel)
    requires
        stage.total > 0,
        stage.next_percent > 0,
    ensures
        advanced(stage, 0) == stage,
        due_lines(terminal, stage, 0, stage.next_percent).len() == 0,
{
    assert(stage.next_percent * stage.total > 0) by (nonlinear_arith)
        requires
            stage.next_percent > 0,
            stage.total > 0,
    ;
}

/// The last milestone of a stage accounts for every unit and, where searches are
/// counted, for every search, as long as a hundred times the total is a count.
pub proof fn law_last_milestone_is_complete(stage: StageModel)
    requires
        stage.total * 100 <= usize::MAX,
    ensures
        units_at(stage.total, 0) == 0,
        units_at(stage.total, 100) == stage.total,
        stage.searches_per_unit matches Some(per_unit) ==> capped_product(
            units_at(stage.total, 100),
            per_unit,
        ) == capped_product(stage.total, per_unit),
{
}

/// A refusal is for good: whatever is sent after it, the writer is left alone.
pub proof fn law_refusal_is_final<W: Write>(
    before: W,
    lines: Seq<Seq<char>>,
    after: W,
    failed_after: bool,
)
    requires
        relayed(before, true, lines, after, failed_after),
    ensures
        failed_after,
        after == before,
    decreases lines.len(),
{
    if lines.len() > 0 {
        let (middle, failed) = choose|middle: W, failed: bool|
            {
                &&& relayed(before, true, lines.drop_last(), middle, failed)
                &&& #[trigger] delivered(
                    middle,
                    failed,
                    encode_utf8(lines.last()),
                    after,
                    failed_after,
                )
            };
        law_refusal_is_final(before, lines.drop_last(), middle, failed);
    }
}

/// Sending one message makes no call after a refusal. Else it makes one write and, only if
/// that was taken, one flush, and it fails exactly when one of the two was refused.
pub proof fn law_one_message<W: Write>(
    before: W,
    failed_before: bool,
    line: Seq<char>,
    after: W,
    failed_after: bool,
)
    requires
        relayed(before, failed_before, seq![line], after, failed_after),
    ensures
        failed_before ==> failed_after && after == before,
        !failed_before ==> exists|written: W, taken: bool|
            {
                &&& #[trigger] W::wrote(before, encode_utf8(line), written, taken)
                &&& !taken ==> failed_after && after == written
                &&& taken ==> W::flushed(written, after, !failed_after)
            },
{
    let lines = seq![line];
    let (middle, failed) = choose|middle: W, failed: bool|
        {
            &&& relayed(before, failed_before, lines.drop_last(), middle, failed)
            &&& #[trigger] delivered(
                middle,
                failed,
                encode_utf8(lines.last()),
                after,
                failed_after,
            )
        };
    assert(lines.drop_last() =~= seq![]);
    assert(middle == before && failed == failed_before);
    if !failed_before && !(failed_after && W::wrote(before, encode_utf8(line), after, false)) {
        let written = choose|written: W| #[trigger]
            W::wrote(before, encode_utf8(line), written, true) && W::flushed(
                written,
                after,
                !failed_after,
            );
        assert(W::wrote(before, encode_utf8(line), written, true));
    }
}

/// The first of some lines goes out first, and the others after it.
proof fn lemma_relayed_first<W: Write>(
    before: W,
    failed_before: bool,
    lines: Seq<Seq<char>>,
    after: W,
    failed_after: bool,
) -> (next: (W, bool))
    requires
        lines.len() > 0,
        relayed(before, failed_before, lines, after, failed_after),
    ensures
        delivered(before, failed_before, encode_utf8(lines[0]), next.0, next.1),
        relayed(next.0, next.1, lines.drop_first(), after, failed_after),
    decreases lines.len(),
{
    let (middle, failed) = choose|middle: W, failed: bool|
        {
            &&& relayed(before, failed_before, lines.drop_last(), middle, failed)
            &&& #[trigger] delivered(
                middle,
                failed,
                encode_utf8(lines.last()),
                after,
                failed_after,
            )
        };
    if lines.len() == 1 {
        assert(lines.drop_last() =~= seq![]);
        assert(lines.drop_first() =~= seq![]);
        (after, failed_after)
    } else {
        let next = lemma_relayed_first(before, failed_before, lines.drop_last(), middle, failed);
        assert(lines.drop_last().drop_first() =~= lines.drop_first().drop_last());
        assert(lines.drop_first().last() == lines.last());
        assert(delivered(
            middle,
            failed,
            encode_utf8(lines.drop_first().last()),
            after,
            failed_after,
        ));
        next
    }
}

/// The lines go out one by one and in order: where there are some, the first of them is sent
/// before all others.
pub proof fn law_lines_go_out_in_order<W: Write>(
    before: W,
    failed_before: bool,
    lines: Seq<Seq<char>>,
    after: W,
    failed_after: bool,
) -> (next: (W, bool))
    requires
        relayed(before, failed_before, lines, after, failed_after),
    ensures
        lines.len() == 0 ==> after == before && failed_after == failed_before,
        lines.len() > 0 ==> {
            &&& relayed(before, failed_before, seq![lines[0]], next.0, next.1)
            &&& relayed(next.0, next.1, lines.skip(1), after, failed_after)
        },
{
    if lines.len() > 0 {
        let next = lemma_relayed_first(before, failed_before, lines, after, failed_after);
        lemma_relayed_one(before, failed_before, lines[0], next.0, next.1);
        assert(lines.drop_first() =~= lines.skip(1));
        next
    } else {
        (after, failed_after)
    }
}

/// A writer that refuses every write, as long as `kept` holds of it, gets one write and no
/// flush, whatever is sent: the first line is tried, and nothing after it.
pub proof fn law_broken_writer_is_tried_once<W: Write>(
    kept: spec_fn(W) -> bool,
    before: W,
    lines: Seq<Seq<char>>,
    after: W,
    failed_after: bool,
)
    requires
        lines.len() > 0,
        kept(before),
        forall|writer: W, bytes: Seq<u8>, next: W, taken: bool|
            kept(writer) && #[trigger] W::wrote(writer, bytes, next, taken) ==> !taken,
        relayed(before, false, lines, after, failed_after),
    ensures
        failed_after,
        W::wrote(before, encode_utf8(lines[0]), after, false),
{
    let next = lemma_relayed_first(before, false, lines, after, failed_after);
    law_refusal_is_final(next.0, lines.drop_first(), after, failed_after);
}

/// A writer that refuses nothing, as long as `kept` holds of it, never makes progress fail.
pub proof fn law_reliable_writer_never_fails<W: Write>(
    kept: spec_fn(W) -> bool,
    before: W,
    lines: Seq<Seq<char>>,
    after: W,
    failed_after: bool,
)
    requires
        kept(before),
        forall|writer: W, bytes: Seq<u8>, next: W, taken: bool|
            kept(writer) && #[trigger] W::wrote(writer, bytes, next, taken) ==> taken && kept(next),
        forall|writer: W, next: W, done: bool|
            kept(writer) && #[trigger] W::flushed(writer, next, done) ==> done && kept(next),
        relayed(before, false, lines, after, failed_after),
    ensures
        !failed_after,
        kept(after),
    decreases lines.len(),
{
    if lines.len() > 0 {
        let (middle, failed) = choose|middle: W, failed: bool|
            {
                &&& relayed(before, false, lines.drop_last(), middle, failed)
                &&& #[trigger] delivered(
                    middle,
                    failed,
                    encode_utf8(lines.last()),
                    after,
                    failed_after,
                )
            };
        law_reliable_writer_never_fails(kept, before, lines.drop_last(), middle, failed);
    }
}

/// Nothing is held back: where no refusal came, the last call was a flush, and it went
/// well.
pub proof fn law_everything_is_flushed<W: Write>(
    before: W,
    lines: Seq<Seq<char>>,
    after: W,
)
    requires
        lines.len() > 0,
        relayed(before, false, lines, after, false),
    ensures
        exists|written: W| #[trigger] W::flushed(written, after, true),
{
    let (middle, failed) = choose|middle: W, failed: bool|
        {
            &&& relayed(before, false, lines.drop_last(), middle, failed)
            &&& #[trigger] delivered(middle, failed, encode_utf8(lines.last()), after, false)
        };
    let written = choose|written: W| #[trigger]
        W::wrote(middle, encode_utf8(lines.last()), written, true) && W::flushed(
            written,
            after,
            true,
        );
    assert(W::flushed(written, after, true));
}

/// A byte vector takes every line, so that it ends with exactly the bytes of the lines.
pub proof fn law_vector_keeps_every_line(
    before: Vec<u8>,
    lines: Seq<Seq<char>>,
    after: Vec<u8>,
    failed_after: bool,
)
    requires
        relayed(before, false, lines, after, failed_after),
    ensures
        !failed_after,
        after@ == before@ + encoded(lines),
    decreases lines.len(),
{
    if lines.len() == 0 {
        assert(before@ + encoded(lines) =~= before@);
    } else {
        let (middle, failed) = choose|middle: Vec<u8>, failed: bool|
            {
                &&& relayed(before, false, lines.drop_last(), middle, failed)
                &&& #[trigger] delivered(
                    middle,
                    failed,
                    encode_utf8(lines.last()),
                    after,
                    failed_after,
                )
            };
        law_vector_keeps_every_line(before, lines.drop_last(), middle, failed);
        assert(after@ =~= before@ + encoded(lines));
    }
}

/// The bytes of some lines are those of the lines one after the other.
pub proof fn law_encoded_lines(line: Seq<char>, first: Seq<Seq<char>>, second: Seq<Seq<char>>)
    ensures
        encoded(Seq::empty()).len() == 0,
        encoded(seq![line]) == encode_utf8(line),
        encoded(first + second) == encoded(first) + encoded(second),
    decreases second.len(),
{
    let one = seq![line];
    assert(one.drop_last() =~= seq![]);
    assert(encoded(one) =~= encode_utf8(line)) by {
        assert(encoded(one.drop_last()) =~= seq![]);
    }
    if second.len() == 0 {
        assert(first + second =~= first);
        assert(encoded(first) + encoded(second) =~= encoded(first));
    } else {
        law_encoded_lines(line, first, second.drop_last());
        assert((first + second).drop_last() =~= first + second.drop_last());
        assert(encoded(first + second) =~= encoded(first) + encoded(second));
    }
}

/// A product of counts is the product, unless that is no count: then it is the largest one.
pub proof fn law_products_are_capped(a: nat, b: nat)
    ensures
        capped_product(a, b) <= usize::MAX,
        capped_product(a, b) <= a * b,
        capped_product(a, b) == usize::MAX || capped_product(a, b) == a * b,
{
}

/// What a milestone says: the label, the percentage, how many units that takes at least,
/// and out of how many; where searches are counted, the same in searches. It ends its line,
/// but on a terminal it starts at the front of the line and only the last one ends it.
pub proof fn law_milestone_text(terminal: bool, stage: StageModel, percent: nat, units: nat)
    requires
        100 * units >= capped_product(stage.total, percent),
        100 * units < capped_product(stage.total, percent) + 100,
    ensures
        ({
            let counts = stage.unit + "="@ + decimal(units) + "/"@ + decimal(stage.total)
                + match stage.searches_per_unit {
                None => ""@,
                Some(searches) => ", searches="@ + decimal(capped_product(units, searches)) + "/"@
                    + decimal(capped_product(stage.total, searches)),
            };
            let text = "progress: "@ + stage.label + " "@ + decimal(percent) + "% ("@ + counts
                + ")"@;
            milestone_line(terminal, stage, percent) == if !terminal {
                text + seq!['\n']
            } else if percent < 100 {
                seq!['\r'] + text
            } else {
                seq!['\r'] + text + seq!['\n']
            }
        }),
{
    reveal_strlit("");
    reveal_strlit("\n");
    reveal_strlit("\r");
    assert(units == units_at(stage.total, percent));
    assert("\n"@ =~= seq!['\n']);
    assert("\r"@ =~= seq!['\r']);
    let counts = stage.unit + "="@ + decimal(units) + "/"@ + decimal(stage.total)
        + match stage.searches_per_unit {
        None => ""@,
        Some(searches) => ", searches="@ + decimal(capped_product(units, searches)) + "/"@
            + decimal(capped_product(stage.total, searches)),
    };
    assert(counts =~= milestone_counts(stage, percent));
    let text = "progress: "@ + stage.label + " "@ + decimal(percent) + "% ("@ + counts + ")"@;
    if !terminal {
        assert(milestone_line(terminal, stage, percent) =~= text + seq!['\n']);
    } else if percent < 100 {
        assert(milestone_line(terminal, stage, percent) =~= seq!['\r'] + text);
    } else {
        assert(milestone_line(terminal, stage, percent) =~= seq!['\r'] + text + seq!['\n']);
    }
}

/// An event says its label and its state, on a line of its own, whatever they are.
pub proof fn law_event_text(label: Seq<char>, state: Seq<char>)
    ensures
        event_line(label, state) == "progress: "@ + label + seq![' '] + state + seq!['\n'],
{
    reveal_strlit(" ");
    reveal_strlit("\n");
    assert(" "@ =~= seq![' ']);
    assert("\n"@ =~= seq!['\n']);
}

/// The units that are done decide which milestones a stage shows when it advances: those
/// from the next one on, a quarter apart and short of the last, whose share is done. The
/// stage waits for the first that it did not show, and is otherwise as before.
pub proof fn law_due_milestones(terminal: bool, stage: StageModel, completed: nat, i: nat)
    requires
        stage.next_percent == 25 || stage.next_percent == 50 || stage.next_percent == 75
            || stage.next_percent == 100,
    ensures
        ({
            let lines = due_lines(terminal, stage, completed, stage.next_percent);
            let later = advanced(stage, completed);
            let percent = stage.next_percent + 25 * i;
            &&& later.label == stage.label
            &&& later.unit == stage.unit
            &&& later.total == stage.total
            &&& later.searches_per_unit == stage.searches_per_unit
            &&& later.next_percent == stage.next_percent + 25 * lines.len()
            &&& later.next_percent <= 100
            &&& i < lines.len() ==> lines[i as int] == milestone_line(terminal, stage, percent)
            &&& percent < 100 ==> (i < lines.len() <==> capped_product(completed, 100)
                >= capped_product(stage.total, percent))
        }),
{
    reveal_with_fuel(due_lines, 5);
    reveal_with_fuel(pending, 5);
    let total = stage.total;
    assert(25 * total <= 50 * total <= 75 * total <= 100 * total);
    assert forall|a: nat, b: nat| capped_product(a, b) == capped_product(b, a) by {
        assert(a * b == b * a) by (nonlinear_arith);
    }
    if stage.next_percent + 25 * i < 100 {
        assert(i == 0 || i == 1 || i == 2);
    }
}

/// A new stage counts from nothing towards its total, with the first quarter ahead.
pub proof fn law_new_stage(
    label: Seq<char>,
    unit: Seq<char>,
    total: nat,
    searches_per_unit: Option<nat>,
)
    ensures
        ({
            let stage = fresh_stage(label, unit, total, searches_per_unit);
            &&& stage.label == label
            &&& stage.unit == unit
            &&& stage.total == total
            &&& stage.searches_per_unit == searches_per_unit
            &&& stage.next_percent == 25
        }),
{
}

/// The lines of a new stage: the milestone of nothing, those quarters whose share of the
/// units is done, and where the stage is finished that of everything; each once and in
/// order.
pub proof fn law_stage_lines(
    terminal: bool,
    stage: StageModel,
    completed: nat,
    finished: bool,
    i: nat,
)
    requires
        stage.next_percent == 25,
    ensures
        ({
            let lines = phase_lines(terminal, stage, completed, finished);
            let shown = lines.len() - if finished {
                1int
            } else {
                0
            };
            &&& 1 <= shown <= 4
            &&& i < shown ==> lines[i as int] == milestone_line(terminal, stage, 25 * i)
            &&& finished ==> lines.last() == milestone_line(terminal, stage, 100)
            &&& 0 < i < 4 ==> (i < shown <==> capped_product(completed, 100) >= capped_product(
                stage.total,
                25 * i,
            ))
        }),
{
    law_due_milestones(terminal, stage, completed, if i > 0 {
        (i - 1) as nat
    } else {
        0
    });
}

/// What is under way: the stage, once it has advanced, until it is finished.
pub proof fn law_stage_under_way(stage: StageModel, completed: nat, finished: bool)
    ensures
        phase_stage(stage, completed, finished) is None <==> finished,
        !finished ==> phase_stage(stage, completed, finished) == Some(advanced(stage, completed)),
{
}

fn capped_mul(a: usize, b: usize) -> (product: usize)
    ensures
        product == capped_product(a as nat, b as nat),
{
    match a.checked_mul(b) {
        Some(product) => product,
        None => usize::MAX,
    }
}

#[derive(Debug)]
struct ProgressStage {
    label: String,
    unit: &'static str,
    total: usize,
    searches_per_unit: Option<usize>,
    next_percent: usize,
}

impl ProgressStage {
    spec fn model(&self) -> StageModel {
        StageModel {
            label: self.label@,
            unit: self.unit@,
            total: self.total as nat,
            searches_per_unit: match self.searches_per_unit {
                Some(per_unit) => Some(per_unit as nat),
                None => None,
            },
            next_percent: self.next_percent as nat,
        }
    }

    fn milestone(&self, terminal: bool, percent: usize) -> (line: String)
        ensures
            line@ == milestone_line(terminal, self.model(), percent as nat),
    {
        let scaled: usize = capped_mul(self.total, percent);
        let completed: usize = scaled / 100 + (if scaled % 100 == 0 {
            0
        } else {
            1
        });
        assert(completed == units_at(self.total as nat, percent as nat));
        let mut line = String::new();
        if terminal {
            line.append("\r");
        } else {
            line.append("");
        }
        line.append("progress: ");
        line.append(self.label.as_str());
        line.append(" ");
        push_count(&mut line, percent);
        line.append("% (");
        line.append(self.unit);
        line.append("=");
        push_count(&mut line, completed);
        line.append("/");
        push_count(&mut line, self.total);
        if let Some(per_unit) = self.searches_per_unit {
            line.append(", searches=");
            push_count(&mut line, capped_mul(completed, per_unit));
            line.append("/");
            push_count(&mut line, capped_mul(self.total, per_unit));
        }
        line.append(")");
        if terminal && percent < 100 {
            line.append("");
        } else {
            line.append("\n");
        }
        assert(line@ =~= milestone_line(terminal, self.model(), percent as nat));
        line
    }
}

/// Best-effort benchmark progress written independently from the report.
#[derive(Debug)]
pub struct Progress<W: Write> {
    writer: W,
    terminal: bool,
    failed: bool,
    stage: Option<ProgressStage>,
}

impl<W: Write> Progress<W> {
    /// The writer that the messages go to.
    pub closed spec fn output(&self) -> W {
        self.writer
    }

    /// Whether milestones are redrawn in place.
    pub closed spec fn on_terminal(&self) -> bool {
        self.terminal
    }

    /// Whether the writer has refused a message.
    pub closed spec fn has_failed(&self) -> bool {
        self.failed
    }

    /// The stage that is under way.
    pub closed spec fn current(&self) -> Option<StageModel> {
        match self.stage {
            Some(stage) => Some(stage.model()),
            None => None,
        }
    }

    /// A stage under way counts something and waits for one of the later milestones.
    pub open spec fn wf(&self) -> bool {
        self.current() matches Some(stage) ==> {
            &&& stage.total > 0
            &&& stage.next_percent == 25 || stage.next_percent == 50 || stage.next_percent == 75
                || stage.next_percent == 100
        }
    }

    /// Whether `lines`, and nothing else, were sent between `before` and now.
    pub open spec fn sent_since(&self, before: &Self, lines: Seq<Seq<char>>) -> bool {
        &&& self.on_terminal() == before.on_terminal()
        &&& relayed(
            before.output(),
            before.has_failed(),
            lines,
            self.output(),
            self.has_failed(),
        )
    }

    /// Progress to `writer`, with no stage under way.
    pub fn new(writer: W, terminal: bool) -> (progress: Self)
        ensures
            progress.wf(),
            progress.output() == writer,
            progress.on_terminal() == terminal,
            !progress.has_failed(),
            progress.current() is None,
    {
        Progress { writer, terminal, failed: false, stage: None }
    }

    /// Starts a stage of `total` units, in place of any other, and shows its first milestone.
    pub fn begin(
        &mut self,
        label: &str,
        unit: &'static str,
        total: usize,
        searches_per_unit: Option<usize>,
    )
        requires
            total > 0,
        ensures
            final(self).wf(),
            ({
                let per_unit = match searches_per_unit {
                    Some(n) => Some(n as nat),
                    None => None,
                };
                let stage = fresh_stage(label@, unit@, total as nat, per_unit);
                &&& final(self).current() == Some(stage)
                &&& final(self).sent_since(
                    old(self),
                    seq![milestone_line(old(self).on_terminal(), stage, 0)],
                )
            }),
    {
        self.stage = Some(
            ProgressStage {
                label: label.to_owned(),
                unit,
                total,
                searches_per_unit,
                next_percent: 25,
            },
        );
        self.write_milestone(0);
    }

    /// Shows the milestones that `completed` units reach and that were not shown yet.
    pub fn advance(&mut self, completed: usize)
        requires
            old(self).wf(),
        ensures
            final(self).wf(),
            match old(self).current() {
                Some(stage) => {
                    &&& final(self).current() == Some(advanced(stage, completed as nat))
                    &&& final(self).sent_since(
                        old(self),
                        due_lines(
                            old(self).on_terminal(),
                            stage,
                            completed as nat,
                            stage.next_percent,
                        ),
                    )
                },
                None => *final(self) == *old(self),
            },
    {
        let (total, first): (usize, usize) = match &self.stage {
            Some(stage) => (stage.total, stage.next_percent),
            None => {
                return ;
            },
        };
        let ghost stage = self.current()->0;
        let ghost terminal = self.on_terminal();
        let mut next_percent: usize = first;
        let ghost mut shown: Seq<Seq<char>> = seq![];
        proof {
            lemma_relayed_nothing(self.writer, self.failed);
        }
        while next_percent < 100 && capped_mul(completed, 100) >= capped_mul(next_percent, total)
            invariant
                self.current() == Some(stage),
                old(self).current() == Some(stage),
                stage.total == total,
                self.terminal == terminal,
                old(self).terminal == terminal,
                self.sent_since(old(self), shown),
                next_percent == 25 || next_percent == 50 || next_percent == 75 || next_percent
                    == 100,
                pending(total as nat, completed as nat, next_percent as nat) == pending(
                    total as nat,
                    completed as nat,
                    stage.next_percent,
                ),
                shown + due_lines(terminal, stage, completed as nat, next_percent as nat)
                    == due_lines(terminal, stage, completed as nat, stage.next_percent),
            decreases 100 - next_percent,
        {
            let ghost before = *self;
            self.write_milestone(next_percent);
            proof {
                let line = milestone_line(terminal, stage, next_percent as nat);
                lemma_relayed_concat(
                    old(self).writer,
                    old(self).failed,
                    shown,
                    before.writer,
                    before.failed,
                    seq![line],
                    self.writer,
                    self.failed,
                );
                assert(shown + due_lines(terminal, stage, completed as nat, next_percent as nat)
                    =~= shown + seq![line] + due_lines(
                    terminal,
                    stage,
                    completed as nat,
                    (next_percent + 25) as nat,
                ));
                shown = shown + seq![line];
            }
            next_percent = next_percent + 25;
        }
        assert(shown + seq![] =~= shown);
        if let Some(stage) = &mut self.stage {
            stage.next_percent = next_percent;
        }
    }

    /// Shows the last milestone of the stage under way, if there is one, and ends the stage.
    pub fn finish(&mut self)
        requires
            old(self).wf(),
        ensures
            final(self).wf(),
            final(self).current() is None,
            match old(self).current() {
                Some(stage) => final(self).sent_since(
                    old(self),
                    seq![milestone_line(old(self).on_terminal(), stage, 100)],
                ),
                None => *final(self) == *old(self),
            },
    {
        if self.stage.is_some() {
            self.write_milestone(100);
            self.stage = None;
        }
    }

    /// Shows an event that has no counts.
    pub fn event(&mut self, label: &str, state: &str)
        ensures
            final(self).current() == old(self).current(),
            final(self).sent_since(old(self), seq![event_line(label@, state@)]),
    {
        let mut message = String::new();
        message.append("progress: ");
        message.append(label);
        message.append(" ");
        message.append(state);
        message.append("\n");
        assert(message@ =~= event_line(label@, state@));
        self.write_message(message);
    }

    /// Whether the writer has refused a message.
    pub fn failed(&self) -> (failed: bool)
        ensures
            failed == self.has_failed(),
    {
        self.failed
    }

    /// The writer, with all that was sent to it.
    pub fn into_inner(self) -> (writer: W)
        ensures
            writer == self.output(),
    {
        self.writer
    }

    /// Shows a milestone of the stage under way, if there is one.
    pub fn write_milestone(&mut self, percent: usize)
        ensures
            final(self).current() == old(self).current(),
            match old(self).current() {
                Some(stage) => final(self).sent_since(
                    old(self),
                    seq![milestone_line(old(self).on_terminal(), stage, percent as nat)],
                ),
                None => *final(self) == *old(self),
            },
    {
        let line = match &self.stage {
            Some(stage) => stage.milestone(self.terminal, percent),
            None => {
                return ;
            },
        };
        self.write_message(line);
    }

    /// Sends a message: it is written, and flushed if the writer took it. After a refusal
    /// nothing is sent.
    pub fn write_message(&mut self, message: String)
        ensures
            final(self).current() == old(self).current(),
            final(self).on_terminal() == old(self).on_terminal(),
            delivered(
                old(self).output(),
                old(self).has_failed(),
                encode_utf8(message@),
                final(self).output(),
                final(self).has_failed(),
            ),
            final(self).sent_since(old(self), seq![message@]),
    {
        if self.failed {
            proof {
                lemma_relayed_one(self.writer, true, message@, self.writer, true);
            }
            return ;
        }
        if !self.writer.write_all(message.as_str().as_bytes()) || !self.writer.flush() {
            self.failed = true;
        }
        proof {
            assert(delivered(
                old(self).writer,
                false,
                encode_utf8(message@),
                self.writer,
                self.failed,
            ));
            lemma_relayed_one(old(self).writer, false, message@, self.writer, self.failed);
        }
    }
}

/// Progress that goes to a byte vector keeps every line that is sent, and where it goes and
/// how it is drawn never changes.
pub proof fn law_progress_in_a_vector(
    before: &Progress<Vec<u8>>,
    after: &Progress<Vec<u8>>,
    lines: Seq<Seq<char>>,
)
    requires
        !before.has_failed(),
        after.sent_since(before, lines),
    ensures
        !after.has_failed(),
        after.on_terminal() == before.on_terminal(),
        after.output()@ == before.output()@ + encoded(lines),
{
    law_vector_keeps_every_line(before.output(), lines, after.output(), after.has_failed());
}

/// The start of a stage.
pub proof fn lemma_phase_begin<W: Write>(
    start: &Progress<W>,
    after: &Progress<W>,
    stage: StageModel,
)
    requires
        stage.total > 0,
        stage.next_percent > 0,
        after.sent_since(start, seq![milestone_line(start.on_terminal(), stage, 0)]),
    ensures
        advanced(stage, 0) == stage,
        after.sent_since(start, phase_lines(start.on_terminal(), stage, 0, false)),
{
    law_nothing_due_at_the_start(start.on_terminal(), stage);
    assert(phase_lines(start.on_terminal(), stage, 0, false) =~= seq![
        milestone_line(start.on_terminal(), stage, 0),
    ]);
}

/// One more unit of a stage that is under way.
pub proof fn lemma_phase_advance<W: Write>(
    start: &Progress<W>,
    before: &Progress<W>,
    after: &Progress<W>,
    stage: StageModel,
    completed: nat,
)
    requires
        before.sent_since(start, phase_lines(start.on_terminal(), stage, completed, false)),
        after.sent_since(
            before,
            due_lines(
                before.on_terminal(),
                advanced(stage, completed),
                completed + 1,
                advanced(stage, completed).next_percent,
            ),
        ),
    ensures
        advanced(advanced(stage, completed), completed + 1) == advanced(stage, completed + 1),
        after.sent_since(start, phase_lines(start.on_terminal(), stage, completed + 1, false)),
{
    let terminal = start.on_terminal();
    let shown = phase_lines(terminal, stage, completed, false);
    let more = due_lines(
        terminal,
        advanced(stage, completed),
        completed + 1,
        advanced(stage, completed).next_percent,
    );
    law_advance_in_steps(terminal, stage, completed, completed + 1);
    lemma_relayed_concat(
        start.output(),
        start.has_failed(),
        shown,
        before.output(),
        before.has_failed(),
        more,
        after.output(),
        after.has_failed(),
    );
    let first = seq![milestone_line(terminal, stage, 0)];
    let due = due_lines(terminal, stage, completed, stage.next_percent);
    assert(shown + more =~= first + (due + more));
    assert(phase_lines(terminal, stage, completed + 1, false) =~= first + (due + more));
}

/// The end of a stage that is under way.
pub proof fn lemma_phase_finish<W: Write>(
    start: &Progress<W>,
    before: &Progress<W>,
    after: &Progress<W>,
    stage: StageModel,
    completed: nat,
)
    requires
        before.sent_since(start, phase_lines(start.on_terminal(), stage, completed, false)),
        after.sent_since(
            before,
            seq![milestone_line(before.on_terminal(), advanced(stage, completed), 100)],
        ),
    ensures
        after.sent_since(start, phase_lines(start.on_terminal(), stage, completed, true)),
{
    let terminal = start.on_terminal();
    let shown = phase_lines(terminal, stage, completed, false);
    let last = seq![milestone_line(terminal, stage, 100)];
    assert(milestone_line(terminal, advanced(stage, completed), 100) == milestone_line(
        terminal,
        stage,
        100,
    ));
    lemma_relayed_concat(
        start.output(),
        start.has_failed(),
        shown,
        before.output(),
        before.has_failed(),
        last,
        after.output(),
        after.has_failed(),
    );
    assert(shown + last =~= phase_lines(terminal, stage, completed, true));
}

impl Progress<Sink> {
    /// Progress that nobody sees.
    pub fn silent() -> (progress: Self)
        ensures
            progress.wf(),
            !progress.on_terminal(),
            !progress.has_failed(),
            progress.current() is None,
    {
        Progress::new(Sink, false)
    }
}

} // verus!
