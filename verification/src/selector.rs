//! Which of the course's tests to run: the selectors of the test command, and the
//! arguments that Cargo gets for them.

use vstd::prelude::*;
use vstd::string::*;

use crate::text::{
    characters, decimal, law_decimal_reads_back, law_only_padded_numbers_read,
    law_padded_numbers_read, parse_small, push_decimal, push_two_digits, small_number,
    starts_with, two_digits,
};

verus! {

/// The first day that has tests.
pub const FIRST_DAY: u8 = 1;

/// The last day that has tests.
pub const LAST_DAY: u8 = 6;

/// The tests of a day, or of one of its checkpoints.
#[derive(Debug, Clone, Copy, PartialEq, Eq, Structural)]
pub struct Selection {
    pub day: u8,
    pub checkpoint: Option<u8>,
}

/// The tests to run: a selection, or everything up to the end of a day.
#[derive(Debug, Clone, Copy, PartialEq, Eq, Structural)]
pub enum TestMode {
    Focused(Selection),
    Through(u8),
}

/// Whether a checkpoint of a day has tests.
pub open spec fn bears_tests(day: u8, checkpoint: u8) -> bool {
    match day {
        1 => checkpoint == 1 || 3 <= checkpoint <= 5,
        2 => 1 <= checkpoint <= 5,
        3 => 1 <= checkpoint <= 4,
        4 => 1 <= checkpoint <= 3,
        5 => 1 <= checkpoint <= 4,
        6 => 1 <= checkpoint <= 2,
        _ => false,
    }
}

/// The start of the names of all tests of a day.
pub open spec fn day_filter(day: u8) -> Seq<char> {
    "day_"@ + two_digits(day as nat) + "::"@
}

impl Selection {
    /// Whether there are such tests.
    pub open spec fn valid(self) -> bool {
        &&& FIRST_DAY <= self.day <= LAST_DAY
        &&& self.checkpoint matches Some(checkpoint) ==> bears_tests(self.day, checkpoint)
    }

    /// The start of the names of all selected tests.
    pub open spec fn filter_text(self) -> Seq<char> {
        match self.checkpoint {
            Some(checkpoint) => day_filter(self.day) + "checkpoint_"@ + decimal(checkpoint as nat)
                + "::"@,
            None => day_filter(self.day),
        }
    }

    /// The selector that stands for the selection.
    pub open spec fn spelling(self) -> Seq<char> {
        match self.checkpoint {
            Some(checkpoint) => day_filter(self.day) + "checkpoint_"@ + decimal(checkpoint as nat),
            None => "day_"@ + two_digits(self.day as nat),
        }
    }

    /// The start of the names of all selected tests, by which Cargo finds them.
    pub fn filter(self) -> (text: String)
        ensures
            text@ == self.filter_text(),
    {
        let mut text = String::new();
        text.append("day_");
        push_two_digits(&mut text, self.day);
        text.append("::");
        if let Some(checkpoint) = self.checkpoint {
            text.append("checkpoint_");
            push_decimal(&mut text, checkpoint as u64);
            text.append("::");
        }
        assert(text@ =~= self.filter_text());
        text
    }
}

/// Where the first double colon from `from` on stands.
pub open spec fn break_from(text: Seq<char>, from: int) -> Option<int>
    decreases text.len() - from,
{
    if from < 0 || from + 1 >= text.len() {
        None
    } else if text[from] == ':' && text[from + 1] == ':' {
        Some(from)
    } else {
        break_from(text, from + 1)
    }
}

/// The part of a selector before its first double colon.
pub open spec fn head(text: Seq<char>) -> Seq<char> {
    match break_from(text, 0) {
        Some(i) => text.take(i),
        None => text,
    }
}

/// The part of a selector after its first double colon, if it has one.
pub open spec fn tail(text: Seq<char>) -> Option<Seq<char>> {
    match break_from(text, 0) {
        Some(i) => Some(text.skip(i + 2)),
        None => None,
    }
}

/// The day that a part of a selector names, in two characters.
pub open spec fn named_day(part: Seq<char>) -> Option<u8> {
    if "day_"@.is_prefix_of(part) && part.len() == 6 {
        match small_number(part.skip(4)) {
            Some(day) => if FIRST_DAY <= day <= LAST_DAY {
                Some(day)
            } else {
                None
            },
            None => None,
        }
    } else {
        None
    }
}

/// The checkpoint with tests that a part of a selector names.
pub open spec fn named_checkpoint(day: u8, part: Seq<char>) -> Option<u8> {
    if "checkpoint_"@.is_prefix_of(part) {
        match small_number(part.skip(11)) {
            Some(checkpoint) => if bears_tests(day, checkpoint) {
                Some(checkpoint)
            } else {
                None
            },
            None => None,
        }
    } else {
        None
    }
}

/// The message for a part that names no day.
pub open spec fn bad_day(part: Seq<char>) -> Seq<char> {
    "invalid day selector '"@ + part + "'; expected day_01 through day_06"@
}

/// The message for a part that names no checkpoint with tests.
pub open spec fn bad_checkpoint(day: u8, part: Seq<char>) -> Seq<char> {
    part + " has no supplied Rust tests on day_"@ + two_digits(day as nat)
}

/// What a selector selects, or the message that tells what is wrong with it.
pub open spec fn selection_of(text: Seq<char>) -> Result<Selection, Seq<char>> {
    match named_day(head(text)) {
        None => Err(bad_day(head(text))),
        Some(day) => match tail(text) {
            None => Ok(Selection { day, checkpoint: None }),
            Some(rest) => match named_checkpoint(day, head(rest)) {
                None => Err(bad_checkpoint(day, head(rest))),
                Some(checkpoint) => if tail(rest) is Some {
                    Err("invalid test selector '"@ + text + "'"@)
                } else {
                    Ok(Selection { day, checkpoint: Some(checkpoint) })
                },
            },
        },
    }
}

fn find_break(text: &str) -> (found: Option<usize>)
    ensures
        match found {
            Some(i) => break_from(text@, 0) == Some(i as int) && i + 1 < text@.len(),
            None => break_from(text@, 0) is None,
        },
{
    let chars = characters(text);
    let mut i: usize = 0;
    while chars.len() > 0 && i < chars.len() - 1
        invariant
            chars@ == text@,
            i <= chars@.len(),
            break_from(text@, 0) == break_from(text@, i as int),
        decreases chars@.len() - i,
    {
        if chars[i] == ':' && chars[i + 1] == ':' {
            return Some(i);
        }
        i = i + 1;
    }
    None
}

fn split_once(text: &str) -> (parts: (&str, Option<&str>))
    ensures
        parts.0@ == head(text@),
        match parts.1 {
            Some(rest) => tail(text@) == Some(rest@),
            None => tail(text@) is None,
        },
{
    match find_break(text) {
        Some(i) => {
            let len: usize = text.unicode_len();
            let before = text.substring_char(0, i);
            let rest = text.substring_char(i + 2, len);
            assert(before@ =~= text@.take(i as int));
            assert(rest@ =~= text@.skip(i + 2));
            (before, Some(rest))
        },
        None => (text, None),
    }
}

/// Reads a selector.
pub fn parse_selection(value: &str) -> (result: Result<Selection, String>)
    ensures
        match result {
            Ok(selection) => selection_of(value@) == Ok::<Selection, Seq<char>>(selection),
            Err(message) => selection_of(value@) == Err::<Selection, Seq<char>>(message@),
        },
{
    let (first, after) = split_once(value);
    let day: u8 = parse_day_component(first)?;
    let rest = match after {
        Some(rest) => rest,
        None => {
            return Ok(Selection { day, checkpoint: None });
        },
    };
    let (second, more) = split_once(rest);
    let checkpoint: u8 = parse_checkpoint_component(day, second)?;
    if more.is_some() {
        let mut message = String::new();
        message.append("invalid test selector '");
        message.append(value);
        message.append("'");
        assert(message@ =~= "invalid test selector '"@ + value@ + "'"@);
        return Err(message);
    }
    Ok(Selection { day, checkpoint: Some(checkpoint) })
}

/// Reads the day of a selector.
pub fn parse_day_component(value: &str) -> (result: Result<u8, String>)
    ensures
        match result {
            Ok(day) => named_day(value@) == Some(day),
            Err(message) => named_day(value@) is None && message@ == bad_day(value@),
        },
{
    proof {
        reveal_strlit("day_");
    }
    if starts_with(value, "day_") && value.unicode_len() == 6 {
        let digits = value.substring_char(4, 6);
        assert(digits@ =~= value@.skip(4));
        if let Some(day) = parse_small(digits) {
            if FIRST_DAY <= day && day <= LAST_DAY {
                return Ok(day);
            }
        }
    }
    let mut message = String::new();
    message.append("invalid day selector '");
    message.append(value);
    message.append("'; expected day_01 through day_06");
    assert(message@ =~= bad_day(value@));
    Err(message)
}

/// Reads the checkpoint of a selector.
pub fn parse_checkpoint_component(day: u8, value: &str) -> (result: Result<u8, String>)
    ensures
        match result {
            Ok(checkpoint) => named_checkpoint(day, value@) == Some(checkpoint),
            Err(message) => {
                &&& named_checkpoint(day, value@) is None
                &&& message@ == bad_checkpoint(day, value@)
            },
        },
{
    proof {
        reveal_strlit("checkpoint_");
    }
    if starts_with(value, "checkpoint_") {
        let len: usize = value.unicode_len();
        let digits = value.substring_char(11, len);
        assert(digits@ =~= value@.skip(11));
        if let Some(checkpoint) = parse_small(digits) {
            if has_tests(day, checkpoint) {
                return Ok(checkpoint);
            }
        }
    }
    let mut message = String::new();
    message.append(value);
    message.append(" has no supplied Rust tests on day_");
    push_two_digits(&mut message, day);
    assert(message@ =~= bad_checkpoint(day, value@));
    Err(message)
}

/// Whether a checkpoint of a day has tests.
pub fn has_tests(day: u8, checkpoint: u8) -> (has: bool)
    ensures
        has == bears_tests(day, checkpoint),
{
    match day {
        1 => checkpoint == 1 || checkpoint == 3 || checkpoint == 4 || checkpoint == 5,
        2 => 1 <= checkpoint && checkpoint <= 5,
        3 => 1 <= checkpoint && checkpoint <= 4,
        4 => 1 <= checkpoint && checkpoint <= 3,
        5 => 1 <= checkpoint && checkpoint <= 4,
        6 => 1 <= checkpoint && checkpoint <= 2,
        _ => false,
    }
}

/// The message for a number that is no day.
pub open spec fn bad_number() -> Seq<char> {
    "day must be an integer from 1 through 6"@
}

/// The day that a plain number names.
pub open spec fn numbered_day(text: Seq<char>) -> Option<u8> {
    match small_number(text) {
        Some(day) => if FIRST_DAY <= day <= LAST_DAY {
            Some(day)
        } else {
            None
        },
        None => None,
    }
}

/// Reads a day that is given as a plain number.
pub fn parse_legacy_day(value: &str) -> (result: Result<u8, String>)
    ensures
        match result {
            Ok(day) => numbered_day(value@) == Some(day),
            Err(message) => numbered_day(value@) is None && message@ == bad_number(),
        },
{
    if let Some(day) = parse_small(value) {
        if FIRST_DAY <= day && day <= LAST_DAY {
            return Ok(day);
        }
    }
    Err("day must be an integer from 1 through 6".to_owned())
}

/// How the test command is called.
pub open spec fn usage_text() -> Seq<char> {
    "usage: cargo xtask test day_NN[::checkpoint_N] | cargo xtask test-through day_NN"@
}

/// How the test command is called.
pub fn usage() -> (text: String)
    ensures
        text@ == usage_text(),
{
    "usage: cargo xtask test day_NN[::checkpoint_N] | cargo xtask test-through day_NN".to_owned()
}

/// What the arguments of the test command ask for, or the message that tells what is
/// wrong with them.
pub open spec fn mode_of(command: Seq<char>, selector: Seq<char>) -> Result<TestMode, Seq<char>> {
    if command == "test"@ {
        match selection_of(selector) {
            Ok(selection) => Ok(TestMode::Focused(selection)),
            Err(message) => Err(message),
        }
    } else if command == "test-through"@ && "day_"@.is_prefix_of(selector) {
        match selection_of(selector) {
            Ok(selection) => if selection.checkpoint is Some {
                Err("test-through accepts a whole day, not a checkpoint"@)
            } else {
                Ok(TestMode::Through(selection.day))
            },
            Err(message) => Err(message),
        }
    } else if command == "test-through"@ {
        match numbered_day(selector) {
            Some(day) => Ok(TestMode::Through(day)),
            None => Err(bad_number()),
        }
    } else if command == "test-day"@ {
        match numbered_day(selector) {
            Some(day) => Ok(TestMode::Focused(Selection { day, checkpoint: None })),
            None => Err(bad_number()),
        }
    } else {
        Err(usage_text())
    }
}

/// Reads the arguments after the program's name: a command and a selector.
pub fn parse_command(args: &[String]) -> (result: Result<TestMode, String>)
    ensures
        ({
            let asked = if args@.len() == 2 {
                mode_of(args@[0]@, args@[1]@)
            } else {
                Err(usage_text())
            };
            match result {
                Ok(mode) => asked == Ok::<TestMode, Seq<char>>(mode),
                Err(message) => asked == Err::<TestMode, Seq<char>>(message@),
            }
        }),
{
    if args.len() != 2 {
        return Err(usage());
    }
    proof {
        reveal_strlit("test");
        reveal_strlit("test-through");
        reveal_strlit("test-day");
        assert("test"@.len() != "test-through"@.len());
        assert("test"@.len() != "test-day"@.len());
        assert("test-through"@.len() != "test-day"@.len());
    }
    let selector = args[1].as_str();
    if args[0] == "test".to_owned() {
        let selection = parse_selection(selector)?;
        Ok(TestMode::Focused(selection))
    } else if args[0] == "test-through".to_owned() {
        if starts_with(selector, "day_") {
            let selection = parse_selection(selector)?;
            if selection.checkpoint.is_some() {
                return Err("test-through accepts a whole day, not a checkpoint".to_owned());
            }
            Ok(TestMode::Through(selection.day))
        } else {
            let day: u8 = parse_legacy_day(selector)?;
            Ok(TestMode::Through(day))
        }
    } else if args[0] == "test-day".to_owned() {
        let day: u8 = parse_legacy_day(selector)?;
        Ok(TestMode::Focused(Selection { day, checkpoint: None }))
    } else {
        Err(usage())
    }
}

/// The days after a given one.
pub open spec fn later_days(day: u8) -> Seq<u8> {
    Seq::new(
        (if day < LAST_DAY {
            LAST_DAY - day
        } else {
            0
        }) as nat,
        |i: int| (day + 1 + i) as u8,
    )
}

/// The days that are left out of a run.
pub open spec fn skipped(mode: TestMode) -> Seq<u8> {
    match mode {
        TestMode::Focused(selection) => seq![],
        TestMode::Through(day) => later_days(day),
    }
}

/// What a run is called.
pub open spec fn label_of(mode: TestMode) -> Seq<char> {
    match mode {
        TestMode::Focused(selection) => selection.filter_text(),
        TestMode::Through(day) => "day_01 through day_"@ + two_digits(day as nat),
    }
}

/// A part of the names of all tests that a run looks at.
pub open spec fn name_filter(mode: TestMode) -> Seq<char> {
    match mode {
        TestMode::Focused(selection) => selection.filter_text(),
        TestMode::Through(day) => "day_"@,
    }
}

/// The arguments that leave days out.
pub open spec fn skip_arguments(days: Seq<u8>) -> Seq<Seq<char>>
    decreases days.len(),
{
    if days.len() == 0 {
        seq![]
    } else {
        skip_arguments(days.drop_last()) + seq!["--skip"@, day_filter(days.last())]
    }
}

/// The arguments that Cargo gets for a run, or to list what the run would take.
pub open spec fn cargo_arguments(mode: TestMode, list_only: bool) -> Seq<Seq<char>> {
    seq![
        "test"@,
        "--locked"@,
        "-p"@,
        "vector-db-from-scratch-benchmark-support"@,
        "-p"@,
        "vector-db-from-scratch-core-starter"@,
        "-p"@,
        "vector-db-from-scratch-datafusion-starter"@,
        "--all-targets"@,
        name_filter(mode),
    ] + (if list_only || skipped(mode).len() > 0 {
        seq!["--"@]
    } else {
        seq![]
    }) + (if list_only {
        seq!["--list"@]
    } else {
        seq![]
    }) + skip_arguments(skipped(mode))
}

/// Some strings as character sequences.
pub open spec fn texts(strings: Seq<String>) -> Seq<Seq<char>> {
    Seq::new(strings.len(), |i: int| strings[i]@)
}

fn push_text(strings: &mut Vec<String>, text: &str)
    ensures
        texts(final(strings)@) == texts(old(strings)@).push(text@),
{
    strings.push(text.to_owned());
    assert(texts(strings@) =~= texts(old(strings)@).push(text@));
}

/// A run of the tests: what it is called, and the arguments for Cargo.
#[derive(Debug)]
pub struct TestPlan {
    pub label: String,
    pub arguments: Vec<String>,
}

/// The days that are left out of a run.
pub fn skipped_days(mode: TestMode) -> (days: Vec<u8>)
    requires
        mode matches TestMode::Through(day) ==> day < u8::MAX,
    ensures
        days@ == skipped(mode),
{
    let mut days: Vec<u8> = Vec::new();
    if let TestMode::Through(day) = mode {
        if day < LAST_DAY {
            let mut next: u8 = day + 1;
            while next <= LAST_DAY
                invariant
                    day < next <= LAST_DAY + 1,
                    days@.len() == next - day - 1,
                    forall|i: int| 0 <= i < days@.len() ==> days@[i] == day + 1 + i,
                decreases LAST_DAY + 1 - next,
            {
                days.push(next);
                next = next + 1;
            }
        }
    }
    assert(days@ =~= skipped(mode));
    days
}

/// Plans a run of the tests.
pub fn plan_tests(mode: TestMode, list_only: bool) -> (plan: TestPlan)
    requires
        mode matches TestMode::Through(day) ==> day < u8::MAX,
    ensures
        plan.label@ == label_of(mode),
        texts(plan.arguments@) == cargo_arguments(mode, list_only),
{
    let mut label = String::new();
    let mut filter = String::new();
    match mode {
        TestMode::Focused(selection) => {
            label = selection.filter();
            filter = selection.filter();
        },
        TestMode::Through(day) => {
            label.append("day_01 through day_");
            push_two_digits(&mut label, day);
            filter.append("day_");
        },
    }
    assert(label@ =~= label_of(mode));
    assert(filter@ =~= name_filter(mode));
    let days = skipped_days(mode);
    let mut arguments: Vec<String> = Vec::new();
    push_text(&mut arguments, "test");
    push_text(&mut arguments, "--locked");
    push_text(&mut arguments, "-p");
    push_text(&mut arguments, "vector-db-from-scratch-benchmark-support");
    push_text(&mut arguments, "-p");
    push_text(&mut arguments, "vector-db-from-scratch-core-starter");
    push_text(&mut arguments, "-p");
    push_text(&mut arguments, "vector-db-from-scratch-datafusion-starter");
    push_text(&mut arguments, "--all-targets");
    push_text(&mut arguments, filter.as_str());
    if list_only || days.len() > 0 {
        push_text(&mut arguments, "--");
    }
    if list_only {
        push_text(&mut arguments, "--list");
    }
    let ghost before = texts(arguments@);
    let mut i: usize = 0;
    assert(days@.take(0) =~= seq![]);
    assert(before + skip_arguments(seq![]) =~= before);
    while i < days.len()
        invariant
            i <= days@.len(),
            texts(arguments@) == before + skip_arguments(days@.take(i as int)),
        decreases days@.len() - i,
    {
        let day: u8 = days[i];
        let skip = Selection { day, checkpoint: None }.filter();
        push_text(&mut arguments, "--skip");
        push_text(&mut arguments, skip.as_str());
        proof {
            let taken = days@.take(i + 1);
            assert(taken.drop_last() =~= days@.take(i as int));
            assert(texts(arguments@) =~= before + skip_arguments(taken));
        }
        i = i + 1;
    }
    assert(days@.take(days@.len() as int) =~= days@);
    assert(texts(arguments@) =~= cargo_arguments(mode, list_only));
    TestPlan { label, arguments }
}

impl TestPlan {
    /// The line that announces the run.
    pub fn heading(&self) -> (line: String)
        ensures
            line@ == "== Rust learner tests: "@ + self.label@ + " =="@,
    {
        let mut line = String::new();
        line.append("== Rust learner tests: ");
        line.append(self.label.as_str());
        line.append(" ==");
        assert(line@ =~= "== Rust learner tests: "@ + self.label@ + " =="@);
        line
    }

    /// What becomes of the run once Cargo is done, with success or without, or could not
    /// be started.
    pub fn conclude(&self, ended: Result<bool, String>) -> (result: Result<(), String>)
        ensures
            match ended {
                Ok(true) => result is Ok,
                Ok(false) => result matches Err(message) && message@
                    == "Rust learner tests failed: "@ + self.label@,
                Err(error) => result matches Err(message) && message@
                    == "failed to start Cargo for "@ + self.label@ + ": "@ + error@,
            },
    {
        let mut message = String::new();
        match ended {
            Ok(success) => {
                if success {
                    return Ok(());
                }
                message.append("Rust learner tests failed: ");
                message.append(self.label.as_str());
                assert(message@ =~= "Rust learner tests failed: "@ + self.label@);
            },
            Err(error) => {
                message.append("failed to start Cargo for ");
                message.append(self.label.as_str());
                message.append(": ");
                message.append(error.as_str());
                assert(message@ =~= "failed to start Cargo for "@ + self.label@ + ": "@ + error@);
            },
        }
        Err(message)
    }
}

/// All tests of a day.
pub open spec fn whole_day(day: u8) -> Selection {
    Selection { day, checkpoint: None }
}

/// Only days and checkpoints that have tests are ever selected.
pub proof fn law_selected_tests_exist(command: Seq<char>, selector: Seq<char>)
    ensures
        selection_of(selector) matches Ok(selection) ==> selection.valid(),
        match mode_of(command, selector) {
            Ok(TestMode::Focused(selection)) => selection.valid(),
            Ok(TestMode::Through(day)) => FIRST_DAY <= day <= LAST_DAY,
            Err(_) => true,
        },
{
}

proof fn lemma_no_break(text: Seq<char>, from: int)
    requires
        0 <= from,
        forall|i: int| 0 <= i < text.len() ==> text[i] != ':',
    ensures
        break_from(text, from) is None,
    decreases text.len() - from,
{
    if from < text.len() {
        lemma_no_break(text, from + 1);
    }
}

proof fn lemma_break_at(text: Seq<char>, from: int, at: int)
    requires
        0 <= from <= at,
        at + 1 < text.len(),
        forall|i: int| 0 <= i < at ==> text[i] != ':',
        text[at] == ':',
        text[at + 1] == ':',
    ensures
        break_from(text, from) == Some(at),
    decreases at - from,
{
    if from < at {
        lemma_break_at(text, from + 1, at);
    }
}

proof fn lemma_day_spelling(day: u8)
    requires
        FIRST_DAY <= day <= LAST_DAY,
    ensures
        whole_day(day).spelling() == seq![
            'd',
            'a',
            'y',
            '_',
            '0',
            (48 + day) as char,
        ],
        named_day(whole_day(day).spelling()) == Some(day),
        "day_"@.is_prefix_of(whole_day(day).spelling()),
        !("day_"@.is_prefix_of(decimal(day as nat))),
{
    reveal_strlit("day_");
    reveal_strlit("0");
    let text = whole_day(day).spelling();
    assert(text =~= seq!['d', 'a', 'y', '_', '0', (48 + day) as char]);
    law_decimal_reads_back(day);
    assert(text.skip(4) =~= two_digits(day as nat));
    assert("day_"@ =~= text.subrange(0, 4));
    assert(decimal(day as nat).len() == 1);
}

proof fn lemma_checkpoint_spelling(checkpoint: u8)
    requires
        checkpoint < 10,
    ensures
        "checkpoint_"@ + decimal(checkpoint as nat) == seq![
            'c',
            'h',
            'e',
            'c',
            'k',
            'p',
            'o',
            'i',
            'n',
            't',
            '_',
            (48 + checkpoint) as char,
        ],
        forall|day: u8|
            bears_tests(day, checkpoint) ==> #[trigger] named_checkpoint(
                day,
                "checkpoint_"@ + decimal(checkpoint as nat),
            ) == Some(checkpoint),
{
    reveal_strlit("checkpoint_");
    let text = "checkpoint_"@ + decimal(checkpoint as nat);
    assert(text =~= seq![
        'c',
        'h',
        'e',
        'c',
        'k',
        'p',
        'o',
        'i',
        'n',
        't',
        '_',
        (48 + checkpoint) as char,
    ]);
    law_decimal_reads_back(checkpoint);
    assert(text.skip(11) =~= decimal(checkpoint as nat));
    assert("checkpoint_"@ =~= text.subrange(0, 11));
}

/// Every selection of existing tests has a selector, and the names of its tests start
/// with that selector and a double colon.
pub proof fn law_selector_reads_back(selection: Selection)
    requires
        selection.valid(),
    ensures
        selection_of(selection.spelling()) == Ok::<Selection, Seq<char>>(selection),
        selection.filter_text() == selection.spelling() + "::"@,
{
    let day = selection.day;
    let text = selection.spelling();
    lemma_day_spelling(day);
    let first = whole_day(day).spelling();
    match selection.checkpoint {
        None => {
            lemma_no_break(text, 0);
        },
        Some(checkpoint) => {
            reveal_strlit("::");
            lemma_checkpoint_spelling(checkpoint);
            let rest = "checkpoint_"@ + decimal(checkpoint as nat);
            assert(text =~= first + "::"@ + rest);
            lemma_break_at(text, 0, 6);
            assert(text.take(6) =~= first);
            assert(text.skip(8) =~= rest);
            lemma_no_break(rest, 0);
            assert(named_checkpoint(day, rest) == Some(checkpoint));
        },
    }
    assert(selection.filter_text() =~= text + "::"@);
}

/// A filter selects no more than it says: the filter of one selection starts that of
/// another only if both are of one day and the first is of the whole day or of the same
/// checkpoint.
pub proof fn law_filters_do_not_overlap(one: Selection, other: Selection)
    requires
        one.valid(),
        other.valid(),
    ensures
        one.filter_text().is_prefix_of(other.filter_text()) <==> one.day == other.day && (
        one.checkpoint is None || one.checkpoint == other.checkpoint),
{
    reveal_strlit("::");
    lemma_day_spelling(one.day);
    lemma_day_spelling(other.day);
    let (a, b) = (one.filter_text(), other.filter_text());
    assert(a.take(6) =~= whole_day(one.day).spelling());
    assert(b.take(6) =~= whole_day(other.day).spelling());
    assert(a[5] == a.take(6)[5] && b[5] == b.take(6)[5]);
    if let Some(checkpoint) = one.checkpoint {
        lemma_checkpoint_spelling(checkpoint);
        assert(a.subrange(8, 20) =~= "checkpoint_"@ + decimal(checkpoint as nat));
        assert(a.len() == 22);
        assert(a[19] == a.subrange(8, 20)[11]);
    }
    if let Some(checkpoint) = other.checkpoint {
        lemma_checkpoint_spelling(checkpoint);
        assert(b.subrange(8, 20) =~= "checkpoint_"@ + decimal(checkpoint as nat));
        assert(b.len() == 22);
        assert(b[19] == b.subrange(8, 20)[11]);
    }
    if one.day == other.day && (one.checkpoint is None || one.checkpoint == other.checkpoint) {
        assert(a =~= b.subrange(0, a.len() as int));
    }
    if a.is_prefix_of(b) {
        assert(a[5] == b[5]);
        if one.checkpoint is Some {
            assert(a.len() <= b.len());
            assert(a[19] == b[19]);
        }
    }
}

/// A day given as a plain number, and its older command, mean what the selector of that
/// day means.
pub proof fn law_numbers_mean_days(day: u8)
    requires
        FIRST_DAY <= day <= LAST_DAY,
    ensures
        ({
            let selection = whole_day(day);
            &&& mode_of("test"@, selection.spelling()) == Ok::<TestMode, Seq<char>>(
                TestMode::Focused(selection),
            )
            &&& mode_of("test-day"@, decimal(day as nat)) == mode_of(
                "test"@,
                selection.spelling(),
            )
            &&& mode_of("test-through"@, selection.spelling()) == Ok::<TestMode, Seq<char>>(
                TestMode::Through(day),
            )
            &&& mode_of("test-through"@, decimal(day as nat)) == mode_of(
                "test-through"@,
                selection.spelling(),
            )
        }),
{
    let selection = whole_day(day);
    law_selector_reads_back(selection);
    lemma_day_spelling(day);
    law_decimal_reads_back(day);
    reveal_strlit("test");
    reveal_strlit("test-through");
    reveal_strlit("test-day");
    assert("test"@.len() != "test-through"@.len());
    assert("test"@.len() != "test-day"@.len());
    assert("test-through"@.len() != "test-day"@.len());
}

proof fn lemma_skip_arguments(days: Seq<u8>, i: int)
    ensures
        skip_arguments(days).len() == 2 * days.len(),
        0 <= i < days.len() ==> skip_arguments(days)[2 * i] == "--skip"@,
        0 <= i < days.len() ==> skip_arguments(days)[2 * i + 1] == day_filter(days[i]),
    decreases days.len(),
{
    if days.len() > 0 {
        lemma_skip_arguments(days.drop_last(), i);
    }
}

/// A run through a day leaves out every later day, in order, and no other.
pub proof fn law_later_days_are_skipped(day: u8, other: u8)
    requires
        FIRST_DAY <= day <= LAST_DAY,
    ensures
        ({
            let arguments = skip_arguments(skipped(TestMode::Through(day)));
            &&& arguments.len() == 2 * (LAST_DAY - day)
            &&& skipped(TestMode::Through(day)).contains(other) <==> day < other <= LAST_DAY
            &&& day < other <= LAST_DAY ==> {
                &&& arguments[2 * (other - day - 1)] == "--skip"@
                &&& arguments[2 * (other - day - 1) + 1] == day_filter(other)
            }
        }),
{
    let days = skipped(TestMode::Through(day));
    lemma_skip_arguments(days, other - day - 1);
    if day < other <= LAST_DAY {
        assert(days[other - day - 1] == other);
    }
}

proof fn lemma_break_is_first(text: Seq<char>, from: int)
    requires
        0 <= from,
    ensures
        match break_from(text, from) {
            Some(i) => {
                &&& from <= i
                &&& i + 1 < text.len()
                &&& text[i] == ':'
                &&& text[i + 1] == ':'
                &&& forall|j: int|
                    from <= j < i ==> #[trigger] text[j] != ':' || text[j + 1] != ':'
            },
            None => forall|j: int|
                from <= j < text.len() - 1 ==> #[trigger] text[j] != ':' || text[j + 1] != ':',
        },
    decreases text.len() - from,
{
    if from + 1 < text.len() {
        lemma_break_is_first(text, from + 1);
    }
}

/// A selector is split at its first double colon: the parts make up the selector again, and
/// none stands further to the front. One that has no double colon is its own first part.
pub proof fn law_selectors_split_at_the_first_break(text: Seq<char>)
    ensures
        match tail(text) {
            Some(rest) => {
                &&& text == head(text) + seq![':', ':'] + rest
                &&& forall|i: int|
                    0 <= i < head(text).len() ==> #[trigger] text[i] != ':' || text[i + 1] != ':'
            },
            None => {
                &&& head(text) == text
                &&& forall|i: int|
                    0 <= i < text.len() - 1 ==> #[trigger] text[i] != ':' || text[i + 1] != ':'
            },
        },
{
    lemma_break_is_first(text, 0);
    if let Some(rest) = tail(text) {
        assert(text =~= head(text) + seq![':', ':'] + rest);
    }
}

/// A day is named by its number after `day_`, in two characters: a zero, or a plus sign,
/// and the digit.
pub proof fn law_day_names(part: Seq<char>, day: u8)
    ensures
        named_day(part) == Some(day) <==> 1 <= day <= 6 && (part == seq![
            'd',
            'a',
            'y',
            '_',
            '0',
            ('0' as int + day) as char,
        ] || part == seq!['d', 'a', 'y', '_', '+', ('0' as int + day) as char]),
{
    reveal_strlit("day_");
    let zero = seq!['d', 'a', 'y', '_', '0', ('0' as int + day) as char];
    let plus = seq!['d', 'a', 'y', '_', '+', ('0' as int + day) as char];
    assert("day_"@ =~= seq!['d', 'a', 'y', '_']);
    if named_day(part) == Some(day) {
        let number = part.skip(4);
        law_only_padded_numbers_read(number);
        assert(decimal(day as nat) =~= seq![('0' as int + day) as char]);
        assert(number.skip(1)[0] == number[1]);
        assert(part[4] == number[0] && part[5] == number[1]);
        assert(part[0] == part.subrange(0, 4)[0] && part[1] == part.subrange(0, 4)[1]);
        assert(part[2] == part.subrange(0, 4)[2] && part[3] == part.subrange(0, 4)[3]);
        assert(part =~= zero || part =~= plus);
    }
    if 1 <= day <= 6 && (part == zero || part == plus) {
        let plain = seq![('0' as int + day) as char];
        assert(decimal(day as nat) =~= plain);
        law_padded_numbers_read(day, 0);
        law_padded_numbers_read(day, 1);
        assert(Seq::new(0, |i: int| '0') + plain =~= plain);
        assert(Seq::new(1, |i: int| '0') + plain =~= seq!['0', ('0' as int + day) as char]);
        assert(part.subrange(0, 4) =~= "day_"@);
        if part == zero {
            assert(part.skip(4) =~= seq!['0', ('0' as int + day) as char]);
        } else {
            assert(part.skip(4) =~= seq!['+'] + plain);
        }
    }
}

/// A checkpoint is named by its number after `checkpoint_`, if it has tests on that day.
pub proof fn law_checkpoint_names(day: u8, part: Seq<char>, checkpoint: u8)
    ensures
        named_checkpoint(day, part) == Some(checkpoint) <==> bears_tests(day, checkpoint)
            && part.len() >= 11 && part.take(11) == seq![
            'c',
            'h',
            'e',
            'c',
            'k',
            'p',
            'o',
            'i',
            'n',
            't',
            '_',
        ] && small_number(part.skip(11)) == Some(checkpoint),
{
    reveal_strlit("checkpoint_");
    assert("checkpoint_"@ =~= seq!['c', 'h', 'e', 'c', 'k', 'p', 'o', 'i', 'n', 't', '_']);
    if part.len() >= 11 {
        assert(part.take(11) =~= part.subrange(0, 11));
    }
}

/// The checkpoints that have tests are numbered from one, up to a last one for each day;
/// only the second of the first day has none.
pub proof fn law_checkpoints_with_tests(day: u8, checkpoint: u8)
    ensures
        bears_tests(day, checkpoint) <==> 1 <= day <= 6 && 1 <= checkpoint <= seq![
            5int,
            5,
            4,
            3,
            4,
            2,
        ][day - 1] && !(day == 1 && checkpoint == 2),
{
}

/// What a selector says is read from its parts: the day from the first, and the checkpoint
/// from the second if there is one; a third is one too many. The first part that is wrong
/// is the one that the message is about.
pub proof fn law_selectors_are_read_part_by_part(text: Seq<char>)
    ensures
        match selection_of(text) {
            Ok(selection) => {
                &&& named_day(head(text)) == Some(selection.day)
                &&& match tail(text) {
                    None => selection.checkpoint is None,
                    Some(rest) => {
                        &&& tail(rest) is None
                        &&& selection.checkpoint is Some
                        &&& named_checkpoint(selection.day, rest) == selection.checkpoint
                    },
                }
            },
            Err(message) => {
                ||| named_day(head(text)) is None && message == "invalid day selector '"@ + head(
                    text,
                ) + "'; expected day_01 through day_06"@
                ||| named_day(head(text)) matches Some(day) && tail(text) matches Some(rest)
                    && named_checkpoint(day, head(rest)) is None && message == head(rest)
                    + " has no supplied Rust tests on day_"@ + two_digits(day as nat)
                ||| named_day(head(text)) matches Some(day) && tail(text) matches Some(rest)
                    && named_checkpoint(day, head(rest)) is Some && tail(rest) is Some && message
                    == "invalid test selector '"@ + text + "'"@
            },
        },
{
    if let Some(rest) = tail(text) {
        law_selectors_split_at_the_first_break(rest);
    }
}

/// A text selects a whole day exactly when it names the day and goes on with nothing.
pub proof fn law_whole_day_selectors(text: Seq<char>, day: u8)
    ensures
        selection_of(text) == Ok::<Selection, Seq<char>>(whole_day(day)) <==> 1 <= day <= 6 && (
        text == seq!['d', 'a', 'y', '_', '0', ('0' as int + day) as char] || text == seq![
            'd',
            'a',
            'y',
            '_',
            '+',
            ('0' as int + day) as char,
        ]),
{
    law_selectors_are_read_part_by_part(text);
    law_selectors_split_at_the_first_break(text);
    law_day_names(text, day);
    let zero = seq!['d', 'a', 'y', '_', '0', ('0' as int + day) as char];
    let plus = seq!['d', 'a', 'y', '_', '+', ('0' as int + day) as char];
    if 1 <= day <= 6 && (text == zero || text == plus) {
        lemma_no_break(text, 0);
    }
}

/// A text selects a checkpoint exactly when it names a day, goes on with a double colon, and
/// names a checkpoint of that day that has tests.
pub proof fn law_checkpoint_selectors(
    first: Seq<char>,
    second: Seq<char>,
    day: u8,
    checkpoint: u8,
)
    requires
        named_day(first) == Some(day),
    ensures
        selection_of(first + seq![':', ':'] + second) == Ok::<Selection, Seq<char>>(
            Selection { day, checkpoint: Some(checkpoint) },
        ) <==> named_checkpoint(day, second) == Some(checkpoint),
{
    let text = first + seq![':', ':'] + second;
    law_day_names(first, day);
    lemma_break_at(text, 0, 6);
    assert(text.take(6) =~= first);
    assert(text.skip(8) =~= second);
    law_selectors_are_read_part_by_part(text);
    if named_checkpoint(day, second) == Some(checkpoint) {
        law_only_padded_numbers_read(second.skip(11));
        let number = second.skip(11);
        let padding = number.len() - decimal(checkpoint as nat).len();
        assert(checkpoint < 10);
        assert(decimal(checkpoint as nat).len() == 1);
        assert forall|i: int| 0 <= i < second.len() implies second[i] != ':' by {
            reveal_strlit("checkpoint_");
            if i < 11 {
                assert(second[i] == "checkpoint_"@[i]);
            } else {
                assert(second[i] == number[i - 11]);
                if i - 11 == padding {
                    assert(number[padding] == number.skip(padding)[0]);
                }
            }
        }
        lemma_no_break(second, 0);
    }
}

/// A plain number names a day exactly when there is a day of that number.
pub proof fn law_numbered_days(text: Seq<char>, day: u8)
    ensures
        numbered_day(text) == Some(day) <==> small_number(text) == Some(day) && 1 <= day <= 6,
{
}

/// The commands: `test` runs what its selector selects, `test-through` every day up to a
/// whole one, `test-day` the day of a plain number. Every other command is told the usage.
pub proof fn law_commands(command: Seq<char>, selector: Seq<char>)
    ensures
        command == "test"@ ==> match selection_of(selector) {
            Ok(selection) => mode_of(command, selector) == Ok::<TestMode, Seq<char>>(
                TestMode::Focused(selection),
            ),
            Err(message) => mode_of(command, selector) == Err::<TestMode, Seq<char>>(message),
        },
        command == "test-day"@ ==> match numbered_day(selector) {
            Some(day) => mode_of(command, selector) == Ok::<TestMode, Seq<char>>(
                TestMode::Focused(whole_day(day)),
            ),
            None => mode_of(command, selector) == Err::<TestMode, Seq<char>>(
                "day must be an integer from 1 through 6"@,
            ),
        },
        command == "test-through"@ && "day_"@.is_prefix_of(selector) ==> match selection_of(
            selector,
        ) {
            Ok(selection) => if selection == whole_day(selection.day) {
                mode_of(command, selector) == Ok::<TestMode, Seq<char>>(
                    TestMode::Through(selection.day),
                )
            } else {
                mode_of(command, selector) == Err::<TestMode, Seq<char>>(
                    "test-through accepts a whole day, not a checkpoint"@,
                )
            },
            Err(message) => mode_of(command, selector) == Err::<TestMode, Seq<char>>(message),
        },
        command == "test-through"@ && !"day_"@.is_prefix_of(selector) ==> match numbered_day(
            selector,
        ) {
            Some(day) => mode_of(command, selector) == Ok::<TestMode, Seq<char>>(
                TestMode::Through(day),
            ),
            None => mode_of(command, selector) == Err::<TestMode, Seq<char>>(
                "day must be an integer from 1 through 6"@,
            ),
        },
        command != "test"@ && command != "test-day"@ && command != "test-through"@ ==> mode_of(
            command,
            selector,
        ) == Err::<TestMode, Seq<char>>(
            "usage: cargo xtask test day_NN[::checkpoint_N] | cargo xtask test-through day_NN"@,
        ),
{
    reveal_strlit("test");
    reveal_strlit("test-through");
    reveal_strlit("test-day");
    assert("test"@.len() != "test-through"@.len());
    assert("test"@.len() != "test-day"@.len());
    assert("test-through"@.len() != "test-day"@.len());
}

/// The filter of a selection: the day in two digits and, if there is one, the checkpoint,
/// each with a double colon after it.
pub proof fn law_filter_names_day_and_checkpoint(selection: Selection)
    ensures
        selection.checkpoint is None ==> selection.filter_text() == "day_"@ + two_digits(
            selection.day as nat,
        ) + "::"@,
        selection.checkpoint matches Some(checkpoint) ==> selection.filter_text() == whole_day(
            selection.day,
        ).filter_text() + "checkpoint_"@ + decimal(checkpoint as nat) + "::"@,
{
}

/// A focused run leaves nothing out. A run through a day leaves out the days after it, each
/// once and in order.
pub proof fn law_skipped_days(mode: TestMode, i: int)
    ensures
        mode is Focused ==> skipped(mode).len() == 0,
        mode matches TestMode::Through(day) ==> {
            &&& skipped(mode).len() == if day < 6 {
                6 - day
            } else {
                0
            }
            &&& 0 <= i < skipped(mode).len() ==> skipped(mode)[i] == day + 1 + i
        },
{
}

/// A focused run is called by its filter, and a run through a day by the days that it takes.
pub proof fn law_labels(mode: TestMode)
    ensures
        match mode {
            TestMode::Focused(selection) => label_of(mode) == selection.filter_text(),
            TestMode::Through(day) => label_of(mode) == "day_01 through day_"@ + two_digits(
                day as nat,
            ),
        },
{
}

/// The arguments that Cargo gets: those that every run has, with the filter of the run right
/// after `--all-targets`; and then, only where something follows, a separator, the wish to
/// list, and a pair of arguments for every day that is left out.
pub proof fn law_arguments_in_order(mode: TestMode, list_only: bool, i: int)
    ensures
        ({
            let arguments = cargo_arguments(mode, list_only);
            let days = skipped(mode);
            let start: int = if list_only {
                12
            } else if days.len() > 0 {
                11
            } else {
                10
            };
            &&& arguments.take(9) == seq![
                "test"@,
                "--locked"@,
                "-p"@,
                "vector-db-from-scratch-benchmark-support"@,
                "-p"@,
                "vector-db-from-scratch-core-starter"@,
                "-p"@,
                "vector-db-from-scratch-datafusion-starter"@,
                "--all-targets"@,
            ]
            &&& arguments[9] == match mode {
                TestMode::Focused(selection) => selection.filter_text(),
                TestMode::Through(_) => "day_"@,
            }
            &&& start > 10 ==> arguments[10] == "--"@
            &&& list_only ==> arguments[11] == "--list"@
            &&& arguments.len() == start + 2 * days.len()
            &&& 0 <= i < days.len() ==> {
                &&& arguments[start + 2 * i] == "--skip"@
                &&& arguments[start + 2 * i + 1] == whole_day(days[i]).filter_text()
            }
        }),
{
    let arguments = cargo_arguments(mode, list_only);
    lemma_skip_arguments(skipped(mode), i);
    assert(arguments.take(9) =~= seq![
        "test"@,
        "--locked"@,
        "-p"@,
        "vector-db-from-scratch-benchmark-support"@,
        "-p"@,
        "vector-db-from-scratch-core-starter"@,
        "-p"@,
        "vector-db-from-scratch-datafusion-starter"@,
        "--all-targets"@,
    ]);
}

/// A run takes the tests that it was asked for and no others. Cargo takes a test whose name
/// starts with the filter, the argument after `--all-targets`, unless it starts with an
/// argument that comes after `--skip`. So a focused run takes the tests of its day and, if
/// it has one, of its checkpoint; a run through a day takes the tests of that day and of
/// those before it.
pub proof fn law_runs_take_what_was_asked(mode: TestMode, list_only: bool, other: Selection)
    requires
        other.valid(),
        mode matches TestMode::Focused(one) ==> one.valid(),
        mode matches TestMode::Through(day) ==> FIRST_DAY <= day <= LAST_DAY,
    ensures
        ({
            let arguments = cargo_arguments(mode, list_only);
            let name = other.filter_text();
            &&& arguments[8] == "--all-targets"@
            &&& (arguments[9].is_prefix_of(name) && (forall|i: int|
                10 <= i < arguments.len() - 1 && #[trigger] arguments[i] == "--skip"@
                    ==> !arguments[i + 1].is_prefix_of(name))) <==> match mode {
                TestMode::Focused(one) => one.day == other.day && (one.checkpoint is None
                    || one.checkpoint == other.checkpoint),
                TestMode::Through(day) => other.day <= day,
            }
        }),
{
    let arguments = cargo_arguments(mode, list_only);
    let name = other.filter_text();
    let days = skipped(mode);
    law_arguments_in_order(mode, list_only, 0);
    assert(arguments[8] == arguments.take(9)[8]);
    reveal_strlit("--");
    reveal_strlit("--list");
    reveal_strlit("--skip");
    reveal_strlit("day_");
    assert("--skip"@[2] != "--list"@[2]);
    let start: int = if list_only {
        12
    } else if days.len() > 0 {
        11
    } else {
        10
    };
    match mode {
        TestMode::Focused(one) => {
            law_filters_do_not_overlap(one, other);
            assert forall|i: int|
                10 <= i < arguments.len() - 1 implies #[trigger] arguments[i] != "--skip"@ by {
                assert(arguments.len() <= 12);
                assert(arguments[i] == "--"@);
                assert("--"@.len() != "--skip"@.len());
            }
        },
        TestMode::Through(day) => {
            lemma_day_spelling(other.day);
            assert("day_"@.is_prefix_of(name)) by {
                assert(name.take(6) =~= whole_day(other.day).spelling());
                assert("day_"@ =~= name.subrange(0, 4)) by {
                    assert(name.subrange(0, 4) =~= name.take(6).subrange(0, 4));
                }
            }
            if other.day > day {
                let k = other.day - day - 1;
                law_arguments_in_order(mode, list_only, k);
                law_filters_do_not_overlap(whole_day(other.day), other);
                assert(days[k] == other.day);
                assert(arguments[start + 2 * k] == "--skip"@);
                assert(arguments[start + 2 * k + 1].is_prefix_of(name));
            } else {
                assert forall|i: int|
                    10 <= i < arguments.len() - 1 && #[trigger] arguments[i]
                        == "--skip"@ implies !arguments[i + 1].is_prefix_of(name) by {
                    if i == 10 && start > 10 {
                        assert(arguments[10] == "--"@);
                    } else if i == 11 && start > 11 {
                        assert(arguments[11] == "--list"@);
                    } else {
                        let k = (i - start) / 2;
                        law_arguments_in_order(mode, list_only, k);
                        if (i - start) % 2 == 1 {
                            let text = whole_day(days[k]).filter_text();
                            lemma_day_spelling(days[k]);
                            assert(text.take(6) =~= whole_day(days[k]).spelling());
                            assert(text[0] == text.take(6)[0]);
                            assert(arguments[i] == text);
                        } else {
                            law_filters_do_not_overlap(whole_day(days[k]), other);
                        }
                    }
                }
            }
        },
    }
}

/// The texts of some strings are those of the strings one by one.
pub proof fn law_texts(strings: Seq<String>, i: int)
    ensures
        texts(strings).len() == strings.len(),
        0 <= i < strings.len() ==> texts(strings)[i] == strings[i]@,
{
}

/// What is said of a selector that is refused, whatever stands in it.
pub proof fn law_refusals_of_selectors(day: u8, part: Seq<char>)
    ensures
        bad_day(part) == "invalid day selector '"@ + part + "'; expected day_01 through day_06"@,
        bad_checkpoint(day, part) == part + " has no supplied Rust tests on day_"@ + two_digits(
            day as nat,
        ),
        bad_number() == "day must be an integer from 1 through 6"@,
        usage_text()
            == "usage: cargo xtask test day_NN[::checkpoint_N] | cargo xtask test-through day_NN"@,
{
}

} // verus!
