//! The record files of the corpus.
//!
//! A file is a run of records of one width. A record is a header of four bytes, its
//! width as a little-endian `i32`, and then that many little-endian words of four
//! bytes: vector components in an `fvecs` file, row ids in an `ivecs` file. A vector
//! component stands here by its IEEE 754 bit pattern.

use std::collections::HashSet;

use vstd::prelude::*;
use vstd::string::*;

use crate::error::{SiftError, SiftErrorModel};
use crate::io::{Read, Sink, Write, follows, reads_as, since};
use crate::progress::{
    Progress, StageModel, advanced, fresh_stage, lemma_phase_advance, lemma_phase_begin,
    lemma_phase_finish, phase_lines, phase_stage,
};

verus! {

/// The unsigned value of four bytes, the least significant first.
pub open spec fn le_u32(bytes: Seq<u8>) -> nat {
    (bytes[0] + 0x100 * bytes[1] + 0x1_0000 * bytes[2] + 0x100_0000 * bytes[3]) as nat
}

/// The value of four bytes in two's complement, the least significant first.
pub open spec fn le_i32(bytes: Seq<u8>) -> int {
    if le_u32(bytes) < 0x8000_0000 {
        le_u32(bytes) as int
    } else {
        le_u32(bytes) - 0x1_0000_0000
    }
}

/// The four bytes of word `index` of a payload.
pub open spec fn word(payload: Seq<u8>, index: int) -> Seq<u8> {
    payload.subrange(4 * index, 4 * index + 4)
}

/// Whether a bit pattern is a finite single-precision number: its exponent field is
/// not all ones.
pub open spec fn is_finite(bits: nat) -> bool {
    (bits / 0x80_0000) % 0x100 != 0xff
}

/// The first `count` components of a vector, or the first of them that is not finite.
pub open spec fn components(
    file: Seq<char>,
    record: nat,
    payload: Seq<u8>,
    count: nat,
) -> Result<Seq<u32>, SiftErrorModel>
    decreases count,
{
    if count == 0 {
        Ok(seq![])
    } else {
        match components(file, record, payload, (count - 1) as nat) {
            Err(error) => Err(error),
            Ok(row) => {
                let bits = le_u32(word(payload, count - 1));
                if is_finite(bits) {
                    Ok(row.push(bits as u32))
                } else {
                    Err(
                        SiftErrorModel::NonFinite { file, record, component: (count - 1) as nat },
                    )
                }
            },
        }
    }
}

/// The first `count` row ids of a record, or the first of them that is below zero, not
/// below `upper_bound`, or there already.
pub open spec fn row_ids(
    record: nat,
    payload: Seq<u8>,
    upper_bound: nat,
    count: nat,
) -> Result<Seq<usize>, SiftErrorModel>
    decreases count,
{
    if count == 0 {
        Ok(seq![])
    } else {
        match row_ids(record, payload, upper_bound, (count - 1) as nat) {
            Err(error) => Err(error),
            Ok(row) => {
                let id = (count - 1) as nat;
                let value = le_i32(word(payload, count - 1));
                if value < 0 {
                    Err(SiftErrorModel::NegativeId { record, id, value })
                } else if value >= upper_bound {
                    Err(
                        SiftErrorModel::OutOfRangeId {
                            record,
                            id,
                            value: value as nat,
                            upper_bound,
                        },
                    )
                } else if row.contains(value as usize) {
                    Err(SiftErrorModel::DuplicateId { record, id, value: value as nat })
                } else {
                    Ok(row.push(value as usize))
                }
            },
        }
    }
}

/// A bit pattern is finite exactly when, but for the sign, it is below that of infinity.
pub proof fn law_finite_is_below_infinity(bits: nat)
    requires
        bits < 0x1_0000_0000,
    ensures
        is_finite(bits) <==> bits % 0x8000_0000 < 0x7f80_0000,
{
}

/// What a record file is expected to hold, and how many of its rows are kept.
pub struct Layout {
    pub file: Seq<char>,
    pub records: nat,
    pub dimensions: nat,
    pub retain: nat,
}

impl Layout {
    /// The bytes of one record.
    pub open spec fn stride(self) -> nat {
        4 + 4 * self.dimensions
    }

    /// The stage that counts the records of the file while it is read.
    pub open spec fn stage(self) -> StageModel {
        fresh_stage("load "@ + self.file, "rows"@, self.records, None)
    }
}

/// How a payload becomes the row of a record.
pub type RowRule<T> = spec_fn(nat, Seq<u8>) -> Result<Seq<T>, SiftErrorModel>;

/// The rule of an `fvecs` file.
pub open spec fn vector_rule(layout: Layout) -> RowRule<u32> {
    |record: nat, payload: Seq<u8>| components(layout.file, record, payload, layout.dimensions)
}

/// The rule of an `ivecs` file.
pub open spec fn id_rule(layout: Layout, upper_bound: nat) -> RowRule<usize> {
    |record: nat, payload: Seq<u8>| row_ids(record, payload, upper_bound, layout.dimensions)
}

/// The payload of the record that `bytes`, the rest of the file, starts with. Where
/// the bytes do not suffice, the file has ended too early, unless `fault` tells that
/// it could not be read on.
pub open spec fn record_payload(
    layout: Layout,
    bytes: Seq<u8>,
    fault: Option<Seq<char>>,
    record: nat,
) -> Result<Seq<u8>, SiftErrorModel> {
    if bytes.len() < 4 {
        match fault {
            Some(source) => Err(SiftErrorModel::Io { file: layout.file, source }),
            None => Err(SiftErrorModel::TruncatedHeader { file: layout.file, record }),
        }
    } else if le_i32(bytes.take(4)) <= 0 || le_i32(bytes.take(4)) != layout.dimensions {
        Err(
            SiftErrorModel::Dimension {
                file: layout.file,
                record,
                expected: layout.dimensions,
                actual: le_i32(bytes.take(4)),
            },
        )
    } else if bytes.len() < layout.stride() {
        match fault {
            Some(source) => Err(SiftErrorModel::Io { file: layout.file, source }),
            None => Err(
                SiftErrorModel::TruncatedPayload {
                    file: layout.file,
                    record,
                    expected: 4 * layout.dimensions,
                    actual: (bytes.len() - 4) as nat,
                },
            ),
        }
    } else {
        Ok(bytes.subrange(4, layout.stride() as int))
    }
}

/// The rows of the first `count` records, or what is wrong with the first bad one.
pub open spec fn leading_rows<T>(
    layout: Layout,
    bytes: Seq<u8>,
    fault: Option<Seq<char>>,
    rule: RowRule<T>,
    count: nat,
) -> Result<Seq<Seq<T>>, SiftErrorModel>
    decreases count,
{
    if count == 0 {
        Ok(seq![])
    } else {
        let record = (count - 1) as nat;
        match leading_rows(layout, bytes, fault, rule, record) {
            Err(error) => Err(error),
            Ok(rows) => match record_payload(
                layout,
                bytes.skip((record * layout.stride()) as int),
                fault,
                record,
            ) {
                Err(error) => Err(error),
                Ok(payload) => match rule(record, payload) {
                    Err(error) => Err(error),
                    Ok(row) => Ok(rows.push(row)),
                },
            },
        }
    }
}

/// What reading a whole file gives: the rows to keep, after every record was checked
/// and the file was seen to end with the last of them.
pub open spec fn scan<T>(
    layout: Layout,
    bytes: Seq<u8>,
    fault: Option<Seq<char>>,
    rule: RowRule<T>,
) -> Result<Seq<Seq<T>>, SiftErrorModel> {
    match leading_rows(layout, bytes, fault, rule, layout.records) {
        Err(error) => Err(error),
        Ok(rows) => match fault {
            Some(source) => Err(SiftErrorModel::Io { file: layout.file, source }),
            None => if bytes.len() > layout.records * layout.stride() {
                Err(
                    SiftErrorModel::Trailing {
                        file: layout.file,
                        bytes: (bytes.len() - layout.records * layout.stride()) as nat,
                        records: layout.records,
                    },
                )
            } else {
                Ok(rows.take(layout.retain as int))
            },
        },
    }
}

/// How many of the first `count` records are good, up to the first bad one.
pub open spec fn good_records<T>(
    layout: Layout,
    bytes: Seq<u8>,
    fault: Option<Seq<char>>,
    rule: RowRule<T>,
    count: nat,
) -> nat
    decreases count,
{
    if count == 0 || leading_rows(layout, bytes, fault, rule, count) is Ok {
        count
    } else {
        good_records(layout, bytes, fault, rule, (count - 1) as nat)
    }
}

/// The rows of a table, each as a sequence.
pub open spec fn row_seqs<T>(rows: Seq<Vec<T>>) -> Seq<Seq<T>> {
    Seq::new(rows.len(), |i: int| rows[i]@)
}

/// A decoding result with its table and its error as models.
pub open spec fn outcome<T>(result: Result<Vec<Vec<T>>, SiftError>) -> Result<
    Seq<Seq<T>>,
    SiftErrorModel,
> {
    match result {
        Ok(rows) => Ok(row_seqs(rows@)),
        Err(error) => Err(error@),
    }
}

/// What `progress` has shown, and has under way, after a file was read.
pub open spec fn reading_shown<T, W: Write>(
    before: &Progress<W>,
    after: &Progress<W>,
    layout: Layout,
    bytes: Seq<u8>,
    fault: Option<Seq<char>>,
    rule: RowRule<T>,
) -> bool {
    let good = good_records(layout, bytes, fault, rule, layout.records);
    let finished = scan(layout, bytes, fault, rule) is Ok;
    &&& after.current() == phase_stage(layout.stage(), good, finished)
    &&& after.sent_since(
        before,
        phase_lines(before.on_terminal(), layout.stage(), good, finished),
    )
}

/// What reading a file gives and shows, where the source is one that delivers `bytes` and
/// then fails with `fault`, or just ends.
pub open spec fn told<T, W: Write>(
    result: Result<Vec<Vec<T>>, SiftError>,
    before: &Progress<W>,
    after: &Progress<W>,
    layout: Layout,
    bytes: Seq<u8>,
    fault: Option<Seq<char>>,
    rule: RowRule<T>,
) -> bool {
    &&& outcome(result) == scan(layout, bytes, fault, rule)
    &&& reading_shown(before, after, layout, bytes, fault, rule)
}

fn word_at(bytes: &Vec<u8>, start: usize) -> (value: u32)
    requires
        start + 4 <= bytes.len(),
    ensures
        value == le_u32(bytes@.subrange(start as int, start + 4)),
{
    bytes[start] as u32 + 0x100 * (bytes[start + 1] as u32) + 0x1_0000 * (bytes[start + 2] as u32)
        + 0x100_0000 * (bytes[start + 3] as u32)
}

fn to_signed(value: u32) -> (signed: i32)
    ensures
        signed == (if value < 0x8000_0000 {
            value as int
        } else {
            value - 0x1_0000_0000
        }),
{
    if value < 0x8000_0000 {
        value as i32
    } else {
        -((0xffff_ffff - value) as i32) - 1
    }
}

/// Reads `want` bytes into `buffer`, in place of what it held, and returns how many
/// there were before the source ended.
pub fn fill<R: Read>(
    reader: &mut R,
    file: &str,
    buffer: &mut Vec<u8>,
    want: usize,
) -> (outcome: Result<usize, SiftError>)
    ensures
        follows(old(reader), final(reader)),
        match outcome {
            Ok(count) => {
                &&& count == final(buffer)@.len()
                &&& count <= want
                &&& final(buffer)@ == since(old(reader), final(reader))
                &&& final(reader).ended() == if count < want {
                    Some(None::<Seq<char>>)
                } else {
                    old(reader).ended()
                }
            },
            Err(error) => {
                &&& since(old(reader), final(reader)).len() < want
                &&& final(reader).ended() matches Some(Some(source)) && error@ == (
                SiftErrorModel::Io { file: file@, source })
            },
        },
{
    buffer.clear();
    assert(since(old(reader), reader) =~= seq![]);
    while buffer.len() < want
        invariant
            buffer@.len() <= want,
            follows(old(reader), reader),
            buffer@ == since(old(reader), reader),
            reader.ended() == old(reader).ended(),
        decreases want - buffer@.len(),
    {
        let ghost before = *reader;
        let limit: usize = want - buffer.len();
        let outcome = reader.read(buffer, limit);
        assert(since(old(reader), reader) =~= since(old(reader), &before) + since(
            &before,
            reader,
        ));
        match outcome {
            Ok(count) => {
                if count == 0 {
                    return Ok(buffer.len());
                }
            },
            Err(source) => {
                return Err(SiftError::Io { file: file.to_owned(), source });
            },
        }
    }
    Ok(buffer.len())
}

/// Reads the header of a record.
pub fn read_header<R: Read>(reader: &mut R, file: &str, record: usize) -> (outcome: Result<
    i32,
    SiftError,
>)
    ensures
        follows(old(reader), final(reader)),
        match outcome {
            Ok(width) => {
                &&& since(old(reader), final(reader)).len() == 4
                &&& width == le_i32(since(old(reader), final(reader)))
                &&& final(reader).ended() is None
            },
            Err(error) => {
                &&& since(old(reader), final(reader)).len() < 4
                &&& final(reader).ended() matches Some(end) && error@ == match end {
                    Some(source) => SiftErrorModel::Io { file: file@, source },
                    None => SiftErrorModel::TruncatedHeader { file: file@, record: record as nat },
                }
            },
        },
{
    let mut header: Vec<u8> = Vec::with_capacity(4);
    let count: usize = fill(reader, file, &mut header, 4)?;
    if count != 4 {
        return Err(SiftError::TruncatedHeader { file: file.to_owned(), record });
    }
    assert(header@.subrange(0, 4) =~= header@);
    Ok(to_signed(word_at(&header, 0)))
}

/// Holds the width that a header gives against the expected one.
pub fn check_dimension(file: &str, record: usize, expected: usize, actual: i32) -> (outcome: Result<
    (),
    SiftError,
>)
    ensures
        match outcome {
            Ok(()) => actual > 0 && actual == expected,
            Err(error) => {
                &&& actual <= 0 || actual != expected
                &&& error@ == (SiftErrorModel::Dimension {
                    file: file@,
                    record: record as nat,
                    expected: expected as nat,
                    actual: actual as int,
                })
            },
        },
{
    if actual <= 0 || actual as usize != expected {
        return Err(SiftError::Dimension { file: file.to_owned(), record, expected, actual });
    }
    Ok(())
}

/// Makes sure that the file ends here.
pub fn check_trailing<R: Read>(reader: &mut R, file: &str, records: usize) -> (outcome: Result<
    (),
    SiftError,
>)
    ensures
        follows(old(reader), final(reader)),
        final(reader).ended() matches Some(end) && match end {
            Some(source) => outcome matches Err(error) && error@ == (SiftErrorModel::Io {
                file: file@,
                source,
            }),
            None => if since(old(reader), final(reader)).len() > 0 {
                outcome matches Err(error) && error@ == (SiftErrorModel::Trailing {
                    file: file@,
                    bytes: since(old(reader), final(reader)).len(),
                    records: records as nat,
                })
            } else {
                outcome is Ok
            },
        },
{
    let mut trailing: Vec<u8> = Vec::new();
    match reader.read_to_end(&mut trailing) {
        Ok(()) => {},
        Err(source) => {
            return Err(SiftError::Io { file: file.to_owned(), source });
        },
    }
    if trailing.len() != 0 {
        return Err(SiftError::Trailing { file: file.to_owned(), bytes: trailing.len(), records });
    }
    Ok(())
}

fn read_record<R: Read>(
    reader: &mut R,
    file: &str,
    record: usize,
    dimensions: usize,
    payload: &mut Vec<u8>,
    Ghost(layout): Ghost<Layout>,
) -> (outcome: Result<(), SiftError>)
    requires
        4 * dimensions <= usize::MAX,
        layout.file == file@,
        layout.dimensions == dimensions,
    ensures
        follows(old(reader), final(reader)),
        match outcome {
            Ok(()) => {
                &&& since(old(reader), final(reader)).len() == layout.stride()
                &&& final(payload)@ == since(old(reader), final(reader)).skip(4)
                &&& record_payload(
                    layout,
                    since(old(reader), final(reader)),
                    None,
                    record as nat,
                ) is Ok
                &&& final(reader).ended() is None
            },
            Err(error) => forall|bytes: Seq<u8>, fault: Option<Seq<char>>| #[trigger]
                reads_as(old(reader), final(reader), bytes, fault) ==> record_payload(
                    layout,
                    bytes,
                    fault,
                    record as nat,
                ) == Err::<Seq<u8>, SiftErrorModel>(error@),
        },
{
    let actual: i32 = read_header(reader, file, record)?;
    let ghost after_header = *reader;
    let ghost header = since(old(reader), reader);
    let checked = check_dimension(file, record, dimensions, actual);
    if let Err(error) = checked {
        assert forall|bytes: Seq<u8>, fault: Option<Seq<char>>| #[trigger]
            reads_as(old(reader), reader, bytes, fault) implies record_payload(
            layout,
            bytes,
            fault,
            record as nat,
        ) == Err::<Seq<u8>, SiftErrorModel>(error@) by {
            assert(bytes.take(4) =~= header);
        }
        return Err(error);
    }
    let expected: usize = 4 * dimensions;
    let filled = fill(reader, file, payload, expected);
    let ghost all = since(old(reader), reader);
    assert(all =~= header + since(&after_header, reader));
    assert(all.take(4) =~= header);
    let count: usize = filled?;
    if count != expected {
        return Err(
            SiftError::TruncatedPayload { file: file.to_owned(), record, expected, actual: count },
        );
    }
    assert(payload@ =~= all.skip(4));
    Ok(())
}

fn read_components(
    file: &str,
    record: usize,
    payload: &Vec<u8>,
    dimensions: usize,
    keep: bool,
) -> (outcome: Result<Vec<u32>, SiftError>)
    requires
        payload.len() == 4 * dimensions,
    ensures
        match outcome {
            Ok(row) => match components(file@, record as nat, payload@, dimensions as nat) {
                Ok(model) => keep ==> row@ == model,
                Err(error) => false,
            },
            Err(error) => components(file@, record as nat, payload@, dimensions as nat) == Err::<
                Seq<u32>,
                SiftErrorModel,
            >(error@),
        },
{
    let mut row: Vec<u32> = Vec::with_capacity(if keep {
        dimensions
    } else {
        0
    });
    let mut component: usize = 0;
    while component < dimensions
        invariant
            component <= dimensions,
            payload.len() == 4 * dimensions,
            components(file@, record as nat, payload@, component as nat) matches Ok(model) && (keep
                ==> row@ == model),
        decreases dimensions - component,
    {
        let bits: u32 = word_at(payload, 4 * component);
        if (bits / 0x80_0000) % 0x100 == 0xff {
            let error = SiftError::NonFinite { file: file.to_owned(), record, component };
            proof {
                assert(components(file@, record as nat, payload@, (component + 1) as nat) == Err::<
                    Seq<u32>,
                    SiftErrorModel,
                >(error@));
                lemma_components_error(
                    file@,
                    record as nat,
                    payload@,
                    (component + 1) as nat,
                    dimensions as nat,
                );
            }
            return Err(error);
        }
        if keep {
            row.push(bits);
        }
        component = component + 1;
    }
    Ok(row)
}

pub proof fn lemma_components_error(
    file: Seq<char>,
    record: nat,
    payload: Seq<u8>,
    fewer: nat,
    more: nat,
)
    requires
        fewer <= more,
        components(file, record, payload, fewer) is Err,
    ensures
        components(file, record, payload, more) == components(file, record, payload, fewer),
    decreases more,
{
    if fewer < more {
        lemma_components_error(file, record, payload, fewer, (more - 1) as nat);
    }
}

fn read_row_ids(
    record: usize,
    payload: &Vec<u8>,
    dimensions: usize,
    upper_bound: usize,
    keep: bool,
) -> (outcome: Result<Vec<usize>, SiftError>)
    requires
        payload.len() == 4 * dimensions,
    ensures
        match outcome {
            Ok(row) => match row_ids(
                record as nat,
                payload@,
                upper_bound as nat,
                dimensions as nat,
            ) {
                Ok(model) => keep ==> row@ == model,
                Err(error) => false,
            },
            Err(error) => row_ids(record as nat, payload@, upper_bound as nat, dimensions as nat)
                == Err::<Seq<usize>, SiftErrorModel>(error@),
        },
{
    let mut seen: HashSet<usize> = HashSet::with_capacity(dimensions);
    let mut row: Vec<usize> = Vec::with_capacity(if keep {
        dimensions
    } else {
        0
    });
    let ghost mut ids: Seq<usize> = seq![];
    let mut id: usize = 0;
    while id < dimensions
        invariant
            id <= dimensions,
            payload.len() == 4 * dimensions,
            row_ids(record as nat, payload@, upper_bound as nat, id as nat) == Ok::<
                Seq<usize>,
                SiftErrorModel,
            >(ids),
            keep ==> row@ == ids,
            seen@ == ids.to_set(),
        decreases dimensions - id,
    {
        let signed: i32 = to_signed(word_at(payload, 4 * id));
        let ghost next = row_ids(record as nat, payload@, upper_bound as nat, (id + 1) as nat);
        if signed < 0 {
            let error = SiftError::NegativeId { record, id, value: signed };
            proof {
                assert(next == Err::<Seq<usize>, SiftErrorModel>(error@));
                lemma_row_ids_error(
                    record as nat,
                    payload@,
                    upper_bound as nat,
                    (id + 1) as nat,
                    dimensions as nat,
                );
            }
            return Err(error);
        }
        let value: usize = signed as usize;
        if value >= upper_bound {
            let error = SiftError::OutOfRangeId { record, id, value, upper_bound };
            proof {
                assert(next == Err::<Seq<usize>, SiftErrorModel>(error@));
                lemma_row_ids_error(
                    record as nat,
                    payload@,
                    upper_bound as nat,
                    (id + 1) as nat,
                    dimensions as nat,
                );
            }
            return Err(error);
        }
        if !seen.insert(value) {
            let error = SiftError::DuplicateId { record, id, value };
            proof {
                assert(ids.contains(value));
                assert(next == Err::<Seq<usize>, SiftErrorModel>(error@));
                lemma_row_ids_error(
                    record as nat,
                    payload@,
                    upper_bound as nat,
                    (id + 1) as nat,
                    dimensions as nat,
                );
            }
            return Err(error);
        }
        if keep {
            row.push(value);
        }
        proof {
            assert(!ids.contains(value));
            assert(ids.push(value).to_set() =~= ids.to_set().insert(value)) by {
                broadcast use vstd::seq_lib::group_seq_properties;

            }
            ids = ids.push(value);
        }
        id = id + 1;
    }
    Ok(row)
}

pub proof fn lemma_row_ids_error(
    record: nat,
    payload: Seq<u8>,
    upper_bound: nat,
    fewer: nat,
    more: nat,
)
    requires
        fewer <= more,
        row_ids(record, payload, upper_bound, fewer) is Err,
    ensures
        row_ids(record, payload, upper_bound, more) == row_ids(
            record,
            payload,
            upper_bound,
            fewer,
        ),
    decreases more,
{
    if fewer < more {
        lemma_row_ids_error(record, payload, upper_bound, fewer, (more - 1) as nat);
    }
}

/// The kind of rows that a file holds.
pub trait Rows<T>: Sized {
    /// How a payload becomes a row of this kind.
    spec fn rule(&self, layout: Layout) -> RowRule<T>;

    /// Decodes the payload of a record. A row that is not kept is checked all the same.
    fn decode(
        &self,
        file: &str,
        record: usize,
        payload: &Vec<u8>,
        dimensions: usize,
        keep: bool,
    ) -> (outcome: Result<Vec<T>, SiftError>)
        requires
            payload.len() == 4 * dimensions,
        ensures
            forall|layout: Layout|
                layout.file == file@ && layout.dimensions == dimensions ==> decoded(
                    #[trigger] self.rule(layout),
                    record as nat,
                    payload@,
                    keep,
                    outcome,
                ),
    ;
}

/// Whether `outcome` is what a rule makes of a payload. A row that is not kept may be
/// anything.
pub open spec fn decoded<T>(
    rule: RowRule<T>,
    record: nat,
    payload: Seq<u8>,
    keep: bool,
    outcome: Result<Vec<T>, SiftError>,
) -> bool {
    match outcome {
        Ok(row) => rule(record, payload) matches Ok(model) && (keep ==> row@ == model),
        Err(error) => rule(record, payload) == Err::<Seq<T>, SiftErrorModel>(error@),
    }
}

/// The rows of an `fvecs` file.
pub struct Vectors;

impl Rows<u32> for Vectors {
    open spec fn rule(&self, layout: Layout) -> RowRule<u32> {
        vector_rule(layout)
    }

    fn decode(
        &self,
        file: &str,
        record: usize,
        payload: &Vec<u8>,
        dimensions: usize,
        keep: bool,
    ) -> (outcome: Result<Vec<u32>, SiftError>) {
        read_components(file, record, payload, dimensions, keep)
    }
}

/// The rows of an `ivecs` file, with ids below a bound.
pub struct RowIds {
    pub upper_bound: usize,
}

impl Rows<usize> for RowIds {
    open spec fn rule(&self, layout: Layout) -> RowRule<usize> {
        id_rule(layout, self.upper_bound as nat)
    }

    fn decode(
        &self,
        file: &str,
        record: usize,
        payload: &Vec<u8>,
        dimensions: usize,
        keep: bool,
    ) -> (outcome: Result<Vec<usize>, SiftError>) {
        read_row_ids(record, payload, dimensions, self.upper_bound, keep)
    }
}

/// A bad record decides: what comes after it changes nothing.
pub proof fn lemma_first_bad_record<T>(
    layout: Layout,
    bytes: Seq<u8>,
    fault: Option<Seq<char>>,
    rule: RowRule<T>,
    good: nat,
    count: nat,
)
    requires
        good < count,
        leading_rows(layout, bytes, fault, rule, good) is Ok,
        leading_rows(layout, bytes, fault, rule, good + 1) is Err,
    ensures
        leading_rows(layout, bytes, fault, rule, count) == leading_rows(
            layout,
            bytes,
            fault,
            rule,
            good + 1,
        ),
        good_records(layout, bytes, fault, rule, count) == good,
    decreases count,
{
    if good + 1 < count {
        lemma_first_bad_record(layout, bytes, fault, rule, good, (count - 1) as nat);
    } else {
        assert(good_records(layout, bytes, fault, rule, good) == good);
    }
}

/// Enough of a file decides about its first records: what comes after them changes
/// nothing.
proof fn lemma_leading_extends<T>(
    layout: Layout,
    part: Seq<u8>,
    bytes: Seq<u8>,
    fault: Option<Seq<char>>,
    rule: RowRule<T>,
    count: nat,
)
    requires
        part.is_prefix_of(bytes),
        part.len() >= count * layout.stride(),
    ensures
        leading_rows(layout, bytes, fault, rule, count) == leading_rows(
            layout,
            part,
            None,
            rule,
            count,
        ),
    decreases count,
{
    if count > 0 {
        let record = (count - 1) as nat;
        let stride = layout.stride();
        assert(count * stride == record * stride + stride) by (nonlinear_arith)
            requires
                count == record + 1,
        ;
        lemma_leading_extends(layout, part, bytes, fault, rule, record);
        lemma_payload_extends(
            layout,
            part.skip((record * stride) as int),
            bytes.skip((record * stride) as int),
            fault,
            record,
        );
    }
}

proof fn lemma_payload_extends(
    layout: Layout,
    part: Seq<u8>,
    bytes: Seq<u8>,
    fault: Option<Seq<char>>,
    record: nat,
)
    requires
        part.is_prefix_of(bytes),
        part.len() >= layout.stride(),
    ensures
        record_payload(layout, bytes, fault, record) == record_payload(layout, part, None, record),
{
    assert(bytes.take(4) =~= part.take(4));
    assert(bytes.subrange(4, layout.stride() as int) =~= part.subrange(
        4,
        layout.stride() as int,
    ));
}

/// What a source can be from the start, it can also be from a later state, without what it
/// had delivered by then.
proof fn lemma_reads_on<R: Read>(
    start: &R,
    before: &R,
    after: &R,
    bytes: Seq<u8>,
    fault: Option<Seq<char>>,
)
    requires
        follows(start, before),
        follows(before, after),
        reads_as(start, after, bytes, fault),
    ensures
        since(start, before).is_prefix_of(bytes),
        reads_as(before, after, bytes.skip(since(start, before).len() as int), fault),
{
    let first = since(start, before);
    let all = since(start, after);
    assert(all =~= first + since(before, after));
    assert(first =~= bytes.subrange(0, first.len() as int));
    let rest = bytes.skip(first.len() as int);
    let got = since(before, after);
    if after.ended() is Some {
        assert(rest =~= got);
    } else {
        assert forall|i: int| 0 <= i < got.len() implies got[i] == rest[i] by {
            assert(got[i] == all[first.len() + i]);
            assert(all[first.len() + i] == bytes.subrange(0, all.len() as int)[first.len() + i]);
        }
        assert(got =~= rest.subrange(0, got.len() as int));
    }
}

/// Reads a file of `records` rows of `dimensions` words each and keeps the first `retain`.
/// Every record is checked and counted. The result does not depend on anything that the
/// source would have delivered after it was read last.
#[verifier::rlimit(40)]
pub fn read_rows<T, K: Rows<T>, R: Read, W: Write>(
    rows_of: &K,
    reader: &mut R,
    file: &str,
    records: usize,
    dimensions: usize,
    retain: usize,
    progress: &mut Progress<W>,
) -> (result: Result<Vec<Vec<T>>, SiftError>)
    requires
        0 < records,
        retain <= records,
        4 * dimensions <= usize::MAX,
    ensures
        final(progress).wf(),
        follows(old(reader), final(reader)),
        ({
            let layout = Layout {
                file: file@,
                records: records as nat,
                dimensions: dimensions as nat,
                retain: retain as nat,
            };
            forall|bytes: Seq<u8>, fault: Option<Seq<char>>| #[trigger]
                reads_as(old(reader), final(reader), bytes, fault) ==> told(
                    result,
                    old(progress),
                    final(progress),
                    layout,
                    bytes,
                    fault,
                    rows_of.rule(layout),
                )
        }),
{
    let ghost layout = Layout {
        file: file@,
        records: records as nat,
        dimensions: dimensions as nat,
        retain: retain as nat,
    };
    let ghost rule = rows_of.rule(layout);
    let ghost stride = layout.stride() as int;
    let mut label = String::new();
    label.append("load ");
    label.append(file);
    assert(label@ =~= "load "@ + file@);
    progress.begin(label.as_str(), "rows", records, None);
    proof {
        lemma_phase_begin(old(progress), progress, layout.stage());
    }
    let mut payload: Vec<u8> = Vec::new();
    let mut retained: Vec<Vec<T>> = Vec::new();
    let mut record: usize = 0;
    let ghost mut rows: Seq<Seq<T>> = seq![];
    proof {
        assert(since(old(reader), reader) =~= seq![]);
        assert(0 * stride == 0);
        assert(row_seqs(retained@) =~= rows.take(0));
    }
    while record < records
        invariant
            record <= records,
            retain <= records,
            4 * dimensions <= usize::MAX,
            layout.file == file@,
            layout.records == records,
            layout.dimensions == dimensions,
            layout.retain == retain,
            rule == rows_of.rule(layout),
            stride == layout.stride(),
            follows(old(reader), reader),
            since(old(reader), reader).len() == record * stride,
            leading_rows(layout, since(old(reader), reader), None, rule, record as nat) == Ok::<
                Seq<Seq<T>>,
                SiftErrorModel,
            >(rows),
            rows.len() == record,
            row_seqs(retained@) == rows.take(if record < retain {
                record as int
            } else {
                retain as int
            }),
            progress.wf(),
            progress.current() == Some(advanced(layout.stage(), record as nat)),
            progress.sent_since(
                old(progress),
                phase_lines(old(progress).on_terminal(), layout.stage(), record as nat, false),
            ),
        decreases records - record,
    {
        let ghost before = *reader;
        let ghost part = since(old(reader), reader);
        match read_record(reader, file, record, dimensions, &mut payload, Ghost(layout)) {
            Ok(()) => {},
            Err(error) => {
                assert forall|bytes: Seq<u8>, fault: Option<Seq<char>>| #[trigger]
                    reads_as(old(reader), reader, bytes, fault) implies told(
                    Err::<Vec<Vec<T>>, SiftError>(error),
                    old(progress),
                    progress,
                    layout,
                    bytes,
                    fault,
                    rule,
                ) by {
                    lemma_reads_on(old(reader), &before, reader, bytes, fault);
                    lemma_leading_extends(layout, part, bytes, fault, rule, record as nat);
                    lemma_first_bad_record(
                        layout,
                        bytes,
                        fault,
                        rule,
                        record as nat,
                        records as nat,
                    );
                }
                return Err(error);
            },
        }
        let ghost here = since(&before, reader);
        let ghost whole = since(old(reader), reader);
        proof {
            assert(whole =~= part + here);
            assert((record + 1) * stride == record * stride + stride) by (nonlinear_arith);
            assert(whole.skip(record * stride) =~= here);
            assert(here.subrange(4, stride) =~= here.skip(4));
            assert(part =~= whole.subrange(0, part.len() as int));
            lemma_leading_extends(layout, part, whole, None, rule, record as nat);
        }
        let keep = record < retain;
        let row = match rows_of.decode(file, record, &payload, dimensions, keep) {
            Ok(row) => row,
            Err(error) => {
                assert forall|bytes: Seq<u8>, fault: Option<Seq<char>>| #[trigger]
                    reads_as(old(reader), reader, bytes, fault) implies told(
                    Err::<Vec<Vec<T>>, SiftError>(error),
                    old(progress),
                    progress,
                    layout,
                    bytes,
                    fault,
                    rule,
                ) by {
                    lemma_leading_extends(layout, whole, bytes, fault, rule, (record + 1) as nat);
                    lemma_leading_extends(layout, whole, bytes, fault, rule, record as nat);
                    assert(rule(record as nat, payload@) == Err::<Seq<T>, SiftErrorModel>(
                        error@,
                    ));
                    lemma_first_bad_record(
                        layout,
                        bytes,
                        fault,
                        rule,
                        record as nat,
                        records as nat,
                    );
                }
                return Err(error);
            },
        };
        proof {
            let model = rule(record as nat, payload@)->Ok_0;
            let grown = rows.push(model);
            assert(leading_rows(layout, whole, None, rule, (record + 1) as nat) == Ok::<
                Seq<Seq<T>>,
                SiftErrorModel,
            >(grown));
            if keep {
                assert(row_seqs(retained@.push(row)) =~= row_seqs(retained@).push(row@));
                assert(grown.take(record + 1) =~= rows.take(record as int).push(model));
            } else {
                assert(grown.take(retain as int) =~= rows.take(retain as int));
            }
            rows = grown;
        }
        if keep {
            retained.push(row);
        }
        let ghost shown = *progress;
        progress.advance(record + 1);
        proof {
            lemma_phase_advance(old(progress), &shown, progress, layout.stage(), record as nat);
        }
        record = record + 1;
    }
    let ghost before = *reader;
    let ghost part = since(old(reader), reader);
    let ended = check_trailing(reader, file, records);
    assert(since(old(reader), reader) =~= part + since(&before, reader));
    if let Err(error) = ended {
        assert forall|bytes: Seq<u8>, fault: Option<Seq<char>>| #[trigger]
            reads_as(old(reader), reader, bytes, fault) implies told(
            Err::<Vec<Vec<T>>, SiftError>(error),
            old(progress),
            progress,
            layout,
            bytes,
            fault,
            rule,
        ) by {
            assert(part =~= bytes.subrange(0, part.len() as int));
            lemma_leading_extends(layout, part, bytes, fault, rule, records as nat);
        }
        return Err(error);
    }
    let ghost shown = *progress;
    progress.finish();
    proof {
        lemma_phase_finish(old(progress), &shown, progress, layout.stage(), records as nat);
        assert(part + since(&before, reader) =~= part);
        assert(good_records(layout, part, None, rule, records as nat) == records);
    }
    Ok(retained)
}

/// Reads an `fvecs` file of `records` vectors of `dimensions` components each and keeps
/// the first `retain`. Every record is checked and counted. The result does not depend on
/// anything that the source would have delivered after it was read last.
pub fn read_fvecs_with_progress<R: Read, W: Write>(
    reader: &mut R,
    file: &str,
    records: usize,
    dimensions: usize,
    retain: usize,
    progress: &mut Progress<W>,
) -> (result: Result<Vec<Vec<u32>>, SiftError>)
    requires
        0 < records,
        retain <= records,
        4 * dimensions <= usize::MAX,
    ensures
        final(progress).wf(),
        follows(old(reader), final(reader)),
        ({
            let layout = Layout {
                file: file@,
                records: records as nat,
                dimensions: dimensions as nat,
                retain: retain as nat,
            };
            let rule = vector_rule(layout);
            forall|bytes: Seq<u8>, fault: Option<Seq<char>>| #[trigger]
                reads_as(old(reader), final(reader), bytes, fault) ==> told(
                    result,
                    old(progress),
                    final(progress),
                    layout,
                    bytes,
                    fault,
                    rule,
                )
        }),
{
    read_rows(&Vectors, reader, file, records, dimensions, retain, progress)
}

/// Reads an `ivecs` file of `records` records of `dimensions` row ids each, all below
/// `upper_bound` and distinct within a record, and keeps the first `retain`. Every
/// record is checked and counted. The result does not depend on anything that the source
/// would have delivered after it was read last.
pub fn read_ivecs_with_progress<R: Read, W: Write>(
    reader: &mut R,
    file: &str,
    records: usize,
    dimensions: usize,
    retain: usize,
    upper_bound: usize,
    progress: &mut Progress<W>,
) -> (result: Result<Vec<Vec<usize>>, SiftError>)
    requires
        0 < records,
        retain <= records,
        4 * dimensions <= usize::MAX,
    ensures
        final(progress).wf(),
        follows(old(reader), final(reader)),
        ({
            let layout = Layout {
                file: file@,
                records: records as nat,
                dimensions: dimensions as nat,
                retain: retain as nat,
            };
            let rule = id_rule(layout, upper_bound as nat);
            forall|bytes: Seq<u8>, fault: Option<Seq<char>>| #[trigger]
                reads_as(old(reader), final(reader), bytes, fault) ==> told(
                    result,
                    old(progress),
                    final(progress),
                    layout,
                    bytes,
                    fault,
                    rule,
                )
        }),
{
    read_rows(
        &RowIds { upper_bound },
        reader,
        file,
        records,
        dimensions,
        retain,
        progress,
    )
}

/// Reads an `fvecs` file without showing progress.
pub fn read_fvecs<R: Read>(
    reader: &mut R,
    file: &str,
    records: usize,
    dimensions: usize,
    retain: usize,
) -> (result: Result<Vec<Vec<u32>>, SiftError>)
    requires
        0 < records,
        retain <= records,
        4 * dimensions <= usize::MAX,
    ensures
        follows(old(reader), final(reader)),
        ({
            let layout = Layout {
                file: file@,
                records: records as nat,
                dimensions: dimensions as nat,
                retain: retain as nat,
            };
            forall|bytes: Seq<u8>, fault: Option<Seq<char>>| #[trigger]
                reads_as(old(reader), final(reader), bytes, fault) ==> outcome(result) == scan(
                    layout,
                    bytes,
                    fault,
                    vector_rule(layout),
                )
        }),
{
    let mut progress: Progress<Sink> = Progress::silent();
    read_fvecs_with_progress(reader, file, records, dimensions, retain, &mut progress)
}

/// Reads an `ivecs` file without showing progress.
pub fn read_ivecs<R: Read>(
    reader: &mut R,
    file: &str,
    records: usize,
    dimensions: usize,
    retain: usize,
    upper_bound: usize,
) -> (result: Result<Vec<Vec<usize>>, SiftError>)
    requires
        0 < records,
        retain <= records,
        4 * dimensions <= usize::MAX,
    ensures
        follows(old(reader), final(reader)),
        ({
            let layout = Layout {
                file: file@,
                records: records as nat,
                dimensions: dimensions as nat,
                retain: retain as nat,
            };
            forall|bytes: Seq<u8>, fault: Option<Seq<char>>| #[trigger]
                reads_as(old(reader), final(reader), bytes, fault) ==> outcome(result) == scan(
                    layout,
                    bytes,
                    fault,
                    id_rule(layout, upper_bound as nat),
                )
        }),
{
    let mut progress: Progress<Sink> = Progress::silent();
    read_ivecs_with_progress(
        reader,
        file,
        records,
        dimensions,
        retain,
        upper_bound,
        &mut progress,
    )
}

/// The rows of a table, and the result of reading one, are taken as they are.
pub proof fn law_tables_are_taken_as_they_are<T>(rows: Vec<Vec<T>>, error: SiftError, r: int)
    ensures
        row_seqs(rows@).len() == rows@.len(),
        0 <= r < rows@.len() ==> row_seqs(rows@)[r] == rows@[r]@,
        outcome(Ok::<Vec<Vec<T>>, SiftError>(rows)) == Ok::<Seq<Seq<T>>, SiftErrorModel>(
            row_seqs(rows@),
        ),
        outcome(Err::<Vec<Vec<T>>, SiftError>(error)) == Err::<Seq<Seq<T>>, SiftErrorModel>(
            error@,
        ),
{
}

/// What reading a file gives is what its bytes give, and it shows the stage of its records:
/// as many of them as are good, and finished exactly when the file is accepted.
pub proof fn law_reading_tells_of_the_bytes<T, W: Write>(
    result: Result<Vec<Vec<T>>, SiftError>,
    before: &Progress<W>,
    after: &Progress<W>,
    layout: Layout,
    bytes: Seq<u8>,
    fault: Option<Seq<char>>,
    rule: RowRule<T>,
)
    requires
        told(result, before, after, layout, bytes, fault, rule),
    ensures
        ({
            let stage = fresh_stage("load "@ + layout.file, "rows"@, layout.records, None);
            let good = good_records(layout, bytes, fault, rule, layout.records);
            &&& outcome(result) == scan(layout, bytes, fault, rule)
            &&& after.sent_since(
                before,
                phase_lines(before.on_terminal(), stage, good, result is Ok),
            )
            &&& after.current() == phase_stage(stage, good, result is Ok)
        }),
{
}

} // verus!
