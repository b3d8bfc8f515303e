//! What can go wrong before the benchmark starts.

use vstd::prelude::*;
use vstd::string::*;

use crate::text::{decimal, push_count, push_decimal, push_signed, signed_decimal};

verus! {

/// Why a run is refused, or why a corpus file is.
#[allow(inconsistent_fields)]
#[derive(Debug)]
pub enum SiftError {
    /// The command line has another shape than the one that the usage line shows.
    Usage,
    /// A corpus file is not there.
    Missing(String),
    /// A corpus file cannot be opened or read.
    Io { file: String, source: String },
    /// A corpus file has another size than its records take.
    Size { file: String, expected: u64, actual: u64 },
    /// A file ends inside the header of a record.
    TruncatedHeader { file: String, record: usize },
    /// The header of a record gives another width.
    Dimension { file: String, record: usize, expected: usize, actual: i32 },
    /// A file ends inside the payload of a record.
    TruncatedPayload { file: String, record: usize, expected: usize, actual: usize },
    /// A vector component is infinite or not a number.
    NonFinite { file: String, record: usize, component: usize },
    /// A ground-truth row id is below zero.
    NegativeId { record: usize, id: usize, value: i32 },
    /// A ground-truth row id names no base row.
    OutOfRangeId { record: usize, id: usize, value: usize, upper_bound: usize },
    /// A ground-truth row id occurs twice in one record.
    DuplicateId { record: usize, id: usize, value: usize },
    /// Bytes are left after the last record.
    Trailing { file: String, bytes: usize, records: usize },
}

/// A [`SiftError`] with its strings as character sequences and its numbers as integers.
#[allow(inconsistent_fields)]
pub enum SiftErrorModel {
    Usage,
    Missing(Seq<char>),
    Io { file: Seq<char>, source: Seq<char> },
    Size { file: Seq<char>, expected: nat, actual: nat },
    TruncatedHeader { file: Seq<char>, record: nat },
    Dimension { file: Seq<char>, record: nat, expected: nat, actual: int },
    TruncatedPayload { file: Seq<char>, record: nat, expected: nat, actual: nat },
    NonFinite { file: Seq<char>, record: nat, component: nat },
    NegativeId { record: nat, id: nat, value: int },
    OutOfRangeId { record: nat, id: nat, value: nat, upper_bound: nat },
    DuplicateId { record: nat, id: nat, value: nat },
    Trailing { file: Seq<char>, bytes: nat, records: nat },
}

impl View for SiftError {
    type V = SiftErrorModel;

    open spec fn view(&self) -> SiftErrorModel {
        match *self {
            SiftError::Usage => SiftErrorModel::Usage,
            SiftError::Missing(path) => SiftErrorModel::Missing(path@),
            SiftError::Io { file, source } => SiftErrorModel::Io { file: file@, source: source@ },
            SiftError::Size { file, expected, actual } => SiftErrorModel::Size {
                file: file@,
                expected: expected as nat,
                actual: actual as nat,
            },
            SiftError::TruncatedHeader { file, record } => SiftErrorModel::TruncatedHeader {
                file: file@,
                record: record as nat,
            },
            SiftError::Dimension { file, record, expected, actual } => SiftErrorModel::Dimension {
                file: file@,
                record: record as nat,
                expected: expected as nat,
                actual: actual as int,
            },
            SiftError::TruncatedPayload { file, record, expected, actual } =>
                SiftErrorModel::TruncatedPayload {
                file: file@,
                record: record as nat,
                expected: expected as nat,
                actual: actual as nat,
            },
            SiftError::NonFinite { file, record, component } => SiftErrorModel::NonFinite {
                file: file@,
                record: record as nat,
                component: component as nat,
            },
            SiftError::NegativeId { record, id, value } => SiftErrorModel::NegativeId {
                record: record as nat,
                id: id as nat,
                value: value as int,
            },
            SiftError::OutOfRangeId { record, id, value, upper_bound } =>
                SiftErrorModel::OutOfRangeId {
                record: record as nat,
                id: id as nat,
                value: value as nat,
                upper_bound: upper_bound as nat,
            },
            SiftError::DuplicateId { record, id, value } => SiftErrorModel::DuplicateId {
                record: record as nat,
                id: id as nat,
                value: value as nat,
            },
            SiftError::Trailing { file, bytes, records } => SiftErrorModel::Trailing {
                file: file@,
                bytes: bytes as nat,
                records: records as nat,
            },
        }
    }
}

/// The place of a record in a file, as the messages give it.
pub open spec fn record_place(file: Seq<char>, record: nat) -> Seq<char> {
    "sift1m: "@ + file + " record "@ + decimal(record)
}

/// The place of a row id in the ground truth, as the messages give it.
pub open spec fn id_place(record: nat, id: nat) -> Seq<char> {
    "sift1m: sift_groundtruth.ivecs record "@ + decimal(record) + " id "@ + decimal(id)
}

impl SiftErrorModel {
    /// The message for the user.
    pub open spec fn text(self) -> Seq<char> {
        match self {
            SiftErrorModel::Usage => "usage: recall [--smoke] <sift1m-dir>"@,
            SiftErrorModel::Missing(path) => "sift1m: missing "@ + path,
            SiftErrorModel::Io { file, source } => "sift1m: "@ + file + ": "@ + source,
            SiftErrorModel::Size { file, expected, actual } => "sift1m: "@ + file + ": expected "@
                + decimal(expected) + " bytes, got "@ + decimal(actual),
            SiftErrorModel::TruncatedHeader { file, record } => record_place(file, record)
                + ": truncated dimension header"@,
            SiftErrorModel::Dimension { file, record, expected, actual } => record_place(
                file,
                record,
            ) + ": expected dimension "@ + decimal(expected) + ", got "@ + signed_decimal(actual),
            SiftErrorModel::TruncatedPayload { file, record, expected, actual } => record_place(
                file,
                record,
            ) + ": truncated payload: expected "@ + decimal(expected) + " bytes, got "@ + decimal(
                actual,
            ),
            SiftErrorModel::NonFinite { file, record, component } => record_place(file, record)
                + " component "@ + decimal(component) + ": non-finite value"@,
            SiftErrorModel::NegativeId { record, id, value } => id_place(record, id)
                + ": negative row id "@ + signed_decimal(value),
            SiftErrorModel::OutOfRangeId { record, id, value, upper_bound } => id_place(record, id)
                + ": row id "@ + decimal(value) + " is outside 0.."@ + decimal(upper_bound),
            SiftErrorModel::DuplicateId { record, id, value } => id_place(record, id)
                + ": duplicate row id "@ + decimal(value),
            SiftErrorModel::Trailing { file, bytes, records } => "sift1m: "@ + file
                + ": trailing "@ + decimal(bytes) + " bytes after "@ + decimal(records)
                + " records"@,
        }
    }
}

fn push_record_place(out: &mut String, file: &str, record: usize)
    ensures
        final(out)@ == old(out)@ + record_place(file@, record as nat),
{
    out.append("sift1m: ");
    out.append(file);
    out.append(" record ");
    push_count(out, record);
    assert(out@ =~= old(out)@ + record_place(file@, record as nat));
}

fn push_id_place(out: &mut String, record: usize, id: usize)
    ensures
        final(out)@ == old(out)@ + id_place(record as nat, id as nat),
{
    out.append("sift1m: sift_groundtruth.ivecs record ");
    push_count(out, record);
    out.append(" id ");
    push_count(out, id);
    assert(out@ =~= old(out)@ + id_place(record as nat, id as nat));
}

impl SiftError {
    /// The exit status for this error: 2 for a wrong command line, else 1.
    pub fn exit_code(&self) -> (code: i32)
        ensures
            code == (if *self is Usage {
                2i32
            } else {
                1i32
            }),
    {
        match self {
            SiftError::Usage => 2,
            _ => 1,
        }
    }

    /// The message for the user.
    pub fn message(&self) -> (text: String)
        ensures
            text@ == self@.text(),
    {
        let mut out = String::new();
        match self {
            SiftError::Usage => {
                out.append("usage: recall [--smoke] <sift1m-dir>");
            },
            SiftError::Missing(path) => {
                out.append("sift1m: missing ");
                out.append(path.as_str());
            },
            SiftError::Io { file, source } => {
                out.append("sift1m: ");
                out.append(file.as_str());
                out.append(": ");
                out.append(source.as_str());
            },
            SiftError::Size { file, expected, actual } => {
                out.append("sift1m: ");
                out.append(file.as_str());
                out.append(": expected ");
                push_decimal(&mut out, *expected);
                out.append(" bytes, got ");
                push_decimal(&mut out, *actual);
            },
            SiftError::TruncatedHeader { file, record } => {
                push_record_place(&mut out, file.as_str(), *record);
                out.append(": truncated dimension header");
            },
            SiftError::Dimension { file, record, expected, actual } => {
                push_record_place(&mut out, file.as_str(), *record);
                out.append(": expected dimension ");
                push_count(&mut out, *expected);
                out.append(", got ");
                push_signed(&mut out, *actual);
            },
            SiftError::TruncatedPayload { file, record, expected, actual } => {
                push_record_place(&mut out, file.as_str(), *record);
                out.append(": truncated payload: expected ");
                push_count(&mut out, *expected);
                out.append(" bytes, got ");
                push_count(&mut out, *actual);
            },
            SiftError::NonFinite { file, record, component } => {
                push_record_place(&mut out, file.as_str(), *record);
                out.append(" component ");
                push_count(&mut out, *component);
                out.append(": non-finite value");
            },
            SiftError::NegativeId { record, id, value } => {
                push_id_place(&mut out, *record, *id);
                out.append(": negative row id ");
                push_signed(&mut out, *value);
            },
            SiftError::OutOfRangeId { record, id, value, upper_bound } => {
                push_id_place(&mut out, *record, *id);
                out.append(": row id ");
                push_count(&mut out, *value);
                out.append(" is outside 0..");
                push_count(&mut out, *upper_bound);
            },
            SiftError::DuplicateId { record, id, value } => {
                push_id_place(&mut out, *record, *id);
                out.append(": duplicate row id ");
                push_count(&mut out, *value);
            },
            SiftError::Trailing { file, bytes, records } => {
                out.append("sift1m: ");
                out.append(file.as_str());
                out.append(": trailing ");
                push_count(&mut out, *bytes);
                out.append(" bytes after ");
                push_count(&mut out, *records);
                out.append(" records");
            },
        }
        assert(out@ =~= self@.text());
        out
    }
}

/// A message says what is wrong, where, and by which numbers: all that the error holds, and
/// in plain decimals.
pub proof fn law_messages(error: SiftErrorModel)
    ensures
        match error {
            SiftErrorModel::Usage => error.text() == "usage: recall [--smoke] <sift1m-dir>"@,
            SiftErrorModel::Missing(path) => error.text() == "sift1m: missing "@ + path,
            SiftErrorModel::Io { file, source } => error.text() == "sift1m: "@ + file + ": "@
                + source,
            SiftErrorModel::Size { file, expected, actual } => error.text() == "sift1m: "@ + file
                + ": expected "@ + decimal(expected) + " bytes, got "@ + decimal(actual),
            SiftErrorModel::TruncatedHeader { file, record } => error.text() == "sift1m: "@ + file
                + " record "@ + decimal(record) + ": truncated dimension header"@,
            SiftErrorModel::Dimension { file, record, expected, actual } => error.text()
                == "sift1m: "@ + file + " record "@ + decimal(record) + ": expected dimension "@
                + decimal(expected) + ", got "@ + signed_decimal(actual),
            SiftErrorModel::TruncatedPayload { file, record, expected, actual } => error.text()
                == "sift1m: "@ + file + " record "@ + decimal(record)
                + ": truncated payload: expected "@ + decimal(expected) + " bytes, got "@
                + decimal(actual),
            SiftErrorModel::NonFinite { file, record, component } => error.text() == "sift1m: "@
                + file + " record "@ + decimal(record) + " component "@ + decimal(component)
                + ": non-finite value"@,
            SiftErrorModel::NegativeId { record, id, value } => error.text()
                == "sift1m: sift_groundtruth.ivecs record "@ + decimal(record) + " id "@
                + decimal(id) + ": negative row id "@ + signed_decimal(value),
            SiftErrorModel::OutOfRangeId { record, id, value, upper_bound } => error.text()
                == "sift1m: sift_groundtruth.ivecs record "@ + decimal(record) + " id "@
                + decimal(id) + ": row id "@ + decimal(value) + " is outside 0.."@ + decimal(
                upper_bound,
            ),
            SiftErrorModel::DuplicateId { record, id, value } => error.text()
                == "sift1m: sift_groundtruth.ivecs record "@ + decimal(record) + " id "@
                + decimal(id) + ": duplicate row id "@ + decimal(value),
            SiftErrorModel::Trailing { file, bytes, records } => error.text() == "sift1m: "@ + file
                + ": trailing "@ + decimal(bytes) + " bytes after "@ + decimal(records)
                + " records"@,
        },
{
}

/// The model of an error is of the same kind, with the same facts.
pub proof fn law_models_keep_the_facts(error: SiftError)
    ensures
        match (error, error@) {
            (SiftError::Usage, SiftErrorModel::Usage) => true,
            (SiftError::Missing(path), SiftErrorModel::Missing(p)) => p == path@,
            (SiftError::Io { file, source }, SiftErrorModel::Io { file: f, source: s }) => f
                == file@ && s == source@,
            (
                SiftError::Size { file, expected, actual },
                SiftErrorModel::Size { file: f, expected: e, actual: a },
            ) => f == file@ && e == expected && a == actual,
            (
                SiftError::TruncatedHeader { file, record },
                SiftErrorModel::TruncatedHeader { file: f, record: r },
            ) => f == file@ && r == record,
            (
                SiftError::Dimension { file, record, expected, actual },
                SiftErrorModel::Dimension { file: f, record: r, expected: e, actual: a },
            ) => f == file@ && r == record && e == expected && a == actual,
            (
                SiftError::TruncatedPayload { file, record, expected, actual },
                SiftErrorModel::TruncatedPayload { file: f, record: r, expected: e, actual: a },
            ) => f == file@ && r == record && e == expected && a == actual,
            (
                SiftError::NonFinite { file, record, component },
                SiftErrorModel::NonFinite { file: f, record: r, component: c },
            ) => f == file@ && r == record && c == component,
            (
                SiftError::NegativeId { record, id, value },
                SiftErrorModel::NegativeId { record: r, id: i, value: v },
            ) => r == record && i == id && v == value,
            (
                SiftError::OutOfRangeId { record, id, value, upper_bound },
                SiftErrorModel::OutOfRangeId { record: r, id: i, value: v, upper_bound: u },
            ) => r == record && i == id && v == value && u == upper_bound,
            (
                SiftError::DuplicateId { record, id, value },
                SiftErrorModel::DuplicateId { record: r, id: i, value: v },
            ) => r == record && i == id && v == value,
            (
                SiftError::Trailing { file, bytes, records },
                SiftErrorModel::Trailing { file: f, bytes: b, records: n },
            ) => f == file@ && b == bytes && n == records,
            _ => false,
        },
{
}

} // verus!
