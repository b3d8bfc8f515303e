//! What the bytes of a record file decide about it: which files are accepted, what rows they
//! give, and what is said of those that are refused.

use vstd::prelude::*;

use crate::error::SiftErrorModel;
use crate::records::{
    Layout, RowRule, components, good_records, id_rule, law_finite_is_below_infinity,
    le_i32, le_u32, leading_rows, lemma_components_error, lemma_first_bad_record,
    lemma_row_ids_error, record_payload, row_ids, scan, vector_rule, word,
};

verus! {

/// The number that the four bytes from `at` on make up, the first of them the least.
pub open spec fn value_at(bytes: Seq<u8>, at: int) -> int {
    bytes[at] + 256 * (bytes[at + 1] + 256 * (bytes[at + 2] + 256 * bytes[at + 3]))
}

/// The same number in two's complement.
pub open spec fn signed_at(bytes: Seq<u8>, at: int) -> int {
    if bytes[at + 3] < 128 {
        value_at(bytes, at)
    } else {
        value_at(bytes, at) - 256 * 256 * 256 * 256
    }
}

/// Where a record of `dimensions` words starts.
pub open spec fn start_of(dimensions: nat, record: int) -> int {
    record * (4 + 4 * dimensions)
}

/// Where a word of a record stands.
pub open spec fn place_of(dimensions: nat, record: int, index: int) -> int {
    start_of(dimensions, record) + 4 + 4 * index
}

/// Whether a file holds a whole record of the right width.
pub open spec fn holds_record(bytes: Seq<u8>, dimensions: nat, record: int) -> bool {
    let start = start_of(dimensions, record);
    &&& 0 < dimensions
    &&& start + 4 + 4 * dimensions <= bytes.len()
    &&& signed_at(bytes, start) == dimensions
}

/// Whether a file holds a whole record of the right width with finite components.
pub open spec fn holds_vector(bytes: Seq<u8>, dimensions: nat, record: int) -> bool {
    &&& holds_record(bytes, dimensions, record)
    &&& forall|i: int|
        0 <= i < dimensions ==> #[trigger] value_at(bytes, place_of(dimensions, record, i))
            % 0x8000_0000 < 0x7f80_0000
}

/// Whether a row id of a record can stand where it does: it is in range, and not that of an
/// earlier one.
pub open spec fn fits_row(
    bytes: Seq<u8>,
    dimensions: nat,
    upper_bound: nat,
    record: int,
    index: int,
) -> bool {
    let value = signed_at(bytes, place_of(dimensions, record, index));
    &&& 0 <= value < upper_bound
    &&& forall|j: int|
        0 <= j < index ==> #[trigger] signed_at(bytes, place_of(dimensions, record, j)) != value
}

/// Whether a file holds a whole record of the right width with distinct row ids in range.
pub open spec fn holds_ids(
    bytes: Seq<u8>,
    dimensions: nat,
    upper_bound: nat,
    record: int,
) -> bool {
    &&& holds_record(bytes, dimensions, record)
    &&& forall|i: int|
        0 <= i < dimensions ==> #[trigger] fits_row(bytes, dimensions, upper_bound, record, i)
}

proof fn lemma_four_bytes(bytes: Seq<u8>, at: int)
    requires
        0 <= at,
        at + 4 <= bytes.len(),
    ensures
        le_u32(bytes.subrange(at, at + 4)) == value_at(bytes, at),
        le_i32(bytes.subrange(at, at + 4)) == signed_at(bytes, at),
        0 <= value_at(bytes, at) < 0x1_0000_0000,
        -0x8000_0000 <= signed_at(bytes, at) < 0x8000_0000,
{
}

proof fn lemma_start(dimensions: nat, record: int, count: int)
    requires
        0 <= record < count,
    ensures
        0 <= start_of(dimensions, record),
        start_of(dimensions, record) + 4 + 4 * dimensions == start_of(dimensions, record + 1),
        start_of(dimensions, record + 1) <= start_of(dimensions, count),
{
    let stride = (4 + 4 * dimensions) as int;
    assert(0 <= record * stride) by (nonlinear_arith)
        requires
            0 <= record,
            0 <= stride,
    ;
    assert((record + 1) * stride == record * stride + stride) by (nonlinear_arith);
    assert((record + 1) * stride <= count * stride) by (nonlinear_arith)
        requires
            record + 1 <= count,
            0 <= stride,
    ;
}

/// The bytes of a record without its header.
spec fn payload_of(bytes: Seq<u8>, dimensions: nat, record: int) -> Seq<u8> {
    bytes.subrange(place_of(dimensions, record, 0), place_of(dimensions, record, dimensions as int))
}

proof fn lemma_payload(layout: Layout, bytes: Seq<u8>, fault: Option<Seq<char>>, record: nat)
    requires
        holds_record(bytes, layout.dimensions, record as int),
    ensures
        record_payload(
            layout,
            bytes.skip((record * layout.stride()) as int),
            fault,
            record,
        ) == Ok::<Seq<u8>, SiftErrorModel>(payload_of(bytes, layout.dimensions, record as int)),
{
    let d = layout.dimensions;
    let start = start_of(d, record as int);
    lemma_start(d, record as int, record as int + 1);
    lemma_four_bytes(bytes, start);
    let here = bytes.skip((record * layout.stride()) as int);
    assert(here.take(4) =~= bytes.subrange(start, start + 4));
    assert(here.subrange(4, layout.stride() as int) =~= payload_of(bytes, d, record as int));
}

proof fn lemma_word_value(bytes: Seq<u8>, dimensions: nat, record: int, index: int)
    requires
        0 <= record,
        place_of(dimensions, record, dimensions as int) <= bytes.len(),
        0 <= index < dimensions,
    ensures
        ({
            let four = word(payload_of(bytes, dimensions, record), index);
            let at = place_of(dimensions, record, index);
            &&& 0 <= at
            &&& at + 4 <= bytes.len()
            &&& le_u32(four) == value_at(bytes, at)
            &&& le_i32(four) == signed_at(bytes, at)
            &&& 0 <= value_at(bytes, at) < 0x1_0000_0000
            &&& -0x8000_0000 <= signed_at(bytes, at) < 0x8000_0000
        }),
{
    lemma_start(dimensions, record, record + 1);
    let at = place_of(dimensions, record, index);
    assert(word(payload_of(bytes, dimensions, record), index) =~= bytes.subrange(at, at + 4));
    lemma_four_bytes(bytes, at);
}

proof fn lemma_components(bytes: Seq<u8>, file: Seq<char>, dimensions: nat, record: nat, count: nat)
    requires
        place_of(dimensions, record as int, dimensions as int) <= bytes.len(),
        count <= dimensions,
        forall|i: int|
            0 <= i < count ==> #[trigger] value_at(bytes, place_of(dimensions, record as int, i))
                % 0x8000_0000 < 0x7f80_0000,
    ensures
        ({
            let payload = payload_of(bytes, dimensions, record as int);
            components(file, record, payload, count) matches Ok(row) && row.len() == count
                && forall|i: int|
                0 <= i < count ==> #[trigger] row[i] == value_at(
                    bytes,
                    place_of(dimensions, record as int, i),
                )
        }),
    decreases count,
{
    if count > 0 {
        let last = (count - 1) as nat;
        lemma_components(bytes, file, dimensions, record, last);
        lemma_word_value(bytes, dimensions, record as int, last as int);
        let value = value_at(bytes, place_of(dimensions, record as int, last as int));
        assert(value % 0x8000_0000 < 0x7f80_0000);
        law_finite_is_below_infinity(value as nat);
    }
}

proof fn lemma_row_ids(
    bytes: Seq<u8>,
    dimensions: nat,
    upper_bound: nat,
    record: nat,
    count: nat,
)
    requires
        place_of(dimensions, record as int, dimensions as int) <= bytes.len(),
        count <= dimensions,
        forall|i: int|
            0 <= i < count ==> #[trigger] fits_row(
                bytes,
                dimensions,
                upper_bound,
                record as int,
                i,
            ),
    ensures
        ({
            let payload = payload_of(bytes, dimensions, record as int);
            row_ids(record, payload, upper_bound, count) matches Ok(row) && row.len() == count
                && forall|i: int|
                0 <= i < count ==> #[trigger] row[i] == signed_at(
                    bytes,
                    place_of(dimensions, record as int, i),
                )
        }),
    decreases count,
{
    if count > 0 {
        let last = (count - 1) as nat;
        lemma_row_ids(bytes, dimensions, upper_bound, record, last);
        lemma_word_value(bytes, dimensions, record as int, last as int);
        let payload = payload_of(bytes, dimensions, record as int);
        let row = row_ids(record, payload, upper_bound, last)->Ok_0;
        let value = signed_at(bytes, place_of(dimensions, record as int, last as int));
        assert(fits_row(bytes, dimensions, upper_bound, record as int, last as int));
        if row.contains(value as usize) {
            let j = choose|j: int| 0 <= j < row.len() && row[j] == value as usize;
            assert(row[j] == signed_at(bytes, place_of(dimensions, record as int, j)));
        }
    }
}

/// Records that each give a row, give the rows together.
proof fn lemma_leading<T>(
    layout: Layout,
    bytes: Seq<u8>,
    fault: Option<Seq<char>>,
    rule: RowRule<T>,
    count: nat,
)
    requires
        forall|r: int| 0 <= r < count ==> #[trigger] holds_record(bytes, layout.dimensions, r),
        forall|r: int|
            0 <= r < count ==> rule(
                r as nat,
                #[trigger] payload_of(bytes, layout.dimensions, r),
            ) is Ok,
    ensures
        leading_rows(layout, bytes, fault, rule, count) matches Ok(rows) && rows.len() == count
            && forall|r: int|
            0 <= r < count ==> Ok::<Seq<T>, SiftErrorModel>(#[trigger] rows[r]) == rule(
                r as nat,
                payload_of(bytes, layout.dimensions, r),
            ),
    decreases count,
{
    if count > 0 {
        let last = (count - 1) as nat;
        lemma_leading(layout, bytes, fault, rule, last);
        assert(holds_record(bytes, layout.dimensions, last as int));
        lemma_payload(layout, bytes, fault, last);
        assert(rule(last, payload_of(bytes, layout.dimensions, last as int)) is Ok);
    }
}

/// The first record that gives no row decides.
proof fn lemma_first_bad<T>(
    layout: Layout,
    bytes: Seq<u8>,
    fault: Option<Seq<char>>,
    rule: RowRule<T>,
    record: nat,
    error: SiftErrorModel,
)
    requires
        record < layout.records,
        forall|r: int| 0 <= r < record ==> #[trigger] holds_record(bytes, layout.dimensions, r),
        forall|r: int|
            0 <= r < record ==> rule(
                r as nat,
                #[trigger] payload_of(bytes, layout.dimensions, r),
            ) is Ok,
        match record_payload(
            layout,
            bytes.skip((record * layout.stride()) as int),
            fault,
            record,
        ) {
            Ok(payload) => rule(record, payload) == Err::<Seq<T>, SiftErrorModel>(error),
            Err(other) => other == error,
        },
    ensures
        scan(layout, bytes, fault, rule) == Err::<Seq<Seq<T>>, SiftErrorModel>(error),
        good_records(layout, bytes, fault, rule, layout.records) == record,
{
    lemma_leading(layout, bytes, fault, rule, record);
    lemma_first_bad_record(layout, bytes, fault, rule, record, layout.records);
}

proof fn lemma_vectors_lead(layout: Layout, bytes: Seq<u8>, count: nat)
    requires
        forall|r: int| 0 <= r < count ==> #[trigger] holds_vector(bytes, layout.dimensions, r),
    ensures
        forall|r: int| 0 <= r < count ==> #[trigger] holds_record(bytes, layout.dimensions, r),
        forall|r: int|
            0 <= r < count ==> vector_rule(layout)(
                r as nat,
                #[trigger] payload_of(bytes, layout.dimensions, r),
            ) is Ok,
{
    let d = layout.dimensions;
    assert forall|r: int| 0 <= r < count implies vector_rule(layout)(
        r as nat,
        #[trigger] payload_of(bytes, d, r),
    ) is Ok by {
        assert(holds_vector(bytes, d, r));
        lemma_components(bytes, layout.file, d, r as nat, d);
    }
    assert forall|r: int| 0 <= r < count implies #[trigger] holds_record(bytes, d, r) by {
        assert(holds_vector(bytes, d, r));
    }
}

proof fn lemma_ids_lead(layout: Layout, upper_bound: nat, bytes: Seq<u8>, count: nat)
    requires
        forall|r: int|
            0 <= r < count ==> #[trigger] holds_ids(bytes, layout.dimensions, upper_bound, r),
    ensures
        forall|r: int| 0 <= r < count ==> #[trigger] holds_record(bytes, layout.dimensions, r),
        forall|r: int|
            0 <= r < count ==> id_rule(layout, upper_bound)(
                r as nat,
                #[trigger] payload_of(bytes, layout.dimensions, r),
            ) is Ok,
{
    let d = layout.dimensions;
    assert forall|r: int| 0 <= r < count implies id_rule(layout, upper_bound)(
        r as nat,
        #[trigger] payload_of(bytes, d, r),
    ) is Ok by {
        assert(holds_ids(bytes, d, upper_bound, r));
        lemma_row_ids(bytes, d, upper_bound, r as nat, d);
    }
    assert forall|r: int| 0 <= r < count implies #[trigger] holds_record(bytes, d, r) by {
        assert(holds_ids(bytes, d, upper_bound, r));
    }
}

/// A record that is cut off, or has another width, is what is wrong with the file, whatever
/// its rows stand for.
proof fn lemma_bad_frame<T>(
    layout: Layout,
    bytes: Seq<u8>,
    fault: Option<Seq<char>>,
    rule: RowRule<T>,
    record: nat,
)
    requires
        record < layout.records,
        forall|r: int| 0 <= r < record ==> #[trigger] holds_record(bytes, layout.dimensions, r),
        forall|r: int|
            0 <= r < record ==> rule(
                r as nat,
                #[trigger] payload_of(bytes, layout.dimensions, r),
            ) is Ok,
        !holds_record(bytes, layout.dimensions, record as int),
    ensures
        good_records(layout, bytes, fault, rule, layout.records) == record,
        scan(layout, bytes, fault, rule) == Err::<Seq<Seq<T>>, SiftErrorModel>(
            frame_error(layout, bytes, fault, record),
        ),
{
    let d = layout.dimensions;
    let start = start_of(d, record as int);
    let here = bytes.skip((record * layout.stride()) as int);
    if record > 0 {
        lemma_start(d, record - 1, record as int);
        assert(holds_record(bytes, d, record - 1));
    } else {
        assert(start == 0) by (nonlinear_arith)
            requires
                record == 0,
                start == record * (4 + 4 * d),
        ;
    }
    if start + 4 <= bytes.len() {
        lemma_four_bytes(bytes, start);
        assert(here.take(4) =~= bytes.subrange(start, start + 4));
    }
    lemma_first_bad(layout, bytes, fault, rule, record, frame_error(layout, bytes, fault, record));
}

/// What is wrong with a record that is cut off or has another width. Where the file could
/// not be read on, that is it.
spec fn frame_error(
    layout: Layout,
    bytes: Seq<u8>,
    fault: Option<Seq<char>>,
    record: nat,
) -> SiftErrorModel {
    let start = start_of(layout.dimensions, record as int);
    let left = bytes.len() - start;
    let width = signed_at(bytes, start);
    if left >= 4 && (width != layout.dimensions || width == 0) {
        SiftErrorModel::Dimension {
            file: layout.file,
            record,
            expected: layout.dimensions,
            actual: width,
        }
    } else if let Some(source) = fault {
        SiftErrorModel::Io { file: layout.file, source }
    } else if left < 4 {
        SiftErrorModel::TruncatedHeader { file: layout.file, record }
    } else {
        SiftErrorModel::TruncatedPayload {
            file: layout.file,
            record,
            expected: 4 * layout.dimensions,
            actual: (left - 4) as nat,
        }
    }
}

/// What is wrong with a file whose records are all good: it could not be read on, or there
/// is more of it.
proof fn lemma_after_records<T>(
    layout: Layout,
    bytes: Seq<u8>,
    fault: Option<Seq<char>>,
    rule: RowRule<T>,
)
    requires
        layout.records > 0,
        layout.retain <= layout.records,
        forall|r: int|
            0 <= r < layout.records ==> #[trigger] holds_record(bytes, layout.dimensions, r),
        forall|r: int|
            0 <= r < layout.records ==> rule(
                r as nat,
                #[trigger] payload_of(bytes, layout.dimensions, r),
            ) is Ok,
    ensures
        start_of(layout.dimensions, layout.records as int) <= bytes.len(),
        good_records(layout, bytes, fault, rule, layout.records) == layout.records,
        fault matches Some(source) ==> scan(layout, bytes, fault, rule) == Err::<
            Seq<Seq<T>>,
            SiftErrorModel,
        >(SiftErrorModel::Io { file: layout.file, source }),
        fault is None && bytes.len() > start_of(layout.dimensions, layout.records as int)
            ==> scan(layout, bytes, fault, rule) == Err::<Seq<Seq<T>>, SiftErrorModel>(
            SiftErrorModel::Trailing {
                file: layout.file,
                bytes: (bytes.len() - start_of(layout.dimensions, layout.records as int)) as nat,
                records: layout.records,
            },
        ),
        fault is None && bytes.len() == start_of(layout.dimensions, layout.records as int)
            ==> (scan(layout, bytes, fault, rule) matches Ok(rows) && rows.len()
            == layout.retain && forall|r: int|
            0 <= r < layout.retain ==> Ok::<Seq<T>, SiftErrorModel>(#[trigger] rows[r]) == rule(
                r as nat,
                payload_of(bytes, layout.dimensions, r),
            )),
{
    let last = layout.records - 1;
    lemma_leading(layout, bytes, fault, rule, layout.records);
    assert(holds_record(bytes, layout.dimensions, last));
    lemma_start(layout.dimensions, last, layout.records as int);
}

/// A file of vectors is accepted exactly when it is made of as many records as expected,
/// each of the expected width and with nothing but finite components, and of nothing else.
/// The number of rows to keep has no part in it.
pub proof fn law_accepted_vector_files(layout: Layout, bytes: Seq<u8>)
    requires
        layout.records > 0,
        layout.retain <= layout.records,
    ensures
        scan(layout, bytes, None, vector_rule(layout)) is Ok <==> bytes.len() == start_of(
            layout.dimensions,
            layout.records as int,
        ) && forall|r: int|
            0 <= r < layout.records ==> #[trigger] holds_vector(bytes, layout.dimensions, r),
{
    let d = layout.dimensions;
    if forall|r: int| 0 <= r < layout.records ==> #[trigger] holds_vector(bytes, d, r) {
        lemma_vectors_lead(layout, bytes, layout.records);
        lemma_after_records(layout, bytes, None, vector_rule(layout));
    } else {
        let bad = choose|r: int| 0 <= r < layout.records && !#[trigger] holds_vector(bytes, d, r);
        let good = |r: int| holds_vector(bytes, d, r);
        let first = lemma_first_not(good, bad as nat);
        assert forall|r: int| 0 <= r < first implies #[trigger] holds_vector(bytes, d, r) by {
            assert(good(r));
        }
        law_first_bad_vector(layout, bytes, None, first);
    }
}

/// There is a first place at which something does not hold.
proof fn lemma_first_not(holds: spec_fn(int) -> bool, somewhere: nat) -> (first: nat)
    requires
        !holds(somewhere as int),
    ensures
        first <= somewhere,
        !holds(first as int),
        forall|r: int| 0 <= r < first ==> #[trigger] holds(r),
    decreases somewhere,
{
    if exists|r: int| 0 <= r < somewhere && !#[trigger] holds(r) {
        let earlier = choose|r: int| 0 <= r < somewhere && !#[trigger] holds(r);
        lemma_first_not(holds, earlier as nat)
    } else {
        somewhere
    }
}

/// The first bad record of a file of vectors is what the file is refused for, and as many
/// records as come before it are good. A record that is whole and has the right width is
/// bad for its first component that is not finite.
pub proof fn law_first_bad_vector(
    layout: Layout,
    bytes: Seq<u8>,
    fault: Option<Seq<char>>,
    record: nat,
)
    requires
        record < layout.records,
        forall|r: int| 0 <= r < record ==> #[trigger] holds_vector(bytes, layout.dimensions, r),
        !holds_vector(bytes, layout.dimensions, record as int),
    ensures
        good_records(layout, bytes, fault, vector_rule(layout), layout.records) == record,
        ({
            let start = start_of(layout.dimensions, record as int);
            let left = bytes.len() - start;
            let misfit = left >= 4 && (signed_at(bytes, start) != layout.dimensions || signed_at(
                bytes,
                start,
            ) == 0);
            let result = scan(layout, bytes, fault, vector_rule(layout));
            &&& misfit ==> result == Err::<Seq<Seq<u32>>, SiftErrorModel>(
                SiftErrorModel::Dimension {
                    file: layout.file,
                    record,
                    expected: layout.dimensions,
                    actual: signed_at(bytes, start),
                },
            )
            &&& !misfit && left < 4 + 4 * layout.dimensions ==> match fault {
                Some(source) => result == Err::<Seq<Seq<u32>>, SiftErrorModel>(
                    SiftErrorModel::Io { file: layout.file, source },
                ),
                None => if left < 4 {
                    result == Err::<Seq<Seq<u32>>, SiftErrorModel>(
                        SiftErrorModel::TruncatedHeader { file: layout.file, record },
                    )
                } else {
                    result == Err::<Seq<Seq<u32>>, SiftErrorModel>(
                        SiftErrorModel::TruncatedPayload {
                            file: layout.file,
                            record,
                            expected: 4 * layout.dimensions,
                            actual: (left - 4) as nat,
                        },
                    )
                },
            }
        }),
        holds_record(bytes, layout.dimensions, record as int) ==> exists|component: nat|
            {
                &&& component < layout.dimensions
                &&& #[trigger] value_at(
                    bytes,
                    place_of(layout.dimensions, record as int, component as int),
                ) % 0x8000_0000 >= 0x7f80_0000
                &&& forall|i: int|
                    0 <= i < component ==> #[trigger] value_at(
                        bytes,
                        place_of(layout.dimensions, record as int, i),
                    ) % 0x8000_0000 < 0x7f80_0000
                &&& scan(layout, bytes, fault, vector_rule(layout)) == Err::<
                    Seq<Seq<u32>>,
                    SiftErrorModel,
                >(SiftErrorModel::NonFinite { file: layout.file, record, component })
            },
{
    let d = layout.dimensions;
    let rule = vector_rule(layout);
    lemma_vectors_lead(layout, bytes, record);
    if !holds_record(bytes, d, record as int) {
        lemma_bad_frame(layout, bytes, fault, rule, record);
    } else {
        let below = |i: int| value_at(bytes, place_of(d, record as int, i)) % 0x8000_0000
            < 0x7f80_0000;
        let somewhere = choose|i: int|
            0 <= i < d && !(#[trigger] value_at(bytes, place_of(d, record as int, i))
                % 0x8000_0000 < 0x7f80_0000);
        let component = lemma_first_not(below, somewhere as nat);
        assert forall|i: int| 0 <= i < component implies #[trigger] value_at(
            bytes,
            place_of(d, record as int, i),
        ) % 0x8000_0000 < 0x7f80_0000 by {
            assert(below(i));
        }
        let payload = payload_of(bytes, d, record as int);
        lemma_components(bytes, layout.file, d, record, component);
        lemma_word_value(bytes, d, record as int, component as int);
        let value = value_at(bytes, place_of(d, record as int, component as int));
        law_finite_is_below_infinity(value as nat);
        let error = SiftErrorModel::NonFinite { file: layout.file, record, component };
        assert(components(layout.file, record, payload, component + 1) == Err::<
            Seq<u32>,
            SiftErrorModel,
        >(error));
        lemma_components_error(layout.file, record, payload, component + 1, d);
        lemma_payload(layout, bytes, fault, record);
        lemma_first_bad(layout, bytes, fault, rule, record, error);
    }
}

/// The rows of an accepted file of vectors are those of its first records, each component
/// the number that its four bytes make up.
pub proof fn law_vector_rows(layout: Layout, bytes: Seq<u8>, record: int, component: int)
    requires
        layout.records > 0,
        layout.retain <= layout.records,
        scan(layout, bytes, None, vector_rule(layout)) is Ok,
    ensures
        ({
            let rows = scan(layout, bytes, None, vector_rule(layout))->Ok_0;
            &&& rows.len() == layout.retain
            &&& 0 <= record < layout.retain ==> rows[record].len() == layout.dimensions
            &&& 0 <= record < layout.retain && 0 <= component < layout.dimensions
                ==> rows[record][component] == value_at(
                bytes,
                place_of(layout.dimensions, record, component),
            )
        }),
{
    law_accepted_vector_files(layout, bytes);
    lemma_vectors_lead(layout, bytes, layout.records);
    lemma_after_records(layout, bytes, None, vector_rule(layout));
    let rows = scan(layout, bytes, None, vector_rule(layout))->Ok_0;
    if 0 <= record < layout.retain {
        assert(holds_vector(bytes, layout.dimensions, record));
        lemma_components(bytes, layout.file, layout.dimensions, record as nat, layout.dimensions);
        assert(Ok::<Seq<u32>, SiftErrorModel>(rows[record]) == vector_rule(layout)(
            record as nat,
            payload_of(bytes, layout.dimensions, record),
        ));
    }
}

/// A file of vectors whose records are all good is refused where it could not be read to its
/// end, and where it goes on after them.
pub proof fn law_after_the_vectors(layout: Layout, bytes: Seq<u8>, fault: Option<Seq<char>>)
    requires
        layout.records > 0,
        layout.retain <= layout.records,
        forall|r: int|
            0 <= r < layout.records ==> #[trigger] holds_vector(bytes, layout.dimensions, r),
    ensures
        good_records(layout, bytes, fault, vector_rule(layout), layout.records) == layout.records,
        fault matches Some(source) ==> scan(layout, bytes, fault, vector_rule(layout)) == Err::<
            Seq<Seq<u32>>,
            SiftErrorModel,
        >(SiftErrorModel::Io { file: layout.file, source }),
        fault is None && bytes.len() > start_of(layout.dimensions, layout.records as int)
            ==> scan(layout, bytes, fault, vector_rule(layout)) == Err::<
            Seq<Seq<u32>>,
            SiftErrorModel,
        >(
            SiftErrorModel::Trailing {
                file: layout.file,
                bytes: (bytes.len() - start_of(layout.dimensions, layout.records as int)) as nat,
                records: layout.records,
            },
        ),
{
    lemma_vectors_lead(layout, bytes, layout.records);
    lemma_after_records(layout, bytes, fault, vector_rule(layout));
}

/// A file of row ids is accepted exactly when it is made of as many records as expected,
/// each of the expected width and with distinct row ids in range, and of nothing else. The
/// number of rows to keep has no part in it.
pub proof fn law_accepted_id_files(layout: Layout, upper_bound: nat, bytes: Seq<u8>)
    requires
        layout.records > 0,
        layout.retain <= layout.records,
    ensures
        scan(layout, bytes, None, id_rule(layout, upper_bound)) is Ok <==> bytes.len()
            == start_of(layout.dimensions, layout.records as int) && forall|r: int|
            0 <= r < layout.records ==> #[trigger] holds_ids(
                bytes,
                layout.dimensions,
                upper_bound,
                r,
            ),
{
    let d = layout.dimensions;
    if forall|r: int| 0 <= r < layout.records ==> #[trigger] holds_ids(bytes, d, upper_bound, r) {
        lemma_ids_lead(layout, upper_bound, bytes, layout.records);
        lemma_after_records(layout, bytes, None, id_rule(layout, upper_bound));
    } else {
        let bad = choose|r: int|
            0 <= r < layout.records && !#[trigger] holds_ids(bytes, d, upper_bound, r);
        let good = |r: int| holds_ids(bytes, d, upper_bound, r);
        let first = lemma_first_not(good, bad as nat);
        assert forall|r: int| 0 <= r < first implies #[trigger] holds_ids(
            bytes,
            d,
            upper_bound,
            r,
        ) by {
            assert(good(r));
        }
        law_first_bad_ids(layout, upper_bound, bytes, None, first);
    }
}

/// What is wrong with a row id that cannot stand where it does.
spec fn id_error(
    bytes: Seq<u8>,
    dimensions: nat,
    upper_bound: nat,
    record: nat,
    id: nat,
) -> SiftErrorModel {
    let value = signed_at(bytes, place_of(dimensions, record as int, id as int));
    if value < 0 {
        SiftErrorModel::NegativeId { record, id, value }
    } else if value < upper_bound {
        SiftErrorModel::DuplicateId { record, id, value: value as nat }
    } else {
        SiftErrorModel::OutOfRangeId { record, id, value: value as nat, upper_bound }
    }
}

/// The first bad record of a file of row ids is what the file is refused for, and as many
/// records as come before it are good. A record that is whole and has the right width is
/// bad for its first row id that is below zero, names no row, or is there already.
pub proof fn law_first_bad_ids(
    layout: Layout,
    upper_bound: nat,
    bytes: Seq<u8>,
    fault: Option<Seq<char>>,
    record: nat,
)
    requires
        record < layout.records,
        forall|r: int|
            0 <= r < record ==> #[trigger] holds_ids(bytes, layout.dimensions, upper_bound, r),
        !holds_ids(bytes, layout.dimensions, upper_bound, record as int),
    ensures
        good_records(layout, bytes, fault, id_rule(layout, upper_bound), layout.records)
            == record,
        ({
            let start = start_of(layout.dimensions, record as int);
            let left = bytes.len() - start;
            let misfit = left >= 4 && (signed_at(bytes, start) != layout.dimensions || signed_at(
                bytes,
                start,
            ) == 0);
            let result = scan(layout, bytes, fault, id_rule(layout, upper_bound));
            &&& misfit ==> result == Err::<Seq<Seq<usize>>, SiftErrorModel>(
                SiftErrorModel::Dimension {
                    file: layout.file,
                    record,
                    expected: layout.dimensions,
                    actual: signed_at(bytes, start),
                },
            )
            &&& !misfit && left < 4 + 4 * layout.dimensions ==> match fault {
                Some(source) => result == Err::<Seq<Seq<usize>>, SiftErrorModel>(
                    SiftErrorModel::Io { file: layout.file, source },
                ),
                None => if left < 4 {
                    result == Err::<Seq<Seq<usize>>, SiftErrorModel>(
                        SiftErrorModel::TruncatedHeader { file: layout.file, record },
                    )
                } else {
                    result == Err::<Seq<Seq<usize>>, SiftErrorModel>(
                        SiftErrorModel::TruncatedPayload {
                            file: layout.file,
                            record,
                            expected: 4 * layout.dimensions,
                            actual: (left - 4) as nat,
                        },
                    )
                },
            }
        }),
        holds_record(bytes, layout.dimensions, record as int) ==> exists|id: nat|
            {
                &&& id < layout.dimensions
                &&& !#[trigger] fits_row(
                    bytes,
                    layout.dimensions,
                    upper_bound,
                    record as int,
                    id as int,
                )
                &&& forall|i: int|
                    0 <= i < id ==> #[trigger] fits_row(
                        bytes,
                        layout.dimensions,
                        upper_bound,
                        record as int,
                        i,
                    )
                &&& ({
                    let value = signed_at(
                        bytes,
                        place_of(layout.dimensions, record as int, id as int),
                    );
                    scan(layout, bytes, fault, id_rule(layout, upper_bound)) == Err::<
                        Seq<Seq<usize>>,
                        SiftErrorModel,
                    >(
                        if value < 0 {
                            SiftErrorModel::NegativeId { record, id, value }
                        } else if value >= upper_bound {
                            SiftErrorModel::OutOfRangeId {
                                record,
                                id,
                                value: value as nat,
                                upper_bound,
                            }
                        } else {
                            SiftErrorModel::DuplicateId { record, id, value: value as nat }
                        },
                    )
                })
            },
{
    let d = layout.dimensions;
    let rule = id_rule(layout, upper_bound);
    lemma_ids_lead(layout, upper_bound, bytes, record);
    if !holds_record(bytes, d, record as int) {
        lemma_bad_frame(layout, bytes, fault, rule, record);
    } else {
        let fits = |i: int| fits_row(bytes, d, upper_bound, record as int, i);
        let somewhere = choose|i: int|
            0 <= i < d && !#[trigger] fits_row(bytes, d, upper_bound, record as int, i);
        let id = lemma_first_not(fits, somewhere as nat);
        assert forall|i: int| 0 <= i < id implies #[trigger] fits_row(
            bytes,
            d,
            upper_bound,
            record as int,
            i,
        ) by {
            assert(fits(i));
        }
        let payload = payload_of(bytes, d, record as int);
        lemma_row_ids(bytes, d, upper_bound, record, id);
        lemma_word_value(bytes, d, record as int, id as int);
        let value = signed_at(bytes, place_of(d, record as int, id as int));
        let error = id_error(bytes, d, upper_bound, record, id);
        let row = row_ids(record, payload, upper_bound, id)->Ok_0;
        if 0 <= value < upper_bound {
            let j = choose|j: int|
                0 <= j < id && #[trigger] signed_at(bytes, place_of(d, record as int, j)) == value;
            assert(row[j] == value);
            assert(row.contains(value as usize));
        }
        assert(row_ids(record, payload, upper_bound, id + 1) == Err::<Seq<usize>, SiftErrorModel>(
            error,
        ));
        lemma_row_ids_error(record, payload, upper_bound, id + 1, d);
        lemma_payload(layout, bytes, fault, record);
        lemma_first_bad(layout, bytes, fault, rule, record, error);
    }
}

/// The rows of an accepted file of row ids are those of its first records, each row id the
/// number that its four bytes make up.
pub proof fn law_id_rows(layout: Layout, upper_bound: nat, bytes: Seq<u8>, record: int, id: int)
    requires
        layout.records > 0,
        layout.retain <= layout.records,
        scan(layout, bytes, None, id_rule(layout, upper_bound)) is Ok,
    ensures
        ({
            let rows = scan(layout, bytes, None, id_rule(layout, upper_bound))->Ok_0;
            &&& rows.len() == layout.retain
            &&& 0 <= record < layout.retain ==> rows[record].len() == layout.dimensions
            &&& 0 <= record < layout.retain && 0 <= id < layout.dimensions ==> rows[record][id]
                == value_at(bytes, place_of(layout.dimensions, record, id))
        }),
{
    let d = layout.dimensions;
    law_accepted_id_files(layout, upper_bound, bytes);
    lemma_ids_lead(layout, upper_bound, bytes, layout.records);
    lemma_after_records(layout, bytes, None, id_rule(layout, upper_bound));
    let rows = scan(layout, bytes, None, id_rule(layout, upper_bound))->Ok_0;
    if 0 <= record < layout.retain {
        assert(holds_ids(bytes, d, upper_bound, record));
        lemma_row_ids(bytes, d, upper_bound, record as nat, d);
        assert(Ok::<Seq<usize>, SiftErrorModel>(rows[record]) == id_rule(layout, upper_bound)(
            record as nat,
            payload_of(bytes, d, record),
        ));
        if 0 <= id < d {
            assert(fits_row(bytes, d, upper_bound, record, id));
            assert(rows[record][id] == signed_at(bytes, place_of(d, record, id)));
            lemma_word_value(bytes, d, record, id);
        }
    }
}

/// A file of row ids whose records are all good is refused where it could not be read to its
/// end, and where it goes on after them.
pub proof fn law_after_the_ids(
    layout: Layout,
    upper_bound: nat,
    bytes: Seq<u8>,
    fault: Option<Seq<char>>,
)
    requires
        layout.records > 0,
        layout.retain <= layout.records,
        forall|r: int|
            0 <= r < layout.records ==> #[trigger] holds_ids(
                bytes,
                layout.dimensions,
                upper_bound,
                r,
            ),
    ensures
        good_records(layout, bytes, fault, id_rule(layout, upper_bound), layout.records)
            == layout.records,
        fault matches Some(source) ==> scan(layout, bytes, fault, id_rule(layout, upper_bound))
            == Err::<Seq<Seq<usize>>, SiftErrorModel>(
            SiftErrorModel::Io { file: layout.file, source },
        ),
        fault is None && bytes.len() > start_of(layout.dimensions, layout.records as int)
            ==> scan(layout, bytes, fault, id_rule(layout, upper_bound)) == Err::<
            Seq<Seq<usize>>,
            SiftErrorModel,
        >(
            SiftErrorModel::Trailing {
                file: layout.file,
                bytes: (bytes.len() - start_of(layout.dimensions, layout.records as int)) as nat,
                records: layout.records,
            },
        ),
{
    lemma_ids_lead(layout, upper_bound, bytes, layout.records);
    lemma_after_records(layout, bytes, fault, id_rule(layout, upper_bound));
}

/// The bytes of a word are the digits of its number to the base 256, the least first. As a
/// signed number it is the same up to a multiple of two to the thirty-second, and between
/// minus two to the thirty-first and the same plus.
pub proof fn law_words_are_little_endian(bytes: Seq<u8>)
    requires
        bytes.len() == 4,
    ensures
        le_u32(bytes) < 0x1_0000_0000,
        le_u32(bytes) % 256 == bytes[0],
        le_u32(bytes) / 256 % 256 == bytes[1],
        le_u32(bytes) / 256 / 256 % 256 == bytes[2],
        le_u32(bytes) / 256 / 256 / 256 == bytes[3],
        -0x8000_0000 <= le_i32(bytes) < 0x8000_0000,
        le_i32(bytes) == le_u32(bytes) || le_i32(bytes) == le_u32(bytes) - 0x1_0000_0000,
        value_at(bytes, 0) == le_u32(bytes),
        signed_at(bytes, 0) == le_i32(bytes),
{
    lemma_four_bytes(bytes, 0);
    assert(bytes.subrange(0, 4) =~= bytes);
    let (b0, b1, b2, b3) = (
        bytes[0] as int,
        bytes[1] as int,
        bytes[2] as int,
        bytes[3] as int,
    );
    let high = b2 + 256 * b3;
    let rest = b1 + 256 * high;
    assert(le_u32(bytes) == b0 + 256 * rest);
    assert(le_u32(bytes) / 256 == rest);
    assert(rest / 256 == high);
    assert(high / 256 == b3);
}

} // verus!
