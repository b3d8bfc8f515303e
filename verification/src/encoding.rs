//! How rows are laid out in a record file, and that reading undoes it.

use vstd::prelude::*;

use crate::error::SiftErrorModel;
use crate::records::{
    Layout, RowRule, components, id_rule, is_finite, le_i32, le_u32, leading_rows,
    record_payload, row_ids, scan, vector_rule, word,
};

verus! {

/// The four bytes of a word, the least significant first.
pub open spec fn le_bytes(value: nat) -> Seq<u8> {
    seq![
        (value % 0x100) as u8,
        (value / 0x100 % 0x100) as u8,
        (value / 0x1_0000 % 0x100) as u8,
        (value / 0x100_0000 % 0x100) as u8,
    ]
}

/// The bytes of some words.
pub open spec fn encode_words(words: Seq<nat>) -> Seq<u8>
    decreases words.len(),
{
    if words.len() == 0 {
        seq![]
    } else {
        encode_words(words.drop_last()) + le_bytes(words.last())
    }
}

/// The bytes of a record: its width, then its words.
pub open spec fn encode_record(words: Seq<nat>) -> Seq<u8> {
    le_bytes(words.len()) + encode_words(words)
}

/// The bytes of a file.
pub open spec fn encode_file(records: Seq<Seq<nat>>) -> Seq<u8>
    decreases records.len(),
{
    if records.len() == 0 {
        seq![]
    } else {
        encode_file(records.drop_last()) + encode_record(records.last())
    }
}

/// The words of vector rows.
pub open spec fn vector_words(rows: Seq<Seq<u32>>) -> Seq<Seq<nat>> {
    Seq::new(rows.len(), |r: int| Seq::new(rows[r].len(), |i: int| rows[r][i] as nat))
}

/// The words of ground-truth rows.
pub open spec fn id_words(rows: Seq<Seq<usize>>) -> Seq<Seq<nat>> {
    Seq::new(rows.len(), |r: int| Seq::new(rows[r].len(), |i: int| rows[r][i] as nat))
}

/// A vector of the right width with finite components.
pub open spec fn valid_vector(row: Seq<u32>, dimensions: nat) -> bool {
    &&& row.len() == dimensions
    &&& forall|i: int| 0 <= i < row.len() ==> is_finite(#[trigger] row[i] as nat)
}

/// A ground-truth row of the right width with distinct row ids in range.
pub open spec fn valid_ids(row: Seq<usize>, dimensions: nat, upper_bound: nat) -> bool {
    &&& row.len() == dimensions
    &&& row.no_duplicates()
    &&& forall|i: int|
        0 <= i < row.len() ==> #[trigger] row[i] < upper_bound && row[i] <= i32::MAX
}

proof fn lemma_le_round_trip(value: nat)
    requires
        value < 0x1_0000_0000,
    ensures
        le_bytes(value).len() == 4,
        le_u32(le_bytes(value)) == value,
{
}

proof fn lemma_le_unique(bytes: Seq<u8>)
    requires
        bytes.len() == 4,
    ensures
        le_u32(bytes) < 0x1_0000_0000,
        le_bytes(le_u32(bytes)) == bytes,
{
    let value = le_u32(bytes);
    let b0 = bytes[0] as nat;
    let b1 = bytes[1] as nat;
    let b2 = bytes[2] as nat;
    let b3 = bytes[3] as nat;
    assert(value == b0 + 0x100 * (b1 + 0x100 * (b2 + 0x100 * b3)));
    assert(value % 0x100 == b0 && value / 0x100 == b1 + 0x100 * (b2 + 0x100 * b3));
    assert(value / 0x1_0000 == b2 + 0x100 * b3);
    assert(value / 0x100_0000 == b3);
    assert(le_bytes(value)[0] == bytes[0]);
    assert(le_bytes(value)[1] == bytes[1]);
    assert(le_bytes(value)[2] == bytes[2]);
    assert(le_bytes(value)[3] == bytes[3]);
    assert(le_bytes(value) =~= bytes);
}

proof fn lemma_words_len(words: Seq<nat>)
    ensures
        encode_words(words).len() == 4 * words.len(),
    decreases words.len(),
{
    if words.len() > 0 {
        lemma_words_len(words.drop_last());
    }
}

proof fn lemma_word_of(words: Seq<nat>, index: int)
    requires
        0 <= index < words.len(),
    ensures
        word(encode_words(words), index) == le_bytes(words[index]),
    decreases words.len(),
{
    lemma_words_len(words.drop_last());
    if index < words.len() - 1 {
        lemma_word_of(words.drop_last(), index);
        assert(word(encode_words(words), index) =~= word(encode_words(words.drop_last()), index));
    } else {
        assert(word(encode_words(words), index) =~= le_bytes(words[index]));
    }
}

proof fn lemma_words_unique(payload: Seq<u8>, words: Seq<nat>)
    requires
        payload.len() == 4 * words.len(),
        forall|i: int|
            0 <= i < words.len() ==> #[trigger] words[i] == le_u32(word(payload, i)),
    ensures
        encode_words(words) == payload,
    decreases words.len(),
{
    if words.len() > 0 {
        let last = words.len() - 1;
        let head = payload.take(4 * last);
        assert forall|i: int| 0 <= i < last implies #[trigger] words.drop_last()[i] == le_u32(
            word(head, i),
        ) by {
            assert(word(head, i) =~= word(payload, i));
            assert(words[i] == le_u32(word(payload, i)));
        }
        lemma_words_unique(head, words.drop_last());
        lemma_le_unique(word(payload, last));
        assert(payload =~= head + word(payload, last));
        assert(words[last] == le_u32(word(payload, last)));
    } else {
        assert(payload =~= encode_words(words));
    }
}

proof fn lemma_file_len(records: Seq<Seq<nat>>, width: nat)
    requires
        forall|r: int| 0 <= r < records.len() ==> #[trigger] records[r].len() == width,
    ensures
        encode_file(records).len() == records.len() * (4 + 4 * width),
    decreases records.len(),
{
    if records.len() > 0 {
        let fewer = records.drop_last();
        assert forall|r: int| 0 <= r < fewer.len() implies #[trigger] fewer[r].len() == width by {
            assert(records[r].len() == width);
        }
        lemma_file_len(fewer, width);
        assert(records[records.len() - 1].len() == width);
        lemma_words_len(records.last());
        assert(records.len() * (4 + 4 * width) == fewer.len() * (4 + 4 * width) + (4 + 4 * width))
            by (nonlinear_arith)
            requires
                records.len() == fewer.len() + 1,
        ;
    }
}

proof fn lemma_record_of(records: Seq<Seq<nat>>, width: nat, record: int)
    requires
        forall|r: int| 0 <= r < records.len() ==> #[trigger] records[r].len() == width,
        0 <= record < records.len(),
    ensures
        (record + 1) * (4 + 4 * width) <= encode_file(records).len(),
        encode_file(records).subrange(
            record * (4 + 4 * width),
            (record + 1) * (4 + 4 * width),
        ) == encode_record(records[record]),
    decreases records.len(),
{
    let stride = (4 + 4 * width) as int;
    let fewer = records.drop_last();
    assert forall|r: int| 0 <= r < fewer.len() implies #[trigger] fewer[r].len() == width by {
        assert(records[r].len() == width);
    }
    lemma_file_len(fewer, width);
    lemma_file_len(records, width);
    assert((record + 1) * stride == record * stride + stride) by (nonlinear_arith);
    assert(0 <= record * stride) by (nonlinear_arith)
        requires
            0 <= record,
            0 <= stride,
    ;
    assert(records[record].len() == width);
    lemma_words_len(records[record]);
    if record < records.len() - 1 {
        lemma_record_of(fewer, width, record);
        assert(encode_file(records).subrange(record * stride, (record + 1) * stride)
            =~= encode_file(fewer).subrange(record * stride, (record + 1) * stride));
    } else {
        assert(encode_file(records).subrange(record * stride, (record + 1) * stride)
            =~= encode_record(records[record]));
    }
}

proof fn lemma_file_unique(bytes: Seq<u8>, records: Seq<Seq<nat>>, width: nat)
    requires
        bytes.len() == records.len() * (4 + 4 * width),
        forall|r: int| 0 <= r < records.len() ==> #[trigger] records[r].len() == width,
        forall|r: int|
            0 <= r < records.len() ==> bytes.skip(r * (4 + 4 * width)).take(
                4 + 4 * width as int,
            ) == encode_record(#[trigger] records[r]),
    ensures
        encode_file(records) == bytes,
    decreases records.len(),
{
    let stride = (4 + 4 * width) as int;
    if records.len() > 0 {
        let last = records.len() - 1;
        let fewer = records.drop_last();
        assert(records.len() * stride == last * stride + stride) by (nonlinear_arith)
            requires
                records.len() == last + 1,
        ;
        assert(0 <= last * stride) by (nonlinear_arith)
            requires
                0 <= last,
                0 <= stride,
        ;
        let head = bytes.take(last * stride);
        assert forall|r: int| 0 <= r < fewer.len() implies #[trigger] fewer[r].len() == width by {
            assert(records[r].len() == width);
        }
        assert forall|r: int| 0 <= r < fewer.len() implies head.skip(r * stride).take(stride)
            == encode_record(#[trigger] fewer[r]) by {
            assert(bytes.skip(r * stride).take(stride) == encode_record(records[r]));
            assert(0 <= r * stride && r * stride + stride <= last * stride) by (nonlinear_arith)
                requires
                    0 <= r < last,
                    0 <= stride,
            ;
            assert(head.skip(r * stride).take(stride) =~= bytes.skip(r * stride).take(stride));
        }
        lemma_file_unique(head, fewer, width);
        assert(bytes.skip(last * stride).take(stride) == encode_record(records[last]));
        assert(bytes =~= head + bytes.skip(last * stride).take(stride));
    } else {
        assert(records.len() * stride == 0) by (nonlinear_arith)
            requires
                records.len() == 0,
        ;
        assert(bytes =~= encode_file(records));
    }
}

/// Reading the leading records of an encoded file, for any rule that reads each row
/// back from its own words.
proof fn lemma_leading_of_encoded<T>(
    layout: Layout,
    rule: RowRule<T>,
    rows: Seq<Seq<T>>,
    records: Seq<Seq<nat>>,
    count: nat,
)
    requires
        0 < layout.dimensions <= i32::MAX,
        rows.len() == records.len(),
        count <= records.len(),
        forall|r: int|
            0 <= r < records.len() ==> #[trigger] records[r].len() == layout.dimensions,
        forall|r: int|
            0 <= r < records.len() ==> rule(r as nat, encode_words(#[trigger] records[r])) == Ok::<
                Seq<T>,
                SiftErrorModel,
            >(rows[r]),
    ensures
        leading_rows(layout, encode_file(records), None, rule, count) == Ok::<
            Seq<Seq<T>>,
            SiftErrorModel,
        >(rows.take(count as int)),
    decreases count,
{
    if count > 0 {
        let record = count - 1;
        lemma_leading_of_encoded(layout, rule, rows, records, record as nat);
        let stride = layout.stride() as int;
        let bytes = encode_file(records);
        let here = bytes.skip(record * stride);
        lemma_record_of(records, layout.dimensions, record);
        assert((record + 1) * stride == record * stride + stride) by (nonlinear_arith);
        assert(0 <= record * stride) by (nonlinear_arith)
            requires
                0 <= record,
                0 <= stride,
        ;
        assert(records[record].len() == layout.dimensions);
        lemma_words_len(records[record]);
        lemma_le_round_trip(layout.dimensions);
        let whole = encode_record(records[record]);
        assert(bytes.subrange(record * stride, (record + 1) * stride) =~= here.take(stride));
        assert(here.take(4) =~= whole.take(4));
        assert(whole.take(4) =~= le_bytes(layout.dimensions));
        assert(here.subrange(4, stride) =~= whole.subrange(4, stride));
        assert(whole.subrange(4, stride) =~= encode_words(records[record]));
        assert(record_payload(layout, here, None, record as nat) == Ok::<
            Seq<u8>,
            SiftErrorModel,
        >(encode_words(records[record])));
        assert(rows.take(count as int) =~= rows.take(record).push(rows[record]));
    } else {
        assert(rows.take(0) =~= seq![]);
    }
}

proof fn lemma_components_of_encoded(file: Seq<char>, record: nat, row: Seq<u32>, count: nat)
    requires
        count <= row.len(),
        forall|i: int| 0 <= i < row.len() ==> is_finite(#[trigger] row[i] as nat),
    ensures
        components(
            file,
            record,
            encode_words(Seq::new(row.len(), |i: int| row[i] as nat)),
            count,
        ) == Ok::<Seq<u32>, SiftErrorModel>(row.take(count as int)),
    decreases count,
{
    if count > 0 {
        lemma_components_of_encoded(file, record, row, (count - 1) as nat);
        let words = Seq::new(row.len(), |i: int| row[i] as nat);
        lemma_word_of(words, count - 1);
        lemma_le_round_trip(row[count - 1] as nat);
        assert(row.take(count as int) =~= row.take(count - 1).push(row[count - 1]));
    } else {
        assert(row.take(0) =~= seq![]);
    }
}

proof fn lemma_row_ids_of_encoded(
    record: nat,
    row: Seq<usize>,
    dimensions: nat,
    upper_bound: nat,
    count: nat,
)
    requires
        count <= row.len(),
        valid_ids(row, dimensions, upper_bound),
    ensures
        row_ids(
            record,
            encode_words(Seq::new(row.len(), |i: int| row[i] as nat)),
            upper_bound,
            count,
        ) == Ok::<Seq<usize>, SiftErrorModel>(row.take(count as int)),
    decreases count,
{
    if count > 0 {
        lemma_row_ids_of_encoded(record, row, dimensions, upper_bound, (count - 1) as nat);
        let words = Seq::new(row.len(), |i: int| row[i] as nat);
        lemma_word_of(words, count - 1);
        assert(row[count - 1] < upper_bound && row[count - 1] <= i32::MAX);
        lemma_le_round_trip(row[count - 1] as nat);
        assert(!row.take(count - 1).contains(row[count - 1]));
        assert(row.take(count as int) =~= row.take(count - 1).push(row[count - 1]));
    } else {
        assert(row.take(0) =~= seq![]);
    }
}

/// Reading gives back what was laid out: a file that encodes finite vectors of the
/// expected width and number is accepted, and its first rows are kept bit for bit.
pub proof fn law_vectors_round_trip(layout: Layout, rows: Seq<Seq<u32>>)
    requires
        0 < layout.dimensions <= i32::MAX,
        rows.len() == layout.records,
        layout.retain <= layout.records,
        forall|r: int|
            0 <= r < rows.len() ==> valid_vector(#[trigger] rows[r], layout.dimensions),
    ensures
        scan(layout, encode_file(vector_words(rows)), None, vector_rule(layout)) == Ok::<
            Seq<Seq<u32>>,
            SiftErrorModel,
        >(rows.take(layout.retain as int)),
{
    let records = vector_words(rows);
    let rule = vector_rule(layout);
    assert forall|r: int| 0 <= r < records.len() implies #[trigger] records[r].len()
        == layout.dimensions by {
        assert(valid_vector(rows[r], layout.dimensions));
    }
    assert forall|r: int| 0 <= r < records.len() implies rule(
        r as nat,
        encode_words(#[trigger] records[r]),
    ) == Ok::<Seq<u32>, SiftErrorModel>(rows[r]) by {
        assert(valid_vector(rows[r], layout.dimensions));
        lemma_components_of_encoded(layout.file, r as nat, rows[r], layout.dimensions);
        assert(records[r] =~= Seq::new(rows[r].len(), |i: int| rows[r][i] as nat));
        assert(rows[r].take(layout.dimensions as int) =~= rows[r]);
    }
    lemma_leading_of_encoded(layout, rule, rows, records, layout.records);
    lemma_file_len(records, layout.dimensions);
    assert(rows.take(layout.records as int) =~= rows);
}

/// Reading gives back what was laid out: a file that encodes ground-truth rows of the
/// expected width and number, with distinct row ids in range, is accepted, and its
/// first rows are kept.
pub proof fn law_ids_round_trip(layout: Layout, upper_bound: nat, rows: Seq<Seq<usize>>)
    requires
        0 < layout.dimensions <= i32::MAX,
        rows.len() == layout.records,
        layout.retain <= layout.records,
        forall|r: int|
            0 <= r < rows.len() ==> valid_ids(
                #[trigger] rows[r],
                layout.dimensions,
                upper_bound,
            ),
    ensures
        scan(layout, encode_file(id_words(rows)), None, id_rule(layout, upper_bound)) == Ok::<
            Seq<Seq<usize>>,
            SiftErrorModel,
        >(rows.take(layout.retain as int)),
{
    let records = id_words(rows);
    let rule = id_rule(layout, upper_bound);
    assert forall|r: int| 0 <= r < records.len() implies #[trigger] records[r].len()
        == layout.dimensions by {
        assert(valid_ids(rows[r], layout.dimensions, upper_bound));
    }
    assert forall|r: int| 0 <= r < records.len() implies rule(
        r as nat,
        encode_words(#[trigger] records[r]),
    ) == Ok::<Seq<usize>, SiftErrorModel>(rows[r]) by {
        assert(valid_ids(rows[r], layout.dimensions, upper_bound));
        lemma_row_ids_of_encoded(
            r as nat,
            rows[r],
            layout.dimensions,
            upper_bound,
            layout.dimensions,
        );
        assert(records[r] =~= Seq::new(rows[r].len(), |i: int| rows[r][i] as nat));
        assert(rows[r].take(layout.dimensions as int) =~= rows[r]);
    }
    lemma_leading_of_encoded(layout, rule, rows, records, layout.records);
    lemma_file_len(records, layout.dimensions);
    assert(rows.take(layout.records as int) =~= rows);
}

/// Every good record has its payload in the file, and its row from that payload.
proof fn lemma_good_record<T>(
    layout: Layout,
    bytes: Seq<u8>,
    rule: RowRule<T>,
    count: nat,
    record: int,
)
    requires
        0 <= record < count,
        leading_rows(layout, bytes, None, rule, count) is Ok,
    ensures
        ({
            let rows = leading_rows(layout, bytes, None, rule, count)->Ok_0;
            let here = bytes.skip(record * layout.stride());
            &&& rows.len() == count
            &&& record_payload(layout, here, None, record as nat) is Ok
            &&& rule(
                record as nat,
                record_payload(layout, here, None, record as nat)->Ok_0,
            ) == Ok::<Seq<T>, SiftErrorModel>(rows[record])
        }),
    decreases count,
{
    lemma_leading_len(layout, bytes, rule, (count - 1) as nat);
    if record < count - 1 {
        lemma_good_record(layout, bytes, rule, (count - 1) as nat, record);
    }
}

proof fn lemma_leading_len<T>(layout: Layout, bytes: Seq<u8>, rule: RowRule<T>, count: nat)
    requires
        leading_rows(layout, bytes, None, rule, count) is Ok,
    ensures
        leading_rows(layout, bytes, None, rule, count)->Ok_0.len() == count,
    decreases count,
{
    if count > 0 {
        lemma_leading_len(layout, bytes, rule, (count - 1) as nat);
    }
}

/// A good record is the encoding of its width and of the words of its payload.
proof fn lemma_good_bytes(layout: Layout, here: Seq<u8>, record: nat, words: Seq<nat>)
    requires
        record_payload(layout, here, None, record) is Ok,
        words.len() == layout.dimensions,
        forall|i: int|
            0 <= i < words.len() ==> #[trigger] words[i] == le_u32(
                word(record_payload(layout, here, None, record)->Ok_0, i),
            ),
    ensures
        here.len() >= layout.stride(),
        here.take(layout.stride() as int) == encode_record(words),
{
    let payload = record_payload(layout, here, None, record)->Ok_0;
    lemma_words_unique(payload, words);
    lemma_le_unique(here.take(4));
    assert(le_u32(here.take(4)) == layout.dimensions);
    assert(here.take(layout.stride() as int) =~= here.take(4) + payload);
}

proof fn lemma_components_read(file: Seq<char>, record: nat, payload: Seq<u8>, count: nat)
    requires
        payload.len() >= 4 * count,
        components(file, record, payload, count) is Ok,
    ensures
        ({
            let row = components(file, record, payload, count)->Ok_0;
            &&& row.len() == count
            &&& forall|i: int|
                0 <= i < count ==> #[trigger] row[i] as nat == le_u32(word(payload, i))
                    && is_finite(row[i] as nat)
        }),
    decreases count,
{
    if count > 0 {
        lemma_components_read(file, record, payload, (count - 1) as nat);
        lemma_le_unique(word(payload, count - 1));
    }
}

proof fn lemma_row_ids_read(record: nat, payload: Seq<u8>, upper_bound: nat, count: nat)
    requires
        payload.len() >= 4 * count,
        row_ids(record, payload, upper_bound, count) is Ok,
    ensures
        ({
            let row = row_ids(record, payload, upper_bound, count)->Ok_0;
            &&& valid_ids(row, count, upper_bound)
            &&& forall|i: int|
                0 <= i < count ==> #[trigger] row[i] as nat == le_u32(word(payload, i))
        }),
    decreases count,
{
    if count > 0 {
        lemma_row_ids_read(record, payload, upper_bound, (count - 1) as nat);
        lemma_le_unique(word(payload, count - 1));
        let fewer = row_ids(record, payload, upper_bound, (count - 1) as nat)->Ok_0;
        let value = le_i32(word(payload, count - 1)) as usize;
        let row = fewer.push(value);
        assert forall|i: int, j: int| 0 <= i < row.len() && 0 <= j < row.len() && i
            != j implies row[i] != row[j] by {
            if i == count - 1 {
                assert(fewer.contains(fewer[j]));
            } else if j == count - 1 {
                assert(fewer.contains(fewer[i]));
            } else {
                assert(fewer[i] != fewer[j]);
            }
        }
        assert forall|i: int| 0 <= i < row.len() implies #[trigger] row[i] < upper_bound && row[i]
            <= i32::MAX by {
            if i < count - 1 {
                assert(fewer[i] < upper_bound && fewer[i] <= i32::MAX);
            }
        }
        assert forall|i: int| 0 <= i < count implies #[trigger] row[i] as nat == le_u32(
            word(payload, i),
        ) by {
            if i < count - 1 {
                assert(fewer[i] as nat == le_u32(word(payload, i)));
            }
        }
    }
}

/// Nothing else is accepted: a file from which all rows are kept is the encoding of
/// those rows, and they are finite vectors of the expected width and number.
pub proof fn law_accepted_vectors_are_encoded(layout: Layout, bytes: Seq<u8>)
    requires
        layout.retain == layout.records,
        scan(layout, bytes, None, vector_rule(layout)) is Ok,
    ensures
        ({
            let rows = scan(layout, bytes, None, vector_rule(layout))->Ok_0;
            &&& rows.len() == layout.records
            &&& forall|r: int|
                0 <= r < rows.len() ==> valid_vector(#[trigger] rows[r], layout.dimensions)
            &&& bytes == encode_file(vector_words(rows))
        }),
{
    let rule = vector_rule(layout);
    let rows = leading_rows(layout, bytes, None, rule, layout.records)->Ok_0;
    lemma_leading_len(layout, bytes, rule, layout.records);
    assert(rows.take(layout.retain as int) =~= rows);
    let records = vector_words(rows);
    let stride = layout.stride() as int;
    assert forall|r: int| 0 <= r < records.len() implies valid_vector(
        #[trigger] rows[r],
        layout.dimensions,
    ) && records[r].len() == layout.dimensions && bytes.skip(r * stride).len() >= stride
        && bytes.skip(r * stride).take(stride) == encode_record(records[r]) by {
        lemma_good_record(layout, bytes, rule, layout.records, r);
        let here = bytes.skip(r * stride);
        let payload = record_payload(layout, here, None, r as nat)->Ok_0;
        lemma_components_read(layout.file, r as nat, payload, layout.dimensions);
        assert forall|i: int| 0 <= i < records[r].len() implies #[trigger] records[r][i] == le_u32(
            word(payload, i),
        ) by {
            assert(rows[r][i] as nat == le_u32(word(payload, i)));
        }
        lemma_good_bytes(layout, here, r as nat, records[r]);
    }
    law_accepted_size(layout, bytes, rule);
    assert forall|r: int| 0 <= r < records.len() implies bytes.skip(r * stride).take(stride)
        == encode_record(#[trigger] records[r]) && records[r].len() == layout.dimensions by {
        assert(valid_vector(rows[r], layout.dimensions));
    }
    lemma_file_unique(bytes, records, layout.dimensions);
}

/// Nothing else is accepted: a ground-truth file from which all rows are kept is the
/// encoding of those rows, and they have distinct row ids in range.
pub proof fn law_accepted_ids_are_encoded(layout: Layout, upper_bound: nat, bytes: Seq<u8>)
    requires
        layout.retain == layout.records,
        scan(layout, bytes, None, id_rule(layout, upper_bound)) is Ok,
    ensures
        ({
            let rows = scan(layout, bytes, None, id_rule(layout, upper_bound))->Ok_0;
            &&& rows.len() == layout.records
            &&& forall|r: int|
                0 <= r < rows.len() ==> valid_ids(
                    #[trigger] rows[r],
                    layout.dimensions,
                    upper_bound,
                )
            &&& bytes == encode_file(id_words(rows))
        }),
{
    let rule = id_rule(layout, upper_bound);
    let rows = leading_rows(layout, bytes, None, rule, layout.records)->Ok_0;
    lemma_leading_len(layout, bytes, rule, layout.records);
    assert(rows.take(layout.retain as int) =~= rows);
    let records = id_words(rows);
    let stride = layout.stride() as int;
    assert forall|r: int| 0 <= r < records.len() implies valid_ids(
        #[trigger] rows[r],
        layout.dimensions,
        upper_bound,
    ) && records[r].len() == layout.dimensions && bytes.skip(r * stride).len() >= stride
        && bytes.skip(r * stride).take(stride) == encode_record(records[r]) by {
        lemma_good_record(layout, bytes, rule, layout.records, r);
        let here = bytes.skip(r * stride);
        let payload = record_payload(layout, here, None, r as nat)->Ok_0;
        lemma_row_ids_read(r as nat, payload, upper_bound, layout.dimensions);
        assert forall|i: int| 0 <= i < records[r].len() implies #[trigger] records[r][i] == le_u32(
            word(payload, i),
        ) by {
            assert(rows[r][i] as nat == le_u32(word(payload, i)));
        }
        lemma_good_bytes(layout, here, r as nat, records[r]);
    }
    law_accepted_size(layout, bytes, rule);
    assert forall|r: int| 0 <= r < records.len() implies bytes.skip(r * stride).take(stride)
        == encode_record(#[trigger] records[r]) && records[r].len() == layout.dimensions by {
        assert(valid_ids(rows[r], layout.dimensions, upper_bound));
    }
    lemma_file_unique(bytes, records, layout.dimensions);
}

/// An accepted file has exactly the bytes of its records.
pub proof fn law_accepted_size<T>(layout: Layout, bytes: Seq<u8>, rule: RowRule<T>)
    requires
        scan(layout, bytes, None, rule) is Ok,
    ensures
        bytes.len() == layout.records * layout.stride(),
{
    if layout.records > 0 {
        let last = layout.records - 1;
        let stride = layout.stride() as int;
        lemma_good_record(layout, bytes, rule, layout.records, last);
        assert(layout.records * stride == last * stride + stride) by (nonlinear_arith)
            requires
                layout.records == last + 1,
        ;
        assert(0 <= last * stride) by (nonlinear_arith)
            requires
                0 <= last,
                0 <= stride,
        ;
        if last * stride > bytes.len() {
            lemma_skip_past(layout, bytes, rule, layout.records);
        }
        assert(bytes.skip(last * stride).len() >= stride);
    } else {
        assert(layout.records * layout.stride() == 0) by (nonlinear_arith)
            requires
                layout.records == 0,
        ;
    }
}

/// The good records lie within the file.
proof fn lemma_skip_past<T>(layout: Layout, bytes: Seq<u8>, rule: RowRule<T>, count: nat)
    requires
        leading_rows(layout, bytes, None, rule, count) is Ok,
    ensures
        count * layout.stride() <= bytes.len(),
    decreases count,
{
    let stride = layout.stride() as int;
    if count > 0 {
        let last = count - 1;
        lemma_skip_past(layout, bytes, rule, last as nat);
        assert(count * stride == last * stride + stride) by (nonlinear_arith)
            requires
                count == last + 1,
        ;
        assert(0 <= last * stride) by (nonlinear_arith)
            requires
                0 <= last,
                0 <= stride,
        ;
        assert(bytes.skip(last * stride).len() >= stride);
    } else {
        assert(count * stride == 0) by (nonlinear_arith)
            requires
                count == 0,
        ;
    }
}

/// How many rows are kept changes nothing else: the whole file is checked all the
/// same, with the same error where it is refused, and the rows kept are the first of
/// those that a run over the whole file keeps.
pub proof fn law_keeping_fewer_rows<T>(
    layout: Layout,
    retain: nat,
    bytes: Seq<u8>,
    fault: Option<Seq<char>>,
    rule: RowRule<T>,
)
    requires
        retain <= layout.records,
        layout.retain == layout.records,
    ensures
        ({
            let whole = scan(layout, bytes, fault, rule);
            let part = scan(Layout { retain, ..layout }, bytes, fault, rule);
            match whole {
                Ok(rows) => part == Ok::<Seq<Seq<T>>, SiftErrorModel>(rows.take(retain as int)),
                Err(error) => part == Err::<Seq<Seq<T>>, SiftErrorModel>(error),
            }
        }),
{
    let smaller = Layout { retain, ..layout };
    lemma_leading_ignores_retain(layout, retain, bytes, fault, rule, layout.records);
    if scan(layout, bytes, fault, rule) is Ok {
        let rows = leading_rows(layout, bytes, fault, rule, layout.records)->Ok_0;
        lemma_leading_len(layout, bytes, rule, layout.records);
        assert(rows.take(layout.records as int) =~= rows);
        assert(smaller.stride() == layout.stride());
    }
}

proof fn lemma_leading_ignores_retain<T>(
    layout: Layout,
    retain: nat,
    bytes: Seq<u8>,
    fault: Option<Seq<char>>,
    rule: RowRule<T>,
    count: nat,
)
    ensures
        leading_rows(Layout { retain, ..layout }, bytes, fault, rule, count) == leading_rows(
            layout,
            bytes,
            fault,
            rule,
            count,
        ),
    decreases count,
{
    if count > 0 {
        lemma_leading_ignores_retain(layout, retain, bytes, fault, rule, (count - 1) as nat);
    }
}

/// A file that cannot be read to its end is never accepted.
pub proof fn law_unreadable_is_refused<T>(
    layout: Layout,
    bytes: Seq<u8>,
    source: Seq<char>,
    rule: RowRule<T>,
)
    ensures
        scan(layout, bytes, Some(source), rule) is Err,
{
}

} // verus!
