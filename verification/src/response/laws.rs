//! What holds of every response: which texts are tables and which are not,
//! what a table holds of its text, and what the decoded records hold of it.

use crate::number::decimal_digits;
use crate::number::IntErrorKind;
use crate::number::is_digit;
use crate::number::lemma_decimal_digits;
use crate::number::lemma_decimal_round_trip;
use crate::number::lemma_parse_decimal_bound;
use crate::number::parse_decimal;
use crate::number::parse_hex16;
use crate::response::base::ascii_uppercase;
use crate::response::base::BANG;
use crate::response::base::COLON;
use crate::response::base::column_of;
use crate::response::base::ErrorView;
use crate::response::base::HeaderView;
use crate::response::base::hex16_type;
use crate::response::base::is_seqn_line;
use crate::response::base::lemma_column_of_unique;
use crate::response::base::lemma_run_fails;
use crate::response::base::ParseState;
use crate::response::base::PIPE;
use crate::response::base::SEQN_PREFIX;
use crate::response::base::spec_decode_hex16;
use crate::response::base::spec_decode_opt_hex16;
use crate::response::base::spec_parse_header;
use crate::response::base::spec_parse_header_line;
use crate::response::base::spec_parse_headers;
use crate::response::base::spec_parse_table;
use crate::response::base::spec_project_rows;
use crate::response::base::spec_run;
use crate::response::base::TableView;
use crate::response::base::Type;
use crate::response::base::TypeName;
use crate::response::base::uppercase;
use crate::response::summary::RecordView as SummaryRecordView;
use crate::response::summary::spec_decode as spec_decode_summary;
use crate::response::summary::spec_projection as spec_summary_projection;
use crate::response::summary::spec_record as spec_summary_record;
use crate::response::summary::spec_schema as spec_summary_schema;
use crate::response::versions::RecordView as VersionsRecordView;
use crate::response::versions::spec_decode as spec_decode_versions;
use crate::response::versions::spec_projection as spec_versions_projection;
use crate::response::versions::spec_record as spec_versions_record;
use crate::response::versions::spec_schema as spec_versions_schema;
use crate::text::join;
use crate::text::lemma_first_pos_unique;
use crate::text::lemma_join_holds_no;
use crate::text::lemma_join_splits;
use crate::text::lemma_unlines_lines;
use crate::text::spec_lines;
use crate::text::spec_split;
use crate::text::strip_cr;
use crate::text::unlines;
use vstd::prelude::*;
use vstd::string::StringSliceAdditionalSpecFns;
use vstd::utf8::decode_utf8;
use vstd::utf8::encode_utf8;
use vstd::utf8::encode_utf8_decode_utf8;
use vstd::utf8::is_ascii_chars;
use vstd::utf8::is_ascii_chars_encode_utf8;

verus! {

/// The lines that carry a sequence number, in their order.
pub open spec fn seqn_lines(lines: Seq<Seq<u8>>) -> Seq<Seq<u8>>
    decreases lines.len(),
{
    if lines.len() == 0 {
        Seq::empty()
    } else if is_seqn_line(lines.last()) {
        seqn_lines(lines.drop_last()).push(lines.last())
    } else {
        seqn_lines(lines.drop_last())
    }
}

/// The other lines, in their order: the header line and the rows.
pub open spec fn data_lines(lines: Seq<Seq<u8>>) -> Seq<Seq<u8>>
    decreases lines.len(),
{
    if lines.len() == 0 {
        Seq::empty()
    } else if is_seqn_line(lines.last()) {
        data_lines(lines.drop_last())
    } else {
        data_lines(lines.drop_last()).push(lines.last())
    }
}

/// The number that a sequence number line gives.
pub open spec fn spec_seqn(line: Seq<u8>) -> Result<nat, IntErrorKind> {
    parse_decimal(line.skip(SEQN_PREFIX.spec_bytes().len() as int), u32::MAX as nat)
}

/// The lines can be read to their end: at most one of them carries a
/// sequence number, which can be read; the first of the others declares the
/// columns; and every later one has as many fields as there are columns.
pub open spec fn readable(lines: Seq<Seq<u8>>) -> bool {
    let numbers = seqn_lines(lines);
    let data = data_lines(lines);
    &&& numbers.len() <= 1
    &&& numbers.len() == 1 ==> spec_seqn(numbers[0]) is Ok
    &&& data.len() >= 1 ==> spec_parse_header_line(data[0]) is Ok
    &&& forall|i: int|
        1 <= i < data.len() ==> (#[trigger] spec_split(data[i], PIPE)).len()
            == spec_parse_header_line(data[0])->Ok_0.len()
}

/// What has been read of readable lines: the number of the sequence number
/// line, the columns of the first of the other lines, and one row for each
/// later one, in their order.
pub open spec fn state_of(lines: Seq<Seq<u8>>) -> ParseState {
    let numbers = seqn_lines(lines);
    let data = data_lines(lines);
    ParseState {
        headers: if data.len() >= 1 {
            Some(spec_parse_header_line(data[0])->Ok_0)
        } else {
            None
        },
        seqn: if numbers.len() >= 1 {
            Some(spec_seqn(numbers[0])->Ok_0 as u32)
        } else {
            None
        },
        rows: Seq::new(
            if data.len() >= 1 {
                (data.len() - 1) as nat
            } else {
                0
            },
            |i: int| spec_split(data[i + 1], PIPE),
        ),
    }
}

/// Readable lines are read to their end, and only they are; what has then
/// been read is `state_of`.
pub proof fn lemma_run_reads(lines: Seq<Seq<u8>>)
    ensures
        spec_run(lines) is Ok <==> readable(lines),
        readable(lines) ==> spec_run(lines) == Ok::<ParseState, ErrorView>(state_of(lines)),
    decreases lines.len(),
{
    if lines.len() == 0 {
        assert(state_of(lines).rows =~= Seq::empty());
    } else {
        let before = lines.drop_last();
        let line = lines.last();
        lemma_run_reads(before);
        let numbers = seqn_lines(lines);
        let data = data_lines(lines);
        let numbers_before = seqn_lines(before);
        let data_before = data_lines(before);
        if is_seqn_line(line) {
            assert(data == data_before);
            assert(numbers == numbers_before.push(line));
            if readable(before) {
                if numbers_before.len() == 0 {
                    assert(numbers[0] == line);
                    if spec_seqn(line) is Ok {
                        assert(readable(lines));
                        assert(state_of(lines).rows =~= state_of(before).rows);
                    }
                } else {
                    assert(numbers[0] == numbers_before[0]);
                }
            } else {
                if numbers.len() <= 1 {
                    assert(numbers_before.len() == 0);
                }
                assert(!readable(lines));
            }
        } else {
            assert(numbers == numbers_before);
            assert(data == data_before.push(line));
            if readable(before) {
                if data_before.len() == 0 {
                    assert(data[0] == line);
                    if spec_parse_header_line(line) is Ok {
                        assert(readable(lines));
                        assert(state_of(lines).rows =~= state_of(before).rows);
                    }
                } else {
                    assert(data[0] == data_before[0]);
                    let columns = spec_parse_header_line(data[0])->Ok_0;
                    let fields = spec_split(line, PIPE);
                    assert(data[data.len() - 1] == line);
                    if fields.len() == columns.len() {
                        assert forall|i: int| 1 <= i < data.len() implies (#[trigger] spec_split(
                            data[i],
                            PIPE,
                        )).len() == columns.len() by {
                            if i < data_before.len() {
                                assert(data[i] == data_before[i]);
                            }
                        }
                        assert(readable(lines));
                        assert(state_of(lines).rows =~= state_of(before).rows.push(fields));
                    } else {
                        assert(!readable(lines));
                    }
                }
            } else {
                if data_before.len() >= 1 {
                    assert(data[0] == data_before[0]);
                    if readable(lines) {
                        assert forall|i: int| 1 <= i < data_before.len() implies (
                        #[trigger] spec_split(data_before[i], PIPE)).len()
                            == spec_parse_header_line(data_before[0])->Ok_0.len() by {
                            assert(data[i] == data_before[i]);
                        }
                    }
                }
                assert(!readable(lines));
            }
        }
    }
}

/// A prefix of readable lines is readable.
pub proof fn lemma_readable_prefix(lines: Seq<Seq<u8>>, n: int)
    requires
        0 <= n <= lines.len(),
        readable(lines),
    ensures
        readable(lines.take(n)),
    decreases lines.len() - n,
{
    if n < lines.len() {
        lemma_readable_prefix(lines, n + 1);
        lemma_run_reads(lines.take(n + 1));
        assert(lines.take(n + 1).drop_last() =~= lines.take(n));
        lemma_run_reads(lines.take(n));
    } else {
        assert(lines.take(n) =~= lines);
    }
}

/// A text is a table exactly if its lines are readable and a sequence number
/// line and a header line are among them. The table then holds the number of
/// the one, the columns of the other, and one row for each further line, in
/// the order of the lines and with the fields between its pipes.
pub proof fn lemma_parse_table(input: Seq<u8>)
    ensures
        spec_parse_table(input) is Ok <==> {
            &&& readable(spec_lines(input))
            &&& seqn_lines(spec_lines(input)).len() == 1
            &&& data_lines(spec_lines(input)).len() >= 1
        },
        spec_parse_table(input) matches Ok(table) ==> {
            let state = state_of(spec_lines(input));
            let data = data_lines(spec_lines(input));
            &&& table.seqn == state.seqn->0
            &&& table.headers == state.headers->0
            &&& table.rows == state.rows
            &&& table.rows.len() == data.len() - 1
            &&& forall|i: int|
                0 <= i < table.rows.len() ==> #[trigger] table.rows[i] == spec_split(
                    data[i + 1],
                    PIPE,
                )
            &&& table.wf()
        },
{
    lemma_run_reads(spec_lines(input));
}

/// A row whose number of fields differs from the number of columns fails the
/// whole text with both numbers, whatever follows it, provided that the lines
/// before it were read.
pub proof fn lemma_row_arity(input: Seq<u8>, k: int)
    requires
        0 <= k < spec_lines(input).len(),
        readable(spec_lines(input).take(k)),
        data_lines(spec_lines(input).take(k)).len() >= 1,
        !is_seqn_line(spec_lines(input)[k]),
        spec_split(spec_lines(input)[k], PIPE).len() != state_of(
            spec_lines(input).take(k),
        ).headers->0.len(),
    ensures
        spec_parse_table(input) == Err::<TableView, ErrorView>(
            ErrorView::MismatchedRecordLength(
                spec_split(spec_lines(input)[k], PIPE).len(),
                state_of(spec_lines(input).take(k)).headers->0.len(),
            ),
        ),
{
    let lines = spec_lines(input);
    lemma_run_reads(lines.take(k));
    assert(lines.take(k + 1).drop_last() =~= lines.take(k));
    assert(lines.take(k + 1).last() == lines[k]);
    lemma_run_fails(lines, k + 1);
}

/// A text without a sequence number line is no table. It fails for want of
/// that line if it has a line at all and its lines are readable.
pub proof fn lemma_no_seqn_line(input: Seq<u8>)
    requires
        seqn_lines(spec_lines(input)).len() == 0,
    ensures
        spec_parse_table(input) is Err,
        readable(spec_lines(input)) && spec_lines(input).len() >= 1 ==> spec_parse_table(input)
            == Err::<TableView, ErrorView>(ErrorView::ExpectedSeqnLine),
{
    let lines = spec_lines(input);
    lemma_run_reads(lines);
    if lines.len() >= 1 {
        assert(data_lines(lines).len() >= 1) by {
            lemma_lines_counted(lines);
        }
    }
}

/// Every line is a sequence number line or one of the others.
pub proof fn lemma_lines_counted(lines: Seq<Seq<u8>>)
    ensures
        seqn_lines(lines).len() + data_lines(lines).len() == lines.len(),
    decreases lines.len(),
{
    if lines.len() > 0 {
        lemma_lines_counted(lines.drop_last());
    }
}

/// The sequence number lines of a prefix are among those of the whole.
pub proof fn lemma_seqn_lines_prefix(lines: Seq<Seq<u8>>, n: int)
    requires
        0 <= n <= lines.len(),
    ensures
        seqn_lines(lines.take(n)).len() <= seqn_lines(lines).len(),
    decreases lines.len() - n,
{
    if n < lines.len() {
        lemma_seqn_lines_prefix(lines, n + 1);
        assert(lines.take(n + 1).drop_last() =~= lines.take(n));
    } else {
        assert(lines.take(n) =~= lines);
    }
}

/// A text with two sequence number lines or more is no table. It fails at
/// the second of them, as one too many, if the lines before that were read.
pub proof fn lemma_multiple_seqn(input: Seq<u8>, k: int)
    requires
        0 <= k < spec_lines(input).len(),
        is_seqn_line(spec_lines(input)[k]),
        seqn_lines(spec_lines(input).take(k)).len() >= 1,
    ensures
        spec_parse_table(input) is Err,
        readable(spec_lines(input).take(k)) ==> spec_parse_table(input) == Err::<
            TableView,
            ErrorView,
        >(ErrorView::MultipleSeqn),
{
    let lines = spec_lines(input);
    lemma_run_reads(lines);
    lemma_run_reads(lines.take(k));
    assert(lines.take(k + 1).drop_last() =~= lines.take(k));
    assert(lines.take(k + 1).last() == lines[k]);
    lemma_seqn_lines_prefix(lines, k + 1);
    if readable(lines.take(k)) {
        lemma_run_fails(lines, k + 1);
    }
}

/// Rows are projected one by one and in their order: all of them make as
/// many records, each that of its row, and the first row that fails makes the
/// whole fail with its error.
pub proof fn lemma_project_rows<R>(
    rows: Seq<Seq<Seq<u8>>>,
    project: spec_fn(Seq<Seq<u8>>) -> Result<R, ErrorView>,
)
    ensures
        spec_project_rows(rows, project) is Ok <==> forall|i: int|
            0 <= i < rows.len() ==> #[trigger] project(rows[i]) is Ok,
        spec_project_rows(rows, project) matches Ok(records) ==> {
            &&& records.len() == rows.len()
            &&& forall|i: int|
                0 <= i < rows.len() ==> #[trigger] project(rows[i]) == Ok::<R, ErrorView>(
                    records[i],
                )
        },
        spec_project_rows(rows, project) matches Err(e) ==> exists|k: int|
            {
                &&& 0 <= k < rows.len()
                &&& #[trigger] project(rows[k]) == Err::<R, ErrorView>(e)
                &&& forall|j: int| 0 <= j < k ==> #[trigger] project(rows[j]) is Ok
            },
    decreases rows.len(),
{
    if rows.len() > 0 {
        let before = rows.drop_last();
        lemma_project_rows(before, project);
        assert forall|i: int| 0 <= i < before.len() implies before[i] == rows[i] by {}
        match spec_project_rows(before, project) {
            Err(e) => {
                let k = choose|k: int|
                    {
                        &&& 0 <= k < before.len()
                        &&& #[trigger] project(before[k]) == Err::<R, ErrorView>(e)
                        &&& forall|j: int| 0 <= j < k ==> #[trigger] project(before[j]) is Ok
                    };
                assert(project(rows[k]) == Err::<R, ErrorView>(e));
                assert forall|j: int| 0 <= j < k implies #[trigger] project(rows[j]) is Ok by {
                    assert(project(before[j]) is Ok);
                }
            },
            Ok(records) => {
                let k = rows.len() - 1;
                assert(rows.last() == rows[k]);
                assert forall|j: int| 0 <= j < k implies #[trigger] project(rows[j]) is Ok by {
                    assert(project(before[j]) is Ok);
                }
                if project(rows[k]) is Ok {
                    assert forall|i: int| 0 <= i < rows.len() implies #[trigger] project(
                        rows[i],
                    ) is Ok by {
                        if i < k {
                            assert(project(before[i]) is Ok);
                        }
                    }
                    let all = spec_project_rows(rows, project)->Ok_0;
                    assert forall|i: int| 0 <= i < rows.len() implies #[trigger] project(rows[i])
                        == Ok::<R, ErrorView>(all[i]) by {
                        if i < k {
                            assert(project(before[i]) == Ok::<R, ErrorView>(records[i]));
                        }
                    }
                }
            },
        }
    }
}

/// An empty field of type "HEX:16" holds no bytes where it may be empty, and
/// fails as an empty field where it may not; no other field holds no bytes.
pub proof fn lemma_empty_hex16_field(raw: Seq<u8>)
    ensures
        spec_decode_opt_hex16(hex16_type(), raw) == Ok::<Option<Seq<u8>>, ErrorView>(None)
            <==> raw.len() == 0,
        raw.len() == 0 ==> spec_decode_hex16(hex16_type(), raw) == Err::<Seq<u8>, ErrorView>(
            ErrorView::EmptyField(hex16_type().spec_text()),
        ),
        raw.len() != 0 ==> spec_decode_hex16(hex16_type(), raw) != Err::<Seq<u8>, ErrorView>(
            ErrorView::EmptyField(hex16_type().spec_text()),
        ),
{
}

/// Names of one upper case denote the same type, or none of them denotes any.
pub proof fn lemma_type_name_ignores_case(a: Seq<char>, b: Seq<char>)
    requires
        uppercase(a) == uppercase(b),
    ensures
        TypeName::spec_parse(encode_utf8(a)) is Ok <==> TypeName::spec_parse(encode_utf8(b)) is Ok,
        TypeName::spec_parse(encode_utf8(a)) is Ok ==> TypeName::spec_parse(encode_utf8(a))->Ok_0
            == TypeName::spec_parse(encode_utf8(b))->Ok_0,
{
    encode_utf8_decode_utf8(a);
    encode_utf8_decode_utf8(b);
}

/// A field is looked up by the exact name of its column: the column found has
/// the name byte for byte, and no column before it has.
pub proof fn lemma_lookup_is_exact(headers: Seq<HeaderView>, name: Seq<u8>)
    ensures
        0 <= column_of(headers, name) <= headers.len(),
        column_of(headers, name) < headers.len() ==> headers[column_of(headers, name)].name
            == name,
        forall|j: int| 0 <= j < column_of(headers, name) ==> headers[j].name != name,
        column_of(headers, name) == headers.len() <==> forall|j: int|
            0 <= j < headers.len() ==> headers[j].name != name,
{
    crate::response::base::lemma_column_of(headers, name);
}

/// A text holds a summary response exactly if it is a table whose every row
/// makes a summary record. The response then has the sequence number of the
/// table and one record for each row, in the order of the rows.
pub proof fn lemma_decode_summary(input: Seq<u8>)
    ensures
        spec_decode_summary(input) is Ok <==> {
            &&& spec_parse_table(input) is Ok
            &&& forall|i: int|
                0 <= i < spec_parse_table(input)->Ok_0.rows.len() ==> spec_summary_record(
                    spec_parse_table(input)->Ok_0.headers,
                    #[trigger] spec_parse_table(input)->Ok_0.rows[i],
                ) is Ok
        },
        spec_decode_summary(input) matches Ok(response) ==> {
            let table = spec_parse_table(input)->Ok_0;
            &&& response.seqn == table.seqn
            &&& response.records.len() == table.rows.len()
            &&& forall|i: int|
                0 <= i < table.rows.len() ==> spec_summary_record(
                    table.headers,
                    #[trigger] table.rows[i],
                ) == Ok::<SummaryRecordView, ErrorView>(response.records[i])
        },
{
    if spec_parse_table(input) is Ok {
        let table = spec_parse_table(input)->Ok_0;
        let project = spec_summary_projection(table.headers);
        lemma_project_rows(table.rows, project);
        assert forall|i: int| 0 <= i < table.rows.len() implies project(table.rows[i])
            == spec_summary_record(table.headers, #[trigger] table.rows[i]) by {}
    }
}

/// A text holds a versions response exactly if it is a table whose every row
/// makes a versions record. The response then has the sequence number of the
/// table and one record for each row, in the order of the rows.
pub proof fn lemma_decode_versions(input: Seq<u8>)
    ensures
        spec_decode_versions(input) is Ok <==> {
            &&& spec_parse_table(input) is Ok
            &&& forall|i: int|
                0 <= i < spec_parse_table(input)->Ok_0.rows.len() ==> spec_versions_record(
                    spec_parse_table(input)->Ok_0.headers,
                    #[trigger] spec_parse_table(input)->Ok_0.rows[i],
                ) is Ok
        },
        spec_decode_versions(input) matches Ok(response) ==> {
            let table = spec_parse_table(input)->Ok_0;
            &&& response.seqn == table.seqn
            &&& response.records.len() == table.rows.len()
            &&& forall|i: int|
                0 <= i < table.rows.len() ==> spec_versions_record(
                    table.headers,
                    #[trigger] table.rows[i],
                ) == Ok::<VersionsRecordView, ErrorView>(response.records[i])
        },
{
    if spec_parse_table(input) is Ok {
        let table = spec_parse_table(input)->Ok_0;
        let project = spec_versions_projection(table.headers);
        lemma_project_rows(table.rows, project);
        assert forall|i: int| 0 <= i < table.rows.len() implies project(table.rows[i])
            == spec_versions_record(table.headers, #[trigger] table.rows[i]) by {}
    }
}

/// Different texts have different bytes.
pub proof fn lemma_texts_differ(a: Seq<char>, b: Seq<char>)
    requires
        a != b,
    ensures
        encode_utf8(a) != encode_utf8(b),
{
    encode_utf8_decode_utf8(a);
    encode_utf8_decode_utf8(b);
}

/// Under the columns that the service declares for a summary, a row of three
/// fields makes a record exactly if its second field is a number of 32 bits.
/// The record holds the first field and the third as they stand, and that
/// number.
pub proof fn lemma_summary_record(row: Seq<Seq<u8>>)
    requires
        row.len() == 3,
    ensures
        spec_summary_record(spec_summary_schema(), row) == match parse_decimal(
            row[1],
            u32::MAX as nat,
        ) {
            Ok(seqn) => Ok::<SummaryRecordView, ErrorView>(
                SummaryRecordView {
                    product: decode_utf8(row[0]),
                    seqn: seqn as u32,
                    flags: decode_utf8(row[2]),
                },
            ),
            Err(kind) => Err::<SummaryRecordView, ErrorView>(ErrorView::UnparseableInt(kind)),
        },
{
    let schema = spec_summary_schema();
    reveal_strlit("Product");
    reveal_strlit("Seqn");
    reveal_strlit("Flags");
    lemma_texts_differ("Product"@, "Seqn"@);
    lemma_texts_differ("Product"@, "Flags"@);
    lemma_texts_differ("Seqn"@, "Flags"@);
    lemma_column_of_unique(schema, encode_utf8("Product"@), 0);
    lemma_column_of_unique(schema, encode_utf8("Seqn"@), 1);
    lemma_column_of_unique(schema, encode_utf8("Flags"@), 2);
}

/// Under the columns that the service declares for the versions of a
/// product, a row of seven fields makes a record exactly if its second,
/// third and seventh field are thirty-two hexadecimal digits each, its fourth
/// is that or empty, and its fifth is a number of 32 bits. The record holds
/// the first field and the sixth as they stand, the sixteen bytes of each of
/// the others, none for an empty fourth, and that number.
pub proof fn lemma_versions_record(row: Seq<Seq<u8>>)
    requires
        row.len() == 7,
    ensures
        spec_versions_record(spec_versions_schema(), row) is Ok <==> {
            &&& parse_hex16(row[1]) is Ok
            &&& parse_hex16(row[2]) is Ok
            &&& row[3].len() == 0 || parse_hex16(row[3]) is Ok
            &&& parse_decimal(row[4], u32::MAX as nat) is Ok
            &&& parse_hex16(row[6]) is Ok
        },
        spec_versions_record(spec_versions_schema(), row) matches Ok(record) ==> {
            &&& record.region == decode_utf8(row[0])
            &&& record.build_config == parse_hex16(row[1])->Ok_0
            &&& record.cdn_config == parse_hex16(row[2])->Ok_0
            &&& record.key_ring == if row[3].len() == 0 {
                None
            } else {
                Some(parse_hex16(row[3])->Ok_0)
            }
            &&& record.build_id == parse_decimal(row[4], u32::MAX as nat)->Ok_0
            &&& record.versions_name == decode_utf8(row[5])
            &&& record.product_config == parse_hex16(row[6])->Ok_0
        },
{
    let schema = spec_versions_schema();
    lemma_parse_decimal_bound(row[4], u32::MAX as nat);
    reveal_strlit("Region");
    reveal_strlit("BuildConfig");
    reveal_strlit("CDNConfig");
    reveal_strlit("KeyRing");
    reveal_strlit("BuildId");
    reveal_strlit("VersionsName");
    reveal_strlit("ProductConfig");
    lemma_texts_differ("Region"@, "BuildConfig"@);
    lemma_texts_differ("Region"@, "CDNConfig"@);
    lemma_texts_differ("BuildConfig"@, "CDNConfig"@);
    lemma_texts_differ("Region"@, "KeyRing"@);
    lemma_texts_differ("BuildConfig"@, "KeyRing"@);
    lemma_texts_differ("CDNConfig"@, "KeyRing"@);
    lemma_texts_differ("Region"@, "BuildId"@);
    lemma_texts_differ("BuildConfig"@, "BuildId"@);
    lemma_texts_differ("CDNConfig"@, "BuildId"@);
    lemma_texts_differ("KeyRing"@, "BuildId"@);
    lemma_texts_differ("Region"@, "VersionsName"@);
    lemma_texts_differ("BuildConfig"@, "VersionsName"@);
    lemma_texts_differ("CDNConfig"@, "VersionsName"@);
    lemma_texts_differ("KeyRing"@, "VersionsName"@);
    lemma_texts_differ("BuildId"@, "VersionsName"@);
    lemma_texts_differ("Region"@, "ProductConfig"@);
    lemma_texts_differ("BuildConfig"@, "ProductConfig"@);
    lemma_texts_differ("CDNConfig"@, "ProductConfig"@);
    lemma_texts_differ("KeyRing"@, "ProductConfig"@);
    lemma_texts_differ("BuildId"@, "ProductConfig"@);
    lemma_texts_differ("VersionsName"@, "ProductConfig"@);
    lemma_column_of_unique(schema, encode_utf8("Region"@), 0);
    lemma_column_of_unique(schema, encode_utf8("BuildConfig"@), 1);
    lemma_column_of_unique(schema, encode_utf8("CDNConfig"@), 2);
    lemma_column_of_unique(schema, encode_utf8("KeyRing"@), 3);
    lemma_column_of_unique(schema, encode_utf8("BuildId"@), 4);
    lemma_column_of_unique(schema, encode_utf8("VersionsName"@), 5);
    lemma_column_of_unique(schema, encode_utf8("ProductConfig"@), 6);
}

/// A text with one sequence number line, the header line that the service
/// sends for a summary, and rows of three fields of which the second is a
/// number each, holds a summary response: the number of the sequence number
/// line, and one record for each row, in the order of the rows, with the
/// first field and the third as they stand and the number of the second.
pub proof fn lemma_summary_round_trip(input: Seq<u8>)
    requires
        readable(spec_lines(input)),
        seqn_lines(spec_lines(input)).len() == 1,
        data_lines(spec_lines(input)).len() >= 1,
        spec_parse_header_line(data_lines(spec_lines(input))[0]) == Ok::<
            Seq<HeaderView>,
            ErrorView,
        >(spec_summary_schema()),
        forall|i: int|
            1 <= i < data_lines(spec_lines(input)).len() ==> parse_decimal(
                (#[trigger] spec_split(data_lines(spec_lines(input))[i], PIPE))[1],
                u32::MAX as nat,
            ) is Ok,
    ensures
        spec_decode_summary(input) is Ok,
        spec_decode_summary(input)->Ok_0.seqn == spec_seqn(seqn_lines(spec_lines(input))[0])->Ok_0,
        spec_decode_summary(input)->Ok_0.records.len() == data_lines(spec_lines(input)).len() - 1,
        forall|i: int|
            0 <= i < data_lines(spec_lines(input)).len() - 1 ==> {
                let fields = spec_split(data_lines(spec_lines(input))[i + 1], PIPE);
                #[trigger] spec_decode_summary(input)->Ok_0.records[i] == (SummaryRecordView {
                    product: decode_utf8(fields[0]),
                    seqn: parse_decimal(fields[1], u32::MAX as nat)->Ok_0 as u32,
                    flags: decode_utf8(fields[2]),
                })
            },
{
    let data = data_lines(spec_lines(input));
    lemma_parse_table(input);
    lemma_parse_decimal_bound(
        seqn_lines(spec_lines(input))[0].skip(SEQN_PREFIX.spec_bytes().len() as int),
        u32::MAX as nat,
    );
    let table = spec_parse_table(input)->Ok_0;
    assert forall|i: int| 0 <= i < table.rows.len() implies spec_summary_record(
        table.headers,
        #[trigger] table.rows[i],
    ) is Ok by {
        assert(table.rows[i] == spec_split(data[i + 1], PIPE));
        assert(table.rows[i].len() == 3);
        lemma_summary_record(table.rows[i]);
    }
    lemma_decode_summary(input);
    let response = spec_decode_summary(input)->Ok_0;
    assert forall|i: int| 0 <= i < data.len() - 1 implies {
        let fields = spec_split(data[i + 1], PIPE);
        #[trigger] response.records[i] == (SummaryRecordView {
            product: decode_utf8(fields[0]),
            seqn: parse_decimal(fields[1], u32::MAX as nat)->Ok_0 as u32,
            flags: decode_utf8(fields[2]),
        })
    } by {
        assert(table.rows[i] == spec_split(data[i + 1], PIPE));
        assert(table.rows[i].len() == 3);
        lemma_summary_record(table.rows[i]);
    }
}

/// A text with one sequence number line, the header line that the service
/// sends for the versions of a product, and rows of seven fields that can be
/// decoded, holds a versions response: the number of the sequence number
/// line, and one record for each row, in the order of the rows, with the
/// fields of the row as they stand or as what they denote.
pub proof fn lemma_versions_round_trip(input: Seq<u8>)
    requires
        readable(spec_lines(input)),
        seqn_lines(spec_lines(input)).len() == 1,
        data_lines(spec_lines(input)).len() >= 1,
        spec_parse_header_line(data_lines(spec_lines(input))[0]) == Ok::<
            Seq<HeaderView>,
            ErrorView,
        >(spec_versions_schema()),
        forall|i: int|
            1 <= i < data_lines(spec_lines(input)).len() ==> {
                let fields = #[trigger] spec_split(data_lines(spec_lines(input))[i], PIPE);
                &&& parse_hex16(fields[1]) is Ok
                &&& parse_hex16(fields[2]) is Ok
                &&& fields[3].len() == 0 || parse_hex16(fields[3]) is Ok
                &&& parse_decimal(fields[4], u32::MAX as nat) is Ok
                &&& parse_hex16(fields[6]) is Ok
            },
    ensures
        spec_decode_versions(input) is Ok,
        spec_decode_versions(input)->Ok_0.seqn == spec_seqn(
            seqn_lines(spec_lines(input))[0],
        )->Ok_0,
        spec_decode_versions(input)->Ok_0.records.len() == data_lines(spec_lines(input)).len()
            - 1,
        forall|i: int|
            0 <= i < data_lines(spec_lines(input)).len() - 1 ==> {
                let fields = spec_split(data_lines(spec_lines(input))[i + 1], PIPE);
                #[trigger] spec_decode_versions(input)->Ok_0.records[i] == (VersionsRecordView {
                    region: decode_utf8(fields[0]),
                    build_config: parse_hex16(fields[1])->Ok_0,
                    cdn_config: parse_hex16(fields[2])->Ok_0,
                    key_ring: if fields[3].len() == 0 {
                        None
                    } else {
                        Some(parse_hex16(fields[3])->Ok_0)
                    },
                    build_id: parse_decimal(fields[4], u32::MAX as nat)->Ok_0 as u32,
                    versions_name: decode_utf8(fields[5]),
                    product_config: parse_hex16(fields[6])->Ok_0,
                })
            },
{
    let data = data_lines(spec_lines(input));
    lemma_parse_table(input);
    lemma_parse_decimal_bound(
        seqn_lines(spec_lines(input))[0].skip(SEQN_PREFIX.spec_bytes().len() as int),
        u32::MAX as nat,
    );
    let table = spec_parse_table(input)->Ok_0;
    assert forall|i: int| 0 <= i < table.rows.len() implies spec_versions_record(
        table.headers,
        #[trigger] table.rows[i],
    ) is Ok by {
        assert(table.rows[i] == spec_split(data[i + 1], PIPE));
        assert(table.rows[i].len() == 7);
        lemma_versions_record(table.rows[i]);
    }
    lemma_decode_versions(input);
    let response = spec_decode_versions(input)->Ok_0;
    assert forall|i: int| 0 <= i < data.len() - 1 implies {
        let fields = spec_split(data[i + 1], PIPE);
        #[trigger] response.records[i] == (VersionsRecordView {
            region: decode_utf8(fields[0]),
            build_config: parse_hex16(fields[1])->Ok_0,
            cdn_config: parse_hex16(fields[2])->Ok_0,
            key_ring: if fields[3].len() == 0 {
                None
            } else {
                Some(parse_hex16(fields[3])->Ok_0)
            },
            build_id: parse_decimal(fields[4], u32::MAX as nat)->Ok_0 as u32,
            versions_name: decode_utf8(fields[5]),
            product_config: parse_hex16(fields[6])->Ok_0,
        })
    } by {
        assert(table.rows[i] == spec_split(data[i + 1], PIPE));
        assert(table.rows[i].len() == 7);
        lemma_versions_record(table.rows[i]);
        lemma_parse_decimal_bound(table.rows[i][4], u32::MAX as nat);
    }
}

/// A type that is written out is read back as itself.
pub proof fn lemma_type_round_trip(t: Type)
    ensures
        Type::spec_parse(encode_utf8(t.spec_text())) == Ok::<Type, ErrorView>(t),
{
    reveal_strlit("STRING");
    reveal_strlit("HEX");
    reveal_strlit("DEC");
    let name = t.name.spec_text();
    let digits = decimal_digits(t.length as nat);
    let text = t.spec_text();
    let bytes = encode_utf8(text);
    let n = name.len() as int;
    lemma_decimal_digits(t.length as nat);
    assert(is_ascii_chars(name));
    assert(text.len() == n + 1 + digits.len());
    assert forall|i: int| 0 <= i < text.len() implies '\0' <= #[trigger] text[i] <= '\u{7f}' by {
        if i < n {
            assert(text[i] == name[i]);
        } else if i == n {
            assert(text[i] == ':');
        } else {
            assert(text[i] == digits[i - n - 1]);
        }
    }
    is_ascii_chars_encode_utf8(text);
    is_ascii_chars_encode_utf8(name);
    is_ascii_chars_encode_utf8(digits);
    assert forall|j: int| 0 <= j < n implies bytes[j] != COLON by {
        assert(text[j] == name[j]);
    }
    assert(text[n] == ':');
    assert(bytes[n] == COLON);
    lemma_first_pos_unique(bytes, COLON, n);
    assert(bytes.take(n) =~= encode_utf8(name)) by {
        assert forall|j: int| 0 <= j < n implies bytes.take(n)[j] == encode_utf8(name)[j] by {
            assert(text[j] == name[j]);
        }
    }
    assert(bytes.skip(n + 1) =~= encode_utf8(digits)) by {
        assert forall|j: int| 0 <= j < digits.len() implies bytes.skip(n + 1)[j] == encode_utf8(
            digits,
        )[j] by {
            assert(text[n + 1 + j] == digits[j]);
        }
    }
    lemma_decimal_round_trip(t.length as nat, usize::MAX as nat);
    encode_utf8_decode_utf8(name);
    assert(ascii_uppercase(name) =~= name);
}

/// A column written out: its name, a bang, its type.
pub open spec fn spec_header_text(header: HeaderView) -> Seq<u8> {
    header.name + seq![BANG] + encode_utf8(header.type_.spec_text())
}

/// The columns written out, each as `spec_header_text` has it.
pub open spec fn spec_header_texts(headers: Seq<HeaderView>) -> Seq<Seq<u8>> {
    Seq::new(headers.len(), |i: int| spec_header_text(headers[i]))
}

/// A type written out holds letters, a colon and digits, so neither a pipe
/// nor a line feed nor a carriage return.
pub proof fn lemma_type_text_is_plain(t: Type)
    ensures
        !encode_utf8(t.spec_text()).contains(PIPE),
        !encode_utf8(t.spec_text()).contains(10),
        !encode_utf8(t.spec_text()).contains(13),
{
    reveal_strlit("STRING");
    reveal_strlit("HEX");
    reveal_strlit("DEC");
    let name = t.name.spec_text();
    let digits = decimal_digits(t.length as nat);
    let text = t.spec_text();
    let bytes = encode_utf8(text);
    let n = name.len() as int;
    lemma_decimal_digits(t.length as nat);
    is_ascii_chars_encode_utf8(digits);
    assert forall|i: int| 0 <= i < text.len() implies '\0' <= #[trigger] text[i] <= '\u{7f}'
        && text[i] != '|' && text[i] != '\n' && text[i] != '\r' by {
        if i < n {
            assert(text[i] == name[i]);
        } else if i == n {
            assert(text[i] == ':');
        } else {
            assert(text[i] == digits[i - n - 1]);
            assert(is_digit(encode_utf8(digits)[i - n - 1]));
        }
    }
    is_ascii_chars_encode_utf8(text);
    assert forall|i: int| 0 <= i < bytes.len() implies bytes[i] != PIPE && bytes[i] != 10
        && bytes[i] != 13 by {
        assert(text[i] as u8 == bytes[i]);
    }
}

/// A column that is written out is read back as itself, if its name holds no
/// bang.
pub proof fn lemma_header_round_trip(header: HeaderView)
    requires
        !header.name.contains(BANG),
    ensures
        spec_parse_header(spec_header_text(header)) == Ok::<HeaderView, ErrorView>(header),
{
    let token = spec_header_text(header);
    let n = header.name.len() as int;
    assert forall|j: int| 0 <= j < n implies token[j] != BANG by {
        if header.name[j] == BANG {
            assert(header.name.contains(BANG));
        }
    }
    assert(token[n] == BANG);
    lemma_first_pos_unique(token, BANG, n);
    assert(token.take(n) =~= header.name);
    assert(token.skip(n + 1) =~= encode_utf8(header.type_.spec_text()));
    lemma_type_round_trip(header.type_);
}

/// Columns that are written out one by one are read back as themselves, if
/// their names hold no bang.
pub proof fn lemma_headers_round_trip(headers: Seq<HeaderView>)
    requires
        forall|i: int| 0 <= i < headers.len() ==> !(#[trigger] headers[i]).name.contains(BANG),
    ensures
        spec_parse_headers(spec_header_texts(headers)) == Ok::<Seq<HeaderView>, ErrorView>(
            headers,
        ),
    decreases headers.len(),
{
    let tokens = spec_header_texts(headers);
    if headers.len() == 0 {
        assert(headers =~= Seq::empty());
    } else {
        let before = headers.drop_last();
        assert forall|i: int| 0 <= i < before.len() implies !(#[trigger] before[i]).name.contains(
            BANG,
        ) by {
            assert(before[i] == headers[i]);
        }
        lemma_headers_round_trip(before);
        assert(tokens.drop_last() =~= spec_header_texts(before));
        assert(tokens.last() == spec_header_text(headers.last()));
        lemma_header_round_trip(headers.last());
        assert(before.push(headers.last()) =~= headers);
    }
}

/// A header line that is written out, with a pipe between each two columns,
/// is read back as its columns, if their names hold neither bang nor pipe.
pub proof fn lemma_header_line_round_trip(headers: Seq<HeaderView>)
    requires
        headers.len() >= 1,
        forall|i: int|
            0 <= i < headers.len() ==> !(#[trigger] headers[i]).name.contains(BANG)
                && !headers[i].name.contains(PIPE),
    ensures
        spec_parse_header_line(join(spec_header_texts(headers), PIPE)) == Ok::<
            Seq<HeaderView>,
            ErrorView,
        >(headers),
{
    let tokens = spec_header_texts(headers);
    assert forall|i: int| 0 <= i < tokens.len() implies !(#[trigger] tokens[i]).contains(PIPE) by {
        let header = headers[i];
        let token = tokens[i];
        let type_text = encode_utf8(header.type_.spec_text());
        lemma_type_text_is_plain(header.type_);
        if token.contains(PIPE) {
            let j = choose|j: int| 0 <= j < token.len() && token[j] == PIPE;
            let n = header.name.len() as int;
            if j < n {
                assert(header.name[j] == PIPE);
                assert(header.name.contains(PIPE));
            } else if j > n {
                assert(type_text[j - n - 1] == PIPE);
                assert(type_text.contains(PIPE));
            }
        }
    }
    lemma_join_splits(tokens, PIPE);
    lemma_headers_round_trip(headers);
}

/// The sequence number line of a number.
pub open spec fn spec_seqn_line_text(seqn: u32) -> Seq<u8> {
    SEQN_PREFIX.spec_bytes() + encode_utf8(decimal_digits(seqn as nat))
}

/// The rows written out, each with a pipe between each two of its fields.
pub open spec fn spec_row_texts(rows: Seq<Seq<Seq<u8>>>) -> Seq<Seq<u8>> {
    Seq::new(rows.len(), |i: int| join(rows[i], PIPE))
}

/// The lines of a table written out: the header line, the sequence number
/// line, and the rows.
pub open spec fn spec_table_lines(table: TableView) -> Seq<Seq<u8>> {
    seq![join(spec_header_texts(table.headers), PIPE), spec_seqn_line_text(table.seqn)]
        + spec_row_texts(table.rows)
}

/// A table written out, with a line feed after each of its lines.
pub open spec fn spec_table_text(table: TableView) -> Seq<u8> {
    unlines(spec_table_lines(table))
}

/// Whether a text holds none of the bytes that part fields and lines.
pub open spec fn is_plain(s: Seq<u8>) -> bool {
    !s.contains(PIPE) && !s.contains(10) && !s.contains(13)
}

/// Whether a table can be written out and read back: it has a column, its
/// rows have a field for each column, no name of a column and no field holds
/// a byte that parts columns, fields or lines, and neither the header line
/// nor a row begins like a sequence number line.
pub open spec fn writable(table: TableView) -> bool {
    &&& table.wf()
    &&& table.headers.len() >= 1
    &&& forall|i: int|
        0 <= i < table.headers.len() ==> is_plain((#[trigger] table.headers[i]).name)
            && !table.headers[i].name.contains(BANG)
    &&& forall|i: int, j: int|
        0 <= i < table.rows.len() && 0 <= j < table.rows[i].len() ==> is_plain(
            #[trigger] table.rows[i][j],
        )
    &&& !is_seqn_line(join(spec_header_texts(table.headers), PIPE))
    &&& forall|i: int|
        0 <= i < table.rows.len() ==> !is_seqn_line(#[trigger] join(table.rows[i], PIPE))
}

/// Lines of which none but the second carries a sequence number: that one is
/// the sequence number line, and the others are the header line and the rows.
pub proof fn lemma_lines_of_table(header: Seq<u8>, number: Seq<u8>, rows: Seq<Seq<u8>>)
    requires
        !is_seqn_line(header),
        is_seqn_line(number),
        forall|i: int| 0 <= i < rows.len() ==> !is_seqn_line(#[trigger] rows[i]),
    ensures
        seqn_lines(seq![header, number] + rows) == seq![number],
        data_lines(seq![header, number] + rows) == seq![header] + rows,
    decreases rows.len(),
{
    let lines = seq![header, number] + rows;
    if rows.len() == 0 {
        assert(lines =~= seq![header, number]);
        assert(lines.drop_last() =~= seq![header]);
        let first = seq![header];
        assert(first.drop_last() =~= Seq::<Seq<u8>>::empty());
        assert(first.last() == header);
        assert(seqn_lines(first.drop_last()) =~= Seq::<Seq<u8>>::empty());
        assert(data_lines(first.drop_last()) =~= Seq::<Seq<u8>>::empty());
        assert(seqn_lines(seq![header]) =~= Seq::<Seq<u8>>::empty());
        assert(data_lines(seq![header]) =~= seq![header]);
        assert(seqn_lines(lines) =~= seq![number]);
        assert(data_lines(lines) =~= seq![header] + rows);
    } else {
        let before = rows.drop_last();
        assert forall|i: int| 0 <= i < before.len() implies !is_seqn_line(#[trigger] before[i]) by {
            assert(before[i] == rows[i]);
        }
        lemma_lines_of_table(header, number, before);
        assert(lines.drop_last() =~= seq![header, number] + before);
        assert(lines.last() == rows.last());
        assert(!is_seqn_line(rows[rows.len() - 1]));
        assert((seq![header] + before).push(rows.last()) =~= seq![header] + rows);
    }
}

/// A table that can be written out is read back as itself.
pub proof fn lemma_table_round_trip(table: TableView)
    requires
        writable(table),
    ensures
        spec_parse_table(spec_table_text(table)) == Ok::<TableView, ErrorView>(table),
{
    let tokens = spec_header_texts(table.headers);
    let header = join(tokens, PIPE);
    let number = spec_seqn_line_text(table.seqn);
    let rows = spec_row_texts(table.rows);
    let lines = spec_table_lines(table);
    let text = spec_table_text(table);
    let prefix = SEQN_PREFIX.spec_bytes();
    let digits = encode_utf8(decimal_digits(table.seqn as nat));

    // No line holds a byte that ends a line.
    assert forall|i: int| 0 <= i < tokens.len() implies !(#[trigger] tokens[i]).contains(10) && !(
    tokens[i]).contains(13) by {
        let h = table.headers[i];
        let token = tokens[i];
        let type_text = encode_utf8(h.type_.spec_text());
        let n = h.name.len() as int;
        lemma_type_text_is_plain(h.type_);
        assert(is_plain(h.name));
        if token.contains(10) {
            let j = choose|j: int| 0 <= j < token.len() && token[j] == 10;
            if j < n {
                assert(h.name[j] == 10);
                assert(h.name.contains(10));
            } else if j > n {
                assert(type_text[j - n - 1] == 10);
                assert(type_text.contains(10));
            }
        }
        if token.contains(13) {
            let j = choose|j: int| 0 <= j < token.len() && token[j] == 13;
            if j < n {
                assert(h.name[j] == 13);
                assert(h.name.contains(13));
            } else if j > n {
                assert(type_text[j - n - 1] == 13);
                assert(type_text.contains(13));
            }
        }
    }
    lemma_join_holds_no(tokens, PIPE, 10);
    lemma_join_holds_no(tokens, PIPE, 13);
    reveal_strlit("## seqn = ");
    is_ascii_chars_encode_utf8(SEQN_PREFIX@);
    lemma_decimal_digits(table.seqn as nat);
    assert forall|j: int| 0 <= j < number.len() implies number[j] != 10 && number[j] != 13 by {
        if j < prefix.len() {
            assert(number[j] == prefix[j]);
            assert(prefix[j] == SEQN_PREFIX@[j] as u8);
        } else {
            assert(number[j] == digits[j - prefix.len()]);
            assert(is_digit(digits[j - prefix.len()]));
        }
    }
    assert forall|i: int| 0 <= i < lines.len() implies !(#[trigger] lines[i]).contains(10)
        && strip_cr(lines[i]) == lines[i] by {
        let line = lines[i];
        if i == 0 {
            assert(line == header);
        } else if i == 1 {
            assert(line == number);
            if line.contains(10) {
                let j = choose|j: int| 0 <= j < line.len() && line[j] == 10;
            }
        } else {
            let fields = table.rows[i - 2];
            assert(line == join(fields, PIPE));
            assert forall|j: int| 0 <= j < fields.len() implies !(#[trigger] fields[j]).contains(
                10,
            ) && !fields[j].contains(13) by {
                assert(is_plain(table.rows[i - 2][j]));
            }
            lemma_join_holds_no(fields, PIPE, 10);
            lemma_join_holds_no(fields, PIPE, 13);
        }
        if line.len() > 0 && line.last() == 13 {
            assert(line[line.len() - 1] == 13);
            assert(line.contains(13));
        }
    }
    lemma_unlines_lines(lines);

    // The lines are readable.
    assert(prefix.is_prefix_of(number)) by {
        assert(number.subrange(0, prefix.len() as int) =~= prefix);
    }
    assert forall|i: int| 0 <= i < rows.len() implies !is_seqn_line(#[trigger] rows[i]) by {
        assert(rows[i] == join(table.rows[i], PIPE));
    }
    lemma_lines_of_table(header, number, rows);
    let data = data_lines(lines);
    assert(data[0] == header);
    assert(number.skip(prefix.len() as int) =~= digits);
    lemma_decimal_round_trip(table.seqn as nat, u32::MAX as nat);
    assert forall|i: int| 0 <= i < table.headers.len() implies !(
    #[trigger] table.headers[i]).name.contains(BANG) && !table.headers[i].name.contains(PIPE) by {
        assert(is_plain(table.headers[i].name));
    }
    lemma_header_line_round_trip(table.headers);
    assert forall|i: int| 1 <= i < data.len() implies #[trigger] spec_split(data[i], PIPE)
        == table.rows[i - 1] by {
        let fields = table.rows[i - 1];
        assert(data[i] == rows[i - 1]);
        assert(fields.len() == table.headers.len());
        assert forall|j: int| 0 <= j < fields.len() implies !(#[trigger] fields[j]).contains(
            PIPE,
        ) by {
            assert(is_plain(table.rows[i - 1][j]));
        }
        lemma_join_splits(fields, PIPE);
    }
    assert(readable(lines));
    lemma_parse_table(text);
    let found = spec_parse_table(text)->Ok_0;
    assert(found.rows =~= table.rows);
}

} // verus!
