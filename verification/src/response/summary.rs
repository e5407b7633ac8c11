//! Model for the summary response.

use crate::response::base::dec4_type;
use crate::response::base::lemma_project_rows_fails;
use crate::response::base::string0_type;
use crate::response::base::spec_dec4_field;
use crate::response::base::spec_parse_table;
use crate::response::base::spec_project_rows;
use crate::response::base::spec_string0_field;
use crate::response::base::Dec4;
use crate::response::base::Error;
use crate::response::base::ErrorView;
use crate::response::base::HeaderView;
use crate::response::base::Record as BaseRecord;
use crate::response::base::Response as BaseResponse;
use crate::response::base::String0;
use crate::response::base::TableView;
use vstd::prelude::*;
use vstd::std_specs::convert::TryFromSpecImpl;
use vstd::string::StringSliceAdditionalSpecFns;
use vstd::utf8::valid_utf8;

verus! {

/// A record in the summary response.
#[derive(Debug, PartialEq)]
pub struct Record {
    /// The product name.
    pub product: String0,
    /// The sequence number.
    pub seqn: Dec4,
    /// The flags.
    pub flags: String0,
}

/// A summary record, with its texts as character sequences.
pub struct RecordView {
    pub product: Seq<char>,
    pub seqn: u32,
    pub flags: Seq<char>,
}

impl View for Record {
    type V = RecordView;

    open spec fn view(&self) -> RecordView {
        RecordView { product: self.product@, seqn: self.seqn, flags: self.flags@ }
    }
}

/// The summary record of a row: the text of the column "Product", the number
/// of the column "Seqn" and the text of the column "Flags", looked up and
/// decoded in this order.
pub open spec fn spec_record(headers: Seq<HeaderView>, row: Seq<Seq<u8>>) -> Result<
    RecordView,
    ErrorView,
> {
    match spec_string0_field(headers, row, "Product"@) {
        Err(e) => Err(e),
        Ok(product) => match spec_dec4_field(headers, row, "Seqn"@) {
            Err(e) => Err(e),
            Ok(seqn) => match spec_string0_field(headers, row, "Flags"@) {
                Err(e) => Err(e),
                Ok(flags) => Ok(RecordView { product, seqn, flags }),
            },
        },
    }
}

/// The columns of a summary response as the service declares them.
pub open spec fn spec_schema() -> Seq<HeaderView> {
    seq![
        HeaderView { name: "Product".spec_bytes(), type_: string0_type() },
        HeaderView { name: "Seqn".spec_bytes(), type_: dec4_type() },
        HeaderView { name: "Flags".spec_bytes(), type_: string0_type() },
    ]
}

impl Record {
    /// Projects a row onto a summary record.
    pub fn from_record(record: &BaseRecord) -> (res: Result<Record, Error>)
        requires
            record.wf(),
        ensures
            res matches Ok(r) ==> spec_record(record.spec_headers(), record.spec_values()) == Ok::<
                RecordView,
                ErrorView,
            >(r@),
            res matches Err(e) ==> spec_record(record.spec_headers(), record.spec_values())
                == Err::<RecordView, ErrorView>(e@),
    {
        let product = match record.string0("Product") {
            Ok(v) => v,
            Err(e) => {
                return Err(e);
            },
        };
        let seqn = match record.dec4("Seqn") {
            Ok(v) => v,
            Err(e) => {
                return Err(e);
            },
        };
        let flags = match record.string0("Flags") {
            Ok(v) => v,
            Err(e) => {
                return Err(e);
            },
        };
        Ok(Record { product, seqn, flags })
    }
}

/// The summary response.
#[derive(Debug, PartialEq)]
pub struct Response {
    /// The sequence number.
    pub seqn: u32,
    /// The records.
    pub records: Vec<Record>,
}

/// A summary response, with its records as their views.
pub struct ResponseView {
    pub seqn: u32,
    pub records: Seq<RecordView>,
}

/// The views of a sequence of records.
pub open spec fn records_view(records: Seq<Record>) -> Seq<RecordView> {
    Seq::new(records.len(), |i: int| records[i]@)
}

impl View for Response {
    type V = ResponseView;

    open spec fn view(&self) -> ResponseView {
        ResponseView { seqn: self.seqn, records: records_view(self.records@) }
    }
}

/// The projection of the rows that stand under `headers`.
pub open spec fn spec_projection(headers: Seq<HeaderView>) -> spec_fn(Seq<Seq<u8>>) -> Result<
    RecordView,
    ErrorView,
> {
    |row: Seq<Seq<u8>>| spec_record(headers, row)
}

/// The summary response of a table: its sequence number, and one record for
/// each row, in the order of the rows; the error of the first row that fails.
pub open spec fn spec_response(table: TableView) -> Result<ResponseView, ErrorView> {
    match spec_project_rows(table.rows, spec_projection(table.headers)) {
        Err(e) => Err(e),
        Ok(records) => Ok(ResponseView { seqn: table.seqn, records }),
    }
}

/// The summary response that a text holds.
pub open spec fn spec_decode(input: Seq<u8>) -> Result<ResponseView, ErrorView> {
    match spec_parse_table(input) {
        Err(e) => Err(e),
        Ok(table) => spec_response(table),
    }
}

/// The summary response that the bytes hold, which must be UTF-8.
pub open spec fn spec_decode_bytes(input: Seq<u8>) -> Result<ResponseView, ErrorView> {
    if !valid_utf8(input) {
        Err(ErrorView::Utf8)
    } else {
        spec_decode(input)
    }
}

impl Response {
    /// Projects every row of a table onto a summary record.
    pub fn from_table(table: &BaseResponse) -> (res: Result<Response, Error>)
        requires
            table.wf(),
        ensures
            res matches Ok(r) ==> spec_response(table@) == Ok::<ResponseView, ErrorView>(r@),
            res matches Err(e) ==> spec_response(table@) == Err::<ResponseView, ErrorView>(e@),
    {
        let rows = table.iter_records();
        let ghost project = spec_projection(table@.headers);
        let mut records: Vec<Record> = Vec::new();
        let mut i: usize = 0;
        proof {
            assert(table@.rows.take(0) =~= Seq::empty());
            assert(records_view(records@) =~= Seq::empty());
        }
        while i < rows.len()
            invariant
                i <= rows@.len(),
                rows@.len() == table@.rows.len(),
                project == spec_projection(table@.headers),
                forall|j: int|
                    0 <= j < rows@.len() ==> {
                        &&& (#[trigger] rows@[j]).wf()
                        &&& rows@[j].spec_headers() == table@.headers
                        &&& rows@[j].spec_values() == table@.rows[j]
                    },
                spec_project_rows(table@.rows.take(i as int), project) == Ok::<
                    Seq<RecordView>,
                    ErrorView,
                >(records_view(records@)),
            decreases rows@.len() - i,
        {
            let ghost before = records_view(records@);
            proof {
                assert(table@.rows.take(i + 1).drop_last() =~= table@.rows.take(i as int));
                assert(table@.rows.take(i + 1).last() == table@.rows[i as int]);
            }
            match Record::from_record(&rows[i]) {
                Ok(record) => {
                    records.push(record);
                    proof {
                        assert(records_view(records@) =~= before.push(record@));
                    }
                },
                Err(e) => {
                    proof {
                        assert(spec_project_rows(table@.rows.take(i + 1), project) == Err::<
                            Seq<RecordView>,
                            ErrorView,
                        >(e@));
                        lemma_project_rows_fails(table@.rows, project, i + 1);
                    }
                    return Err(e);
                },
            }
            i += 1;
        }
        proof {
            assert(table@.rows.take(i as int) =~= table@.rows);
        }
        Ok(Response { seqn: table.seqn, records })
    }

    /// Decodes a summary response.
    pub fn decode(input: &str) -> (res: Result<Response, Error>)
        ensures
            res matches Ok(r) ==> spec_decode(input.spec_bytes()) == Ok::<ResponseView, ErrorView>(
                r@,
            ),
            res matches Err(e) ==> spec_decode(input.spec_bytes()) == Err::<
                ResponseView,
                ErrorView,
            >(e@),
    {
        match BaseResponse::parse(input) {
            Ok(table) => Self::from_table(&table),
            Err(e) => Err(e),
        }
    }

    /// Decodes a summary response from bytes, which must be UTF-8.
    pub fn decode_bytes(input: &[u8]) -> (res: Result<Response, Error>)
        ensures
            res matches Ok(r) ==> spec_decode_bytes(input@) == Ok::<ResponseView, ErrorView>(r@),
            res matches Err(e) ==> spec_decode_bytes(input@) == Err::<ResponseView, ErrorView>(
                e@,
            ),
    {
        match BaseResponse::parse_bytes(input) {
            Ok(table) => Self::from_table(&table),
            Err(e) => Err(e),
        }
    }
}

impl<'input> TryFrom<&'input str> for Response {
    type Error = Error;

    /// Decodes a summary response, as `Response::decode` does.
    fn try_from(input: &'input str) -> (res: Result<Response, Error>)
        ensures
            res matches Ok(r) ==> spec_decode(input.spec_bytes()) == Ok::<ResponseView, ErrorView>(
                r@,
            ),
            res matches Err(e) ==> spec_decode(input.spec_bytes()) == Err::<
                ResponseView,
                ErrorView,
            >(e@),
    {
        Response::decode(input)
    }
}

/// What the conversion from text returns is stated where it is defined, over
/// `spec_decode`; no function of the response itself mirrors it.
impl<'input> TryFromSpecImpl<&'input str> for Response {
    open spec fn obeys_try_from_spec() -> bool {
        false
    }

    open spec fn try_from_spec(input: &'input str) -> Result<Response, Error> {
        arbitrary()
    }
}

impl<'input> TryFrom<&'input [u8]> for Response {
    type Error = Error;

    /// Decodes a summary response from bytes, as `Response::decode_bytes` does.
    fn try_from(input: &'input [u8]) -> (res: Result<Response, Error>)
        ensures
            res matches Ok(r) ==> spec_decode_bytes(input@) == Ok::<ResponseView, ErrorView>(r@),
            res matches Err(e) ==> spec_decode_bytes(input@) == Err::<ResponseView, ErrorView>(
                e@,
            ),
    {
        Response::decode_bytes(input)
    }
}

/// What the conversion from bytes returns is stated where it is defined, over
/// `spec_decode_bytes`; no function of the response itself mirrors it.
impl<'input> TryFromSpecImpl<&'input [u8]> for Response {
    open spec fn obeys_try_from_spec() -> bool {
        false
    }

    open spec fn try_from_spec(input: &'input [u8]) -> Result<Response, Error> {
        arbitrary()
    }
}

} // verus!
