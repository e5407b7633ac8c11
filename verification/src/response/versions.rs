//! Model for the versions response.

use crate::response::base::dec4_type;
use crate::response::base::hex16_type;
use crate::response::base::lemma_project_rows_fails;
use crate::response::base::string0_type;
use crate::response::base::spec_dec4_field;
use crate::response::base::spec_hex16_field;
use crate::response::base::spec_opt_hex16_field;
use crate::response::base::spec_parse_table;
use crate::response::base::spec_project_rows;
use crate::response::base::spec_string0_field;
use crate::response::base::Dec4;
use crate::response::base::Error;
use crate::response::base::ErrorView;
use crate::response::base::HeaderView;
use crate::response::base::Hex16;
use crate::response::base::Record as BaseRecord;
use crate::response::base::Response as BaseResponse;
use crate::response::base::String0;
use crate::response::base::TableView;
use vstd::prelude::*;
use vstd::std_specs::convert::TryFromSpecImpl;
use vstd::string::StringSliceAdditionalSpecFns;
use vstd::utf8::valid_utf8;

verus! {

/// A record in the versions response.
#[derive(Debug, PartialEq)]
pub struct Record {
    /// The region.
    pub region: String0,
    /// The build config.
    pub build_config: Hex16,
    /// The CDN config.
    pub cdn_config: Hex16,
    /// The key ring, which a row may leave empty.
    pub key_ring: Option<Hex16>,
    /// The build ID.
    pub build_id: Dec4,
    /// The versions name.
    pub versions_name: String0,
    /// The product config.
    pub product_config: Hex16,
}

/// A versions record, with its texts as character sequences and its byte
/// arrays as byte sequences.
pub struct RecordView {
    pub region: Seq<char>,
    pub build_config: Seq<u8>,
    pub cdn_config: Seq<u8>,
    pub key_ring: Option<Seq<u8>>,
    pub build_id: u32,
    pub versions_name: Seq<char>,
    pub product_config: Seq<u8>,
}

impl View for Record {
    type V = RecordView;

    open spec fn view(&self) -> RecordView {
        RecordView {
            region: self.region@,
            build_config: self.build_config@,
            cdn_config: self.cdn_config@,
            key_ring: match self.key_ring {
                Some(bytes) => Some(bytes@),
                None => None,
            },
            build_id: self.build_id,
            versions_name: self.versions_name@,
            product_config: self.product_config@,
        }
    }
}

/// The versions record of a row: the columns "Region", "BuildConfig",
/// "CDNConfig", "KeyRing", "BuildId", "VersionsName" and "ProductConfig",
/// looked up and decoded in this order. Only "KeyRing" may be empty.
pub open spec fn spec_record(headers: Seq<HeaderView>, row: Seq<Seq<u8>>) -> Result<
    RecordView,
    ErrorView,
> {
    match spec_string0_field(headers, row, "Region"@) {
        Err(e) => Err(e),
        Ok(region) => match spec_hex16_field(headers, row, "BuildConfig"@) {
            Err(e) => Err(e),
            Ok(build_config) => match spec_hex16_field(headers, row, "CDNConfig"@) {
                Err(e) => Err(e),
                Ok(cdn_config) => match spec_opt_hex16_field(headers, row, "KeyRing"@) {
                    Err(e) => Err(e),
                    Ok(key_ring) => match spec_dec4_field(headers, row, "BuildId"@) {
                        Err(e) => Err(e),
                        Ok(build_id) => match spec_string0_field(headers, row, "VersionsName"@) {
                            Err(e) => Err(e),
                            Ok(versions_name) => match spec_hex16_field(
                                headers,
                                row,
                                "ProductConfig"@,
                            ) {
                                Err(e) => Err(e),
                                Ok(product_config) => Ok(
                                    RecordView {
                                        region,
                                        build_config,
                                        cdn_config,
                                        key_ring,
                                        build_id,
                                        versions_name,
                                        product_config,
                                    },
                                ),
                            },
                        },
                    },
                },
            },
        },
    }
}

/// The columns of a versions response as the service declares them.
pub open spec fn spec_schema() -> Seq<HeaderView> {
    seq![
        HeaderView { name: "Region".spec_bytes(), type_: string0_type() },
        HeaderView { name: "BuildConfig".spec_bytes(), type_: hex16_type() },
        HeaderView { name: "CDNConfig".spec_bytes(), type_: hex16_type() },
        HeaderView { name: "KeyRing".spec_bytes(), type_: hex16_type() },
        HeaderView { name: "BuildId".spec_bytes(), type_: dec4_type() },
        HeaderView { name: "VersionsName".spec_bytes(), type_: string0_type() },
        HeaderView { name: "ProductConfig".spec_bytes(), type_: hex16_type() },
    ]
}

impl Record {
    /// Projects a row onto a versions record.
    pub fn from_record(record: &BaseRecord) -> (res: Result<Record, Error>)
        requires
            record.wf(),
        ensures
            res matches Ok(r) ==> spec_record(record.spec_headers(), record.spec_values()) == Ok::<
                RecordView,
                ErrorView,
            >(r@),
            res matches Err(e) ==> spec_record(record.spec_headers(), record.spec_values())
                == Err::<RecordView, ErrorView>(e@),
    {
        let region = match record.string0("Region") {
            Ok(v) => v,
            Err(e) => {
                return Err(e);
            },
        };
        let build_config = match record.hex16("BuildConfig") {
            Ok(v) => v,
            Err(e) => {
                return Err(e);
            },
        };
        let cdn_config = match record.hex16("CDNConfig") {
            Ok(v) => v,
            Err(e) => {
                return Err(e);
            },
        };
        let key_ring = match record.opt_hex16("KeyRing") {
            Ok(v) => v,
            Err(e) => {
                return Err(e);
            },
        };
        let build_id = match record.dec4("BuildId") {
            Ok(v) => v,
            Err(e) => {
                return Err(e);
            },
        };
        let versions_name = match record.string0("VersionsName") {
            Ok(v) => v,
            Err(e) => {
                return Err(e);
            },
        };
        let product_config = match record.hex16("ProductConfig") {
            Ok(v) => v,
            Err(e) => {
                return Err(e);
            },
        };
        Ok(
            Record {
                region,
                build_config,
                cdn_config,
                key_ring,
                build_id,
                versions_name,
                product_config,
            },
        )
    }
}

/// The versions response.
#[derive(Debug, PartialEq)]
pub struct Response {
    /// The sequence number.
    pub seqn: u32,
    /// The records.
    pub records: Vec<Record>,
}

/// A versions response, with its records as their views.
pub struct ResponseView {
    pub seqn: u32,
    pub records: Seq<RecordView>,
}

/// The views of a sequence of records.
pub open spec fn records_view(records: Seq<Record>) -> Seq<RecordView> {
    Seq::new(records.len(), |i: int| records[i]@)
}

impl View for Response {
    type V = ResponseView;

    open spec fn view(&self) -> ResponseView {
        ResponseView { seqn: self.seqn, records: records_view(self.records@) }
    }
}

/// The projection of the rows that stand under `headers`.
pub open spec fn spec_projection(headers: Seq<HeaderView>) -> spec_fn(Seq<Seq<u8>>) -> Result<
    RecordView,
    ErrorView,
> {
    |row: Seq<Seq<u8>>| spec_record(headers, row)
}

/// The versions response of a table: its sequence number, and one record for
/// each row, in the order of the rows; the error of the first row that fails.
pub open spec fn spec_response(table: TableView) -> Result<ResponseView, ErrorView> {
    match spec_project_rows(table.rows, spec_projection(table.headers)) {
        Err(e) => Err(e),
        Ok(records) => Ok(ResponseView { seqn: table.seqn, records }),
    }
}

/// The versions response that a text holds.
pub open spec fn spec_decode(input: Seq<u8>) -> Result<ResponseView, ErrorView> {
    match spec_parse_table(input) {
        Err(e) => Err(e),
        Ok(table) => spec_response(table),
    }
}

/// The versions response that the bytes hold, which must be UTF-8.
pub open spec fn spec_decode_bytes(input: Seq<u8>) -> Result<ResponseView, ErrorView> {
    if !valid_utf8(input) {
        Err(ErrorView::Utf8)
    } else {
        spec_decode(input)
    }
}

impl Response {
    /// Projects every row of a table onto a versions record.
    pub fn from_table(table: &BaseResponse) -> (res: Result<Response, Error>)
        requires
            table.wf(),
        ensures
            res matches Ok(r) ==> spec_response(table@) == Ok::<ResponseView, ErrorView>(r@),
            res matches Err(e) ==> spec_response(table@) == Err::<ResponseView, ErrorView>(e@),
    {
        let rows = table.iter_records();
        let ghost project = spec_projection(table@.headers);
        let mut records: Vec<Record> = Vec::new();
        let mut i: usize = 0;
        proof {
            assert(table@.rows.take(0) =~= Seq::empty());
            assert(records_view(records@) =~= Seq::empty());
        }
        while i < rows.len()
            invariant
                i <= rows@.len(),
                rows@.len() == table@.rows.len(),
                project == spec_projection(table@.headers),
                forall|j: int|
                    0 <= j < rows@.len() ==> {
                        &&& (#[trigger] rows@[j]).wf()
                        &&& rows@[j].spec_headers() == table@.headers
                        &&& rows@[j].spec_values() == table@.rows[j]
                    },
                spec_project_rows(table@.rows.take(i as int), project) == Ok::<
                    Seq<RecordView>,
                    ErrorView,
                >(records_view(records@)),
            decreases rows@.len() - i,
        {
            let ghost before = records_view(records@);
            proof {
                assert(table@.rows.take(i + 1).drop_last() =~= table@.rows.take(i as int));
                assert(table@.rows.take(i + 1).last() == table@.rows[i as int]);
            }
            match Record::from_record(&rows[i]) {
                Ok(record) => {
                    records.push(record);
                    proof {
                        assert(records_view(records@) =~= before.push(record@));
                    }
                },
                Err(e) => {
                    proof {
                        assert(spec_project_rows(table@.rows.take(i + 1), project) == Err::<
                            Seq<RecordView>,
                            ErrorView,
                        >(e@));
                        lemma_project_rows_fails(table@.rows, project, i + 1);
                    }
                    return Err(e);
                },
            }
            i += 1;
        }
        proof {
            assert(table@.rows.take(i as int) =~= table@.rows);
        }
        Ok(Response { seqn: table.seqn, records })
    }

    /// Decodes a versions response.
    pub fn decode(input: &str) -> (res: Result<Response, Error>)
        ensures
            res matches Ok(r) ==> spec_decode(input.spec_bytes()) == Ok::<ResponseView, ErrorView>(
                r@,
            ),
            res matches Err(e) ==> spec_decode(input.spec_bytes()) == Err::<
                ResponseView,
                ErrorView,
            >(e@),
    {
        match BaseResponse::parse(input) {
            Ok(table) => Self::from_table(&table),
            Err(e) => Err(e),
        }
    }

    /// Decodes a versions response from bytes, which must be UTF-8.
    pub fn decode_bytes(input: &[u8]) -> (res: Result<Response, Error>)
        ensures
            res matches Ok(r) ==> spec_decode_bytes(input@) == Ok::<ResponseView, ErrorView>(r@),
            res matches Err(e) ==> spec_decode_bytes(input@) == Err::<ResponseView, ErrorView>(
                e@,
            ),
    {
        match BaseResponse::parse_bytes(input) {
            Ok(table) => Self::from_table(&table),
            Err(e) => Err(e),
        }
    }
}

impl<'input> TryFrom<&'input str> for Response {
    type Error = Error;

    /// Decodes a versions response, as `Response::decode` does.
    fn try_from(input: &'input str) -> (res: Result<Response, Error>)
        ensures
            res matches Ok(r) ==> spec_decode(input.spec_bytes()) == Ok::<ResponseView, ErrorView>(
                r@,
            ),
            res matches Err(e) ==> spec_decode(input.spec_bytes()) == Err::<
                ResponseView,
                ErrorView,
            >(e@),
    {
        Response::decode(input)
    }
}

/// What the conversion from text returns is stated where it is defined, over
/// `spec_decode`; no function of the response itself mirrors it.
impl<'input> TryFromSpecImpl<&'input str> for Response {
    open spec fn obeys_try_from_spec() -> bool {
        false
    }

    open spec fn try_from_spec(input: &'input str) -> Result<Response, Error> {
        arbitrary()
    }
}

impl<'input> TryFrom<&'input [u8]> for Response {
    type Error = Error;

    /// Decodes a versions response from bytes, as `Response::decode_bytes` does.
    fn try_from(input: &'input [u8]) -> (res: Result<Response, Error>)
        ensures
            res matches Ok(r) ==> spec_decode_bytes(input@) == Ok::<ResponseView, ErrorView>(r@),
            res matches Err(e) ==> spec_decode_bytes(input@) == Err::<ResponseView, ErrorView>(
                e@,
            ),
    {
        Response::decode_bytes(input)
    }
}

/// What the conversion from bytes returns is stated where it is defined, over
/// `spec_decode_bytes`; no function of the response itself mirrors it.
impl<'input> TryFromSpecImpl<&'input [u8]> for Response {
    open spec fn obeys_try_from_spec() -> bool {
        false
    }

    open spec fn try_from_spec(input: &'input [u8]) -> Result<Response, Error> {
        arbitrary()
    }
}

} // verus!
