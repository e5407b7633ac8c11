//! What a fetch of product versions amounts to: for each product its
//! versions by region, with the time of the fetch.

use crate::response::versions::Record as VersionsRecord;
use crate::response::versions::RecordView as VersionsRecordView;
use crate::response::versions::Response as VersionsResponse;
use crate::text::last_pos;
use crate::text::rsplit_once;
use vstd::prelude::*;
use vstd::utf8::decode_utf8;
use vstd::utf8::encode_utf8;
use vstd::utf8::encode_utf8_decode_utf8;

verus! {

/// A point in time: the seconds since the start of 1970 in UTC, leap seconds
/// not counted, and the nanoseconds since the last whole second.
#[derive(Debug, Clone, Copy, PartialEq, Eq, Structural)]
pub struct Timestamp {
    pub secs: i64,
    pub nanos: u32,
}

/// `chrono::Utc::now`: the current date and time in UTC as the system's clock
/// gives it, taken apart by `DateTime::timestamp` and
/// `DateTime::timestamp_subsec_nanos`. Nothing is claimed of the result; the
/// call fails where the clock stands before 1970.
#[verifier::external_body]
fn utc_now() -> Timestamp {
    let now = chrono::Utc::now();
    Timestamp { secs: now.timestamp(), nanos: now.timestamp_subsec_nanos() }
}

/// The byte that parts a version from its build.
pub const DOT: u8 = 0x2e;

/// Errors that can occur when reading versions out of a response.
#[derive(Debug)]
pub enum Error {
    /// The versions name has no dot that parts version and build.
    UnparseableVersion(String),
}

/// What an `Error` says, with its text as a character sequence.
pub enum ErrorView {
    UnparseableVersion(Seq<char>),
}

impl View for Error {
    type V = ErrorView;

    open spec fn view(&self) -> ErrorView {
        match self {
            Error::UnparseableVersion(s) => ErrorView::UnparseableVersion(s@),
        }
    }
}

/// The version of a product in one region.
#[derive(Debug)]
pub struct Version {
    pub region: String,
    pub version: String,
    pub build: String,
}

/// A version, with its texts as character sequences.
pub struct VersionView {
    pub region: Seq<char>,
    pub version: Seq<char>,
    pub build: Seq<char>,
}

impl View for Version {
    type V = VersionView;

    open spec fn view(&self) -> VersionView {
        VersionView { region: self.region@, version: self.version@, build: self.build@ }
    }
}

/// The version that a versions record holds: its versions name is cut at its
/// last dot, into the version before it and the build after it.
pub open spec fn spec_version(record: VersionsRecordView) -> Result<VersionView, ErrorView> {
    let name = encode_utf8(record.versions_name);
    let i = last_pos(name, DOT);
    if i < 0 {
        Err(ErrorView::UnparseableVersion(record.versions_name))
    } else {
        Ok(
            VersionView {
                region: record.region,
                version: decode_utf8(name.take(i)),
                build: decode_utf8(name.skip(i + 1)),
            },
        )
    }
}

impl Version {
    /// Reads the version out of a versions record.
    pub fn from_record(record: &VersionsRecord) -> (res: Result<Version, Error>)
        ensures
            res matches Ok(v) ==> spec_version(record@) == Ok::<VersionView, ErrorView>(v@),
            res matches Err(e) ==> spec_version(record@) == Err::<VersionView, ErrorView>(e@),
    {
        let region = record.region.clone();
        match rsplit_once(record.versions_name.as_str(), DOT) {
            Some((version, build)) => {
                proof {
                    encode_utf8_decode_utf8(version@);
                    encode_utf8_decode_utf8(build@);
                }
                Ok(Version { region, version: version.to_owned(), build: build.to_owned() })
            },
            None => Err(Error::UnparseableVersion(record.versions_name.clone())),
        }
    }
}

/// The views of a sequence of versions.
pub open spec fn versions_view(versions: Seq<Version>) -> Seq<VersionView> {
    Seq::new(versions.len(), |i: int| versions[i]@)
}

/// A product and its versions, one for each region.
#[derive(Debug)]
pub struct Product {
    pub name: String,
    pub versions: Vec<Version>,
}

/// A product, with its versions as their views.
pub struct ProductView {
    pub name: Seq<char>,
    pub versions: Seq<VersionView>,
}

impl View for Product {
    type V = ProductView;

    open spec fn view(&self) -> ProductView {
        ProductView { name: self.name@, versions: versions_view(self.versions@) }
    }
}

impl Product {
    /// Whether every record of a response holds a version.
    pub open spec fn spec_parseable(records: Seq<VersionsRecordView>) -> bool {
        forall|i: int| 0 <= i < records.len() ==> spec_version(#[trigger] records[i]) is Ok
    }

    /// The versions that the records hold, in the order of the records; the
    /// error of the first record that holds none.
    pub open spec fn spec_versions(records: Seq<VersionsRecordView>) -> Result<
        Seq<VersionView>,
        ErrorView,
    >
        decreases records.len(),
    {
        if records.len() == 0 {
            Ok(Seq::empty())
        } else {
            match Self::spec_versions(records.drop_last()) {
                Err(e) => Err(e),
                Ok(versions) => match spec_version(records.last()) {
                    Err(e) => Err(e),
                    Ok(version) => Ok(versions.push(version)),
                },
            }
        }
    }

    /// Once a prefix of the records has failed, all of them fail in the same
    /// way.
    pub proof fn lemma_versions_fails(records: Seq<VersionsRecordView>, n: int)
        requires
            0 <= n <= records.len(),
            Self::spec_versions(records.take(n)) is Err,
        ensures
            Self::spec_versions(records) == Self::spec_versions(records.take(n)),
        decreases records.len() - n,
    {
        if n < records.len() {
            assert(records.take(n + 1).drop_last() =~= records.take(n));
            Self::lemma_versions_fails(records, n + 1);
        } else {
            assert(records.take(n) =~= records);
        }
    }

    /// The records hold a version each exactly if all of them together do,
    /// and then as many versions, each that of its record.
    pub proof fn lemma_versions(records: Seq<VersionsRecordView>)
        ensures
            Self::spec_versions(records) is Ok <==> Self::spec_parseable(records),
            Self::spec_versions(records) matches Ok(versions) ==> {
                &&& versions.len() == records.len()
                &&& forall|i: int|
                    0 <= i < records.len() ==> spec_version(#[trigger] records[i]) == Ok::<
                        VersionView,
                        ErrorView,
                    >(versions[i])
            },
        decreases records.len(),
    {
        if records.len() > 0 {
            let before = records.drop_last();
            Self::lemma_versions(before);
            assert forall|i: int| 0 <= i < before.len() implies before[i] == records[i] by {}
            assert(records.last() == records[records.len() - 1]);
            if Self::spec_parseable(records) {
                assert forall|i: int| 0 <= i < before.len() implies spec_version(
                    #[trigger] before[i],
                ) is Ok by {
                    assert(spec_version(records[i]) is Ok);
                }
            }
            if Self::spec_versions(records) is Ok {
                assert forall|i: int| 0 <= i < records.len() implies spec_version(
                    #[trigger] records[i],
                ) is Ok by {
                    if i < before.len() {
                        assert(spec_version(before[i]) is Ok);
                    }
                }
            }
        }
    }

    /// The product named `name` with the versions of a response, one for each
    /// record and in the order of the records, if every record holds one.
    pub fn try_from_versions_response(name: &str, response: &VersionsResponse) -> (res: Result<
        Product,
        Error,
    >)
        ensures
            res matches Ok(product) ==> product@.name == name@ && Self::spec_versions(
                response@.records,
            ) == Ok::<Seq<VersionView>, ErrorView>(product@.versions),
            res matches Err(e) ==> Self::spec_versions(response@.records) == Err::<
                Seq<VersionView>,
                ErrorView,
            >(e@),
    {
        let ghost records = response@.records;
        let mut versions: Vec<Version> = Vec::new();
        let mut i: usize = 0;
        proof {
            assert(records.take(0) =~= Seq::empty());
            assert(versions_view(versions@) =~= Seq::empty());
        }
        while i < response.records.len()
            invariant
                i <= response.records@.len(),
                records == response@.records,
                Self::spec_versions(records.take(i as int)) == Ok::<Seq<VersionView>, ErrorView>(
                    versions_view(versions@),
                ),
            decreases response.records@.len() - i,
        {
            let ghost before = versions_view(versions@);
            proof {
                assert(records.take(i + 1).drop_last() =~= records.take(i as int));
                assert(records.take(i + 1).last() == response.records@[i as int]@);
            }
            match Version::from_record(&response.records[i]) {
                Ok(version) => {
                    versions.push(version);
                    proof {
                        assert(versions_view(versions@) =~= before.push(version@));
                    }
                },
                Err(e) => {
                    proof {
                        assert(Self::spec_versions(records.take(i + 1)) == Err::<
                            Seq<VersionView>,
                            ErrorView,
                        >(e@));
                        Self::lemma_versions_fails(records, i + 1);
                    }
                    return Err(e);
                },
            }
            i += 1;
        }
        proof {
            assert(records.take(i as int) =~= records);
        }
        Ok(Product { name: name.to_owned(), versions })
    }

    /// The product named `name` with the versions of a response, one for each
    /// record and in the order of the records.
    pub fn from_versions_response(name: &str, response: &VersionsResponse) -> (res: Product)
        requires
            Self::spec_parseable(response@.records),
        ensures
            res@.name == name@,
            res@.versions.len() == response@.records.len(),
            forall|i: int|
                0 <= i < response@.records.len() ==> spec_version(#[trigger] response@.records[i])
                    == Ok::<VersionView, ErrorView>(res@.versions[i]),
    {
        proof {
            Self::lemma_versions(response@.records);
        }
        match Self::try_from_versions_response(name, response) {
            Ok(product) => product,
            Err(_) => vstd::pervasive::unreached(),
        }
    }
}

/// The products fetched, with the time at which the fetch began.
#[derive(Debug)]
pub struct VersionsFetch {
    pub retrieval_datetime: Timestamp,
    pub products: Vec<Product>,
}

impl VersionsFetch {
    /// A fetch that begins now and holds no product yet.
    pub fn new() -> (res: Self)
        ensures
            res.products@.len() == 0,
    {
        Self::default()
    }

    /// Adds a product after those that the fetch holds.
    pub fn add_product(&mut self, product: Product)
        ensures
            final(self).products@ == old(self).products@.push(product),
            final(self).retrieval_datetime == old(self).retrieval_datetime,
    {
        self.products.push(product);
    }
}

impl Default for VersionsFetch {
    /// A fetch that begins now and holds no product yet.
    fn default() -> (res: Self)
        ensures
            res.products@.len() == 0,
    {
        VersionsFetch { retrieval_datetime: utc_now(), products: Vec::new() }
    }
}

} // verus!
