//! The names that most users of the library need.

pub use crate::api::Request;
pub use crate::output::Error as OutputError;
pub use crate::output::Product;
pub use crate::output::Timestamp;
pub use crate::output::Version;
pub use crate::output::VersionsFetch;
pub use crate::response::base::Dec4;
pub use crate::response::base::Error as ResponseError;
pub use crate::response::base::Hex16;
pub use crate::response::base::String0;
pub use crate::response::decode_summary;
pub use crate::response::decode_versions;
pub use crate::response::summary::Record as SummaryRecord;
pub use crate::response::summary::Response as SummaryResponse;
pub use crate::response::versions::Record as VersionsRecord;
pub use crate::response::versions::Response as VersionsResponse;
