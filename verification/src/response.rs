//! The tabular response format and the two record schemas read from it.

pub mod base;
pub mod laws;
pub mod summary;
pub mod versions;

use crate::response::base::Error;
use crate::response::base::ErrorView;
use vstd::prelude::*;

verus! {

/// Decodes the bytes of a summary response: one record for each product and
/// flavour that the service knows.
pub fn decode_summary(bytes: &[u8]) -> (res: Result<summary::Response, Error>)
    ensures
        res matches Ok(r) ==> summary::spec_decode_bytes(bytes@) == Ok::<
            summary::ResponseView,
            ErrorView,
        >(r@),
        res matches Err(e) ==> summary::spec_decode_bytes(bytes@) == Err::<
            summary::ResponseView,
            ErrorView,
        >(e@),
{
    summary::Response::decode_bytes(bytes)
}

/// Decodes the bytes of a versions response: one record for each region in
/// which the product is offered.
pub fn decode_versions(bytes: &[u8]) -> (res: Result<versions::Response, Error>)
    ensures
        res matches Ok(r) ==> versions::spec_decode_bytes(bytes@) == Ok::<
            versions::ResponseView,
            ErrorView,
        >(r@),
        res matches Err(e) ==> versions::spec_decode_bytes(bytes@) == Err::<
            versions::ResponseView,
            ErrorView,
        >(e@),
{
    versions::Response::decode_bytes(bytes)
}

} // verus!
