//! The requests that the version service understands, as it reads them.

use vstd::prelude::*;
use vstd::string::StrSliceExecFns;
use vstd::string::StringSliceAdditionalSpecFns;
use vstd::utf8::encode_utf8;

verus! {

/// A request to the version service.
#[derive(Debug)]
pub enum Request {
    /// The table of all products.
    Summary,
    /// The table of the versions of one product.
    Versions(String),
}

impl Request {
    /// The line that asks for this: the path of the table, then a carriage
    /// return and a line feed.
    pub open spec fn spec_bytes(&self) -> Seq<u8> {
        match self {
            Request::Summary => "v2/summary".spec_bytes() + seq![0x0du8, 0x0au8],
            Request::Versions(product) => "v2/products/".spec_bytes() + encode_utf8(product@)
                + "/versions".spec_bytes() + seq![0x0du8, 0x0au8],
        }
    }

    /// The bytes to send for this request.
    pub fn to_bytes(&self) -> (bytes: Vec<u8>)
        ensures
            bytes@ == self.spec_bytes(),
    {
        let mut bytes = match self {
            Request::Summary => "v2/summary".as_bytes_vec(),
            Request::Versions(product) => {
                let mut path = "v2/products/".as_bytes_vec();
                path.extend_from_slice(product.as_str().as_bytes());
                path.extend_from_slice("/versions".as_bytes());
                assert(path@ =~= "v2/products/".spec_bytes() + encode_utf8(product@)
                    + "/versions".spec_bytes());
                path
            },
        };
        bytes.push(0x0d);
        bytes.push(0x0a);
        assert(bytes@ =~= self.spec_bytes());
        bytes
    }
}

} // verus!
