use wownow::prelude::decode_summary;
use wownow::prelude::decode_versions;
use wownow::prelude::Product;
use wownow::prelude::Request;
use wownow::prelude::ResponseError;
use wownow::prelude::SummaryRecord;
use wownow::prelude::VersionsFetch;

#[test]
fn a_fetch_from_request_to_report() {
    assert_eq!(Request::Summary.to_bytes(), b"v2/summary\r\n".to_vec());
    let summary = decode_summary(
        b"Product!STRING:0|Seqn!DEC:4|Flags!STRING:0\n## seqn = 2119172\nwow|1476930|cdn\nwow|2118018|\n",
    )
    .unwrap();
    assert_eq!(
        summary.records[1],
        SummaryRecord { product: "wow".to_owned(), seqn: 2_118_018, flags: String::new() }
    );
    let wanted = wownow::config::matching_products(&summary, true);
    assert_eq!(wanted, vec!["wow"]);
    assert_eq!(
        Request::Versions(wanted[0].clone()).to_bytes(),
        b"v2/products/wow/versions\r\n".to_vec()
    );
    let versions = decode_versions(
        b"Region!STRING:0|BuildConfig!HEX:16|CDNConfig!HEX:16|KeyRing!HEX:16|BuildId!DEC:4|VersionsName!String:0|ProductConfig!HEX:16\n## seqn = 2118468\nus|47e9e06f8371afb141e22614a912acc8|74093d42ce367c7a67f2831dbf64088d||53584|10.2.5.53584|53020d32e1a25648c8e1eafd5771935f\n",
    )
    .unwrap();
    let mut fetch = VersionsFetch::new();
    fetch.add_product(Product::from_versions_response(&wanted[0], &versions));
    assert_eq!(fetch.products.len(), 1);
    assert_eq!(fetch.products[0].name, "wow");
    assert_eq!(fetch.products[0].versions[0].region, "us");
    assert_eq!(fetch.products[0].versions[0].version, "10.2.5");
    assert_eq!(fetch.products[0].versions[0].build, "53584");
}

#[test]
fn a_response_that_is_none() {
    assert!(matches!(decode_summary(b"no header here"), Err(ResponseError::ExpectedBang(_))));
    assert!(matches!(decode_versions(b""), Err(ResponseError::ExpectedHeaderLine)));
}
