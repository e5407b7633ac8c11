use wownow::output::Error;
use wownow::output::Product;
use wownow::output::Version;
use wownow::output::VersionsFetch;
use wownow::response::versions::Record;
use wownow::response::versions::Response;

fn record(region: &str, versions_name: &str) -> Record {
    Record {
        region: region.to_owned(),
        build_config: [1; 16],
        cdn_config: [2; 16],
        key_ring: None,
        build_id: 53584,
        versions_name: versions_name.to_owned(),
        product_config: [3; 16],
    }
}

#[test]
fn version_is_cut_at_the_last_dot() {
    let version = Version::from_record(&record("us", "10.2.5.53584")).unwrap();
    assert_eq!(version.region, "us");
    assert_eq!(version.version, "10.2.5");
    assert_eq!(version.build, "53584");

    let version = Version::from_record(&record("eu", ".53584")).unwrap();
    assert_eq!(version.version, "");
    assert_eq!(version.build, "53584");

    let version = Version::from_record(&record("kr", "1.")).unwrap();
    assert_eq!(version.version, "1");
    assert_eq!(version.build, "");

    let version = Version::from_record(&record("tw", "gr\u{00fc}n.bl\u{00e4}u")).unwrap();
    assert_eq!(version.version, "gr\u{00fc}n");
    assert_eq!(version.build, "bl\u{00e4}u");
}

#[test]
fn version_without_a_dot() {
    assert!(matches!(
        Version::from_record(&record("us", "53584")),
        Err(Error::UnparseableVersion(name)) if name == "53584"
    ));
    assert!(matches!(
        Version::from_record(&record("us", "")),
        Err(Error::UnparseableVersion(name)) if name.is_empty()
    ));
}

#[test]
fn product_holds_a_version_for_each_record() {
    let response = Response {
        seqn: 1,
        records: vec![record("us", "10.2.5.53584"), record("eu", "10.2.6.53600")],
    };
    let product = Product::from_versions_response("wow", &response);
    assert_eq!(product.name, "wow");
    assert_eq!(product.versions.len(), 2);
    assert_eq!(product.versions[0].region, "us");
    assert_eq!(product.versions[0].version, "10.2.5");
    assert_eq!(product.versions[0].build, "53584");
    assert_eq!(product.versions[1].region, "eu");
    assert_eq!(product.versions[1].version, "10.2.6");
    assert_eq!(product.versions[1].build, "53600");

    let product = Product::from_versions_response("", &Response { seqn: 1, records: vec![] });
    assert_eq!(product.name, "");
    assert!(product.versions.is_empty());
}

#[test]
fn fetch_collects_products_in_order() {
    let mut fetch = VersionsFetch::new();
    assert!(fetch.products.is_empty());
    let begun = fetch.retrieval_datetime;
    let response = Response { seqn: 1, records: vec![record("us", "10.2.5.53584")] };
    fetch.add_product(Product::from_versions_response("wow", &response));
    fetch.add_product(Product::from_versions_response("wow_classic", &response));
    assert_eq!(fetch.products.len(), 2);
    assert_eq!(fetch.products[0].name, "wow");
    assert_eq!(fetch.products[1].name, "wow_classic");
    assert_eq!(fetch.retrieval_datetime, begun);
    assert!(VersionsFetch::default().products.is_empty());
}

#[test]
fn fetch_begins_now() {
    let before = chrono::Utc::now();
    let fetch = VersionsFetch::new();
    let after = chrono::Utc::now();
    let stamp = fetch.retrieval_datetime;
    let begun = chrono::DateTime::from_timestamp(stamp.secs, stamp.nanos).unwrap();
    assert!(before <= begun);
    assert!(begun <= after);
}

#[test]
fn product_of_a_response_with_a_bad_record() {
    let response = Response {
        seqn: 1,
        records: vec![record("us", "10.2.5.53584"), record("eu", "nodot"), record("kr", "none")],
    };
    assert!(matches!(
        Product::try_from_versions_response("wow", &response),
        Err(Error::UnparseableVersion(name)) if name == "nodot"
    ));
    let response = Response { seqn: 1, records: vec![record("us", "10.2.5.53584")] };
    let product = Product::try_from_versions_response("wow", &response).unwrap();
    assert_eq!(product.name, "wow");
    assert_eq!(product.versions.len(), 1);
    assert_eq!(product.versions[0].build, "53584");
}
