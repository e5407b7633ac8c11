use wownow::number::IntErrorKind;
use wownow::response::base::Error;
use wownow::response::decode_versions;
use wownow::response::versions::Record;
use wownow::response::versions::Response;

const HEADER: &str = "Region!STRING:0|BuildConfig!HEX:16|CDNConfig!HEX:16|KeyRing!HEX:16|BuildId!DEC:4|VersionsName!STRING:0|ProductConfig!HEX:16";
const BUILD: [u8; 16] = [
    0x47, 0xe9, 0xe0, 0x6f, 0x83, 0x71, 0xaf, 0xb1, 0x41, 0xe2, 0x26, 0x14, 0xa9, 0x12, 0xac, 0xc8,
];
const CDN: [u8; 16] = [
    0x74, 0x09, 0x3d, 0x42, 0xce, 0x36, 0x7c, 0x7a, 0x67, 0xf2, 0x83, 0x1d, 0xbf, 0x64, 0x08, 0x8d,
];
const PRODUCT: [u8; 16] = [
    0x53, 0x02, 0x0d, 0x32, 0xe1, 0xa2, 0x56, 0x48, 0xc8, 0xe1, 0xea, 0xfd, 0x57, 0x71, 0x93, 0x5f,
];

#[test]
fn versions_test_versions_response() {
    let input = "Region!STRING:0|BuildConfig!HEX:16|CDNConfig!HEX:16|KeyRing!HEX:16|BuildId!DEC:4|VersionsName!String:0|ProductConfig!HEX:16\n\
        ## seqn = 2118468\n\
        us|47e9e06f8371afb141e22614a912acc8|74093d42ce367c7a67f2831dbf64088d||53584|10.2.5.53584|53020d32e1a25648c8e1eafd5771935f\n\
        eu|47e9e06f8371afb141e22614a912acc8|74093d42ce367c7a67f2831dbf64088d||53584|10.2.5.53584|53020d32e1a25648c8e1eafd5771935f";

    let versions_response = Response::try_from(input).unwrap();

    assert_eq!(
        versions_response,
        Response {
            seqn: 2_118_468,
            records: vec![
                Record {
                    region: "us".to_owned(),
                    build_config: [
                        0x47, 0xe9, 0xe0, 0x6f, 0x83, 0x71, 0xaf, 0xb1, 0x41, 0xe2, 0x26, 0x14,
                        0xa9, 0x12, 0xac, 0xc8
                    ],
                    cdn_config: [
                        0x74, 0x09, 0x3d, 0x42, 0xce, 0x36, 0x7c, 0x7a, 0x67, 0xf2, 0x83, 0x1d,
                        0xbf, 0x64, 0x08, 0x8d
                    ],
                    key_ring: None,
                    build_id: 53584,
                    versions_name: "10.2.5.53584".to_owned(),
                    product_config: [
                        0x53, 0x2, 0xd, 0x32, 0xe1, 0xa2, 0x56, 0x48, 0xc8, 0xe1, 0xea, 0xfd,
                        0x57, 0x71, 0x93, 0x5f
                    ]
                },
                Record {
                    region: "eu".to_owned(),
                    build_config: [
                        0x47, 0xe9, 0xe0, 0x6f, 0x83, 0x71, 0xaf, 0xb1, 0x41, 0xe2, 0x26, 0x14,
                        0xa9, 0x12, 0xac, 0xc8
                    ],
                    cdn_config: [
                        0x74, 0x09, 0x3d, 0x42, 0xce, 0x36, 0x7c, 0x7a, 0x67, 0xf2, 0x83, 0x1d,
                        0xbf, 0x64, 0x08, 0x8d
                    ],
                    key_ring: None,
                    build_id: 53584,
                    versions_name: "10.2.5.53584".to_owned(),
                    product_config: [
                        0x53, 0x2, 0xd, 0x32, 0xe1, 0xa2, 0x56, 0x48, 0xc8, 0xe1, 0xea, 0xfd,
                        0x57, 0x71, 0x93, 0x5f
                    ]
                }
            ]
        }
    );
}

#[test]
fn versions_of_one_row() {
    let input = format!(
        "{}\n## seqn = 2118468\nus|47e9e06f8371afb141e22614a912acc8|74093d42ce367c7a67f2831dbf64088d||53584|10.2.5.53584|53020d32e1a25648c8e1eafd5771935f",
        HEADER
    );
    let response = Response::decode(&input).unwrap();
    assert_eq!(response.seqn, 2_118_468);
    assert_eq!(
        response.records,
        vec![Record {
            region: "us".to_owned(),
            build_config: BUILD,
            cdn_config: CDN,
            key_ring: None,
            build_id: 53584,
            versions_name: "10.2.5.53584".to_owned(),
            product_config: PRODUCT,
        }]
    );
    assert_eq!(decode_versions(input.as_bytes()).unwrap(), response);
    assert_eq!(Response::decode_bytes(input.as_bytes()).unwrap(), response);
    assert_eq!(Response::try_from(input.as_bytes()).unwrap(), response);
}

#[test]
fn versions_with_a_key_ring() {
    let input = format!(
        "{}\n## seqn = 1\neu|47e9e06f8371afb141e22614a912acc8|74093d42ce367c7a67f2831dbf64088d|53020D32E1A25648C8E1EAFD5771935F|1|x|53020d32e1a25648c8e1eafd5771935f",
        HEADER
    );
    let response = Response::decode(&input).unwrap();
    assert_eq!(response.records[0].key_ring, Some(PRODUCT));
}

#[test]
fn versions_build_config_declared_hex8() {
    let input = "Region!STRING:0|BuildConfig!HEX:8|CDNConfig!HEX:16|KeyRing!HEX:16|BuildId!DEC:4|VersionsName!STRING:0|ProductConfig!HEX:16\n\
        ## seqn = 2118468\n\
        us|47e9e06f8371afb141e22614a912acc8|74093d42ce367c7a67f2831dbf64088d||53584|10.2.5.53584|53020d32e1a25648c8e1eafd5771935f";
    assert!(matches!(
        Response::decode(input),
        Err(Error::UnexpectedType(found, expected)) if found == "HEX:8" && expected == "HEX:16"
    ));
}

#[test]
fn versions_required_hex_field_empty() {
    let input = format!(
        "{}\n## seqn = 1\nus||74093d42ce367c7a67f2831dbf64088d||53584|10.2.5.53584|53020d32e1a25648c8e1eafd5771935f",
        HEADER
    );
    assert!(matches!(Response::decode(&input), Err(Error::EmptyField(type_)) if type_ == "HEX:16"));
    let input = format!(
        "{}\n## seqn = 1\nus|47e9e06f8371afb141e22614a912acc8|74093d42ce367c7a67f2831dbf64088d||53584|10.2.5.53584|",
        HEADER
    );
    assert!(matches!(Response::decode(&input), Err(Error::EmptyField(type_)) if type_ == "HEX:16"));
}

#[test]
fn versions_bad_hex_text() {
    let input = format!(
        "{}\n## seqn = 1\nus|47e9e06f8371afb141e22614a912acc8|74093d42ce367c7a67f2831dbf64088|x|53584|10.2.5.53584|53020d32e1a25648c8e1eafd5771935f",
        HEADER
    );
    assert!(matches!(Response::decode(&input), Err(Error::UnparseableInt(IntErrorKind::Empty))));
    let input = format!(
        "{}\n## seqn = 1\nus|47e9e06f8371afb141e22614a912acc8|74093d42ce367c7a67f2831dbf64088d|x|53584|10.2.5.53584|53020d32e1a25648c8e1eafd5771935f",
        HEADER
    );
    assert!(matches!(
        Response::decode(&input),
        Err(Error::UnparseableInt(IntErrorKind::InvalidDigit))
    ));
}

#[test]
fn versions_missing_columns_in_schema_order() {
    let all = [
        "Region!STRING:0",
        "BuildConfig!HEX:16",
        "CDNConfig!HEX:16",
        "KeyRing!HEX:16",
        "BuildId!DEC:4",
        "VersionsName!STRING:0",
        "ProductConfig!HEX:16",
    ];
    let values = [
        "us",
        "47e9e06f8371afb141e22614a912acc8",
        "74093d42ce367c7a67f2831dbf64088d",
        "",
        "53584",
        "10.2.5.53584",
        "53020d32e1a25648c8e1eafd5771935f",
    ];
    let names =
        ["Region", "BuildConfig", "CDNConfig", "KeyRing", "BuildId", "VersionsName", "ProductConfig"];
    for missing in 0..all.len() {
        let mut header: Vec<&str> = all.to_vec();
        let mut row: Vec<&str> = values.to_vec();
        header.remove(missing);
        row.remove(missing);
        let input = format!("{}\n## seqn = 1\n{}", header.join("|"), row.join("|"));
        match Response::decode(&input) {
            Err(Error::ExpectedField(name)) => assert_eq!(name, names[missing]),
            other => panic!("unexpected result {:?}", other),
        }
    }
}

#[test]
fn versions_rows_in_their_order() {
    let mut input = format!("{}\n## seqn = 1\n", HEADER);
    for id in 0..20 {
        input.push_str(&format!(
            "r{}|47e9e06f8371afb141e22614a912acc8|74093d42ce367c7a67f2831dbf64088d||{}|1.{}|53020d32e1a25648c8e1eafd5771935f\n",
            id, id, id
        ));
    }
    let response = Response::decode(&input).unwrap();
    assert_eq!(response.records.len(), 20);
    for (id, record) in response.records.iter().enumerate() {
        assert_eq!(record.region, format!("r{}", id));
        assert_eq!(record.build_id, id as u32);
        assert_eq!(record.versions_name, format!("1.{}", id));
        assert_eq!(record.build_config, BUILD);
    }
}
