use wownow::number::IntErrorKind;
use wownow::response::base::Error;
use wownow::response::base::Response as Table;
use wownow::response::decode_summary;
use wownow::response::summary::Record;
use wownow::response::summary::Response;

#[test]
fn summary_test_versions_response() {
    let input = "Product!STRING:0|Seqn!DEC:4|Flags!STRING:0\n\
        ## seqn = 2119172\n\
        agent|1476930|cdn\n\
        agent|2118018|\n\
        agent_beta|1476931|cdn\n\
        agent_beta|2110722|";

    let summary_response = Response::try_from(input).unwrap();

    assert_eq!(
        summary_response,
        Response {
            seqn: 2_119_172,
            records: vec![
                Record {
                    product: "agent".to_owned(),
                    seqn: 1_476_930,
                    flags: "cdn".to_owned()
                },
                Record {
                    product: "agent".to_owned(),
                    seqn: 2_118_018,
                    flags: String::new()
                },
                Record {
                    product: "agent_beta".to_owned(),
                    seqn: 1_476_931,
                    flags: "cdn".to_owned()
                },
                Record {
                    product: "agent_beta".to_owned(),
                    seqn: 2_110_722,
                    flags: String::new()
                }
            ]
        }
    );
}

#[test]
fn summary_of_two_rows() {
    let input = "Product!STRING:0|Seqn!DEC:4|Flags!STRING:0\n\
        ## seqn = 2119172\n\
        agent|1476930|cdn\n\
        agent|2118018|";
    let response = Response::decode(input).unwrap();
    assert_eq!(response.seqn, 2_119_172);
    assert_eq!(
        response.records,
        vec![
            Record { product: "agent".to_owned(), seqn: 1_476_930, flags: "cdn".to_owned() },
            Record { product: "agent".to_owned(), seqn: 2_118_018, flags: String::new() },
        ]
    );
}

#[test]
fn summary_from_bytes() {
    let input = b"Product!STRING:0|Seqn!DEC:4|Flags!STRING:0\n## seqn = 7\nwow|12|\n";
    let expected = Response {
        seqn: 7,
        records: vec![Record { product: "wow".to_owned(), seqn: 12, flags: String::new() }],
    };
    assert_eq!(decode_summary(input).unwrap(), expected);
    assert_eq!(Response::decode_bytes(input).unwrap(), expected);
    assert_eq!(Response::try_from(&input[..]).unwrap(), expected);
    assert!(matches!(decode_summary(b"\xff"), Err(Error::Utf8(_))));
    assert!(matches!(Response::try_from(&b"\xff"[..]), Err(Error::Utf8(_))));
}

#[test]
fn summary_columns_in_any_order() {
    let input = "Flags!STRING:0|Extra!HEX:16|Seqn!DEC:4|Product!STRING:0\n\
        ## seqn = 1\n\
        cdn|zz|5|wow";
    let response = Response::decode(input).unwrap();
    assert_eq!(
        response.records,
        vec![Record { product: "wow".to_owned(), seqn: 5, flags: "cdn".to_owned() }]
    );
}

#[test]
fn summary_without_rows() {
    let response = Response::decode("Product!STRING:0\n## seqn = 3").unwrap();
    assert_eq!(response, Response { seqn: 3, records: vec![] });
}

#[test]
fn summary_missing_flags_column() {
    let input = "Product!STRING:0|Seqn!DEC:4\n## seqn = 2119172\nagent|1476930";
    assert!(matches!(Response::decode(input), Err(Error::ExpectedField("Flags"))));
}

#[test]
fn summary_missing_columns_in_schema_order() {
    let input = "Flags!STRING:0\n## seqn = 1\ncdn";
    assert!(matches!(Response::decode(input), Err(Error::ExpectedField("Product"))));
    let input = "Flags!STRING:0|Product!STRING:0\n## seqn = 1\ncdn|wow";
    assert!(matches!(Response::decode(input), Err(Error::ExpectedField("Seqn"))));
    let input = "product!STRING:0|Seqn!DEC:4|Flags!STRING:0\n## seqn = 1\nwow|1|cdn";
    assert!(matches!(Response::decode(input), Err(Error::ExpectedField("Product"))));
}

#[test]
fn summary_first_bad_row_fails_the_response() {
    let input = "Product!STRING:0|Seqn!DEC:4|Flags!STRING:0\n\
        ## seqn = 1\n\
        agent|1|cdn\n\
        agent|x|\n\
        agent|99999999999|";
    assert!(matches!(
        Response::decode(input),
        Err(Error::UnparseableInt(IntErrorKind::InvalidDigit))
    ));
}

#[test]
fn summary_column_of_another_type() {
    let input = "Product!STRING:0|Seqn!DEC:8|Flags!STRING:0\n## seqn = 1\nagent|1|cdn";
    assert!(matches!(
        Response::decode(input),
        Err(Error::UnexpectedType(found, expected)) if found == "DEC:8" && expected == "DEC:4"
    ));
    let input = "Product!STRING:1|Seqn!DEC:4|Flags!STRING:0\n## seqn = 1\nagent|1|cdn";
    assert!(matches!(
        Response::decode(input),
        Err(Error::UnexpectedType(found, expected)) if found == "STRING:1" && expected == "STRING:0"
    ));
}

#[test]
fn summary_table_errors_come_first() {
    let input = "Product!STRING:0|Seqn!DEC:4\n## seqn = 1\nagent|1|cdn";
    assert!(matches!(Response::decode(input), Err(Error::MismatchedRecordLength(3, 2))));
    assert!(matches!(Response::decode(""), Err(Error::ExpectedHeaderLine)));
}

#[test]
fn summary_from_a_table() {
    let table = Table::parse("Product!STRING:0|Seqn!DEC:4|Flags!STRING:0\n## seqn = 4\na|1|b").unwrap();
    let records = table.iter_records();
    assert_eq!(
        Record::from_record(&records[0]).unwrap(),
        Record { product: "a".to_owned(), seqn: 1, flags: "b".to_owned() }
    );
    assert_eq!(Response::from_table(&table).unwrap().seqn, 4);
}
