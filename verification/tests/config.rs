use wownow::config::is_live_product;
use wownow::config::is_wanted;
use wownow::config::matching_products;
use wownow::config::resolve_switched_arg;
use wownow::config::RunConfig;
use wownow::response::summary::Record;
use wownow::response::summary::Response;

#[test]
fn switches_resolve() {
    assert!(resolve_switched_arg(true, false, true));
    assert!(resolve_switched_arg(true, false, false));
    assert!(!resolve_switched_arg(false, true, true));
    assert!(!resolve_switched_arg(false, true, false));
    assert!(resolve_switched_arg(false, false, true));
    assert!(!resolve_switched_arg(false, false, false));
}

#[test]
fn run_config_defaults_to_on() {
    assert_eq!(
        RunConfig::from_switches(false, false, false, false),
        RunConfig { live_only: true, pretty_print: true }
    );
    assert_eq!(
        RunConfig::from_switches(true, false, false, true),
        RunConfig { live_only: true, pretty_print: false }
    );
    assert_eq!(
        RunConfig::from_switches(false, true, true, false),
        RunConfig { live_only: false, pretty_print: true }
    );
}

#[test]
fn live_products() {
    assert!(is_live_product("wow"));
    assert!(is_live_product("wow_classic"));
    assert!(is_live_product("wow_classic_era"));
    assert!(!is_live_product("wow_beta"));
    assert!(!is_live_product("WoW"));
    assert!(!is_live_product("agent"));
    assert!(!is_live_product(""));
}

fn record(product: &str, flags: &str) -> Record {
    Record { product: product.to_owned(), seqn: 1, flags: flags.to_owned() }
}

#[test]
fn products_asked_for() {
    let summary = Response {
        seqn: 1,
        records: vec![
            record("agent", "cdn"),
            record("agent", ""),
            record("wow", "cdn"),
            record("wow", ""),
            record("wow_beta", ""),
            record("wow_classic_era", ""),
            record("wow_classic", "bgdl"),
            record("wow_classic", ""),
        ],
    };
    assert_eq!(matching_products(&summary, true), vec!["wow", "wow_classic_era", "wow_classic"]);
    assert_eq!(
        matching_products(&summary, false),
        vec!["agent", "wow", "wow_beta", "wow_classic_era", "wow_classic"]
    );
    assert!(is_wanted(&summary.records[3], true));
    assert!(!is_wanted(&summary.records[2], true));
    assert!(!is_wanted(&summary.records[1], true));
    assert!(is_wanted(&summary.records[1], false));
    assert!(matching_products(&Response { seqn: 1, records: vec![] }, false).is_empty());
}
