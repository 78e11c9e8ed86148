use geo_relay::pairs::{
    country_pair_key, is_country_code, normalize_rule_key, parse_tiers, RelayRules,
};
use geo_relay::tiers::select_from_tiers;

fn names(relays: &[&str]) -> Vec<String> {
    relays.iter().map(|relay| (*relay).to_owned()).collect()
}

fn parse_error(raw: &str) -> String {
    match RelayRules::parse(raw) {
        Ok(_) => panic!("{raw} was accepted"),
        Err(reason) => reason,
    }
}

#[test]
fn normalizes_country_pairs() {
    assert_eq!(normalize_rule_key("jp-cn").unwrap(), "CN-JP");
    assert_eq!(country_pair_key("US", "CN"), "CN-US");
    assert!(normalize_rule_key("china-jp").is_err());
}

#[test]
fn parses_priorities_and_default() {
    let rules = RelayRules::parse("CN-CN=hk-1,hk-2>jp;JP-CN=jp>hk-1;DEFAULT=jp>us").unwrap_or_else(
        |reason| panic!("{reason}"),
    );
    assert_eq!(rules.by_pair.get("CN-CN").unwrap().len(), 2);
    assert_eq!(rules.by_pair.get("CN-JP").unwrap()[0], vec!["jp"]);
    assert_eq!(rules.fallback[1], vec!["us"]);
}

#[test]
fn chooses_first_online_priority_tier() {
    let tiers = parse_tiers("hk-1,hk-2>jp>us").unwrap();
    let online = vec!["jp".to_owned(), "us".to_owned()];
    assert_eq!(select_from_tiers(&tiers, &online, &mut 0), Some("jp".to_owned()));
}

#[test]
fn ignores_relays_not_reported_online() {
    let tiers = parse_tiers("hk-1,hk-2").unwrap();
    let online = vec!["jp".to_owned()];
    assert_eq!(select_from_tiers(&tiers, &online, &mut 0), None);
}

#[test]
fn keys_are_trimmed_ordered_and_in_upper_case() {
    assert_eq!(normalize_rule_key(" us-cn\t").unwrap(), "CN-US");
    assert_eq!(normalize_rule_key("CN-US").unwrap(), "CN-US");
    assert_eq!(normalize_rule_key(" default ").unwrap(), "DEFAULT");
    assert_eq!(country_pair_key("\u{3000}jp", "cn "), "CN-JP");
    assert_eq!(country_pair_key("cn", "jp"), country_pair_key("jp", "cn"));
}

#[test]
fn keys_that_are_no_pair_are_named_as_written() {
    for raw in ["cnjp", "C1-JP", "CN-JP-US", " cn - jp", "", "CN-"] {
        assert_eq!(
            normalize_rule_key(raw).unwrap_err(),
            format!("invalid country-pair key: {raw}")
        );
    }
}

#[test]
fn country_codes_are_two_ascii_letters() {
    assert!(is_country_code("CN"));
    assert!(is_country_code("jp"));
    assert!(!is_country_code("C"));
    assert!(!is_country_code("CHN"));
    assert!(!is_country_code("C1"));
    assert!(!is_country_code("\u{e9}"));
}

#[test]
fn tiers_drop_blank_names() {
    let tiers = parse_tiers(" a , ,b>> , >c").unwrap();
    assert_eq!(tiers, vec![vec!["a", "b"], vec!["c"]]);
    assert_eq!(
        parse_tiers(" >, ").unwrap_err(),
        "Geo relay rule has no relay servers:  >, "
    );
}

#[test]
fn each_way_to_write_no_rules_has_its_reason() {
    assert_eq!(parse_error(" \n"), "GEO_RELAY_RULES is empty");
    assert_eq!(parse_error(" ; ;"), "GEO_RELAY_RULES has no usable rules");
    assert_eq!(
        parse_error("CN-JP=a; CN-US "),
        "invalid Geo relay rule without '=': CN-US"
    );
    assert_eq!(parse_error("China=a"), "invalid country-pair key: China");
    assert_eq!(
        parse_error("CN-JP= , "),
        "Geo relay rule has no relay servers:  ,"
    );
    assert_eq!(
        parse_error("DEFAULT=a;default=b"),
        "duplicate DEFAULT Geo relay rule"
    );
    assert_eq!(
        parse_error("CN-JP=a;JP-CN=b"),
        "duplicate Geo relay rule: CN-JP"
    );
}

#[test]
fn the_pair_comes_before_the_fallback_in_either_order() {
    let rules = RelayRules::parse("DEFAULT=us;CN-JP=jp").unwrap_or_else(|reason| {
        panic!("{reason}")
    });
    let online = names(&["us", "jp"]);
    let pick = |a: Option<&str>, b: Option<&str>| rules.select(a, b, &online, &mut 0);
    assert_eq!(pick(Some("CN"), Some("JP")).unwrap(), "jp");
    assert_eq!(pick(Some("JP"), Some("CN")).unwrap(), "jp");
    assert_eq!(pick(Some("CN"), Some("CN")).unwrap(), "us");
    assert_eq!(pick(None, Some("JP")).unwrap(), "us");
    let only_us = names(&["us"]);
    assert_eq!(
        rules.select(Some("CN"), Some("JP"), &only_us, &mut 0).unwrap(),
        "us"
    );
    assert_eq!(rules.select(Some("CN"), Some("JP"), &[], &mut 0), None);
}
