use geo_relay::database::{country_code, Address};
use geo_relay::facts::GeoFacts;
use geo_relay::matcher::Matcher;
use geo_relay::records::{
    known_facts, AsnRecord, CityRecord, CountryRecord, Records, SubdivisionRecord,
};
use geo_relay::rules::{EndpointPair, RelayRuleConfig, RelayTierConfig, RuleDocument};
use geo_relay::settings::{
    parse_bool_env, Settings, DEFAULT_ASN_DB_PATH, DEFAULT_CITY_DB_PATH, DEFAULT_DB_PATH,
};
use geo_relay::state::{
    reload, reload_failure, select_relay, DatabaseKind, GeoState, LoadStep, PendingRules,
    PendingState,
};

const PATH: &str = "/tmp/country.mmdb";

fn text(value: &str) -> Vec<u8> {
    let mut out: Vec<u8> = if value.len() < 29 {
        vec![0x40 | value.len() as u8]
    } else {
        vec![0x40 | 29, (value.len() - 29) as u8]
    };
    out.extend_from_slice(value.as_bytes());
    out
}

fn number(value: u32) -> Vec<u8> {
    let mut out: Vec<u8> = vec![0xc4];
    out.extend_from_slice(&value.to_be_bytes());
    out
}

fn map(entries: &[(&str, Vec<u8>)]) -> Vec<u8> {
    let mut out: Vec<u8> = vec![0xe0 | entries.len() as u8];
    for (key, value) in entries {
        out.extend_from_slice(&text(key));
        out.extend_from_slice(value);
    }
    out
}

fn list(items: &[Vec<u8>]) -> Vec<u8> {
    let mut out: Vec<u8> = vec![items.len() as u8, 0x04];
    for item in items {
        out.extend_from_slice(item);
    }
    out
}

/// A file for IPv4 with one record for the addresses below 128.0.0.0 and one for the others.
fn database_file(low: Vec<u8>, high: Vec<u8>) -> Vec<u8> {
    let second = (17 + low.len() as u16).to_be_bytes();
    let mut out: Vec<u8> = vec![0, 0, 17, 0, second[0], second[1]];
    out.extend_from_slice(&[0; 16]);
    out.extend_from_slice(&low);
    out.extend_from_slice(&high);
    out.extend_from_slice(b"\xab\xcd\xefMaxMind.com");
    out.extend_from_slice(&map(&[
        ("binary_format_major_version", vec![0xa1, 2]),
        ("binary_format_minor_version", vec![0xa1, 0]),
        ("build_epoch", vec![0x01, 0x02, 0x01]),
        ("database_type", text("Test")),
        ("description", map(&[("en", text("Test"))])),
        ("ip_version", vec![0xa1, 4]),
        ("languages", list(&[])),
        ("node_count", vec![0xc1, 1]),
        ("record_size", vec![0xa1, 24]),
    ]));
    out
}

fn country_file(low: &str, high: &str) -> Vec<u8> {
    let record = |code: &str| map(&[("country", map(&[("iso_code", text(code))]))]);
    database_file(record(low), record(high))
}

fn settings(enabled: Option<&str>, rules: Option<&str>) -> Settings {
    Settings {
        enabled: enabled.map(str::to_owned),
        rules: rules.map(str::to_owned),
        country_db_path: Some(PATH.to_owned()),
        db_path: None,
        city_db_path: Some("/tmp/city.mmdb".to_owned()),
        asn_db_path: Some("/tmp/asn.mmdb".to_owned()),
    }
}

fn opening(step: Result<LoadStep, String>) -> PendingState {
    match step {
        Ok(LoadStep::Open(pending)) => pending,
        Ok(_) => panic!("nothing to open"),
        Err(reason) => panic!("{reason}"),
    }
}

fn ready(step: Result<LoadStep, String>) -> GeoState {
    match step {
        Ok(LoadStep::Ready(state)) => state,
        Ok(_) => panic!("not loaded"),
        Err(reason) => panic!("{reason}"),
    }
}

fn failed(step: Result<LoadStep, String>) -> String {
    match step {
        Ok(_) => panic!("loading went on"),
        Err(reason) => reason,
    }
}

fn pending(rules: &str) -> PendingState {
    opening(GeoState::from_env(settings(None, Some(rules))))
}

fn loaded(rules: &str, low: &str, high: &str) -> GeoState {
    ready(pending(rules).with_file(Ok(country_file(low, high))))
}

fn pending_rules(rules: &str) -> PendingRules {
    match GeoState::from_env(settings(None, Some(rules))) {
        Ok(LoadStep::Decode(pending)) => pending,
        Ok(_) => panic!("nothing to decode"),
        Err(reason) => panic!("{reason}"),
    }
}

fn rule(name: &str, client_a: Matcher, client_b: Matcher, relay: &str) -> RelayRuleConfig {
    RelayRuleConfig {
        name: name.to_owned(),
        symmetric: true,
        matches: EndpointPair { client_a, client_b },
        relay_tiers: vec![RelayTierConfig::One(relay.to_owned())],
    }
}

fn document(rules: Vec<RelayRuleConfig>) -> Result<RuleDocument, String> {
    Ok(RuleDocument { version: 2, rules })
}

fn online(relays: &[&str]) -> Vec<String> {
    relays.iter().map(|relay| (*relay).to_owned()).collect()
}

const LOW: Address = Address::V4([1, 2, 3, 4]);
const HIGH: Address = Address::V4([203, 0, 113, 9]);

#[test]
fn relay_follows_the_countries_of_the_addresses() {
    let state = loaded("CN-JP=jp;CN-CN=hk;DEFAULT=us", " cn", "JP");
    let relays = online(&["us", "jp", "hk"]);
    let pick = |a: &Address, b: &Address| select_relay(&state, a, b, &relays, &mut 0);
    assert_eq!(pick(&LOW, &HIGH).unwrap(), "jp");
    assert_eq!(pick(&HIGH, &LOW).unwrap(), "jp");
    assert_eq!(pick(&LOW, &LOW).unwrap(), "hk");
    assert_eq!(pick(&HIGH, &HIGH).unwrap(), "us");
}

#[test]
fn an_address_without_a_country_gets_the_fallback() {
    let state = loaded("CN-JP=jp;DEFAULT=us", "CN", "JPN");
    let relays = online(&["us", "jp"]);
    let v6 = Address::V6([0; 16]);
    assert_eq!(select_relay(&state, &LOW, &HIGH, &relays, &mut 0).unwrap(), "us");
    assert_eq!(select_relay(&state, &LOW, &v6, &relays, &mut 0).unwrap(), "us");
}

#[test]
fn nothing_is_chosen_without_relays_or_when_disabled() {
    let state = loaded("DEFAULT=us", "CN", "JP");
    let mut rotation: usize = 4;
    assert_eq!(select_relay(&state, &LOW, &HIGH, &[], &mut rotation), None);
    let disabled = GeoState::disabled();
    assert_eq!(
        select_relay(&disabled, &LOW, &HIGH, &online(&["us"]), &mut rotation),
        None
    );
    assert_eq!(rotation, 4);
    assert_eq!(
        select_relay(&state, &LOW, &HIGH, &online(&["us"]), &mut rotation).unwrap(),
        "us"
    );
    assert_eq!(rotation, 5);
}

#[test]
fn a_reload_reports_what_was_loaded() {
    let mut state = GeoState::disabled();
    let report = reload(&mut state, Ok(loaded("CN-JP=jp;CN-CN=hk;DEFAULT=us", "CN", "JP")));
    assert_eq!(
        report,
        "Geo relay loaded: 2 country-pair rules, database=/tmp/country.mmdb"
    );
    let report = reload(&mut state, Ok(GeoState::disabled()));
    assert_eq!(report, "Geo relay disabled by GEO_RELAY_ENABLED");
    assert_eq!(
        select_relay(&state, &LOW, &HIGH, &online(&["us"]), &mut 0),
        None
    );
}

#[test]
fn a_failed_reload_keeps_what_was_loaded() {
    let mut state = GeoState::disabled();
    assert_eq!(
        reload(&mut state, Err("no file".to_owned())),
        "Geo relay unavailable; using upstream round-robin: no file"
    );
    reload(&mut state, Ok(loaded("CN-JP=jp", "CN", "JP")));
    assert_eq!(
        reload(&mut state, Err("no file".to_owned())),
        "Geo relay reload failed; keeping previous data: no file"
    );
    assert_eq!(
        select_relay(&state, &LOW, &HIGH, &online(&["jp"]), &mut 0).unwrap(),
        "jp"
    );
    assert_eq!(
        reload_failure(false, "x"),
        "Geo relay unavailable; using upstream round-robin: x"
    );
}

#[test]
fn a_database_that_does_not_open_is_named() {
    assert_eq!(
        failed(pending("DEFAULT=us").with_file(Ok(vec![1, 2, 3]))),
        "cannot open GeoIP database /tmp/country.mmdb: invalid database: could not find MaxMind DB metadata in file"
    );
    assert_eq!(
        failed(pending("DEFAULT=us").with_file(Err("i/o error: gone".to_owned()))),
        "cannot open GeoIP database /tmp/country.mmdb: i/o error: gone"
    );
}

#[test]
fn switches_read_many_words() {
    for word in ["1", "true", " YES ", "y", "On"] {
        assert!(parse_bool_env(&Some(word.to_owned()), false));
    }
    for word in ["0", "False", "no", "N", " off"] {
        assert!(!parse_bool_env(&Some(word.to_owned()), true));
    }
    for default in [true, false] {
        assert_eq!(parse_bool_env(&None, default), default);
        assert_eq!(parse_bool_env(&Some("maybe".to_owned()), default), default);
    }
}

#[test]
fn loading_stops_where_the_environment_says_so() {
    let mut state = ready(GeoState::from_env(settings(Some("off"), None)));
    assert_eq!(
        reload(&mut state, Ok(GeoState::disabled())),
        "Geo relay disabled by GEO_RELAY_ENABLED"
    );
    assert_eq!(
        failed(GeoState::from_env(settings(None, None))),
        "GEO_RELAY_RULES is empty"
    );
    assert_eq!(
        failed(GeoState::from_env(settings(None, Some("CN-JP=a;CN-JP=b")))),
        "duplicate Geo relay rule: CN-JP"
    );
    assert_eq!(
        failed(GeoState::from_env(settings(None, Some("China=a")))),
        "invalid country-pair key: China"
    );
}

#[test]
fn the_database_paths_have_defaults_and_an_older_name() {
    let paths = |country: Option<&str>, old: Option<&str>, other: Option<&str>| {
        let settings = Settings {
            enabled: None,
            rules: None,
            country_db_path: country.map(str::to_owned),
            db_path: old.map(str::to_owned),
            city_db_path: other.map(str::to_owned),
            asn_db_path: other.map(str::to_owned),
        };
        let paths = settings.database_paths();
        (paths.country, paths.city, paths.asn)
    };
    assert_eq!(paths(Some("/a"), Some("/b"), None).0, "/a");
    assert_eq!(paths(None, Some("/b"), Some("/c")).0, "/b");
    assert_eq!(paths(None, None, Some("/c")).1, "/c");
    assert_eq!(paths(None, None, Some("/c")).2, "/c");
    let defaults = paths(None, None, None);
    assert_eq!(defaults.0, DEFAULT_DB_PATH);
    assert_eq!(defaults.1, DEFAULT_CITY_DB_PATH);
    assert_eq!(defaults.2, DEFAULT_ASN_DB_PATH);
    assert_eq!(DEFAULT_DB_PATH, "/root/geoip/GeoLite2-Country.mmdb");
    assert_eq!(DEFAULT_CITY_DB_PATH, "/root/geoip/GeoLite2-City.mmdb");
    assert_eq!(DEFAULT_ASN_DB_PATH, "/root/geoip/GeoLite2-ASN.mmdb");
}

#[test]
fn documents_are_told_from_the_one_line_notation() {
    let rules = pending_rules(" version: 2\nrules: []\n");
    assert_eq!(rules.document, "version: 2\nrules: []");
    assert_eq!(rules.paths.asn, "/tmp/asn.mmdb");
    assert_eq!(pending_rules("{version: 2, rules: [{name: \"a=b\"}]}").document.len(), 36);
    assert_eq!(pending("CN-JP=a;\n DEFAULT=b\n").db_path, PATH);
}

#[test]
fn a_document_without_rules_is_refused() {
    let text = "version: 2\nrules: []";
    assert_eq!(
        failed(pending_rules(text).decoded(document(Vec::new()))),
        "GEO_RELAY_RULES has no rules"
    );
    assert_eq!(
        failed(pending_rules(text).decoded(Err("broken".to_owned()))),
        "invalid GEO_RELAY_RULES YAML: broken"
    );
}

#[test]
fn rules_that_read_nothing_need_no_database() {
    let all = rule("all", Matcher::default(), Matcher::default(), "us");
    let mut state = GeoState::disabled();
    let new_state = ready(pending_rules("rules: all").decoded(document(vec![all])));
    assert_eq!(
        reload(&mut state, Ok(new_state)),
        "Geo relay loaded: 1 ordered rules, notation=YAML v2"
    );
    assert_eq!(
        select_relay(&state, &LOW, &Address::V6([7; 16]), &online(&["us"]), &mut 0).unwrap(),
        "us"
    );
    assert_eq!(
        reload(&mut state, Err("no file".to_owned())),
        "Geo relay reload failed; keeping previous data: no file"
    );
}

#[test]
fn ordered_rules_read_the_databases_that_they_need() {
    let shanghai = Matcher {
        city: vec!["\u{4e0a}\u{6d77}".to_owned()],
        subdivision: vec!["shanghai shi".to_owned()],
        continent: vec!["AS".to_owned()],
        asn: vec![4134],
        ..Matcher::default()
    };
    let tokyo = Matcher {
        city_geoname_id: vec![1850147],
        subdivision: vec!["13".to_owned()],
        country: vec!["JP".to_owned()],
        asn_org_contains: vec!["kddi".to_owned()],
        ..Matcher::default()
    };
    let rules = vec![
        rule("Shanghai to Tokyo", shanghai, tokyo, "tokyo"),
        rule("CN-JP", Matcher::country("CN"), Matcher::country("JP"), "jp"),
        rule("rest", Matcher::default(), Matcher::default(), "us"),
    ];
    let step = opening(pending_rules("rules").decoded(document(rules)));
    assert_eq!((step.kind, step.db_path.as_str()), (DatabaseKind::Country, PATH));
    let step = opening(step.with_file(Ok(country_file("CN", "???"))));
    assert_eq!((step.kind, step.db_path.as_str()), (DatabaseKind::City, "/tmp/city.mmdb"));
    let city = |continent: &str, code: &str, id: u32, name: &str, local: &str, sub: Vec<u8>| {
        map(&[
            ("city", map(&[
                ("geoname_id", number(id)),
                ("names", map(&[("en", text(name)), ("zh-CN", text(local))])),
            ])),
            ("continent", map(&[("code", text(continent))])),
            ("country", map(&[("iso_code", text(code))])),
            ("subdivisions", list(&[sub])),
        ])
    };
    let step = opening(step.with_file(Ok(database_file(
        city("AS", "CN", 1796236, "Shanghai", "\u{4e0a}\u{6d77}", map(&[
            ("names", map(&[("en", text("Shanghai")), ("de", text("Shanghai Shi"))])),
        ])),
        city("AS", "jp", 1850147, "Tokyo", "\u{4e1c}\u{4eac}", map(&[("iso_code", text("13"))])),
    ))));
    assert_eq!((step.kind, step.db_path.as_str()), (DatabaseKind::Asn, "/tmp/asn.mmdb"));
    let asn = |number_of: u32, organization: &str| {
        map(&[
            ("autonomous_system_number", number(number_of)),
            ("autonomous_system_organization", text(organization)),
        ])
    };
    let new_state = ready(step.with_file(Ok(database_file(
        asn(4134, "China Telecom"),
        asn(2516, "KDDI CORPORATION"),
    ))));
    let mut state = GeoState::disabled();
    assert_eq!(
        reload(&mut state, Ok(new_state)),
        "Geo relay loaded: 3 ordered rules, notation=YAML v2, country database=/tmp/country.mmdb, city database=/tmp/city.mmdb, ASN database=/tmp/asn.mmdb"
    );
    let pick = |a: &Address, b: &Address, relays: &[&str]| {
        select_relay(&state, a, b, &online(relays), &mut 0)
    };
    assert_eq!(pick(&LOW, &HIGH, &["us", "jp", "tokyo"]).unwrap(), "tokyo");
    assert_eq!(pick(&HIGH, &LOW, &["us", "jp", "tokyo"]).unwrap(), "tokyo");
    assert_eq!(pick(&LOW, &HIGH, &["us", "jp"]).unwrap(), "jp");
    assert_eq!(pick(&LOW, &LOW, &["us", "jp", "tokyo"]).unwrap(), "us");
    assert_eq!(pick(&LOW, &HIGH, &["hk"]), None);
    assert_eq!(pick(&LOW, &HIGH, &[]), None);
}

#[test]
fn facts_come_from_the_records() {
    let words = |words: &[&str]| -> Vec<String> { online(words) };
    let facts: GeoFacts = known_facts(Records {
        country: CountryRecord { continent: None, country: Some(" cn ".to_owned()) },
        city: CityRecord {
            place: CountryRecord {
                continent: Some("as".to_owned()),
                country: Some("JP".to_owned()),
            },
            geoname_id: Some(7),
            names: words(&["Shanghai"]),
            subdivisions: vec![
                SubdivisionRecord { code: Some("SH".to_owned()), names: words(&["a", "b"]) },
                SubdivisionRecord { code: None, names: words(&["c"]) },
                SubdivisionRecord { code: Some("PD".to_owned()), names: Vec::new() },
            ],
        },
        asn: AsnRecord { number: Some(4134), organization: Some("CHINANET".to_owned()) },
    });
    assert_eq!(facts.continent.unwrap(), "AS");
    assert_eq!(facts.country.unwrap(), "CN");
    assert_eq!(facts.subdivision_codes, vec!["SH", "PD"]);
    assert_eq!(facts.subdivision_names, vec!["a", "b", "c"]);
    assert_eq!(facts.city_names, vec!["Shanghai"]);
    assert_eq!(facts.city_geoname_id, Some(7));
    assert_eq!(facts.asn, Some(4134));
    assert_eq!(facts.asn_org.unwrap(), "CHINANET");
}

#[test]
fn country_codes_are_two_bytes_long() {
    let code = |found: &str| country_code(Some(Some(found.to_owned())));
    assert_eq!(code(" jp ").unwrap(), "JP");
    assert_eq!(code("\u{e9}").unwrap(), "\u{e9}");
    assert_eq!(code("JPN"), None);
    assert_eq!(code(""), None);
    assert_eq!(country_code(Some(None)), None);
    assert_eq!(country_code(None), None);
}
