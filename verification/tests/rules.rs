use geo_relay::facts::GeoFacts;
use geo_relay::matcher::{DbRequirements, Matcher};
use geo_relay::rules::{
    default_true, looks_like_legacy, one_or_many, EndpointPair, OneOrMany, ParseStep,
    RelayRuleConfig, RelayTierConfig, RuleDocument, RuleSet, RuleSyntax,
};
use serde_yml::{Mapping, Value};

fn facts(country: &str, city: &str, asn: u32, org: &str) -> GeoFacts {
    GeoFacts {
        country: Some(country.to_owned()),
        city_names: vec![city.to_owned()],
        asn: Some(asn),
        asn_org: Some(org.to_owned()),
        ..GeoFacts::default()
    }
}

/// The entries of a mapping, all of them under one of `known`.
fn entries(value: &Value, known: &[&str]) -> Result<Mapping, String> {
    let Value::Mapping(mapping) = value else {
        return Err(format!("not a mapping: {value:?}"));
    };
    for key in mapping.keys() {
        match key {
            Value::String(name) if known.contains(&name.as_str()) => {}
            _ => return Err(format!("unknown field {key:?}")),
        }
    }
    Ok(mapping.clone())
}

fn text_value(value: &Value) -> Result<String, String> {
    match value {
        Value::String(text) => Ok(text.clone()),
        _ => Err(format!("not a text: {value:?}")),
    }
}

fn number_value(value: &Value) -> Result<u32, String> {
    value
        .as_u64()
        .map(|number| number as u32)
        .ok_or_else(|| format!("not a number: {value:?}"))
}

fn list<T>(
    mapping: &Mapping,
    field: &str,
    read: fn(&Value) -> Result<T, String>,
) -> Result<Vec<T>, String> {
    let value = match mapping.get(field) {
        None => OneOrMany::Many(Vec::new()),
        Some(Value::Sequence(values)) => {
            OneOrMany::Many(values.iter().map(read).collect::<Result<Vec<T>, String>>()?)
        }
        Some(value) => OneOrMany::One(read(value)?),
    };
    Ok(one_or_many(value))
}

fn decode_matcher(value: &Value) -> Result<Matcher, String> {
    let fields = [
        "all", "any", "not", "continent", "country", "subdivision", "city", "city_geoname_id",
        "asn", "asn_org_contains",
    ];
    let mapping = entries(value, &fields)?;
    Ok(Matcher {
        all: list(&mapping, "all", decode_matcher)?,
        any: list(&mapping, "any", decode_matcher)?,
        not: match mapping.get("not") {
            Some(inner) => Some(Box::new(decode_matcher(inner)?)),
            None => None,
        },
        continent: list(&mapping, "continent", text_value)?,
        country: list(&mapping, "country", text_value)?,
        subdivision: list(&mapping, "subdivision", text_value)?,
        city: list(&mapping, "city", text_value)?,
        city_geoname_id: list(&mapping, "city_geoname_id", number_value)?,
        asn: list(&mapping, "asn", number_value)?,
        asn_org_contains: list(&mapping, "asn_org_contains", text_value)?,
    })
}

fn decode_client(mapping: &Mapping, field: &str) -> Result<Matcher, String> {
    match mapping.get(field) {
        Some(value) => decode_matcher(value),
        None => Ok(Matcher::default()),
    }
}

fn decode_tier(value: &Value) -> Result<RelayTierConfig, String> {
    match value {
        Value::Sequence(relays) => Ok(RelayTierConfig::Many(
            relays.iter().map(text_value).collect::<Result<Vec<String>, String>>()?,
        )),
        _ => Ok(RelayTierConfig::One(text_value(value)?)),
    }
}

fn decode_rule(value: &Value) -> Result<RelayRuleConfig, String> {
    let mapping = entries(value, &["name", "symmetric", "match", "relay_tiers"])?;
    let clients = entries(
        mapping.get("match").ok_or("missing match")?,
        &["client_a", "client_b"],
    )?;
    Ok(RelayRuleConfig {
        name: text_value(mapping.get("name").ok_or("missing name")?)?,
        symmetric: mapping
            .get("symmetric")
            .and_then(Value::as_bool)
            .unwrap_or_else(default_true),
        matches: EndpointPair {
            client_a: decode_client(&clients, "client_a")?,
            client_b: decode_client(&clients, "client_b")?,
        },
        relay_tiers: list(&mapping, "relay_tiers", decode_tier)?,
    })
}

fn decode_document(text: &str) -> Result<RuleDocument, String> {
    let value: Value = serde_yml::from_str(text).map_err(|error| error.to_string())?;
    let mapping = entries(&value, &["version", "rules"])?;
    Ok(RuleDocument {
        version: number_value(mapping.get("version").ok_or("missing version")?)? as u8,
        rules: list(&mapping, "rules", decode_rule)?,
    })
}

fn parse(raw: &str) -> Result<RuleSet, String> {
    match RuleSet::parse(raw) {
        ParseStep::Done(read) => read,
        ParseStep::Decode(document) => RuleSet::from_document(decode_document(&document)),
    }
}

fn accepted(raw: &str) -> RuleSet {
    parse(raw).unwrap_or_else(|reason| panic!("{reason}"))
}

fn refused(raw: &str) -> String {
    match parse(raw) {
        Ok(_) => panic!("{raw} was accepted"),
        Err(reason) => reason,
    }
}

fn rule(name: &str, tiers: Vec<RelayTierConfig>) -> RelayRuleConfig {
    RelayRuleConfig {
        name: name.to_owned(),
        symmetric: true,
        matches: EndpointPair::default(),
        relay_tiers: tiers,
    }
}

fn one(relay: &str) -> RelayTierConfig {
    RelayTierConfig::One(relay.to_owned())
}

fn refused_rules(rules: Vec<RelayRuleConfig>) -> String {
    match RuleSet::compile(rules, RuleSyntax::YamlV2) {
        Ok(_) => panic!("accepted"),
        Err(reason) => reason,
    }
}

#[test]
fn parses_multiline_yaml_and_uses_first_matching_rule() {
    let rules = accepted(
        r#"
version: 2
rules:
  - name: China Telecom to Tokyo
    match:
      client_a:
        country: CN
        asn: 4134
      client_b:
        country: JP
        city: [Tokyo, 東京]
    relay_tiers:
      - [tokyo-1, tokyo-2]
      - osaka
  - name: CN-JP general
    match:
      client_a: { country: CN }
      client_b: { country: JP }
    relay_tiers: [general]
"#,
    );
    let online = vec!["tokyo-1".to_owned(), "general".to_owned()];
    let mut rotation: usize = 0;
    let selected = rules
        .select(
            &facts("CN", "Shanghai", 4134, "China Telecom"),
            &facts("JP", "Tokyo", 2516, "KDDI"),
            &online,
            &mut rotation,
        )
        .unwrap();
    assert_eq!(selected.relay, "tokyo-1");
    assert_eq!(selected.rule_name, "China Telecom to Tokyo");
}

#[test]
fn supports_recursive_all_any_and_not() {
    let value: Value = serde_yml::from_str(
        r#"
all:
  - country: CN
  - any:
      - city: Shanghai
      - asn: 4134
not:
  asn_org_contains: China Mobile
"#,
    )
    .unwrap();
    let matcher = decode_matcher(&value).unwrap();
    assert!(matcher.matches(&facts("CN", "Beijing", 4134, "China Telecom")));
    assert!(!matcher.matches(&facts("CN", "Shanghai", 9808, "China Mobile")));
}

#[test]
fn symmetric_rules_match_reversed_clients() {
    let rules = accepted("CN-JP=jp>hk;DEFAULT=us");
    let online = vec!["jp".to_owned(), "us".to_owned()];
    let selected = rules
        .select(
            &facts("JP", "Tokyo", 2516, "KDDI"),
            &facts("CN", "Shanghai", 4134, "China Telecom"),
            &online,
            &mut 0,
        )
        .unwrap();
    assert_eq!(selected.relay, "jp");
}

#[test]
fn continues_to_lower_rule_if_matching_relays_are_offline() {
    let rules = accepted(
        r#"
version: 2
rules:
  - name: preferred
    match:
      client_a: { country: CN }
      client_b: { country: JP }
    relay_tiers: [offline]
  - name: default
    match: {}
    relay_tiers: [online]
"#,
    );
    let selected = rules
        .select(
            &facts("CN", "Shanghai", 4134, "China Telecom"),
            &facts("JP", "Tokyo", 2516, "KDDI"),
            &["online".to_owned()],
            &mut 0,
        )
        .unwrap();
    assert_eq!(selected.relay, "online");
    assert_eq!(selected.rule_name, "default");
}

#[test]
fn rejects_unknown_fields_and_duplicate_names() {
    let unknown = parse(
        "version: 2\nrules:\n  - name: bad\n    match: { client_a: { isp: x } }\n    relay_tiers: [x]",
    );
    assert!(unknown.is_err());

    let duplicate = parse(
        "version: 2\nrules:\n  - { name: same, match: {}, relay_tiers: [a] }\n  - { name: same, match: {}, relay_tiers: [b] }",
    );
    assert!(duplicate.is_err());
}

#[test]
fn reading_says_what_is_to_be_decoded() {
    match RuleSet::parse(" version: 2\nrules: []\n ") {
        ParseStep::Decode(document) => assert_eq!(document, "version: 2\nrules: []"),
        ParseStep::Done(_) => panic!("not in the one-line notation"),
    }
    assert!(matches!(RuleSet::parse("CN-JP=a"), ParseStep::Done(Ok(_))));
    assert!(matches!(RuleSet::parse(" \n "), ParseStep::Done(Err(_))));
    assert!(looks_like_legacy("CN-JP=a"));
    assert!(!looks_like_legacy("CN-JP=a\n"));
    assert!(!looks_like_legacy("CN-JP"));
    assert!(!looks_like_legacy("  {name: \"a=b\"}"));
}

#[test]
fn each_fault_of_a_document_has_its_reason() {
    assert_eq!(refused(" "), "GEO_RELAY_RULES is empty");
    assert_eq!(
        refused("version: 3\nrules: []"),
        "unsupported GEO_RELAY_RULES version 3; expected 2"
    );
    assert_eq!(refused("version: 2\nrules: []"), "GEO_RELAY_RULES has no rules");
    assert_eq!(
        refused("version: 2\nrules: []\nextra: 1").split(':').next(),
        Some("invalid GEO_RELAY_RULES YAML")
    );
    match RuleSet::from_document(Err("broken".to_owned())) {
        Ok(_) => panic!("accepted"),
        Err(reason) => assert_eq!(reason, "invalid GEO_RELAY_RULES YAML: broken"),
    }
}

#[test]
fn each_fault_of_a_rule_has_its_reason() {
    assert_eq!(
        refused_rules(vec![rule("a", vec![one("x")]), rule(" ", vec![one("x")])]),
        "rule 2 has an empty name"
    );
    assert_eq!(
        refused_rules(vec![rule("a", vec![one("x")]), rule(" a ", vec![one("y")])]),
        "duplicate rule name: a"
    );
    assert_eq!(
        refused_rules(vec![rule("a", vec![one("x"), one(" ")])]),
        "rule 'a' contains an empty relay tier"
    );
    assert_eq!(
        refused_rules(vec![rule("a", vec![RelayTierConfig::Many(Vec::new())])]),
        "rule 'a' contains an empty relay tier"
    );
    assert_eq!(refused_rules(vec![rule("a", Vec::new())]), "rule 'a' has no relay_tiers");
    assert_eq!(refused_rules(Vec::new()), "GEO_RELAY_RULES has no rules");
}

#[test]
fn each_fault_of_a_condition_has_its_reason() {
    let blank = || vec!["ok".to_owned(), " ".to_owned()];
    let fault = |matcher: Matcher| matcher.validate("r").unwrap_err();
    assert_eq!(
        fault(Matcher { continent: blank(), city: blank(), ..Matcher::default() }),
        "rule 'r' contains an empty value in continent"
    );
    assert_eq!(
        fault(Matcher { country: blank(), ..Matcher::default() }),
        "rule 'r' contains an empty value in country"
    );
    assert_eq!(
        fault(Matcher { subdivision: blank(), ..Matcher::default() }),
        "rule 'r' contains an empty value in subdivision"
    );
    assert_eq!(
        fault(Matcher { city: blank(), ..Matcher::default() }),
        "rule 'r' contains an empty value in city"
    );
    assert_eq!(
        fault(Matcher { asn_org_contains: blank(), ..Matcher::default() }),
        "rule 'r' contains an empty value in asn_org_contains"
    );
    assert_eq!(
        fault(Matcher { asn: vec![1, 0], ..Matcher::default() }),
        "rule 'r' contains invalid ASN 0"
    );
    let inner = Matcher { city: blank(), ..Matcher::default() };
    let deep = Matcher { any: vec![Matcher::default(), inner], ..Matcher::default() };
    assert_eq!(
        fault(Matcher { not: Some(Box::new(deep)), ..Matcher::default() }),
        "rule 'r' contains an empty value in city"
    );
    assert!(Matcher::country("cn").validate("r").is_ok());
    let mut bad = rule(" b ", vec![one("x")]);
    bad.matches.client_b.asn.push(0);
    assert_eq!(refused_rules(vec![bad]), "rule 'b' contains invalid ASN 0");
}

#[test]
fn each_fault_of_the_one_line_notation_has_its_reason() {
    assert_eq!(refused("CN-JP=a;x"), "invalid legacy rule without '=': x");
    assert_eq!(refused("CNJP =a"), "invalid legacy country pair: CNJP ");
    assert_eq!(refused("CN-JPN=a"), "invalid legacy country pair: CN-JPN");
    assert_eq!(refused("CN-JP=>,"), "legacy rule has no relay servers: >,");
    assert_eq!(refused("cn-jp=a;CN-JP=b"), "duplicate rule name: legacy-CN-JP");
    assert!(parse("JP-CN=a;CN-JP=b").is_ok());
}

#[test]
fn directed_rules_mind_the_order() {
    let rules = accepted(
        "version: 2\nrules:\n  - name: one way\n    symmetric: false\n    match: { client_a: { country: CN }, client_b: { country: JP } }\n    relay_tiers: [x]",
    );
    let cn = facts("cn", "", 1, "");
    let jp = facts("JP", "", 1, "");
    let online = vec!["X".to_owned()];
    assert_eq!(rules.select(&cn, &jp, &online, &mut 0).unwrap().relay, "X");
    assert!(rules.select(&jp, &cn, &online, &mut 0).is_none());
}

#[test]
fn every_field_is_a_condition_of_its_own() {
    let place = GeoFacts {
        continent: Some("AS".to_owned()),
        country: Some("CN".to_owned()),
        subdivision_codes: vec!["SH".to_owned()],
        subdivision_names: vec!["Shanghai Shi".to_owned()],
        city_names: vec!["Shanghai".to_owned(), "上海".to_owned()],
        city_geoname_id: Some(1796236),
        asn: Some(4134),
        asn_org: Some("CHINANET Backbone".to_owned()),
    };
    let nowhere = GeoFacts::default();
    let list = |value: &str| vec!["??".to_owned(), value.to_owned()];
    let conditions = vec![
        Matcher { continent: list(" as "), ..Matcher::default() },
        Matcher { country: list("cn"), ..Matcher::default() },
        Matcher { subdivision: list("sh"), ..Matcher::default() },
        Matcher { subdivision: list("shanghai shi"), ..Matcher::default() },
        Matcher { city: list("上海"), ..Matcher::default() },
        Matcher { city_geoname_id: vec![1, 1796236], ..Matcher::default() },
        Matcher { asn: vec![4809, 4134], ..Matcher::default() },
        Matcher { asn_org_contains: list(" chinanet "), ..Matcher::default() },
    ];
    for condition in &conditions {
        assert!(condition.matches(&place));
        assert!(!condition.matches(&nowhere));
    }
    let both = Matcher { country: list("cn"), asn: vec![1], ..Matcher::default() };
    assert!(!both.matches(&place));
    let blank = Matcher { asn_org_contains: vec![" ".to_owned()], ..Matcher::default() };
    assert!(!blank.matches(&place));
    assert!(Matcher::default().matches(&nowhere));
    assert!(Matcher { all: conditions, ..Matcher::default() }.matches(&place));
    let absent = Matcher { any: vec![both, blank], ..Matcher::default() };
    assert!(!absent.matches(&place));
    assert!(Matcher { not: Some(Box::new(absent)), ..Matcher::default() }.matches(&place));
}

#[test]
fn rule_sets_say_what_they_are_and_read() {
    let rules = accepted("CN-JP=a;DEFAULT=b");
    assert_eq!(rules.len(), 2);
    assert_eq!(rules.syntax_name(), "legacy single-line");
    assert_eq!(
        rules.requirements(),
        DbRequirements { country: true, city: false, asn: false }
    );
    let nested = accepted(
        "version: 2\nrules:\n  - name: n\n    match: { client_b: { any: [ { not: { city: X } } ] } }\n    relay_tiers: [x]\n  - name: m\n    match: { client_a: { all: [ { asn: 1 } ] } }\n    relay_tiers: [x]",
    );
    assert_eq!(nested.syntax_name(), "YAML v2");
    assert_eq!(
        nested.requirements(),
        DbRequirements { country: false, city: true, asn: true }
    );
    let empty = RuleSet::empty();
    assert_eq!(empty.len(), 0);
    assert_eq!(empty.syntax_name(), "YAML v2");
    assert_eq!(empty.requirements(), DbRequirements::default());
    assert!(empty
        .select(&GeoFacts::default(), &GeoFacts::default(), &["x".to_owned()], &mut 0)
        .is_none());
}

#[test]
fn requirements_add_up() {
    let mut read = DbRequirements::default();
    read.merge(DbRequirements { country: false, city: true, asn: false });
    read.merge(DbRequirements { country: true, city: false, asn: false });
    assert_eq!(read, DbRequirements { country: true, city: true, asn: false });
}

#[test]
fn choices_of_a_rule_set_take_turns() {
    let rules = accepted("DEFAULT=a,b>c");
    let online = vec!["b".to_owned(), "a".to_owned()];
    let mut rotation: usize = 0;
    let mut chosen: Vec<String> = Vec::new();
    for _ in 0..3 {
        let selection = rules
            .select(&GeoFacts::default(), &GeoFacts::default(), &online, &mut rotation)
            .unwrap();
        assert_eq!(selection.rule_name, "legacy-DEFAULT");
        chosen.push(selection.relay);
    }
    assert_eq!(chosen, vec!["a", "b", "a"]);
    assert_eq!(rotation, 3);
}

#[test]
fn both_readings_of_one_line_agree() {
    let raw = "cn-jp=a>b;US-US=c;DEFAULT=d";
    let pairs = geo_relay::pairs::RelayRules::parse(raw).unwrap_or_else(|reason| {
        panic!("{reason}")
    });
    let rules = accepted(raw);
    for online in [vec!["a", "c", "d"], vec!["b", "d"], vec!["d"], vec!["c"]] {
        let online: Vec<String> = online.into_iter().map(str::to_owned).collect();
        for a in ["CN", "jp", "US", "FR"] {
            for b in ["CN", "jp", "US", "FR"] {
                let by_rules = rules
                    .select(&facts(a, "", 1, ""), &facts(b, "", 1, ""), &online, &mut 0)
                    .map(|selection| selection.relay);
                assert_eq!(by_rules, pairs.select(Some(a), Some(b), &online, &mut 0));
            }
        }
    }
}

#[test]
fn what_no_rule_reads_makes_no_difference() {
    let rules = accepted(
        "version: 2\nrules:\n  - name: telecom\n    match: { client_a: { asn: 4134 } }\n    relay_tiers: [x]",
    );
    assert_eq!(
        rules.requirements(),
        DbRequirements { country: false, city: false, asn: true }
    );
    let online = vec!["x".to_owned()];
    let other = facts("US", "", 7, "");
    for country in ["CN", "JP", ""] {
        for city in ["Shanghai", "Tokyo"] {
            let a = facts(country, city, 4134, "China Telecom");
            assert_eq!(rules.select(&a, &other, &online, &mut 0).unwrap().relay, "x");
            let a = facts(country, city, 4809, "China Telecom");
            assert!(rules.select(&a, &other, &online, &mut 0).is_none());
        }
    }
}

#[test]
fn rules_are_tried_from_top_to_bottom() {
    let rules = accepted(
        "version: 2\nrules:\n  - { name: first, match: {}, relay_tiers: [[a, b], c] }\n  - { name: second, match: { client_a: { country: CN } }, relay_tiers: [d] }",
    );
    let select = |relays: &[&str]| {
        let online: Vec<String> = relays.iter().map(|relay| (*relay).to_owned()).collect();
        rules
            .select(&facts("CN", "", 1, ""), &facts("JP", "", 1, ""), &online, &mut 1)
            .map(|selection| (selection.relay, selection.rule_name))
    };
    let expected = |relay: &str, name: &str| Some((relay.to_owned(), name.to_owned()));
    assert_eq!(select(&["d", "c", "b", "a"]), expected("b", "first"));
    assert_eq!(select(&["d", "c"]), expected("c", "first"));
    assert_eq!(select(&["d"]), expected("d", "second"));
    assert_eq!(select(&["e"]), None);
}
