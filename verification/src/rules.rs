//! Ordered rules: the first that matches both clients and has a relay online decides.
use vstd::prelude::*;

use crate::facts::{FactsModel, GeoFacts};
use crate::matcher;
use crate::matcher::{DbRequirements, Matcher, MatcherModel};
use crate::pairs;
use crate::text;
use crate::tiers;

verus! {

/// The version of rule documents that is understood.
pub const RULE_VERSION: u8 = 2;

/// A rule: whom it is for and which relays it names, tier by tier.
#[verifier::ext_equal]
pub struct RuleModel {
    pub name: Seq<char>,
    pub symmetric: bool,
    pub client_a: MatcherModel,
    pub client_b: MatcherModel,
    pub relay_tiers: Seq<Seq<Seq<char>>>,
}

/// Whether one of `tiers` names no relay.
pub open spec fn has_empty_tier(tiers: Seq<Seq<Seq<char>>>) -> bool {
    exists|i: int| 0 <= i < tiers.len() && text::kept(#[trigger] tiers[i]).len() == 0
}

/// The tiers with trimmed names, or what is wrong with them.
pub open spec fn clean_tiers(tiers: Seq<Seq<Seq<char>>>, rule_name: Seq<char>) -> Result<
    Seq<Seq<Seq<char>>>,
    Seq<char>,
> {
    if has_empty_tier(tiers) {
        Err("rule '"@ + rule_name + "' contains an empty relay tier"@)
    } else if tiers.len() == 0 {
        Err("rule '"@ + rule_name + "' has no relay_tiers"@)
    } else {
        Ok(tiers.map_values(|tier: Seq<Seq<char>>| text::kept(tier)))
    }
}

/// Whether one of `rules` is called `name`.
pub open spec fn has_name(rules: Seq<RuleModel>, name: Seq<char>) -> bool {
    exists|i: int| 0 <= i < rules.len() && (#[trigger] rules[i]).name == name
}

impl RuleModel {
    /// Whether the rule is for clients of which `a` and `b` are known.
    pub open spec fn is_for(self, a: FactsModel, b: FactsModel) -> bool {
        ||| self.client_a.accepts(a) && self.client_b.accepts(b)
        ||| self.symmetric && self.client_a.accepts(b) && self.client_b.accepts(a)
    }

    /// The rule with a trimmed name and trimmed relay names, or the first thing that is wrong
    /// with it as the next rule after `earlier`.
    pub open spec fn compiled(self, earlier: Seq<RuleModel>) -> Result<RuleModel, Seq<char>> {
        let name = text::trimmed(self.name);
        if name.len() == 0 {
            Err("rule "@ + text::decimal(earlier.len() + 1) + " has an empty name"@)
        } else if has_name(earlier, name) {
            Err("duplicate rule name: "@ + name)
        } else {
            match (
                self.client_a.fault(name),
                self.client_b.fault(name),
                clean_tiers(self.relay_tiers, name),
            ) {
                (Some(complaint), _, _) => Err(complaint),
                (None, Some(complaint), _) => Err(complaint),
                (None, None, Err(complaint)) => Err(complaint),
                (None, None, Ok(relay_tiers)) => Ok(RuleModel { name, relay_tiers, ..self }),
            }
        }
    }

    /// The databases that the rule reads.
    pub open spec fn needs(self) -> DbRequirements {
        self.client_a.needs().union(self.client_b.needs())
    }
}

/// The notation that rules were written in.
#[derive(Clone, Copy, Debug, PartialEq, Eq, Structural)]
pub enum RuleSyntax {
    YamlV2,
    Legacy,
}

impl RuleSyntax {
    /// The name of the notation.
    pub open spec fn name(self) -> Seq<char> {
        match self {
            RuleSyntax::YamlV2 => "YAML v2"@,
            RuleSyntax::Legacy => "legacy single-line"@,
        }
    }
}

/// What a rule set holds.
#[verifier::ext_equal]
pub struct RuleSetModel {
    pub rules: Seq<RuleModel>,
    pub syntax: RuleSyntax,
    pub requirements: DbRequirements,
}

/// The relay and the name of the rule for clients of which `a` and `b` are known.
pub open spec fn choice(
    rules: Seq<RuleModel>,
    a: FactsModel,
    b: FactsModel,
    online: Seq<Seq<char>>,
    turn: nat,
) -> Option<(Seq<char>, Seq<char>)>
    decreases rules.len(),
{
    if rules.len() == 0 {
        None
    } else {
        match (rules[0].is_for(a, b), tiers::pick(rules[0].relay_tiers, online, turn)) {
            (true, Some(relay)) => Some((relay, rules[0].name)),
            _ => choice(rules.drop_first(), a, b, online, turn),
        }
    }
}

impl RuleSetModel {
    /// The set without rules.
    pub open spec fn empty(syntax: RuleSyntax) -> RuleSetModel {
        RuleSetModel { rules: Seq::empty(), syntax, requirements: DbRequirements::nothing() }
    }

    /// The set with one more rule at its end, or what is wrong with that rule.
    pub open spec fn with_rule(self, config: RuleModel) -> Result<RuleSetModel, Seq<char>> {
        match config.compiled(self.rules) {
            Ok(rule) => Ok(
                RuleSetModel {
                    rules: self.rules.push(rule),
                    requirements: self.requirements.union(config.needs()),
                    ..self
                },
            ),
            Err(complaint) => Err(complaint),
        }
    }

    /// The set with more rules at its end, or the first thing that is wrong with them.
    pub open spec fn with_rules(self, configs: Seq<RuleModel>) -> Result<RuleSetModel, Seq<char>>
        decreases configs.len(),
    {
        if configs.len() == 0 {
            Ok(self)
        } else {
            match self.with_rule(configs[0]) {
                Ok(set) => set.with_rules(configs.drop_first()),
                Err(complaint) => Err(complaint),
            }
        }
    }

    /// The set of the rules `configs`, or the first thing that is wrong with them.
    pub open spec fn compiled(configs: Seq<RuleModel>, syntax: RuleSyntax) -> Result<
        RuleSetModel,
        Seq<char>,
    > {
        if configs.len() == 0 {
            Err("GEO_RELAY_RULES has no rules"@)
        } else {
            RuleSetModel::empty(syntax).with_rules(configs)
        }
    }

    /// The set that the one-line notation `raw` writes, or the first thing that is wrong with it.
    pub open spec fn legacy(raw: Seq<char>) -> Result<RuleSetModel, Seq<char>> {
        match legacy_rules(Seq::empty(), text::kept(text::pieces(raw, ';'))) {
            Ok(configs) => RuleSetModel::compiled(configs, RuleSyntax::Legacy),
            Err(complaint) => Err(complaint),
        }
    }
}

/// The conditions on both clients that the key of a one-line rule writes.
pub open spec fn legacy_pair(raw_key: Seq<char>) -> Result<
    (MatcherModel, MatcherModel),
    Seq<char>,
> {
    let key = pairs::code(raw_key);
    if key == "DEFAULT"@ {
        Ok((MatcherModel::always(), MatcherModel::always()))
    } else {
        match text::cut(key, '-') {
            Some((a, b)) if pairs::is_country(a) && pairs::is_country(b) => Ok(
                (
                    MatcherModel::in_country(pairs::code(a)),
                    MatcherModel::in_country(pairs::code(b)),
                ),
            ),
            _ => Err("invalid legacy country pair: "@ + raw_key),
        }
    }
}

/// The tiers that the value of a one-line rule lists, or the reason why there are none.
pub open spec fn legacy_tiers(raw: Seq<char>) -> Result<Seq<Seq<Seq<char>>>, Seq<char>> {
    if tiers::tiers_of(raw).len() > 0 {
        Ok(tiers::tiers_of(raw))
    } else {
        Err("legacy rule has no relay servers: "@ + raw)
    }
}

/// The rule that `item` writes in the one-line notation.
pub open spec fn legacy_rule(item: Seq<char>) -> Result<RuleModel, Seq<char>> {
    match text::cut(item, '=') {
        None => Err("invalid legacy rule without '=': "@ + item),
        Some((raw_key, raw_value)) => match (legacy_pair(raw_key), legacy_tiers(raw_value)) {
            (Err(complaint), _) => Err(complaint),
            (Ok(_), Err(complaint)) => Err(complaint),
            (Ok((client_a, client_b)), Ok(relay_tiers)) => Ok(
                RuleModel {
                    name: "legacy-"@ + pairs::code(raw_key),
                    symmetric: true,
                    client_a,
                    client_b,
                    relay_tiers,
                },
            ),
        },
    }
}

/// `rules` and those that `items` write, one after the other.
pub open spec fn legacy_rules(rules: Seq<RuleModel>, items: Seq<Seq<char>>) -> Result<
    Seq<RuleModel>,
    Seq<char>,
>
    decreases items.len(),
{
    if items.len() == 0 {
        Ok(rules)
    } else {
        match legacy_rule(items[0]) {
            Ok(rule) => legacy_rules(rules.push(rule), items.drop_first()),
            Err(complaint) => Err(complaint),
        }
    }
}

/// Whether `raw` is in the one-line notation.
pub open spec fn is_legacy(raw: Seq<char>) -> bool {
    &&& !raw.contains('\n')
    &&& raw.contains('=')
    &&& !(text::trimmed_start(raw).len() > 0 && text::trimmed_start(raw)[0] == '{')
}

/// One value or a list of them.
pub enum OneOrMany<T> {
    One(T),
    Many(Vec<T>),
}

impl<T> OneOrMany<T> {
    /// The values.
    pub open spec fn values(self) -> Seq<T> {
        match self {
            OneOrMany::One(value) => seq![value],
            OneOrMany::Many(values) => values@,
        }
    }
}

/// The values of `value` as a list.
pub fn one_or_many<T>(value: OneOrMany<T>) -> (out: Vec<T>)
    ensures
        out@ == value.values(),
{
    match value {
        OneOrMany::One(value) => {
            let mut out: Vec<T> = Vec::new();
            out.push(value);
            out
        },
        OneOrMany::Many(values) => values,
    }
}

/// Whether a rule is symmetric that does not say so.
pub fn default_true() -> (out: bool)
    ensures
        out,
{
    true
}

/// A tier as a document writes it.
pub enum RelayTierConfig {
    One(String),
    Many(Vec<String>),
}

impl RelayTierConfig {
    /// The relay names as they are written.
    pub open spec fn model(self) -> Seq<Seq<char>> {
        match self {
            RelayTierConfig::One(relay) => seq![relay@],
            RelayTierConfig::Many(relays) => text::texts(relays@),
        }
    }

    /// The tiers as they are written.
    pub open spec fn models(tiers: Seq<RelayTierConfig>) -> Seq<Seq<Seq<char>>> {
        tiers.map_values(|tier: RelayTierConfig| tier.model())
    }
}

/// Conditions on both clients.
pub struct EndpointPair {
    pub client_a: Matcher,
    pub client_b: Matcher,
}

impl Default for EndpointPair {
    fn default() -> (out: EndpointPair)
        ensures
            out.client_a.model() == MatcherModel::always(),
            out.client_b.model() == MatcherModel::always(),
    {
        EndpointPair { client_a: Matcher::default(), client_b: Matcher::default() }
    }
}

/// A rule as a document writes it.
pub struct RelayRuleConfig {
    pub name: String,
    pub symmetric: bool,
    pub matches: EndpointPair,
    pub relay_tiers: Vec<RelayTierConfig>,
}

impl RelayRuleConfig {
    /// The rule as it is written.
    pub open spec fn model(self) -> RuleModel {
        RuleModel {
            name: self.name@,
            symmetric: self.symmetric,
            client_a: self.matches.client_a.model(),
            client_b: self.matches.client_b.model(),
            relay_tiers: RelayTierConfig::models(self.relay_tiers@),
        }
    }

    /// The rules as they are written.
    pub open spec fn models(configs: Seq<RelayRuleConfig>) -> Seq<RuleModel> {
        configs.map_values(|config: RelayRuleConfig| config.model())
    }
}

/// A rule document.
pub struct RuleDocument {
    pub version: u8,
    pub rules: Vec<RelayRuleConfig>,
}

/// The rules of a decoded document, or what is wrong with it.
pub open spec fn document_rules(decoded: Result<RuleDocument, String>) -> Result<
    RuleSetModel,
    Seq<char>,
> {
    match decoded {
        Err(complaint) => Err("invalid GEO_RELAY_RULES YAML: "@ + complaint@),
        Ok(document) => if document.version != RULE_VERSION {
            Err(
                "unsupported GEO_RELAY_RULES version "@ + text::decimal(document.version as nat)
                    + "; expected "@ + text::decimal(RULE_VERSION as nat),
            )
        } else {
            RuleSetModel::compiled(RelayRuleConfig::models(document.rules@), RuleSyntax::YamlV2)
        },
    }
}

/// A rule that was found in order.
pub struct RelayRule {
    pub name: String,
    pub symmetric: bool,
    pub client_a: Matcher,
    pub client_b: Matcher,
    pub relay_tiers: Vec<Vec<String>>,
}

impl RelayRule {
    /// The rule with texts as sequences of characters.
    pub open spec fn model(self) -> RuleModel {
        RuleModel {
            name: self.name@,
            symmetric: self.symmetric,
            client_a: self.client_a.model(),
            client_b: self.client_b.model(),
            relay_tiers: tiers::tier_texts(self.relay_tiers@),
        }
    }

    /// The rules with texts as sequences of characters.
    pub open spec fn models(rules: Seq<RelayRule>) -> Seq<RuleModel> {
        rules.map_values(|rule: RelayRule| rule.model())
    }

    /// Whether the rule is for clients of which `facts_a` and `facts_b` are known.
    pub fn matches(&self, facts_a: &GeoFacts, facts_b: &GeoFacts) -> (out: bool)
        ensures
            out == self.model().is_for(facts_a@, facts_b@),
    {
        let direct: bool = self.client_a.matches(facts_a) && self.client_b.matches(facts_b);
        direct || (self.symmetric && self.client_a.matches(facts_b) && self.client_b.matches(
            facts_a,
        ))
    }
}

/// A relay and the rule that named it.
pub struct Selection {
    pub relay: String,
    pub rule_name: String,
}

/// Trims the relay names of a rule.
pub fn normalize_tiers(tiers: Vec<RelayTierConfig>, rule_name: &str) -> (out: Result<
    Vec<Vec<String>>,
    String,
>)
    ensures
        match out {
            Ok(clean) => clean_tiers(RelayTierConfig::models(tiers@), rule_name@) == Ok::<
                Seq<Seq<Seq<char>>>,
                Seq<char>,
            >(tiers::tier_texts(clean@)),
            Err(complaint) => clean_tiers(RelayTierConfig::models(tiers@), rule_name@) == Err::<
                Seq<Seq<Seq<char>>>,
                Seq<char>,
            >(complaint@),
        },
{
    let ghost models = RelayTierConfig::models(tiers@);
    let mut clean: Vec<Vec<String>> = Vec::new();
    let mut i: usize = 0;
    while i < tiers.len()
        invariant
            i <= tiers@.len(),
            models == RelayTierConfig::models(tiers@),
            clean@.len() == i,
            forall|j: int|
                0 <= j < i ==> text::texts((#[trigger] clean@[j])@) == text::kept(models[j]),
            forall|j: int| 0 <= j < i ==> text::kept(#[trigger] models[j]).len() > 0,
        decreases tiers.len() - i,
    {
        assert(models[i as int] == tiers@[i as int].model());
        let relays: Vec<String> = match &tiers[i] {
            RelayTierConfig::One(relay) => {
                let mut one: Vec<String> = Vec::new();
                one.push(relay.clone());
                assert(text::texts(one@) == models[i as int]);
                text::keep(&one)
            },
            RelayTierConfig::Many(relays) => text::keep(relays),
        };
        assert(text::texts(relays@).len() == relays@.len());
        if relays.len() == 0 {
            return Err(text::join3("rule '", rule_name, "' contains an empty relay tier"));
        }
        clean.push(relays);
        i = i + 1;
    }
    if clean.len() == 0 {
        return Err(text::join3("rule '", rule_name, "' has no relay_tiers"));
    }
    assert(tiers::tier_texts(clean@) == models.map_values(
        |tier: Seq<Seq<char>>| text::kept(tier),
    ));
    Ok(clean)
}

/// The tiers that the value of a one-line rule lists.
pub fn parse_legacy_tiers(raw: &str) -> (out: Result<Vec<Vec<String>>, String>)
    ensures
        match out {
            Ok(tiers) => legacy_tiers(raw@) == Ok::<Seq<Seq<Seq<char>>>, Seq<char>>(
                tiers::tier_texts(tiers@),
            ),
            Err(complaint) => legacy_tiers(raw@) == Err::<Seq<Seq<Seq<char>>>, Seq<char>>(
                complaint@,
            ),
        },
{
    let tiers: Vec<Vec<String>> = tiers::split_tiers(raw);
    assert(tiers::tier_texts(tiers@).len() == tiers@.len());
    if tiers.len() == 0 {
        Err(text::join("legacy rule has no relay servers: ", raw))
    } else {
        Ok(tiers)
    }
}

/// Whether `raw` is in the one-line notation.
pub fn looks_like_legacy(raw: &str) -> (out: bool)
    ensures
        out == is_legacy(raw@),
{
    !text::holds_char(raw, '\n') && text::holds_char(raw, '=') && !text::starts_with(
        text::trim_start(raw),
        '{',
    )
}

/// What reading rules came to, before any document is decoded.
pub enum ParseStep {
    /// The rules are read.
    Done(Result<RuleSet, String>),
    /// This text is a YAML document, to be decoded and handed to `RuleSet::from_document`.
    Decode(String),
}

/// Rules in the order in which they are tried.
pub struct RuleSet {
    rules: Vec<RelayRule>,
    syntax: RuleSyntax,
    requirements: DbRequirements,
}

impl RuleSet {
    /// What the set holds.
    pub closed spec fn model(self) -> RuleSetModel {
        RuleSetModel {
            rules: RelayRule::models(self.rules@),
            syntax: self.syntax,
            requirements: self.requirements,
        }
    }

    /// Whether `read` is what reading came to.
    pub open spec fn reads_as(
        read: Result<RuleSet, String>,
        set: Result<RuleSetModel, Seq<char>>,
    ) -> bool {
        match read {
            Ok(rules) => set == Ok::<RuleSetModel, Seq<char>>(rules.model()),
            Err(complaint) => set == Err::<RuleSetModel, Seq<char>>(complaint@),
        }
    }

    /// The set without rules.
    pub fn empty() -> (out: RuleSet)
        ensures
            out.model() == RuleSetModel::empty(RuleSyntax::YamlV2),
            out.model().well_formed(),
    {
        proof {
            RuleSetModel::empty_set_is_well_formed(RuleSyntax::YamlV2);
        }
        let out = RuleSet {
            rules: Vec::new(),
            syntax: RuleSyntax::YamlV2,
            requirements: DbRequirements::default(),
        };
        assert(out.model() == RuleSetModel::empty(RuleSyntax::YamlV2));
        out
    }

    /// Reads rules in the one-line notation, and says of any other text that it is a document.
    pub fn parse(raw: &str) -> (out: ParseStep)
        ensures
            match out {
                ParseStep::Done(read) => if text::is_blank(raw@) {
                    RuleSet::reads_as(read, Err("GEO_RELAY_RULES is empty"@))
                } else {
                    is_legacy(text::trimmed(raw@)) && RuleSet::reads_as(
                        read,
                        RuleSetModel::legacy(text::trimmed(raw@)),
                    )
                },
                ParseStep::Decode(document) => {
                    &&& !text::is_blank(raw@)
                    &&& !is_legacy(text::trimmed(raw@))
                    &&& document@ == text::trimmed(raw@)
                },
            },
            out matches ParseStep::Done(Ok(set)) ==> set.model().well_formed(),
    {
        let raw: &str = text::trim(raw);
        if raw.is_empty() {
            return ParseStep::Done(Err("GEO_RELAY_RULES is empty".to_owned()));
        }
        if looks_like_legacy(raw) {
            return ParseStep::Done(RuleSet::parse_legacy(raw));
        }
        ParseStep::Decode(raw.to_owned())
    }

    /// The rules of a decoded document, or of what decoding complained about.
    pub fn from_document(decoded: Result<RuleDocument, String>) -> (out: Result<RuleSet, String>)
        ensures
            RuleSet::reads_as(out, document_rules(decoded)),
            out matches Ok(set) ==> set.model().well_formed(),
    {
        let document: RuleDocument = match decoded {
            Ok(document) => document,
            Err(complaint) => {
                return Err(text::join("invalid GEO_RELAY_RULES YAML: ", complaint.as_str()));
            },
        };
        if document.version != RULE_VERSION {
            let found: String = text::number(document.version as usize);
            let expected: String = text::number(RULE_VERSION as usize);
            let start: String = text::join3(
                "unsupported GEO_RELAY_RULES version ",
                found.as_str(),
                "; expected ",
            );
            return Err(text::join(start.as_str(), expected.as_str()));
        }
        RuleSet::compile(document.rules, RuleSyntax::YamlV2)
    }

    /// Chooses a relay for clients of which `facts_a` and `facts_b` are known.
    pub fn select(
        &self,
        facts_a: &GeoFacts,
        facts_b: &GeoFacts,
        online_relays: &[String],
        rotation: &mut usize,
    ) -> (out: Option<Selection>)
        ensures
            match out {
                Some(selection) => Some((selection.relay@, selection.rule_name@)),
                None => None,
            } == choice(
                self.model().rules,
                facts_a@,
                facts_b@,
                text::texts(online_relays@),
                *old(rotation) as nat,
            ),
            *final(rotation) == tiers::turn_after(*old(rotation), out is Some),
    {
        let ghost rules = RelayRule::models(self.rules@);
        let ghost online = text::texts(online_relays@);
        let mut i: usize = 0;
        assert(rules.skip(0) == rules);
        while i < self.rules.len()
            invariant
                i <= self.rules@.len(),
                rules == RelayRule::models(self.rules@),
                online == text::texts(online_relays@),
                *rotation == *old(rotation),
                choice(rules.skip(i as int), facts_a@, facts_b@, online, *rotation as nat)
                    == choice(rules, facts_a@, facts_b@, online, *rotation as nat),
            decreases self.rules.len() - i,
        {
            let rule: &RelayRule = &self.rules[i];
            assert(rules.skip(i as int)[0] == rule.model());
            assert(rules.skip(i as int).drop_first() == rules.skip(i + 1));
            if rule.matches(facts_a, facts_b) {
                match tiers::select_from_tiers(&rule.relay_tiers, online_relays, rotation) {
                    Some(relay) => {
                        return Some(Selection { relay, rule_name: rule.name.clone() });
                    },
                    None => {},
                }
            }
            i = i + 1;
        }
        None
    }

    /// The number of rules.
    pub fn len(&self) -> (out: usize)
        ensures
            out == self.model().rules.len(),
    {
        self.rules.len()
    }

    /// The name of the notation that the rules were written in.
    pub fn syntax_name(&self) -> (out: &'static str)
        ensures
            out@ == self.model().syntax.name(),
    {
        match self.syntax {
            RuleSyntax::YamlV2 => "YAML v2",
            RuleSyntax::Legacy => "legacy single-line",
        }
    }

    /// The databases that the rules read.
    pub fn requirements(&self) -> (out: DbRequirements)
        ensures
            out == self.model().requirements,
    {
        self.requirements
    }

    /// Puts rules in order.
    pub fn compile(configs: Vec<RelayRuleConfig>, syntax: RuleSyntax) -> (out: Result<
        RuleSet,
        String,
    >)
        ensures
            RuleSet::reads_as(
                out,
                RuleSetModel::compiled(RelayRuleConfig::models(configs@), syntax),
            ),
            out matches Ok(set) ==> set.model().well_formed(),
    {
        proof {
            RuleSetModel::accepted_rules_are_kept(RelayRuleConfig::models(configs@), syntax);
        }
        if configs.len() == 0 {
            return Err("GEO_RELAY_RULES has no rules".to_owned());
        }
        let count: usize = configs.len();
        let ghost models = RelayRuleConfig::models(configs@);
        let mut set = RuleSet { rules: Vec::new(), syntax, requirements: DbRequirements::default() };
        proof {
            assert(set.model() == RuleSetModel::empty(syntax));
            assert(models.skip(0) == models);
        }
        for config in it: configs.into_iter()
            invariant
                it.seq() == configs@,
                models == RelayRuleConfig::models(configs@),
                models.len() == count,
                count > 0,
                set.rules@.len() == it.index(),
                set.model().with_rules(models.skip(it.index() as int)) == RuleSetModel::empty(
                    syntax,
                ).with_rules(models),
        {
            let ghost index = it.index() as int;
            let ghost before = set.model();
            assert(models.skip(index)[0] == config.model());
            assert(models.skip(index).drop_first() == models.skip(index + 1));
            let name: String = text::trim(config.name.as_str()).to_owned();
            if name.as_str().is_empty() {
                let place: String = text::number(set.rules.len() + 1);
                return Err(text::join3("rule ", place.as_str(), " has an empty name"));
            }
            if set.has_rule(name.as_str()) {
                return Err(text::join("duplicate rule name: ", name.as_str()));
            }
            match config.matches.client_a.validate(name.as_str()) {
                Ok(_) => {},
                Err(complaint) => {
                    return Err(complaint);
                },
            }
            match config.matches.client_b.validate(name.as_str()) {
                Ok(_) => {},
                Err(complaint) => {
                    return Err(complaint);
                },
            }
            set.requirements.merge(config.matches.client_a.requirements());
            set.requirements.merge(config.matches.client_b.requirements());
            let relay_tiers: Vec<Vec<String>> = match normalize_tiers(
                config.relay_tiers,
                name.as_str(),
            ) {
                Ok(relay_tiers) => relay_tiers,
                Err(complaint) => {
                    return Err(complaint);
                },
            };
            set.rules.push(
                RelayRule {
                    name,
                    symmetric: config.symmetric,
                    client_a: config.matches.client_a,
                    client_b: config.matches.client_b,
                    relay_tiers,
                },
            );
            assert(set.model().rules == before.rules.push(set.rules@[index].model()));
            assert(set.rules@[index].model() == RuleModel {
                name: name@,
                relay_tiers: tiers::tier_texts(relay_tiers@),
                ..config.model()
            });
            assert(set.model() == RuleSetModel {
                rules: before.rules.push(set.rules@[index].model()),
                requirements: before.requirements.union(config.model().needs()),
                ..before
            });
            assert(before.with_rule(config.model()) == Ok::<RuleSetModel, Seq<char>>(set.model()));
        }
        assert(models.skip(models.len() as int).len() == 0);
        Ok(set)
    }

    fn has_rule(&self, name: &str) -> (out: bool)
        ensures
            out == has_name(self.model().rules, name@),
    {
        let ghost rules = self.model().rules;
        let mut i: usize = 0;
        while i < self.rules.len()
            invariant
                i <= self.rules@.len(),
                rules == RelayRule::models(self.rules@),
                rules == self.model().rules,
                forall|j: int| 0 <= j < i ==> (#[trigger] rules[j]).name != name@,
            decreases self.rules.len() - i,
        {
            assert(rules[i as int] == self.rules@[i as int].model());
            if text::same(self.rules[i].name.as_str(), name) {
                return true;
            }
            i = i + 1;
        }
        false
    }

    /// Reads rules in the one-line notation.
    pub fn parse_legacy(raw: &str) -> (out: Result<RuleSet, String>)
        ensures
            RuleSet::reads_as(out, RuleSetModel::legacy(raw@)),
            out matches Ok(set) ==> set.model().well_formed(),
    {
        let items: Vec<String> = text::split_kept(raw, ';');
        let ghost whole = text::texts(items@);
        let mut configs: Vec<RelayRuleConfig> = Vec::new();
        let mut i: usize = 0;
        proof {
            assert(whole.skip(0) == whole);
            assert(RelayRuleConfig::models(configs@) == Seq::<RuleModel>::empty());
        }
        while i < items.len()
            invariant
                i <= items@.len(),
                whole == text::texts(items@),
                whole == text::kept(text::pieces(raw@, ';')),
                legacy_rules(RelayRuleConfig::models(configs@), whole.skip(i as int))
                    == legacy_rules(Seq::empty(), whole),
            decreases items.len() - i,
        {
            let ghost before = RelayRuleConfig::models(configs@);
            assert(whole.skip(i as int)[0] == items@[i as int]@);
            assert(whole.skip(i as int).drop_first() == whole.skip(i + 1));
            match parse_legacy_rule(items[i].as_str()) {
                Ok(config) => {
                    configs.push(config);
                    assert(RelayRuleConfig::models(configs@) == before.push(config.model()));
                },
                Err(complaint) => {
                    return Err(complaint);
                },
            }
            i = i + 1;
        }
        assert(whole.skip(i as int).len() == 0);
        RuleSet::compile(configs, RuleSyntax::Legacy)
    }
}

fn parse_legacy_rule(item: &str) -> (out: Result<RelayRuleConfig, String>)
    ensures
        match out {
            Ok(config) => legacy_rule(item@) == Ok::<RuleModel, Seq<char>>(config.model()),
            Err(complaint) => legacy_rule(item@) == Err::<RuleModel, Seq<char>>(complaint@),
        },
{
    let (raw_key, raw_value) = match text::split_once(item, '=') {
        Some(parts) => parts,
        None => {
            return Err(text::join("invalid legacy rule without '=': ", item));
        },
    };
    let key: String = text::to_uppercase(text::trim(raw_key));
    let matches: EndpointPair = if text::same(key.as_str(), "DEFAULT") {
        EndpointPair::default()
    } else {
        match text::split_once(key.as_str(), '-') {
            Some((a, b)) => {
                if !pairs::is_country_code(a) || !pairs::is_country_code(b) {
                    return Err(text::join("invalid legacy country pair: ", raw_key));
                }
                EndpointPair { client_a: Matcher::country(a), client_b: Matcher::country(b) }
            },
            None => {
                return Err(text::join("invalid legacy country pair: ", raw_key));
            },
        }
    };
    let listed: Vec<Vec<String>> = match parse_legacy_tiers(raw_value) {
        Ok(listed) => listed,
        Err(complaint) => {
            return Err(complaint);
        },
    };
    let mut relay_tiers: Vec<RelayTierConfig> = Vec::new();
    for tier in it: listed.into_iter()
        invariant
            it.seq() == listed@,
            RelayTierConfig::models(relay_tiers@) == tiers::tier_texts(
                listed@.take(it.index() as int),
            ),
    {
        let ghost before = RelayTierConfig::models(relay_tiers@);
        let ghost index = it.index() as int;
        relay_tiers.push(RelayTierConfig::Many(tier));
        assert(RelayTierConfig::models(relay_tiers@) == before.push(text::texts(tier@)));
        assert(tiers::tier_texts(listed@.take(index + 1)) == tiers::tier_texts(
            listed@.take(index),
        ).push(text::texts(tier@)));
    }
    assert(listed@.take(listed@.len() as int) == listed@);
    Ok(
        RelayRuleConfig {
            name: text::join("legacy-", key.as_str()),
            symmetric: true,
            matches,
            relay_tiers,
        },
    )
}

/// Whether the rule is for clients of which `a` and `b` are known, and has a relay online.
pub open spec fn serves(rule: RuleModel, a: FactsModel, b: FactsModel, online: Seq<Seq<char>>) -> bool {
    rule.is_for(a, b) && tiers::serving(rule.relay_tiers, online) is Some
}

/// The first rule that is for the clients and has a relay online decides; a rule that is for them
/// without one is passed over. Where there is no such rule, no relay is chosen.
pub proof fn first_serving_rule_decides(
    rules: Seq<RuleModel>,
    a: FactsModel,
    b: FactsModel,
    online: Seq<Seq<char>>,
    turn: nat,
)
    ensures
        match choice(rules, a, b, online, turn) {
            Some((relay, name)) => exists|i: int|
                {
                    &&& 0 <= i < rules.len()
                    &&& serves(#[trigger] rules[i], a, b, online)
                    &&& tiers::pick(rules[i].relay_tiers, online, turn) == Some(relay)
                    &&& rules[i].name == name
                    &&& forall|k: int| 0 <= k < i ==> !serves(#[trigger] rules[k], a, b, online)
                },
            None => forall|i: int|
                0 <= i < rules.len() ==> !serves(#[trigger] rules[i], a, b, online),
        },
    decreases rules.len(),
{
    if rules.len() > 0 && !serves(rules[0], a, b, online) {
        let rest = rules.drop_first();
        first_serving_rule_decides(rest, a, b, online, turn);
        match choice(rest, a, b, online, turn) {
            Some((relay, name)) => {
                let i = choose|i: int|
                    {
                        &&& 0 <= i < rest.len()
                        &&& serves(#[trigger] rest[i], a, b, online)
                        &&& tiers::pick(rest[i].relay_tiers, online, turn) == Some(relay)
                        &&& rest[i].name == name
                        &&& forall|k: int|
                            0 <= k < i ==> !serves(#[trigger] rest[k], a, b, online)
                    };
                assert(rules[i + 1] == rest[i]);
                assert forall|k: int| 0 <= k < i + 1 implies !serves(
                    #[trigger] rules[k],
                    a,
                    b,
                    online,
                ) by {
                    if k > 0 {
                        assert(rest[k - 1] == rules[k]);
                    }
                }
            },
            None => {
                assert forall|i: int| 0 <= i < rules.len() implies !serves(
                    #[trigger] rules[i],
                    a,
                    b,
                    online,
                ) by {
                    if i > 0 {
                        assert(rest[i - 1] == rules[i]);
                    }
                }
            },
        }
    }
}

/// A chosen relay is online, and a rule with the chosen name names it in one of its tiers.
pub proof fn chosen_relay_is_online(
    rules: Seq<RuleModel>,
    a: FactsModel,
    b: FactsModel,
    online: Seq<Seq<char>>,
    turn: nat,
)
    ensures
        choice(rules, a, b, online, turn) matches Some((relay, name)) ==> {
            &&& online.contains(relay)
            &&& exists|i: int, t: int|
                {
                    &&& 0 <= i < rules.len()
                    &&& 0 <= t < rules[i].relay_tiers.len()
                    &&& rules[i].name == name
                    &&& tiers::names(#[trigger] rules[i].relay_tiers[t], relay)
                }
        },
{
    first_serving_rule_decides(rules, a, b, online, turn);
    match choice(rules, a, b, online, turn) {
        Some((relay, name)) => {
            let i = choose|i: int|
                {
                    &&& 0 <= i < rules.len()
                    &&& serves(#[trigger] rules[i], a, b, online)
                    &&& tiers::pick(rules[i].relay_tiers, online, turn) == Some(relay)
                    &&& rules[i].name == name
                    &&& forall|k: int| 0 <= k < i ==> !serves(#[trigger] rules[k], a, b, online)
                };
            tiers::choice_is_online_and_foremost(rules[i].relay_tiers, online, turn);
            let tiers_of_rule = rules[i].relay_tiers;
            let t = choose|t: int|
                {
                    &&& 0 <= t < tiers_of_rule.len()
                    &&& tiers::names(#[trigger] tiers_of_rule[t], relay)
                    &&& forall|k: int|
                        0 <= k < t ==> !tiers::has_online(#[trigger] tiers_of_rule[k], online)
                };
            assert(tiers::names(rules[i].relay_tiers[t], relay));
        },
        None => {},
    }
}

/// Among symmetric rules, the choice does not depend on which client comes first.
pub proof fn symmetric_rules_ignore_order(
    rules: Seq<RuleModel>,
    a: FactsModel,
    b: FactsModel,
    online: Seq<Seq<char>>,
    turn: nat,
)
    requires
        forall|i: int| 0 <= i < rules.len() ==> (#[trigger] rules[i]).symmetric,
    ensures
        choice(rules, a, b, online, turn) == choice(rules, b, a, online, turn),
    decreases rules.len(),
{
    if rules.len() > 0 {
        assert(rules[0].symmetric);
        symmetric_rules_ignore_order(rules.drop_first(), a, b, online, turn);
    }
}

/// A rule that is not symmetric is for its first client and its second, in that order.
pub proof fn directed_rule_minds_order(rule: RuleModel, a: FactsModel, b: FactsModel)
    requires
        !rule.symmetric,
    ensures
        rule.is_for(a, b) == (rule.client_a.accepts(a) && rule.client_b.accepts(b)),
{
}

/// Whether nothing is wrong with a rule by itself.
pub open spec fn is_sound(config: RuleModel) -> bool {
    let name = text::trimmed(config.name);
    &&& name.len() > 0
    &&& config.client_a.fault(name) is None
    &&& config.client_b.fault(name) is None
    &&& config.relay_tiers.len() > 0
    &&& !has_empty_tier(config.relay_tiers)
}

/// The rule with a trimmed name and trimmed relay names.
pub open spec fn tidy(config: RuleModel) -> RuleModel {
    RuleModel {
        name: text::trimmed(config.name),
        relay_tiers: config.relay_tiers.map_values(|tier: Seq<Seq<char>>| text::kept(tier)),
        ..config
    }
}

/// Whether no two rules have one name, up to the white space around it.
pub open spec fn have_distinct_names(configs: Seq<RuleModel>) -> bool {
    forall|i: int, j: int|
        0 <= i < j < configs.len() ==> text::trimmed((#[trigger] configs[i]).name)
            != text::trimmed((#[trigger] configs[j]).name)
}

/// Whether none of `rules` has the name of one of `configs`.
pub open spec fn have_new_names(configs: Seq<RuleModel>, rules: Seq<RuleModel>) -> bool {
    forall|i: int|
        0 <= i < configs.len() ==> !has_name(rules, text::trimmed((#[trigger] configs[i]).name))
}

proof fn lemma_has_name_push(rules: Seq<RuleModel>, rule: RuleModel, name: Seq<char>)
    ensures
        has_name(rules.push(rule), name) == (has_name(rules, name) || rule.name == name),
{
    let more = rules.push(rule);
    if has_name(rules, name) {
        let i = choose|i: int| 0 <= i < rules.len() && (#[trigger] rules[i]).name == name;
        assert(more[i] == rules[i]);
    }
    if rule.name == name {
        assert(more[rules.len() as int] == rule);
    }
    if has_name(more, name) {
        let i = choose|i: int| 0 <= i < more.len() && (#[trigger] more[i]).name == name;
        if i < rules.len() {
            assert(rules[i] == more[i]);
        }
    }
}

impl RuleSetModel {
    proof fn lemma_with_rule(self, config: RuleModel)
        ensures
            self.with_rule(config) is Ok == (is_sound(config) && !has_name(
                self.rules,
                text::trimmed(config.name),
            )),
            self.with_rule(config) matches Ok(set) ==> set == (RuleSetModel {
                rules: self.rules.push(tidy(config)),
                requirements: self.requirements.union(config.needs()),
                ..self
            }),
    {
    }

    proof fn lemma_acceptance(self, configs: Seq<RuleModel>)
        ensures
            self.with_rules(configs) is Ok == {
                &&& forall|i: int| 0 <= i < configs.len() ==> is_sound(#[trigger] configs[i])
                &&& have_distinct_names(configs)
                &&& have_new_names(configs, self.rules)
            },
        decreases configs.len(),
    {
        if configs.len() > 0 {
            let first = configs[0];
            let rest = configs.drop_first();
            assert forall|i: int| 0 <= i < rest.len() implies #[trigger] rest[i] == configs[i + 1] by {}
            self.lemma_with_rule(first);
            let goal = {
                &&& forall|i: int| 0 <= i < configs.len() ==> is_sound(#[trigger] configs[i])
                &&& have_distinct_names(configs)
                &&& have_new_names(configs, self.rules)
            };
            match self.with_rule(first) {
                Err(_) => {
                    if goal {
                        assert(is_sound(configs[0]));
                        assert(!has_name(self.rules, text::trimmed(configs[0].name)));
                    }
                },
                Ok(set) => {
                    set.lemma_acceptance(rest);
                    let name = text::trimmed(first.name);
                    if goal {
                        assert forall|i: int| 0 <= i < rest.len() implies is_sound(
                            #[trigger] rest[i],
                        ) by {
                            assert(is_sound(configs[i + 1]));
                        }
                        assert forall|i: int, j: int| 0 <= i < j < rest.len() implies text::trimmed(
                            (#[trigger] rest[i]).name,
                        ) != text::trimmed((#[trigger] rest[j]).name) by {
                            assert(text::trimmed(configs[i + 1].name) != text::trimmed(
                                configs[j + 1].name,
                            ));
                        }
                        assert forall|i: int| 0 <= i < rest.len() implies !has_name(
                            set.rules,
                            text::trimmed((#[trigger] rest[i]).name),
                        ) by {
                            lemma_has_name_push(
                                self.rules,
                                tidy(first),
                                text::trimmed(rest[i].name),
                            );
                            assert(text::trimmed(configs[0].name) != text::trimmed(
                                configs[i + 1].name,
                            ));
                        }
                    }
                    if set.with_rules(rest) is Ok {
                        assert forall|i: int| 0 <= i < configs.len() implies is_sound(
                            #[trigger] configs[i],
                        ) by {
                            if i > 0 {
                                assert(is_sound(rest[i - 1]));
                            }
                        }
                        assert forall|i: int| 0 <= i < configs.len() implies !has_name(
                            self.rules,
                            text::trimmed((#[trigger] configs[i]).name),
                        ) by {
                            if i > 0 {
                                assert(!has_name(set.rules, text::trimmed(rest[i - 1].name)));
                                lemma_has_name_push(
                                    self.rules,
                                    tidy(first),
                                    text::trimmed(rest[i - 1].name),
                                );
                            }
                        }
                        assert forall|i: int, j: int|
                            0 <= i < j < configs.len() implies text::trimmed(
                            (#[trigger] configs[i]).name,
                        ) != text::trimmed((#[trigger] configs[j]).name) by {
                            assert(!has_name(set.rules, text::trimmed(rest[j - 1].name)));
                            lemma_has_name_push(
                                self.rules,
                                tidy(first),
                                text::trimmed(rest[j - 1].name),
                            );
                            if i > 0 {
                                assert(text::trimmed(rest[i - 1].name) != text::trimmed(
                                    rest[j - 1].name,
                                ));
                            }
                        }
                    }
                },
            }
        }
    }

    /// Rules are accepted where, and only where, there is one, nothing is wrong with any of them,
    /// and no two have one name.
    pub proof fn sound_rules_are_accepted(configs: Seq<RuleModel>, syntax: RuleSyntax)
        ensures
            RuleSetModel::compiled(configs, syntax) is Ok == {
                &&& configs.len() > 0
                &&& forall|i: int| 0 <= i < configs.len() ==> is_sound(#[trigger] configs[i])
                &&& have_distinct_names(configs)
            },
    {
        RuleSetModel::empty(syntax).lemma_acceptance(configs);
    }

    /// Whether the databases `read` are those that some rule reads.
    pub open spec fn reads_for_rules(read: DbRequirements, rules: Seq<RuleModel>) -> bool {
        &&& read.country == exists|i: int|
            0 <= i < rules.len() && (#[trigger] rules[i]).needs().country
        &&& read.city == exists|i: int| 0 <= i < rules.len() && (#[trigger] rules[i]).needs().city
        &&& read.asn == exists|i: int| 0 <= i < rules.len() && (#[trigger] rules[i]).needs().asn
    }

    proof fn lemma_reads_push(read: DbRequirements, rules: Seq<RuleModel>, rule: RuleModel)
        requires
            RuleSetModel::reads_for_rules(read, rules),
        ensures
            RuleSetModel::reads_for_rules(read.union(rule.needs()), rules.push(rule)),
    {
        let more = rules.push(rule);
        assert(more[rules.len() as int] == rule);
        assert forall|i: int| 0 <= i < rules.len() implies #[trigger] rules[i] == more[i] by {}
        if exists|i: int| 0 <= i < rules.len() && (#[trigger] rules[i]).needs().country {
            let i = choose|i: int| 0 <= i < rules.len() && (#[trigger] rules[i]).needs().country;
            assert(more[i].needs().country);
        }
        if exists|i: int| 0 <= i < rules.len() && (#[trigger] rules[i]).needs().city {
            let i = choose|i: int| 0 <= i < rules.len() && (#[trigger] rules[i]).needs().city;
            assert(more[i].needs().city);
        }
        if exists|i: int| 0 <= i < rules.len() && (#[trigger] rules[i]).needs().asn {
            let i = choose|i: int| 0 <= i < rules.len() && (#[trigger] rules[i]).needs().asn;
            assert(more[i].needs().asn);
        }
    }

    proof fn lemma_with_rules(self, configs: Seq<RuleModel>)
        requires
            RuleSetModel::reads_for_rules(self.requirements, self.rules),
        ensures
            self.with_rules(configs) matches Ok(set) ==> {
                &&& set.rules == self.rules + configs.map_values(|config: RuleModel| tidy(config))
                &&& set.syntax == self.syntax
                &&& RuleSetModel::reads_for_rules(set.requirements, set.rules)
            },
        decreases configs.len(),
    {
        let tidied = configs.map_values(|config: RuleModel| tidy(config));
        if configs.len() == 0 {
            assert(self.rules + tidied == self.rules);
        } else {
            self.lemma_with_rule(configs[0]);
            match self.with_rule(configs[0]) {
                Ok(set) => {
                    RuleSetModel::lemma_reads_push(
                        self.requirements,
                        self.rules,
                        tidy(configs[0]),
                    );
                    set.lemma_with_rules(configs.drop_first());
                    let rest = configs.drop_first().map_values(|config: RuleModel| tidy(config));
                    assert(set.rules + rest == self.rules + tidied);
                },
                Err(_) => {},
            }
        }
    }

    /// What every set of rules keeps: no two rules have one name, every rule has a trimmed name,
    /// sound conditions and usable tiers, and the databases are those that the rules read.
    pub open spec fn well_formed(self) -> bool {
        &&& forall|i: int|
            0 <= i < self.rules.len() ==> {
                let rule = #[trigger] self.rules[i];
                &&& text::is_trim(rule.name)
                &&& is_sound(rule)
                &&& tiers::is_usable(rule.relay_tiers)
            }
        &&& have_distinct_names(self.rules)
        &&& RuleSetModel::reads_for_rules(self.requirements, self.rules)
    }

    /// The set without rules is well formed.
    pub proof fn empty_set_is_well_formed(syntax: RuleSyntax)
        ensures
            RuleSetModel::empty(syntax).well_formed(),
    {
    }

    /// Accepted rules are kept in order, tidied, and make a well-formed set.
    pub proof fn accepted_rules_are_kept(configs: Seq<RuleModel>, syntax: RuleSyntax)
        ensures
            RuleSetModel::compiled(configs, syntax) matches Ok(set) ==> {
                &&& set.rules == configs.map_values(|config: RuleModel| tidy(config))
                &&& set.syntax == syntax
                &&& set.well_formed()
            },
    {
        let start = RuleSetModel::empty(syntax);
        RuleSetModel::empty_set_is_well_formed(syntax);
        start.lemma_with_rules(configs);
        RuleSetModel::sound_rules_are_accepted(configs, syntax);
        let tidied = configs.map_values(|config: RuleModel| tidy(config));
        assert(start.rules + tidied == tidied);
        match RuleSetModel::compiled(configs, syntax) {
            Ok(set) => {
                assert forall|i: int| 0 <= i < tidied.len() implies {
                    let rule = #[trigger] tidied[i];
                    &&& text::is_trim(rule.name)
                    &&& is_sound(rule)
                    &&& tiers::is_usable(rule.relay_tiers)
                } by {
                    lemma_tidy_is_sound(configs[i]);
                }
                assert forall|i: int, j: int| 0 <= i < j < tidied.len() implies text::trimmed(
                    (#[trigger] tidied[i]).name,
                ) != text::trimmed((#[trigger] tidied[j]).name) by {
                    text::trimming_settles(configs[i].name);
                    text::trimming_settles(configs[j].name);
                    assert(text::trimmed(configs[i].name) != text::trimmed(configs[j].name));
                }
            },
            Err(_) => {},
        }
    }

    /// The rules of the one-line notation are all symmetric, so that the choice among them does
    /// not depend on which client comes first.
    pub proof fn legacy_rules_ignore_order(
        raw: Seq<char>,
        a: FactsModel,
        b: FactsModel,
        online: Seq<Seq<char>>,
        turn: nat,
    )
        ensures
            RuleSetModel::legacy(raw) matches Ok(set) ==> {
                &&& set.well_formed()
                &&& set.syntax == RuleSyntax::Legacy
                &&& forall|i: int| 0 <= i < set.rules.len() ==> (#[trigger] set.rules[i]).symmetric
                &&& choice(set.rules, a, b, online, turn) == choice(set.rules, b, a, online, turn)
            },
    {
        let items = text::kept(text::pieces(raw, ';'));
        lemma_legacy_rules(Seq::empty(), items);
        match legacy_rules(Seq::empty(), items) {
            Ok(configs) => {
                RuleSetModel::accepted_rules_are_kept(configs, RuleSyntax::Legacy);
                match RuleSetModel::compiled(configs, RuleSyntax::Legacy) {
                    Ok(set) => {
                        assert forall|i: int| 0 <= i < set.rules.len() implies (
                        #[trigger] set.rules[i]).symmetric by {
                            assert(configs[i].symmetric);
                        }
                        symmetric_rules_ignore_order(set.rules, a, b, online, turn);
                    },
                    Err(_) => {},
                }
            },
            Err(_) => {},
        }
    }

    /// What a database says makes no difference to a set whose rules do not read it.
    pub proof fn unread_databases_do_not_matter(
        self,
        a: FactsModel,
        b: FactsModel,
        other_a: FactsModel,
        other_b: FactsModel,
        online: Seq<Seq<char>>,
        turn: nat,
    )
        requires
            self.well_formed(),
            matcher::agree(a, other_a, self.requirements),
            matcher::agree(b, other_b, self.requirements),
        ensures
            choice(self.rules, a, b, online, turn) == choice(
                self.rules,
                other_a,
                other_b,
                online,
                turn,
            ),
    {
        assert forall|i: int| 0 <= i < self.rules.len() implies (#[trigger] self.rules[i]).is_for(
            a,
            b,
        ) == self.rules[i].is_for(other_a, other_b) by {
            let rule = self.rules[i];
            assert(rule.needs().country ==> self.requirements.country);
            assert(rule.needs().city ==> self.requirements.city);
            assert(rule.needs().asn ==> self.requirements.asn);
            matcher::unread_databases_do_not_matter(rule.client_a, a, other_a);
            matcher::unread_databases_do_not_matter(rule.client_a, b, other_b);
            matcher::unread_databases_do_not_matter(rule.client_b, a, other_a);
            matcher::unread_databases_do_not_matter(rule.client_b, b, other_b);
        }
        lemma_same_choice(self.rules, a, b, other_a, other_b, online, turn);
    }
}

proof fn lemma_tidy_is_sound(config: RuleModel)
    requires
        is_sound(config),
    ensures
        text::is_trim(tidy(config).name),
        is_sound(tidy(config)),
        tiers::is_usable(tidy(config).relay_tiers),
{
    text::trimming_settles(config.name);
    let clean = tidy(config).relay_tiers;
    assert forall|i: int| 0 <= i < clean.len() implies tiers::is_usable_tier(#[trigger] clean[i])
        && text::kept(clean[i]).len() > 0 by {
        assert(clean[i] == text::kept(config.relay_tiers[i]));
        text::kept_parts_are_clean(config.relay_tiers[i]);
        text::clean_parts_are_kept(clean[i]);
    }
}

proof fn lemma_legacy_rules(rules: Seq<RuleModel>, items: Seq<Seq<char>>)
    requires
        forall|i: int| 0 <= i < rules.len() ==> (#[trigger] rules[i]).symmetric,
    ensures
        legacy_rules(rules, items) matches Ok(all) ==> forall|i: int|
            0 <= i < all.len() ==> (#[trigger] all[i]).symmetric,
    decreases items.len(),
{
    if items.len() > 0 {
        match legacy_rule(items[0]) {
            Ok(rule) => {
                lemma_legacy_rules(rules.push(rule), items.drop_first());
            },
            Err(_) => {},
        }
    }
}

proof fn lemma_same_choice(
    rules: Seq<RuleModel>,
    a: FactsModel,
    b: FactsModel,
    other_a: FactsModel,
    other_b: FactsModel,
    online: Seq<Seq<char>>,
    turn: nat,
)
    requires
        forall|i: int|
            0 <= i < rules.len() ==> (#[trigger] rules[i]).is_for(a, b) == rules[i].is_for(
                other_a,
                other_b,
            ),
    ensures
        choice(rules, a, b, online, turn) == choice(rules, other_a, other_b, online, turn),
    decreases rules.len(),
{
    if rules.len() > 0 {
        let rest = rules.drop_first();
        assert(rules[0].is_for(a, b) == rules[0].is_for(other_a, other_b));
        assert forall|i: int| 0 <= i < rest.len() implies (#[trigger] rest[i]).is_for(a, b)
            == rest[i].is_for(other_a, other_b) by {
            assert(rest[i] == rules[i + 1]);
        }
        lemma_same_choice(rest, a, b, other_a, other_b, online, turn);
    }
}

/// A symmetric rule is for two clients where its conditions hold of them in either order.
pub proof fn symmetric_rule_takes_either_order(rule: RuleModel, a: FactsModel, b: FactsModel)
    requires
        rule.symmetric,
    ensures
        rule.is_for(a, b) <==> {
            ||| rule.client_a.accepts(a) && rule.client_b.accepts(b)
            ||| rule.client_a.accepts(b) && rule.client_b.accepts(a)
        },
{
}

/// A rule reads the databases that the conditions on either client read.
pub proof fn rule_reads_for_both_clients(rule: RuleModel)
    ensures
        rule.needs().country == (rule.client_a.needs().country || rule.client_b.needs().country),
        rule.needs().city == (rule.client_a.needs().city || rule.client_b.needs().city),
        rule.needs().asn == (rule.client_a.needs().asn || rule.client_b.needs().asn),
{
}

/// Whether a tier names a relay: one of its names is not blank.
pub open spec fn names_a_relay(tier: Seq<Seq<char>>) -> bool {
    exists|j: int| 0 <= j < tier.len() && !text::is_blank(#[trigger] tier[j])
}

proof fn lemma_names_a_relay(tier: Seq<Seq<char>>)
    ensures
        (text::kept(tier).len() > 0) == names_a_relay(tier),
    decreases tier.len(),
{
    if tier.len() == 0 {
        text::clean_parts_are_kept(tier);
    } else {
        let (rest, last) = (tier.drop_last(), tier.last());
        lemma_names_a_relay(rest);
        text::lemma_kept_push(rest, last);
        assert(rest.push(last) == tier);
        if names_a_relay(rest) {
            let j = choose|j: int| 0 <= j < rest.len() && !text::is_blank(#[trigger] rest[j]);
            assert(tier[j] == rest[j]);
        }
        if names_a_relay(tier) {
            let j = choose|j: int| 0 <= j < tier.len() && !text::is_blank(#[trigger] tier[j]);
            if j < rest.len() {
                assert(rest[j] == tier[j]);
            }
        }
        if !text::is_blank(last) {
            assert(tier[tier.len() - 1] == last);
        }
    }
}

/// A rule is sound where its name is not blank, its conditions are in order, and it has tiers each
/// of which names a relay, and only there.
pub proof fn sound_rules_have_names_and_relays(config: RuleModel)
    ensures
        is_sound(config) <==> {
            &&& !text::is_blank(config.name)
            &&& config.client_a.fault(text::trimmed(config.name)) is None
            &&& config.client_b.fault(text::trimmed(config.name)) is None
            &&& config.relay_tiers.len() > 0
            &&& forall|t: int|
                0 <= t < config.relay_tiers.len() ==> names_a_relay(
                    #[trigger] config.relay_tiers[t],
                )
        },
{
    let tiers = config.relay_tiers;
    assert forall|t: int| 0 <= t < tiers.len() implies names_a_relay(#[trigger] tiers[t]) == (
    text::kept(tiers[t]).len() > 0) by {
        lemma_names_a_relay(tiers[t]);
    }
}

impl RuleSetModel {
    /// The rules of a set are those that were written, all of them and in their order: each with
    /// its name trimmed, its conditions and its direction as they were, and every tier with the
    /// names that are not blank.
    pub proof fn accepted_rules_are_those_written(
        configs: Seq<RuleModel>,
        syntax: RuleSyntax,
        i: int,
    )
        requires
            RuleSetModel::compiled(configs, syntax) is Ok,
            0 <= i < configs.len(),
        ensures
            ({
                let set = RuleSetModel::compiled(configs, syntax)->Ok_0;
                &&& set.syntax == syntax
                &&& set.rules.len() == configs.len()
                &&& set.rules[i].name == text::trimmed(configs[i].name)
                &&& set.rules[i].symmetric == configs[i].symmetric
                &&& set.rules[i].client_a == configs[i].client_a
                &&& set.rules[i].client_b == configs[i].client_b
                &&& set.rules[i].relay_tiers.len() == configs[i].relay_tiers.len()
                &&& forall|t: int|
                    0 <= t < configs[i].relay_tiers.len() ==> #[trigger] set.rules[i].relay_tiers[t]
                        == text::kept(configs[i].relay_tiers[t])
            }),
    {
        RuleSetModel::accepted_rules_are_kept(configs, syntax);
    }

    /// Rules whose names and relays are trimmed are kept as they are.
    pub proof fn clean_rules_are_kept_as_they_are(configs: Seq<RuleModel>, syntax: RuleSyntax)
        requires
            RuleSetModel::compiled(configs, syntax) is Ok,
            forall|i: int|
                0 <= i < configs.len() ==> text::is_trim((#[trigger] configs[i]).name)
                    && tiers::is_usable(configs[i].relay_tiers),
        ensures
            RuleSetModel::compiled(configs, syntax)->Ok_0.rules == configs,
    {
        let set = RuleSetModel::compiled(configs, syntax)->Ok_0;
        RuleSetModel::accepted_rules_are_kept(configs, syntax);
        assert forall|i: int| 0 <= i < configs.len() implies set.rules[i] == configs[i] by {
            let config = configs[i];
            text::trimming_settles(config.name);
            assert forall|t: int| 0 <= t < config.relay_tiers.len() implies text::kept(
                #[trigger] config.relay_tiers[t],
            ) == config.relay_tiers[t] by {
                assert(tiers::is_usable_tier(config.relay_tiers[t]));
                text::clean_parts_are_kept(config.relay_tiers[t]);
            }
            assert(tidy(config).relay_tiers =~= config.relay_tiers);
        }
        assert(set.rules =~= configs);
    }

    /// A rule is refused with the first thing that is wrong with it: a blank name, with the place
    /// of the rule; a name that a rule before it has; its conditions; its tiers.
    pub proof fn refused_rule_is_named(self, config: RuleModel)
        ensures
            ({
                let name = text::trimmed(config.name);
                let result = self.with_rule(config);
                let taken = exists|i: int|
                    0 <= i < self.rules.len() && (#[trigger] self.rules[i]).name == name;
                let nameless_tier = exists|t: int|
                    0 <= t < config.relay_tiers.len() && !names_a_relay(
                        #[trigger] config.relay_tiers[t],
                    );
                let (a, b) = (config.client_a.fault(name), config.client_b.fault(name));
                &&& name.len() == 0 ==> result == Err::<RuleSetModel, Seq<char>>(
                    "rule "@ + text::decimal(self.rules.len() + 1) + " has an empty name"@,
                )
                &&& name.len() > 0 && taken ==> result == Err::<RuleSetModel, Seq<char>>(
                    "duplicate rule name: "@ + name,
                )
                &&& name.len() > 0 && !taken && a is Some ==> result == Err::<
                    RuleSetModel,
                    Seq<char>,
                >(a->0)
                &&& name.len() > 0 && !taken && a is None && b is Some ==> result == Err::<
                    RuleSetModel,
                    Seq<char>,
                >(b->0)
                &&& name.len() > 0 && !taken && a is None && b is None && nameless_tier ==> result
                    == Err::<RuleSetModel, Seq<char>>(
                    "rule '"@ + name + "' contains an empty relay tier"@,
                )
                &&& name.len() > 0 && !taken && a is None && b is None && config.relay_tiers.len()
                    == 0 ==> result == Err::<RuleSetModel, Seq<char>>(
                    "rule '"@ + name + "' has no relay_tiers"@,
                )
            }),
    {
        let tiers = config.relay_tiers;
        assert forall|t: int| 0 <= t < tiers.len() implies names_a_relay(#[trigger] tiers[t]) == (
        text::kept(tiers[t]).len() > 0) by {
            lemma_names_a_relay(tiers[t]);
        }
        if exists|t: int| 0 <= t < tiers.len() && !names_a_relay(#[trigger] tiers[t]) {
            let t = choose|t: int| 0 <= t < tiers.len() && !names_a_relay(#[trigger] tiers[t]);
            assert(text::kept(tiers[t]).len() == 0);
            assert(has_empty_tier(tiers));
        }
    }

    /// Rules are taken in one after the other, and the first complaint ends it; a list without
    /// rules is refused.
    pub proof fn rules_are_taken_in_order(
        self,
        one: Seq<RuleModel>,
        other: Seq<RuleModel>,
        syntax: RuleSyntax,
    )
        ensures
            self.with_rules(one + other) == match self.with_rules(one) {
                Ok(set) => set.with_rules(other),
                Err(complaint) => Err(complaint),
            },
            one.len() > 0 ==> self.with_rules(seq![one[0]]) == self.with_rule(one[0]),
            one.len() > 0 ==> RuleSetModel::compiled(one, syntax) == RuleSetModel::empty(
                syntax,
            ).with_rules(one),
            RuleSetModel::compiled(Seq::empty(), syntax) == Err::<RuleSetModel, Seq<char>>(
                "GEO_RELAY_RULES has no rules"@,
            ),
        decreases one.len(),
    {
        if one.len() == 0 {
            assert(one + other == other);
        } else {
            assert((one + other)[0] == one[0]);
            assert((one + other).drop_first() == one.drop_first() + other);
            assert(seq![one[0]].drop_first() == Seq::<RuleModel>::empty());
            match self.with_rule(one[0]) {
                Ok(set) => {
                    set.rules_are_taken_in_order(one.drop_first(), other, syntax);
                    assert(set.with_rules(Seq::empty()) == Ok::<RuleSetModel, Seq<char>>(set));
                },
                Err(_) => {},
            }
        }
    }
}

/// A text is in the one-line notation where it is one line with an equals sign that does not
/// begin with a brace, whatever white space stands before it, and only there.
pub proof fn one_line_notation_is_told_by_its_signs(
    before: Seq<char>,
    s: Seq<char>,
)
    requires
        text::all_space(before),
        s.len() > 0 ==> !text::is_space(s[0]),
    ensures
        is_legacy(before + s) <==> {
            &&& forall|i: int| 0 <= i < (before + s).len() ==> #[trigger] (before + s)[i] != '\n'
            &&& exists|i: int| 0 <= i < s.len() && #[trigger] s[i] == '='
            &&& s[0] != '{'
        },
{
    let whole = before + s;
    text::lemma_start_of(before, s);
    assert(!text::is_space('='));
    if whole.contains('=') {
        let at = whole.index_of('=');
        if at < before.len() {
            assert(text::is_space(before[at]));
        }
        assert(s[at - before.len()] == '=');
    }
    if exists|i: int| 0 <= i < s.len() && #[trigger] s[i] == '=' {
        let i = choose|i: int| 0 <= i < s.len() && #[trigger] s[i] == '=';
        assert(whole[before.len() + i] == '=');
    }
    if whole.contains('\n') {
        let at = whole.index_of('\n');
        assert(whole[at] == '\n');
    }
}

/// A one-line rule for two countries is for clients in them, whichever comes first, has the tiers
/// that are written, and is called after the pair as it is written; one for everyone is for all.
pub proof fn one_line_rules_are_what_is_written(
    a: Seq<char>,
    b: Seq<char>,
    value: Seq<char>,
    x: FactsModel,
    y: FactsModel,
)
    requires
        pairs::is_country(a),
        pairs::is_country(b),
        tiers::tiers_of(value).len() > 0,
    ensures
        ({
            let pair = legacy_rule((a.push('-') + b).push('=') + value);
            let everyone = legacy_rule("DEFAULT"@.push('=') + value);
            let is_in = |facts: FactsModel, code: Seq<char>|
                facts.country is Some && text::alike(facts.country->0, code);
            &&& pair is Ok
            &&& pair->Ok_0.relay_tiers == tiers::tiers_of(value)
            &&& pair->Ok_0.symmetric
            &&& pair->Ok_0.name == "legacy-"@ + (text::uppercase(a).push('-') + text::uppercase(b))
            &&& pair->Ok_0.is_for(x, y) <==> (is_in(x, a) && is_in(y, b)) || (is_in(y, a) && is_in(
                x,
                b,
            ))
            &&& everyone is Ok
            &&& everyone->Ok_0.relay_tiers == tiers::tiers_of(value)
            &&& everyone->Ok_0.symmetric
            &&& everyone->Ok_0.name == "legacy-"@ + "DEFAULT"@
            &&& everyone->Ok_0.is_for(x, y)
        }),
{
    reveal_strlit("-");
    reveal_strlit("DEFAULT");
    let key = a.push('-') + b;
    assert(key =~= a + "-"@ + b);
    assert(pairs::is_letter(a[0]) && pairs::is_letter(a[1]) && pairs::is_letter(b[0])
        && pairs::is_letter(b[1]));
    assert(!key.contains('=')) by {
        assert(key.len() == 5);
        if key.contains('=') {
            let at = key.index_of('=');
            assert(key[at] == a[0] || key[at] == a[1] || key[at] == '-' || key[at] == b[0]
                || key[at] == b[1]);
        }
    }
    text::text_is_cut_at_its_first_separator(key, '=', value);
    pairs::lemma_written_pair(a, b);
    pairs::country_codes_settle(a);
    pairs::country_codes_settle(b);
    assert(pairs::code(key) =~= text::uppercase(a).push('-') + text::uppercase(b));
    let (code_a, code_b) = (pairs::code(a), pairs::code(b));
    matcher::country_condition_is_exact(code_a, x);
    matcher::country_condition_is_exact(code_a, y);
    matcher::country_condition_is_exact(code_b, x);
    matcher::country_condition_is_exact(code_b, y);
    assert(text::trimmed(code_a) == code_a) by {
        assert(pairs::is_letter(code_a[0]) && pairs::is_letter(code_a[1]));
        text::trimming_settles(code_a);
    }
    assert(text::trimmed(code_b) == code_b) by {
        assert(pairs::is_letter(code_b[0]) && pairs::is_letter(code_b[1]));
        text::trimming_settles(code_b);
    }
    assert(text::lowercase(code_a) =~= text::lowercase(a));
    assert(text::lowercase(code_b) =~= text::lowercase(b));
    assert(!"DEFAULT"@.contains('='));
    text::text_is_cut_at_its_first_separator("DEFAULT"@, '=', value);
    text::trimming_settles("DEFAULT"@);
    assert(text::uppercase("DEFAULT"@) =~= "DEFAULT"@);
    matcher::empty_condition_always_holds(x);
    matcher::empty_condition_always_holds(y);
}

/// The rules on one line stand between its semicolons, and those that are not blank are taken in
/// order: all of them, or none where something is wrong with one.
pub proof fn one_line_rules_stand_between_semicolons(parts: Seq<Seq<char>>, i: int)
    requires
        parts.len() > 0,
        forall|k: int| 0 <= k < parts.len() ==> !(#[trigger] parts[k]).contains(';'),
    ensures
        RuleSetModel::legacy(text::joined(parts, ';')) matches Ok(set) ==> {
            let items = text::kept(parts);
            &&& set.rules.len() == items.len()
            &&& set.syntax == RuleSyntax::Legacy
            &&& 0 <= i < items.len() ==> legacy_rule(items[i]) is Ok && {
                let rule = legacy_rule(items[i])->Ok_0;
                &&& set.rules[i].name == text::trimmed(rule.name)
                &&& set.rules[i].symmetric == rule.symmetric
                &&& set.rules[i].client_a == rule.client_a
                &&& set.rules[i].client_b == rule.client_b
                &&& set.rules[i].relay_tiers.len() == rule.relay_tiers.len()
                &&& forall|t: int|
                    0 <= t < rule.relay_tiers.len() ==> #[trigger] set.rules[i].relay_tiers[t]
                        == text::kept(rule.relay_tiers[t])
            }
        },
        0 <= i < text::kept(parts).len() && legacy_rule(text::kept(parts)[i]) is Err && (forall|
            k: int,
        |
            0 <= k < i ==> legacy_rule(#[trigger] text::kept(parts)[k]) is Ok)
            ==> RuleSetModel::legacy(text::joined(parts, ';')) == Err::<RuleSetModel, Seq<char>>(
            legacy_rule(text::kept(parts)[i])->Err_0,
        ),
{
    text::joined_parts_are_the_pieces(parts, ';');
    let items = text::kept(parts);
    lemma_legacy_each(Seq::empty(), items, i);
    match legacy_rules(Seq::empty(), items) {
        Ok(configs) => {
            if RuleSetModel::compiled(configs, RuleSyntax::Legacy) is Ok {
                if 0 <= i < items.len() {
                    assert(configs[i] == legacy_rule(items[i])->Ok_0);
                    RuleSetModel::accepted_rules_are_those_written(configs, RuleSyntax::Legacy, i);
                } else {
                    RuleSetModel::accepted_rules_are_kept(configs, RuleSyntax::Legacy);
                }
            }
        },
        Err(_) => {},
    }
}

proof fn lemma_legacy_each(rules: Seq<RuleModel>, items: Seq<Seq<char>>, i: int)
    ensures
        legacy_rules(rules, items) matches Ok(all) ==> {
            &&& all.len() == rules.len() + items.len()
            &&& forall|k: int| 0 <= k < rules.len() ==> #[trigger] all[k] == rules[k]
            &&& 0 <= i < items.len() ==> legacy_rule(items[i]) == Ok::<RuleModel, Seq<char>>(
                all[rules.len() + i],
            )
        },
        0 <= i < items.len() && legacy_rule(items[i]) is Err && (forall|k: int|
            0 <= k < i ==> legacy_rule(#[trigger] items[k]) is Ok) ==> legacy_rules(rules, items)
            == Err::<Seq<RuleModel>, Seq<char>>(legacy_rule(items[i])->Err_0),
    decreases items.len(),
{
    if items.len() > 0 {
        match legacy_rule(items[0]) {
            Ok(rule) => {
                let (more, rest) = (rules.push(rule), items.drop_first());
                lemma_legacy_each(more, rest, i - 1);
                if i > 0 && i < items.len() {
                    assert(rest[i - 1] == items[i]);
                    if forall|k: int| 0 <= k < i ==> legacy_rule(#[trigger] items[k]) is Ok {
                        assert forall|k: int| 0 <= k < i - 1 implies legacy_rule(#[trigger] rest[k])
                            is Ok by {
                            assert(rest[k] == items[k + 1]);
                        }
                    }
                }
                match legacy_rules(more, rest) {
                    Ok(all) => {
                        assert(all[rules.len() as int] == more[rules.len() as int]);
                        assert forall|k: int| 0 <= k < rules.len() implies #[trigger] all[k]
                            == rules[k] by {
                            assert(more[k] == rules[k]);
                        }
                    },
                    Err(_) => {},
                }
            },
            Err(_) => {
                if i > 0 && forall|k: int|
                    0 <= k < i ==> legacy_rule(#[trigger] items[k]) is Ok {
                    assert(legacy_rule(items[0]) is Ok);
                }
            },
        }
    }
}

/// A document of another version is refused, whatever its rules; the rules of one that is
/// understood are compiled as they are, and what decoding complained about is passed on.
pub proof fn documents_are_of_version_two(document: RuleDocument, complaint: String)
    ensures
        document.version != 2 ==> document_rules(Ok(document)) == Err::<
            RuleSetModel,
            Seq<char>,
        >(
            "unsupported GEO_RELAY_RULES version "@ + text::decimal(document.version as nat)
                + "; expected "@ + text::decimal(2),
        ),
        document.version == 2 ==> document_rules(Ok(document)) == RuleSetModel::compiled(
            RelayRuleConfig::models(document.rules@),
            RuleSyntax::YamlV2,
        ),
        document_rules(Err(complaint)) == Err::<RuleSetModel, Seq<char>>(
            "invalid GEO_RELAY_RULES YAML: "@ + complaint@,
        ),
{
}

/// The models of rules have all that is written in them, rule for rule and tier for tier; one
/// relay by itself is a tier of its own.
pub proof fn models_have_all_that_is_written(
    configs: Seq<RelayRuleConfig>,
    i: int,
    t: int,
    rules: Seq<RelayRule>,
    k: int,
)
    ensures
        RelayRuleConfig::models(configs).len() == configs.len(),
        0 <= i < configs.len() ==> {
            let (model, config) = (RelayRuleConfig::models(configs)[i], configs[i]);
            &&& model.name == config.name@
            &&& model.symmetric == config.symmetric
            &&& model.client_a == config.matches.client_a.model()
            &&& model.client_b == config.matches.client_b.model()
            &&& model.relay_tiers.len() == config.relay_tiers@.len()
            &&& 0 <= t < config.relay_tiers@.len() ==> model.relay_tiers[t]
                == match config.relay_tiers@[t] {
                RelayTierConfig::One(relay) => seq![relay@],
                RelayTierConfig::Many(relays) => text::texts(relays@),
            }
        },
        RelayRule::models(rules).len() == rules.len(),
        0 <= k < rules.len() ==> {
            let (model, rule) = (RelayRule::models(rules)[k], rules[k]);
            &&& model.name == rule.name@
            &&& model.symmetric == rule.symmetric
            &&& model.client_a == rule.client_a.model()
            &&& model.client_b == rule.client_b.model()
            &&& model.relay_tiers == tiers::tier_texts(rule.relay_tiers@)
        },
{
}

impl<T> OneOrMany<T> {
    /// One value is a list of one, and a list is itself.
    pub proof fn values_are_those_given(value: T, values: Vec<T>)
        ensures
            OneOrMany::One(value).values() == seq![value],
            OneOrMany::Many(values).values() == values@,
    {
    }
}

impl RuleSet {
    /// Reading that comes to a set gives that set, and reading that fails gives its reason.
    pub proof fn readings_are_what_they_came_to(
        read: Result<RuleSet, String>,
        set: Result<RuleSetModel, Seq<char>>,
    )
        requires
            RuleSet::reads_as(read, set),
        ensures
            read is Ok == set is Ok,
            read is Ok ==> read->Ok_0.model() == set->Ok_0,
            read is Err ==> read->Err_0@ == set->Err_0,
    {
    }
}

/// Where every rule on one line can be read, the set is the one of all these rules in their order.
pub proof fn one_line_rules_are_compiled(parts: Seq<Seq<char>>, configs: Seq<RuleModel>)
    requires
        parts.len() > 0,
        forall|k: int| 0 <= k < parts.len() ==> !(#[trigger] parts[k]).contains(';'),
        configs.len() == text::kept(parts).len(),
        forall|i: int|
            0 <= i < configs.len() ==> legacy_rule(text::kept(parts)[i]) == Ok::<
                RuleModel,
                Seq<char>,
            >(#[trigger] configs[i]),
    ensures
        RuleSetModel::legacy(text::joined(parts, ';')) == RuleSetModel::compiled(
            configs,
            RuleSyntax::Legacy,
        ),
{
    text::joined_parts_are_the_pieces(parts, ';');
    lemma_legacy_all(Seq::empty(), text::kept(parts), configs);
    assert(Seq::<RuleModel>::empty() + configs == configs);
}

proof fn lemma_legacy_all(rules: Seq<RuleModel>, items: Seq<Seq<char>>, configs: Seq<RuleModel>)
    requires
        configs.len() == items.len(),
        forall|i: int|
            0 <= i < configs.len() ==> legacy_rule(items[i]) == Ok::<RuleModel, Seq<char>>(
                #[trigger] configs[i],
            ),
    ensures
        legacy_rules(rules, items) == Ok::<Seq<RuleModel>, Seq<char>>(rules + configs),
    decreases items.len(),
{
    if items.len() == 0 {
        assert(rules + configs == rules);
    } else {
        let (rest, others) = (items.drop_first(), configs.drop_first());
        assert(legacy_rule(items[0]) == Ok::<RuleModel, Seq<char>>(configs[0]));
        assert forall|i: int| 0 <= i < others.len() implies legacy_rule(rest[i]) == Ok::<
            RuleModel,
            Seq<char>,
        >(#[trigger] others[i]) by {
            assert(others[i] == configs[i + 1]);
            assert(rest[i] == items[i + 1]);
        }
        lemma_legacy_all(rules.push(configs[0]), rest, others);
        assert(rules.push(configs[0]) + others == rules + configs);
    }
}

/// The keys of one-line rules are those of country-pair rules, and what stands around a key or
/// the case it is written in makes no difference. What cannot be read is named.
pub proof fn one_line_keys_are_those_of_pairs(
    key: Seq<char>,
    other_key: Seq<char>,
    value: Seq<char>,
)
    requires
        !key.contains('='),
        pairs::code(key) == pairs::code(other_key),
    ensures
        legacy_pair(key) is Ok == pairs::rule_key(key) is Ok,
        legacy_pair(key) is Ok ==> legacy_pair(other_key) == legacy_pair(key),
        legacy_rule(key.push('=') + value) is Ok <==> pairs::rule_key(key) is Ok && tiers::tiers_of(
            value,
        ).len() > 0,
        legacy_rule(key.push('=') + value) matches Ok(rule) ==> {
            &&& legacy_pair(key) == Ok::<(MatcherModel, MatcherModel), Seq<char>>(
                (rule.client_a, rule.client_b),
            )
            &&& rule.symmetric
            &&& rule.relay_tiers == tiers::tiers_of(value)
            &&& rule.name == "legacy-"@ + pairs::code(key)
        },
        pairs::rule_key(key) is Err ==> legacy_rule(key.push('=') + value) == Err::<
            RuleModel,
            Seq<char>,
        >("invalid legacy country pair: "@ + key),
        pairs::rule_key(key) is Ok && tiers::tiers_of(value).len() == 0 ==> legacy_rule(
            key.push('=') + value,
        ) == Err::<RuleModel, Seq<char>>("legacy rule has no relay servers: "@ + value),
        legacy_rule(key) == Err::<RuleModel, Seq<char>>("invalid legacy rule without '=': "@ + key),
{
    text::text_is_cut_at_its_first_separator(key, '=', value);
}

impl RuleSetModel {
    /// A set reads a database where, and only where, one of its rules does.
    pub proof fn set_reads_what_its_rules_read(configs: Seq<RuleModel>, syntax: RuleSyntax)
        ensures
            RuleSetModel::compiled(configs, syntax) matches Ok(set) ==> {
                &&& set.requirements.country <==> exists|i: int|
                    0 <= i < set.rules.len() && (#[trigger] set.rules[i]).needs().country
                &&& set.requirements.city <==> exists|i: int|
                    0 <= i < set.rules.len() && (#[trigger] set.rules[i]).needs().city
                &&& set.requirements.asn <==> exists|i: int|
                    0 <= i < set.rules.len() && (#[trigger] set.rules[i]).needs().asn
            },
    {
        RuleSetModel::accepted_rules_are_kept(configs, syntax);
    }
}

} // verus!
