//! The one-line notation means the same to country-pair rules and to ordered rules.
use vstd::prelude::*;

use crate::facts::FactsModel;
use crate::matcher;
use crate::pairs;
use crate::pairs::PairTable;
use crate::rules;
use crate::rules::{RuleModel, RuleSetModel, RuleSyntax};
use crate::text;
use crate::tiers;

verus! {

/// The key part of a one-line rule.
pub open spec fn key_of(item: Seq<char>) -> Seq<char> {
    match text::cut(item, '=') {
        Some((key, _)) => key,
        None => item,
    }
}

/// Whether a one-line rule is for everyone.
pub open spec fn is_default(item: Seq<char>) -> bool {
    pairs::code(key_of(item)) == "DEFAULT"@
}

/// Whether no rule stands behind one that is for everyone.
pub open spec fn default_is_last(items: Seq<Seq<char>>) -> bool {
    forall|i: int| 0 <= i < items.len() - 1 ==> !is_default(#[trigger] items[i])
}

/// The ordered rules that `items` write.
spec fn rule_list(items: Seq<Seq<char>>) -> Seq<RuleModel> {
    items.map_values(|item: Seq<char>| rules::legacy_rule(item)->Ok_0)
}

/// The relay of a choice.
pub open spec fn relay_of(choice: Option<(Seq<char>, Seq<char>)>) -> Option<Seq<char>> {
    match choice {
        Some((relay, _)) => Some(relay),
        None => None,
    }
}

proof fn lemma_item(table: PairTable, item: Seq<char>)
    requires
        table.with_item(item) is Ok,
    ensures
        rules::legacy_rule(item) is Ok,
        pairs::rule_key(key_of(item)) is Ok,
        rules::legacy_rule(item)->Ok_0.name == "legacy-"@ + pairs::code(key_of(item)),
        rules::is_sound(rules::legacy_rule(item)->Ok_0),
        rules::tidy(rules::legacy_rule(item)->Ok_0) == rules::legacy_rule(item)->Ok_0,
        tiers::is_usable(rules::legacy_rule(item)->Ok_0.relay_tiers),
{
    let rule = rules::legacy_rule(item)->Ok_0;
    let (key, value) = text::cut(item, '=')->0;
    tiers::listed_tiers_are_usable(value);
    assert(rule.relay_tiers == tiers::tiers_of(value));
    let tier_list = rule.relay_tiers;
    assert forall|i: int| 0 <= i < tier_list.len() implies text::kept(#[trigger] tier_list[i])
        == tier_list[i] && tier_list[i].len() > 0 by {
        assert(tiers::is_usable_tier(tier_list[i]));
        text::clean_parts_are_kept(tier_list[i]);
    }
    assert(rules::tidy(rule).relay_tiers =~= rule.relay_tiers);
    reveal_strlit("legacy-");
    text::trimming_settles(key);
    let code = pairs::code(key);
    assert(code.len() == text::trimmed(key).len());
    assert(rule.name.len() == 7 + code.len());
    assert(rule.name[0] == 'l');
    if code.len() > 0 {
        assert(rule.name.last() == code.last());
        assert(code.last() == text::upper_char(text::trimmed(key).last()));
    } else {
        assert(rule.name.last() == '-');
    }
    text::trimming_settles(rule.name);
    matcher::validation_reaches_everywhere(rule.client_a, rule.name);
    matcher::validation_reaches_everywhere(rule.client_b, rule.name);
    lemma_condition_is_clean(key);
}

proof fn lemma_condition_is_clean(key: Seq<char>)
    ensures
        rules::legacy_pair(key) matches Ok((a, b)) ==> !a.somewhere(matcher::is_faulty())
            && !b.somewhere(matcher::is_faulty()),
{
    match text::cut(pairs::code(key), '-') {
        Some((a, b)) => {
            if pairs::is_country(a) && pairs::is_country(b) {
                pairs::country_codes_settle(a);
                pairs::country_codes_settle(b);
                assert(pairs::is_letter(pairs::code(a)[0]) && pairs::is_letter(pairs::code(a)[1]));
                assert(pairs::is_letter(pairs::code(b)[0]) && pairs::is_letter(pairs::code(b)[1]));
                text::trimming_settles(pairs::code(a));
                text::trimming_settles(pairs::code(b));
            }
        },
        None => {},
    }
}

/// Whether `table` has a rule for `key` already.
spec fn is_taken(table: PairTable, key: Seq<char>) -> bool {
    if key == "DEFAULT"@ {
        table.fallback.len() > 0
    } else {
        table.by_pair.contains_key(key)
    }
}

proof fn lemma_taken_keys(table: PairTable, items: Seq<Seq<char>>, key: Seq<char>)
    requires
        table.with_items(items) is Ok,
        is_taken(table, key),
    ensures
        forall|i: int|
            0 <= i < items.len() ==> pairs::rule_key(key_of(#[trigger] items[i])) != Ok::<
                Seq<char>,
                Seq<char>,
            >(key),
    decreases items.len(),
{
    if items.len() > 0 {
        let rest = items.drop_first();
        let next = table.with_item(items[0])->Ok_0;
        lemma_taken_keys(next, rest, key);
        assert forall|i: int| 0 <= i < items.len() implies pairs::rule_key(
            key_of(#[trigger] items[i]),
        ) != Ok::<Seq<char>, Seq<char>>(key) by {
            if i > 0 {
                assert(rest[i - 1] == items[i]);
            }
        }
    }
}

proof fn lemma_items(table: PairTable, items: Seq<Seq<char>>)
    requires
        table.with_items(items) is Ok,
    ensures
        forall|i: int|
            0 <= i < items.len() ==> {
                let rule = rules::legacy_rule(#[trigger] items[i]);
                &&& rule is Ok
                &&& pairs::rule_key(key_of(items[i])) is Ok
                &&& rule->Ok_0.name == "legacy-"@ + pairs::code(key_of(items[i]))
                &&& rules::is_sound(rule->Ok_0)
                &&& rules::tidy(rule->Ok_0) == rule->Ok_0
            },
        forall|i: int, j: int|
            0 <= i < j < items.len() ==> pairs::rule_key(key_of(#[trigger] items[i]))
                != pairs::rule_key(key_of(#[trigger] items[j])),
    decreases items.len(),
{
    if items.len() > 0 {
        let rest = items.drop_first();
        let next = table.with_item(items[0])->Ok_0;
        lemma_item(table, items[0]);
        lemma_items(next, rest);
        let key = pairs::rule_key(key_of(items[0]))->Ok_0;
        assert(is_taken(next, key));
        lemma_taken_keys(next, rest, key);
        assert forall|i: int| 0 <= i < rest.len() implies #[trigger] rest[i] == items[i + 1] by {}
        assert forall|i: int| 0 <= i < items.len() implies {
            let rule = rules::legacy_rule(#[trigger] items[i]);
            &&& rule is Ok
            &&& pairs::rule_key(key_of(items[i])) is Ok
            &&& rule->Ok_0.name == "legacy-"@ + pairs::code(key_of(items[i]))
            &&& rules::is_sound(rule->Ok_0)
            &&& rules::tidy(rule->Ok_0) == rule->Ok_0
        } by {
            if i > 0 {
                assert(rest[i - 1] == items[i]);
            }
        }
        assert forall|i: int, j: int| 0 <= i < j < items.len() implies pairs::rule_key(
            key_of(#[trigger] items[i]),
        ) != pairs::rule_key(key_of(#[trigger] items[j])) by {
            assert(rest[j - 1] == items[j]);
            if i > 0 {
                assert(rest[i - 1] == items[i]);
            }
        }
    }
}

proof fn lemma_legacy_list(before: Seq<RuleModel>, items: Seq<Seq<char>>)
    requires
        forall|i: int| 0 <= i < items.len() ==> rules::legacy_rule(#[trigger] items[i]) is Ok,
    ensures
        rules::legacy_rules(before, items) == Ok::<Seq<RuleModel>, Seq<char>>(
            before + rule_list(items),
        ),
    decreases items.len(),
{
    if items.len() == 0 {
        assert(before + rule_list(items) == before);
    } else {
        let rule = rules::legacy_rule(items[0])->Ok_0;
        let rest = items.drop_first();
        assert(rules::legacy_rule(items[0]) is Ok);
        assert forall|i: int| 0 <= i < rest.len() implies rules::legacy_rule(
            #[trigger] rest[i],
        ) is Ok by {
            assert(rest[i] == items[i + 1]);
        }
        lemma_legacy_list(before.push(rule), rest);
        assert(before.push(rule) + rule_list(rest) == before + rule_list(items));
    }
}

/// A text in the one-line notation that makes country-pair rules makes ordered rules too, one for
/// each item and in the order of the items.
pub proof fn pair_rules_are_accepted_as_ordered_rules(raw: Seq<char>)
    requires
        PairTable::read(raw) is Ok,
    ensures
        RuleSetModel::legacy(raw) is Ok,
        RuleSetModel::legacy(raw)->Ok_0.rules.len() == text::kept(text::pieces(raw, ';')).len(),
{
    lemma_accepted(raw);
}

proof fn lemma_accepted(raw: Seq<char>)
    requires
        PairTable::read(raw) is Ok,
    ensures
        RuleSetModel::legacy(raw) is Ok,
        RuleSetModel::legacy(raw)->Ok_0.rules == rule_list(text::kept(text::pieces(raw, ';'))),
{
    let items = text::kept(text::pieces(raw, ';'));
    let configs = rule_list(items);
    lemma_items(PairTable::empty(), items);
    lemma_legacy_list(Seq::empty(), items);
    assert(Seq::<RuleModel>::empty() + configs == configs);
    if items.len() == 0 {
        assert(PairTable::empty().with_items(items) == Ok::<PairTable, Seq<char>>(
            PairTable::empty(),
        ));
        assert(false);
    }
    assert forall|i: int| 0 <= i < configs.len() implies rules::is_sound(#[trigger] configs[i])
        && rules::tidy(configs[i]) == configs[i] by {
        assert(configs[i] == rules::legacy_rule(items[i])->Ok_0);
    }
    assert forall|i: int, j: int| 0 <= i < j < configs.len() implies text::trimmed(
        (#[trigger] configs[i]).name,
    ) != text::trimmed((#[trigger] configs[j]).name) by {
        let one = pairs::code(key_of(items[i]));
        let other = pairs::code(key_of(items[j]));
        assert(configs[i] == rules::legacy_rule(items[i])->Ok_0);
        assert(configs[j] == rules::legacy_rule(items[j])->Ok_0);
        assert(rules::tidy(configs[i]) == configs[i]);
        assert(rules::tidy(configs[j]) == configs[j]);
        assert(configs[i].name == "legacy-"@ + one);
        assert(configs[j].name == "legacy-"@ + other);
        if configs[i].name == configs[j].name {
            assert(one == (configs[i].name).skip("legacy-"@.len() as int));
            assert(other == (configs[j].name).skip("legacy-"@.len() as int));
            assert(pairs::rule_key(key_of(items[i])) == pairs::rule_key(key_of(items[j])));
            assert(false);
        }
    }
    RuleSetModel::sound_rules_are_accepted(configs, RuleSyntax::Legacy);
    RuleSetModel::accepted_rules_are_kept(configs, RuleSyntax::Legacy);
    assert(configs.map_values(|config: RuleModel| rules::tidy(config)) == configs);
}

proof fn lemma_alike_countries(a: Seq<char>, b: Seq<char>)
    requires
        pairs::is_country(a),
        pairs::is_country(b),
    ensures
        text::alike(a, text::trimmed(pairs::code(b))) == (pairs::code(a) == pairs::code(b)),
{
    pairs::country_codes_settle(a);
    pairs::country_codes_settle(b);
    let code = pairs::code(b);
    assert(pairs::is_letter(a[0]) && pairs::is_letter(a[1]));
    assert(pairs::is_letter(b[0]) && pairs::is_letter(b[1]));
    assert(pairs::is_letter(code[0]) && pairs::is_letter(code[1]));
    text::trimming_settles(code);
    let low = text::lowercase(a);
    let other_low = text::lowercase(code);
    assert(low.len() == 2 && other_low.len() == 2);
    assert(low[0] == text::lower_char(a[0]) && low[1] == text::lower_char(a[1]));
    assert(other_low[0] == text::lower_char(code[0]) && other_low[1] == text::lower_char(code[1]));
    assert(pairs::code(a)[0] == text::upper_char(a[0]));
    assert(pairs::code(a)[1] == text::upper_char(a[1]));
    assert(code[0] == text::upper_char(b[0]));
    assert(code[1] == text::upper_char(b[1]));
    if low == other_low {
        assert(pairs::code(a) =~= code);
    }
    if pairs::code(a) == code {
        assert(low =~= other_low);
    }
}

proof fn lemma_same_key(a: Seq<char>, b: Seq<char>, x: Seq<char>, y: Seq<char>)
    requires
        pairs::is_country(a),
        pairs::is_country(b),
        pairs::is_country(x),
        pairs::is_country(y),
    ensures
        (pairs::pair_key(a, b) == pairs::pair_key(x, y)) == {
            ||| pairs::code(a) == pairs::code(x) && pairs::code(b) == pairs::code(y)
            ||| pairs::code(b) == pairs::code(x) && pairs::code(a) == pairs::code(y)
        },
{
    pairs::country_codes_settle(a);
    pairs::country_codes_settle(b);
    pairs::country_codes_settle(x);
    pairs::country_codes_settle(y);
    reveal_strlit("-");
    let key = pairs::pair_key(a, b);
    let other = pairs::pair_key(x, y);
    pairs::pair_key_ignores_order(a, b);
    if text::at_most(pairs::code(a), pairs::code(b)) {
        assert(key.take(2) == pairs::code(a));
        assert(key.skip(3) == pairs::code(b));
    } else {
        assert(key.take(2) == pairs::code(b));
        assert(key.skip(3) == pairs::code(a));
    }
    if text::at_most(pairs::code(x), pairs::code(y)) {
        assert(other.take(2) == pairs::code(x));
        assert(other.skip(3) == pairs::code(y));
    } else {
        assert(other.take(2) == pairs::code(y));
        assert(other.skip(3) == pairs::code(x));
    }
    text::order_is_total(pairs::code(a), pairs::code(b));
    text::order_is_total(pairs::code(x), pairs::code(y));
    if pairs::code(b) == pairs::code(x) && pairs::code(a) == pairs::code(y) {
        assert(pairs::pair_key(b, a) == pairs::pair_key(x, y));
    }
}

/// Whether a country that may be unknown is written as two letters.
pub open spec fn is_code_or_unknown(country: Option<Seq<char>>) -> bool {
    country matches Some(code) ==> pairs::is_country(code)
}

proof fn lemma_pair_rule(item: Seq<char>, a: FactsModel, b: FactsModel)
    requires
        rules::legacy_rule(item) is Ok,
        !is_default(item),
        is_code_or_unknown(a.country),
        is_code_or_unknown(b.country),
    ensures
        rules::legacy_rule(item)->Ok_0.is_for(a, b) == (a.country is Some && b.country is Some
            && pairs::rule_key(key_of(item)) == Ok::<Seq<char>, Seq<char>>(
            pairs::pair_key(a.country->0, b.country->0),
        )),
{
    let rule = rules::legacy_rule(item)->Ok_0;
    let (x, y) = text::cut(pairs::code(key_of(item)), '-')->0;
    matcher::country_condition_is_exact(pairs::code(x), a);
    matcher::country_condition_is_exact(pairs::code(x), b);
    matcher::country_condition_is_exact(pairs::code(y), a);
    matcher::country_condition_is_exact(pairs::code(y), b);
    if a.country is Some && b.country is Some {
        let one = a.country->0;
        let other = b.country->0;
        lemma_alike_countries(one, x);
        lemma_alike_countries(one, y);
        lemma_alike_countries(other, x);
        lemma_alike_countries(other, y);
        lemma_same_key(one, other, x, y);
    }
}

/// What `table` makes of clients of which `a` and `b` are known, with rules read after `before`.
spec fn table_choice(
    before: PairTable,
    table: PairTable,
    a: FactsModel,
    b: FactsModel,
    online: Seq<Seq<char>>,
    turn: nat,
) -> Option<Seq<char>> {
    if a.country is Some && b.country is Some && !before.by_pair.contains_key(
        pairs::pair_key(a.country->0, b.country->0),
    ) {
        table.choice(a.country, b.country, online, turn)
    } else {
        tiers::pick(table.fallback, online, turn)
    }
}

proof fn lemma_agreement(
    before: PairTable,
    items: Seq<Seq<char>>,
    a: FactsModel,
    b: FactsModel,
    online: Seq<Seq<char>>,
    turn: nat,
)
    requires
        before.with_items(items) is Ok,
        before.fallback.len() == 0,
        default_is_last(items),
        is_code_or_unknown(a.country),
        is_code_or_unknown(b.country),
    ensures
        relay_of(rules::choice(rule_list(items), a, b, online, turn)) == table_choice(
            before,
            before.with_items(items)->Ok_0,
            a,
            b,
            online,
            turn,
        ),
    decreases items.len(),
{
    if items.len() > 0 {
        let item = items[0];
        let rest = items.drop_first();
        let next = before.with_item(item)->Ok_0;
        let table = before.with_items(items)->Ok_0;
        let list = rule_list(items);
        let rule = rules::legacy_rule(item)->Ok_0;
        lemma_item(before, item);
        assert(list[0] == rule);
        assert(list.drop_first() == rule_list(rest));
        let (_, value) = text::cut(item, '=')->0;
        assert(rule.relay_tiers == tiers::tiers_of(value));
        if is_default(item) {
            assert(items.len() == 1) by {
                if items.len() > 1 {
                    assert(!is_default(items[0]));
                }
            }
            assert(rest.len() == 0);
            assert(table == next);
            matcher::empty_condition_always_holds(a);
            matcher::empty_condition_always_holds(b);
            assert(rule.is_for(a, b));
            assert(rule_list(rest).len() == 0);
        } else {
            lemma_pair_rule(item, a, b);
            assert(default_is_last(rest)) by {
                assert forall|i: int| 0 <= i < rest.len() - 1 implies !is_default(
                    #[trigger] rest[i],
                ) by {
                    assert(rest[i] == items[i + 1]);
                }
            }
            let key = pairs::rule_key(key_of(item))->Ok_0;
            pairs::keys_are_canonical(key_of(item));
            assert(key != "DEFAULT"@) by {
                let (x, y) = text::cut(pairs::code(key_of(item)), '-')->0;
                pairs::pair_keys_are_canonical(x, y);
                reveal_strlit("DEFAULT");
            }
            lemma_agreement(next, rest, a, b, online, turn);
            next.rules_are_never_overwritten(rest);
            assert(next.by_pair.contains_key(key));
            if rule.is_for(a, b) {
                assert(table.by_pair[key] == rule.relay_tiers);
            }
        }
    } else {
        assert(rule_list(items).len() == 0);
    }
}

/// A text in the one-line notation leads to the same relay by either reading, for clients whose
/// countries are known as codes or not at all. The rule for everyone, if there is one, must be
/// the last: ordered rules stop at it, country-pair rules come back to it.
pub proof fn both_readings_choose_alike(
    raw: Seq<char>,
    a: FactsModel,
    b: FactsModel,
    online: Seq<Seq<char>>,
    turn: nat,
)
    requires
        PairTable::read(raw) is Ok,
        default_is_last(text::kept(text::pieces(raw, ';'))),
        is_code_or_unknown(a.country),
        is_code_or_unknown(b.country),
    ensures
        RuleSetModel::legacy(raw) is Ok,
        relay_of(rules::choice(RuleSetModel::legacy(raw)->Ok_0.rules, a, b, online, turn))
            == PairTable::read(raw)->Ok_0.choice(a.country, b.country, online, turn),
{
    let items = text::kept(text::pieces(raw, ';'));
    lemma_accepted(raw);
    lemma_agreement(PairTable::empty(), items, a, b, online, turn);
}

} // verus!
