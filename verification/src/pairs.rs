//! Country-pair rules on one line: `CN-JP=relay-a,relay-b>relay-c;DEFAULT=relay-d`.
use vstd::hash_map::StringHashMap;
use vstd::prelude::*;

use crate::text;
use crate::tiers;

verus! {

/// Whether `s` is two ASCII letters.
pub open spec fn is_country(s: Seq<char>) -> bool {
    &&& s.len() == 2
    &&& forall|i: int| 0 <= i < 2 ==> is_letter(#[trigger] s[i])
}

/// Whether `c` is an ASCII letter.
pub open spec fn is_letter(c: char) -> bool {
    'a' <= c <= 'z' || 'A' <= c <= 'Z'
}

/// A country code as keys hold it.
pub open spec fn code(s: Seq<char>) -> Seq<char> {
    text::uppercase(text::trimmed(s))
}

/// The key of two countries, whichever comes first.
pub open spec fn pair_key(a: Seq<char>, b: Seq<char>) -> Seq<char> {
    if text::at_most(code(a), code(b)) {
        code(a) + "-"@ + code(b)
    } else {
        code(b) + "-"@ + code(a)
    }
}

/// The key that `raw` writes, or the reason why it writes none.
pub open spec fn rule_key(raw: Seq<char>) -> Result<Seq<char>, Seq<char>> {
    if code(raw) == "DEFAULT"@ {
        Ok(code(raw))
    } else {
        match text::cut(code(raw), '-') {
            Some((a, b)) if is_country(a) && is_country(b) => Ok(pair_key(a, b)),
            _ => Err("invalid country-pair key: "@ + raw),
        }
    }
}

/// The tiers that `raw` lists, or the reason why there are none.
pub open spec fn pair_tiers(raw: Seq<char>) -> Result<Seq<Seq<Seq<char>>>, Seq<char>> {
    if tiers::tiers_of(raw).len() > 0 {
        Ok(tiers::tiers_of(raw))
    } else {
        Err("Geo relay rule has no relay servers: "@ + raw)
    }
}

/// What a set of country-pair rules holds.
#[verifier::ext_equal]
pub struct PairTable {
    /// The tiers of each pair of countries.
    pub by_pair: Map<Seq<char>, Seq<Seq<Seq<char>>>>,
    /// The tiers where no pair serves.
    pub fallback: Seq<Seq<Seq<char>>>,
}

impl PairTable {
    /// The table without any rule.
    pub open spec fn empty() -> PairTable {
        PairTable { by_pair: Map::empty(), fallback: Seq::empty() }
    }

    /// The table with the rule that `item` writes, or the reason why it cannot have it.
    pub open spec fn with_item(self, item: Seq<char>) -> Result<PairTable, Seq<char>> {
        match text::cut(item, '=') {
            None => Err("invalid Geo relay rule without '=': "@ + item),
            Some((key, value)) => match (rule_key(key), pair_tiers(value)) {
                (Err(reason), _) => Err(reason),
                (Ok(_), Err(reason)) => Err(reason),
                (Ok(key), Ok(tiers)) => if key == "DEFAULT"@ {
                    if self.fallback.len() > 0 {
                        Err("duplicate DEFAULT Geo relay rule"@)
                    } else {
                        Ok(PairTable { by_pair: self.by_pair, fallback: tiers })
                    }
                } else if self.by_pair.contains_key(key) {
                    Err("duplicate Geo relay rule: "@ + key)
                } else {
                    Ok(
                        PairTable {
                            by_pair: self.by_pair.insert(key, tiers),
                            fallback: self.fallback,
                        },
                    )
                },
            },
        }
    }

    /// The table with the rules that `items` write, one after the other.
    pub open spec fn with_items(self, items: Seq<Seq<char>>) -> Result<PairTable, Seq<char>>
        decreases items.len(),
    {
        if items.len() == 0 {
            Ok(self)
        } else {
            match self.with_item(items[0]) {
                Ok(table) => table.with_items(items.drop_first()),
                Err(reason) => Err(reason),
            }
        }
    }

    /// The table that `raw` writes, or the reason why it writes none.
    pub open spec fn read(raw: Seq<char>) -> Result<PairTable, Seq<char>> {
        if text::is_blank(raw) {
            Err("GEO_RELAY_RULES is empty"@)
        } else {
            match PairTable::empty().with_items(text::kept(text::pieces(raw, ';'))) {
                Err(reason) => Err(reason),
                Ok(table) => if table == PairTable::empty() {
                    Err("GEO_RELAY_RULES has no usable rules"@)
                } else {
                    Ok(table)
                },
            }
        }
    }

    /// The relay for clients in the countries `a` and `b`, where they are known: one of their
    /// pair, else one of the fallback.
    pub open spec fn choice(
        self,
        a: Option<Seq<char>>,
        b: Option<Seq<char>>,
        online: Seq<Seq<char>>,
        turn: nat,
    ) -> Option<Seq<char>> {
        let by_pair = match (a, b) {
            (Some(a), Some(b)) if self.by_pair.contains_key(pair_key(a, b)) => tiers::pick(
                self.by_pair[pair_key(a, b)],
                online,
                turn,
            ),
            _ => None,
        };
        match by_pair {
            Some(relay) => Some(relay),
            None => tiers::pick(self.fallback, online, turn),
        }
    }
}

/// Country-pair rules.
pub struct RelayRules {
    /// The tiers of each pair of countries.
    pub by_pair: StringHashMap<Vec<Vec<String>>>,
    /// The tiers where no pair serves.
    pub fallback: Vec<Vec<String>>,
}

impl Default for RelayRules {
    fn default() -> (out: RelayRules)
        ensures
            out.model() == PairTable::empty(),
    {
        let out = RelayRules { by_pair: StringHashMap::new(), fallback: Vec::new() };
        assert(out.model() == PairTable::empty());
        out
    }
}

impl RelayRules {
    /// What the rules hold.
    pub open spec fn model(self) -> PairTable {
        PairTable {
            by_pair: self.by_pair@.map_values(
                |tiers: Vec<Vec<String>>| tiers::tier_texts(tiers@),
            ),
            fallback: tiers::tier_texts(self.fallback@),
        }
    }

    /// Whether `read` is what reading came to.
    pub open spec fn reads_as(
        read: Result<RelayRules, String>,
        table: Result<PairTable, Seq<char>>,
    ) -> bool {
        match read {
            Ok(rules) => table == Ok::<PairTable, Seq<char>>(rules.model()),
            Err(reason) => table == Err::<PairTable, Seq<char>>(reason@),
        }
    }

    /// Reads rules with `;` between them.
    pub fn parse(raw: &str) -> (out: Result<RelayRules, String>)
        ensures
            RelayRules::reads_as(out, PairTable::read(raw@)),
            out matches Ok(rules) ==> rules.model().well_formed(),
    {
        proof {
            PairTable::read_tables_are_well_formed(raw@);
        }
        if text::blank(raw) {
            return Err("GEO_RELAY_RULES is empty".to_owned());
        }
        let mut parsed = RelayRules::default();
        let items: Vec<String> = text::split_kept(raw, ';');
        let mut i: usize = 0;
        let ghost whole = text::texts(items@);
        assert(whole.skip(0) == whole);
        while i < items.len()
            invariant
                i <= items@.len(),
                whole == text::texts(items@),
                !text::is_blank(raw@),
                whole == text::kept(text::pieces(raw@, ';')),
                parsed.model().with_items(whole.skip(i as int)) == PairTable::empty().with_items(
                    whole,
                ),
            decreases items.len() - i,
        {
            let item: &str = items[i].as_str();
            assert(whole.skip(i as int)[0] == item@);
            assert(whole.skip(i as int).drop_first() == whole.skip(i + 1));
            let ghost before = parsed.model();
            let (raw_key, raw_value) = match text::split_once(item, '=') {
                Some(parts) => parts,
                None => {
                    return Err(text::join("invalid Geo relay rule without '=': ", item));
                },
            };
            let key: String = match normalize_rule_key(raw_key) {
                Ok(key) => key,
                Err(reason) => {
                    return Err(reason);
                },
            };
            let tiers: Vec<Vec<String>> = match parse_tiers(raw_value) {
                Ok(tiers) => tiers,
                Err(reason) => {
                    return Err(reason);
                },
            };
            if text::same(key.as_str(), "DEFAULT") {
                if parsed.fallback.len() > 0 {
                    return Err("duplicate DEFAULT Geo relay rule".to_owned());
                }
                parsed.fallback = tiers;
                assert(parsed.model() == PairTable {
                    by_pair: before.by_pair,
                    fallback: tiers::tier_texts(tiers@),
                });
            } else if parsed.by_pair.contains_key(key.as_str()) {
                return Err(text::join("duplicate Geo relay rule: ", key.as_str()));
            } else {
                parsed.by_pair.insert(key, tiers);
                assert(parsed.model() == PairTable {
                    by_pair: before.by_pair.insert(key@, tiers::tier_texts(tiers@)),
                    fallback: before.fallback,
                });
            }
            i = i + 1;
        }
        assert(whole.skip(i as int).len() == 0);
        if parsed.by_pair.is_empty() && parsed.fallback.len() == 0 {
            assert(parsed.model() == PairTable::empty());
            return Err("GEO_RELAY_RULES has no usable rules".to_owned());
        }
        proof {
            if parsed.model() == PairTable::empty() {
                assert(parsed.model().by_pair.dom() == parsed.by_pair@.dom());
                assert(parsed.by_pair@ == Map::<Seq<char>, Vec<Vec<String>>>::empty());
                assert(parsed.model().fallback.len() == parsed.fallback@.len());
                assert(false);
            }
        }
        Ok(parsed)
    }

    /// Chooses a relay for clients in the countries `a` and `b`, where they are known.
    pub fn select(
        &self,
        a: Option<&str>,
        b: Option<&str>,
        online: &[String],
        rotation: &mut usize,
    ) -> (out: Option<String>)
        ensures
            text::maybe_text(out) == self.model().choice(
                maybe_slice(a),
                maybe_slice(b),
                text::texts(online@),
                *old(rotation) as nat,
            ),
            *final(rotation) == tiers::turn_after(*old(rotation), out is Some),
    {
        if let (Some(a), Some(b)) = (a, b) {
            let key: String = country_pair_key(a, b);
            if let Some(tiers) = self.by_pair.get(key.as_str()) {
                let relay = tiers::select_from_tiers(tiers, online, rotation);
                if relay.is_some() {
                    return relay;
                }
            }
        }
        tiers::select_from_tiers(&self.fallback, online, rotation)
    }
}

/// The text that `t` refers to.
pub open spec fn maybe_slice(t: Option<&str>) -> Option<Seq<char>> {
    match t {
        Some(s) => Some(s@),
        None => None,
    }
}

/// The key that `raw` writes.
pub fn normalize_rule_key(raw: &str) -> (out: Result<String, String>)
    ensures
        match out {
            Ok(key) => rule_key(raw@) == Ok::<Seq<char>, Seq<char>>(key@),
            Err(reason) => rule_key(raw@) == Err::<Seq<char>, Seq<char>>(reason@),
        },
{
    let key: String = text::to_uppercase(text::trim(raw));
    if text::same(key.as_str(), "DEFAULT") {
        return Ok(key);
    }
    match text::split_once(key.as_str(), '-') {
        Some((a, b)) => {
            if is_country_code(a) && is_country_code(b) {
                return Ok(country_pair_key(a, b));
            }
        },
        None => {},
    }
    Err(text::join("invalid country-pair key: ", raw))
}

/// Whether `value` is two ASCII letters.
pub fn is_country_code(value: &str) -> (out: bool)
    ensures
        out == is_country(value@),
{
    let chars: Vec<char> = text::chars(value);
    if chars.len() != 2 {
        return false;
    }
    letter(chars[0]) && letter(chars[1])
}

fn letter(c: char) -> (out: bool)
    ensures
        out == is_letter(c),
{
    ('a' <= c && c <= 'z') || ('A' <= c && c <= 'Z')
}

/// The key of two countries, whichever comes first.
pub fn country_pair_key(a: &str, b: &str) -> (out: String)
    ensures
        out@ == pair_key(a@, b@),
{
    let a: String = text::to_uppercase(text::trim(a));
    let b: String = text::to_uppercase(text::trim(b));
    if text::in_order(a.as_str(), b.as_str()) {
        text::join3(a.as_str(), "-", b.as_str())
    } else {
        text::join3(b.as_str(), "-", a.as_str())
    }
}

/// The tiers that `raw` lists.
pub fn parse_tiers(raw: &str) -> (out: Result<Vec<Vec<String>>, String>)
    ensures
        match out {
            Ok(tiers) => pair_tiers(raw@) == Ok::<Seq<Seq<Seq<char>>>, Seq<char>>(
                tiers::tier_texts(tiers@),
            ),
            Err(reason) => pair_tiers(raw@) == Err::<Seq<Seq<Seq<char>>>, Seq<char>>(reason@),
        },
{
    let tiers: Vec<Vec<String>> = tiers::split_tiers(raw);
    assert(tiers::tier_texts(tiers@).len() == tiers@.len());
    if tiers.len() == 0 {
        Err(text::join("Geo relay rule has no relay servers: ", raw))
    } else {
        Ok(tiers)
    }
}

/// Two countries have one key, whichever is named first.
pub proof fn pair_key_ignores_order(a: Seq<char>, b: Seq<char>)
    ensures
        pair_key(a, b) == pair_key(b, a),
{
    text::order_is_total(code(a), code(b));
    if text::at_most(code(a), code(b)) && text::at_most(code(b), code(a)) {
        text::order_is_antisymmetric(code(a), code(b));
    }
}

/// The choice of a relay does not depend on which client comes first.
pub proof fn choice_ignores_order(
    table: PairTable,
    a: Option<Seq<char>>,
    b: Option<Seq<char>>,
    online: Seq<Seq<char>>,
    turn: nat,
)
    ensures
        table.choice(a, b, online, turn) == table.choice(b, a, online, turn),
{
    if a is Some && b is Some {
        pair_key_ignores_order(a->0, b->0);
    }
}

/// A chosen relay is online.
pub proof fn chosen_relay_is_online(
    table: PairTable,
    a: Option<Seq<char>>,
    b: Option<Seq<char>>,
    online: Seq<Seq<char>>,
    turn: nat,
)
    ensures
        table.choice(a, b, online, turn) matches Some(relay) ==> online.contains(relay),
{
    tiers::choice_is_online_and_foremost(table.fallback, online, turn);
    if a is Some && b is Some {
        tiers::choice_is_online_and_foremost(
            table.by_pair[pair_key(a->0, b->0)],
            online,
            turn,
        );
    }
}

/// A country code in upper case is one too, and stays as it is.
pub proof fn country_codes_settle(s: Seq<char>)
    requires
        is_country(s),
    ensures
        code(s) == text::uppercase(s),
        code(code(s)) == code(s),
        is_country(code(s)),
        code(s)[0] != '-',
        code(s)[1] != '-',
{
    assert(is_letter(s[0]) && is_letter(s[1]));
    text::trimming_settles(s);
    let u = text::uppercase(s);
    assert(u.len() == 2);
    assert(is_letter(u[0]) && is_letter(u[1]));
    text::trimming_settles(u);
    assert(text::uppercase(u) == u);
}

/// Whether `key` is two country codes in upper case and in order.
pub open spec fn is_canonical(key: Seq<char>) -> bool {
    exists|a: Seq<char>, b: Seq<char>|
        {
            &&& is_country(a)
            &&& is_country(b)
            &&& text::uppercase(a) == a
            &&& text::uppercase(b) == b
            &&& text::at_most(a, b)
            &&& key == #[trigger] (a + "-"@ + b)
        }
}

/// The key of two country codes is canonical, and the same for the codes in upper case.
pub proof fn pair_keys_are_canonical(a: Seq<char>, b: Seq<char>)
    requires
        is_country(a),
        is_country(b),
    ensures
        is_canonical(pair_key(a, b)),
        pair_key(code(a), code(b)) == pair_key(a, b),
        pair_key(a, b).len() == 5,
{
    country_codes_settle(a);
    country_codes_settle(b);
    text::order_is_total(code(a), code(b));
    reveal_strlit("-");
    if text::at_most(code(a), code(b)) {
        assert(pair_key(a, b) == code(a) + "-"@ + code(b));
    } else {
        assert(pair_key(a, b) == code(b) + "-"@ + code(a));
    }
}

/// Every key that is read is `DEFAULT` or two country codes in upper case and in order.
pub proof fn keys_are_canonical(raw: Seq<char>)
    ensures
        rule_key(raw) matches Ok(key) ==> key == "DEFAULT"@ || is_canonical(key),
{
    match text::cut(code(raw), '-') {
        Some((a, b)) => {
            if is_country(a) && is_country(b) {
                pair_keys_are_canonical(a, b);
            }
        },
        None => {},
    }
}

pub(crate) proof fn lemma_written_pair(a: Seq<char>, b: Seq<char>)
    requires
        is_country(a),
        is_country(b),
    ensures
        code(a + "-"@ + b) == code(a) + "-"@ + code(b),
        code(a + "-"@ + b) != "DEFAULT"@,
        text::cut(code(a + "-"@ + b), '-') == Some((code(a), code(b))),
{
    reveal_strlit("-");
    reveal_strlit("DEFAULT");
    let s = a + "-"@ + b;
    country_codes_settle(a);
    country_codes_settle(b);
    assert(is_letter(a[0]) && is_letter(b[1]));
    assert(s[0] == a[0] && s.last() == b[1]);
    text::trimming_settles(s);
    let u = text::uppercase(s);
    assert(u =~= code(a) + "-"@ + code(b));
    assert(u.len() == 5);
    text::position_is_first(u, '-', 2);
    assert(u.take(2) == code(a));
    assert(u.skip(3) == code(b));
}

/// The key of a pair is read from either order in which the pair can be written.
pub proof fn pair_is_read_in_either_order(a: Seq<char>, b: Seq<char>)
    requires
        is_country(a),
        is_country(b),
    ensures
        rule_key(a + "-"@ + b) == Ok::<Seq<char>, Seq<char>>(pair_key(a, b)),
        rule_key(b + "-"@ + a) == Ok::<Seq<char>, Seq<char>>(pair_key(a, b)),
{
    lemma_written_pair(a, b);
    lemma_written_pair(b, a);
    country_codes_settle(a);
    country_codes_settle(b);
    pair_keys_are_canonical(a, b);
    pair_keys_are_canonical(b, a);
    pair_key_ignores_order(a, b);
}

/// A key that was read is read again as itself.
pub proof fn keys_settle(raw: Seq<char>)
    ensures
        rule_key(raw) matches Ok(key) ==> rule_key(key) == Ok::<Seq<char>, Seq<char>>(key),
{
    if rule_key(raw) is Ok {
        let key = rule_key(raw)->Ok_0;
        if code(raw) == "DEFAULT"@ {
            reveal_strlit("DEFAULT");
            text::trimming_settles(key);
            assert(text::uppercase(key) == key);
        } else {
            let (a, b) = text::cut(code(raw), '-')->0;
            country_codes_settle(a);
            country_codes_settle(b);
            pair_keys_are_canonical(a, b);
            text::order_is_total(code(a), code(b));
            if text::at_most(code(a), code(b)) {
                pair_is_read_in_either_order(code(a), code(b));
            } else {
                pair_is_read_in_either_order(code(b), code(a));
            }
            pair_key_ignores_order(a, b);
            pair_key_ignores_order(code(a), code(b));
        }
    }
}

impl PairTable {
    /// Every key is canonical, and every list of tiers is usable.
    pub open spec fn well_formed(self) -> bool {
        &&& forall|key: Seq<char>| #[trigger]
            self.by_pair.contains_key(key) ==> is_canonical(key) && tiers::is_usable(
                self.by_pair[key],
            )
        &&& self.fallback.len() > 0 ==> tiers::is_usable(self.fallback)
    }

    proof fn lemma_with_item(self, item: Seq<char>)
        requires
            self.well_formed(),
        ensures
            self.with_item(item) matches Ok(table) ==> table.well_formed(),
    {
        match text::cut(item, '=') {
            Some((key, value)) => {
                keys_are_canonical(key);
                tiers::listed_tiers_are_usable(value);
            },
            None => {},
        }
    }

    proof fn lemma_with_items(self, items: Seq<Seq<char>>)
        requires
            self.well_formed(),
        ensures
            self.with_items(items) matches Ok(table) ==> table.well_formed(),
        decreases items.len(),
    {
        if items.len() > 0 {
            self.lemma_with_item(items[0]);
            match self.with_item(items[0]) {
                Ok(table) => {
                    table.lemma_with_items(items.drop_first());
                },
                Err(_) => {},
            }
        }
    }

    /// The rules that are read have canonical keys and usable tiers, and there is a rule.
    pub proof fn read_tables_are_well_formed(raw: Seq<char>)
        ensures
            PairTable::read(raw) matches Ok(table) ==> table.well_formed() && table
                != PairTable::empty(),
    {
        PairTable::empty().lemma_with_items(text::kept(text::pieces(raw, ';')));
    }

    /// Reading more rules leaves those that are there as they are.
    pub proof fn rules_are_never_overwritten(self, items: Seq<Seq<char>>)
        ensures
            self.with_items(items) matches Ok(table) ==> {
                &&& forall|key: Seq<char>| #[trigger]
                    self.by_pair.contains_key(key) ==> table.by_pair.contains_key(key)
                        && table.by_pair[key] == self.by_pair[key]
                &&& self.fallback.len() > 0 ==> table.fallback == self.fallback
            },
        decreases items.len(),
    {
        if items.len() > 0 {
            match self.with_item(items[0]) {
                Ok(table) => {
                    table.rules_are_never_overwritten(items.drop_first());
                    assert forall|key: Seq<char>| #[trigger]
                        self.by_pair.contains_key(key) implies table.by_pair.contains_key(key)
                        && table.by_pair[key] == self.by_pair[key] by {}
                },
                Err(_) => {},
            }
        }
    }

    /// A rule that is written for two countries serves clients of those countries, in either
    /// order, whatever is read after it: one of its relays where one is online.
    pub proof fn written_rule_serves(
        self,
        a: Seq<char>,
        b: Seq<char>,
        value: Seq<char>,
        items: Seq<Seq<char>>,
        online: Seq<Seq<char>>,
        turn: nat,
    )
        requires
            is_country(a),
            is_country(b),
            items.len() > 0,
            items[0] == a + "-"@ + b + "="@ + value,
            self.with_items(items) is Ok,
            tiers::pick(tiers::tiers_of(value), online, turn) is Some,
        ensures
            self.with_items(items)->Ok_0.choice(Some(a), Some(b), online, turn) == tiers::pick(
                tiers::tiers_of(value),
                online,
                turn,
            ),
            self.with_items(items)->Ok_0.choice(Some(b), Some(a), online, turn) == tiers::pick(
                tiers::tiers_of(value),
                online,
                turn,
            ),
    {
        let item = items[0];
        let key = a + "-"@ + b;
        reveal_strlit("-");
        reveal_strlit("=");
        reveal_strlit("DEFAULT");
        assert(key.len() == 5);
        assert forall|j: int| 0 <= j < 5 implies item[j] != '=' by {
            assert(is_letter(a[0]) && is_letter(a[1]) && is_letter(b[0]) && is_letter(b[1]));
            assert(item[j] == key[j]);
        }
        text::position_is_first(item, '=', 5);
        assert(item.take(5) == key);
        assert(item.skip(6) == value);
        pair_is_read_in_either_order(a, b);
        pair_keys_are_canonical(a, b);
        let table = self.with_item(item)->Ok_0;
        assert(table.by_pair.contains_key(pair_key(a, b)));
        table.rules_are_never_overwritten(items.drop_first());
        choice_ignores_order(
            self.with_items(items)->Ok_0,
            Some(a),
            Some(b),
            online,
            turn,
        );
    }
}

/// Two characters are a country code where, and only where, both are ASCII letters, and nothing
/// of another length is one.
pub proof fn two_letters_are_a_country_code(s: Seq<char>)
    ensures
        is_country(s) <==> {
            &&& s.len() == 2
            &&& 65 <= s[0] as int <= 90 || 97 <= s[0] as int <= 122
            &&& 65 <= s[1] as int <= 90 || 97 <= s[1] as int <= 122
        },
{
    if s.len() == 2 && is_letter(s[0]) && is_letter(s[1]) {
        assert forall|i: int| 0 <= i < 2 implies is_letter(#[trigger] s[i]) by {
            assert(i == 0 || i == 1);
        }
    }
}

/// A code is what is written, without the white space around it and in upper case.
pub proof fn codes_are_trimmed_and_in_upper_case(
    before: Seq<char>,
    s: Seq<char>,
    after: Seq<char>,
    i: int,
)
    requires
        text::all_space(before),
        text::is_trim(s),
        text::all_space(after),
        0 <= i < s.len(),
    ensures
        code(before + s + after).len() == s.len(),
        code(before + s + after)[i] as int == if 97 <= s[i] as int <= 122 {
            s[i] as int - 32
        } else {
            s[i] as int
        },
{
    text::white_space_around_is_taken_off(before, s, after);
    text::case_changes_ascii_letters_alone(s, i);
}

/// The key of two countries is the code that comes first in the alphabet, a hyphen, and the other.
pub proof fn pair_key_names_both_countries(a: Seq<char>, b: Seq<char>)
    requires
        text::at_most(code(a), code(b)),
    ensures
        pair_key(a, b) == code(a).push('-') + code(b),
        pair_key(b, a) == code(a).push('-') + code(b),
{
    reveal_strlit("-");
    pair_key_ignores_order(a, b);
    assert(code(a) + "-"@ + code(b) =~= code(a).push('-') + code(b));
}

/// Two pairs of countries have one key where, and only where, they are the same two countries, up
/// to case and order.
pub proof fn keys_tell_pairs_apart(a: Seq<char>, b: Seq<char>, c: Seq<char>, d: Seq<char>)
    requires
        is_country(a),
        is_country(b),
        is_country(c),
        is_country(d),
    ensures
        pair_key(a, b) == pair_key(c, d) <==> {
            ||| text::alike(a, c) && text::alike(b, d)
            ||| text::alike(a, d) && text::alike(b, c)
        },
{
    let (a2, b2, c2, d2) = (code(a), code(b), code(c), code(d));
    country_codes_settle(a);
    country_codes_settle(b);
    country_codes_settle(c);
    country_codes_settle(d);
    lemma_same_code(a, c);
    lemma_same_code(a, d);
    lemma_same_code(b, c);
    lemma_same_code(b, d);
    reveal_strlit("-");
    pair_key_ignores_order(a, b);
    pair_key_ignores_order(c, d);
    text::order_is_total(a2, b2);
    text::order_is_total(c2, d2);
    let (x, y) = if text::at_most(a2, b2) {
        (a2, b2)
    } else {
        (b2, a2)
    };
    let (u, v) = if text::at_most(c2, d2) {
        (c2, d2)
    } else {
        (d2, c2)
    };
    let (one, other) = (x + "-"@ + y, u + "-"@ + v);
    assert(pair_key(a, b) == one);
    assert(pair_key(c, d) == other);
    assert(one.take(2) == x && one.skip(3) == y);
    assert(other.take(2) == u && other.skip(3) == v);
    if (a2 == c2 && b2 == d2) || (a2 == d2 && b2 == c2) {
        if text::at_most(a2, b2) && text::at_most(b2, a2) {
            text::order_is_antisymmetric(a2, b2);
        }
        assert(one == other);
    }
}

proof fn lemma_same_code(a: Seq<char>, b: Seq<char>)
    requires
        is_country(a),
        is_country(b),
    ensures
        (code(a) == code(b)) == text::alike(a, b),
{
    country_codes_settle(a);
    country_codes_settle(b);
    text::texts_are_alike_letter_by_letter(a, b);
    let (x, y) = (text::uppercase(a), text::uppercase(b));
    assert(is_letter(a[0]) && is_letter(a[1]) && is_letter(b[0]) && is_letter(b[1]));
    if x == y {
        assert(x[0] == y[0] && x[1] == y[1]);
        assert forall|i: int| 0 <= i < a.len() implies text::same_letter(#[trigger] a[i], b[i]) by {
            assert(i == 0 || i == 1);
        }
    }
    if text::alike(a, b) {
        assert(text::same_letter(a[0], b[0]) && text::same_letter(a[1], b[1]));
        assert(x =~= y);
    }
}

/// Whatever the white space around it and its case, a pair of countries is read as its key, and
/// the word for everyone as itself.
pub proof fn keys_are_read_however_they_are_written(
    before: Seq<char>,
    a: Seq<char>,
    b: Seq<char>,
    word: Seq<char>,
    after: Seq<char>,
)
    requires
        text::all_space(before),
        is_country(a),
        is_country(b),
        text::alike(word, "DEFAULT"@),
        text::all_space(after),
    ensures
        rule_key(before + (a.push('-') + b) + after) == Ok::<Seq<char>, Seq<char>>(pair_key(a, b)),
        rule_key(before + word + after) == Ok::<Seq<char>, Seq<char>>("DEFAULT"@),
{
    reveal_strlit("-");
    reveal_strlit("DEFAULT");
    let pair = a.push('-') + b;
    assert(pair =~= a + "-"@ + b);
    assert(is_letter(a[0]) && is_letter(b[1]));
    assert(pair[0] == a[0] && pair.last() == b[1]);
    text::white_space_around_is_taken_off(before, pair, after);
    text::trimming_settles(pair);
    pair_is_read_in_either_order(a, b);
    lemma_written_pair(a, b);
    text::texts_are_alike_letter_by_letter(word, "DEFAULT"@);
    assert forall|i: int| 0 <= i < word.len() implies 65 <= (#[trigger] word[i]) as int <= 90 || 97
        <= word[i] as int <= 122 by {
        assert(text::same_letter(word[i], "DEFAULT"@[i]));
    }
    assert(word[0] as int >= 65 && word[6] as int >= 65);
    text::white_space_around_is_taken_off(before, word, after);
    assert(text::uppercase(word) =~= "DEFAULT"@) by {
        assert forall|i: int| 0 <= i < 7 implies text::uppercase(word)[i] == "DEFAULT"@[i] by {
            assert(text::same_letter(word[i], "DEFAULT"@[i]));
        }
    }
}

/// Nothing is read as a key but the word for everyone and two country codes with a hyphen between
/// them; anything else is named in the complaint.
pub proof fn only_pairs_and_default_are_keys(raw: Seq<char>)
    ensures
        match rule_key(raw) {
            Ok(key) => (key == "DEFAULT"@ && code(raw) == key) || exists|a: Seq<char>, b: Seq<char>|
                {
                    &&& is_country(a)
                    &&& is_country(b)
                    &&& code(raw) == #[trigger] (a.push('-') + b)
                    &&& key == pair_key(a, b)
                },
            Err(reason) => reason == "invalid country-pair key: "@ + raw,
        },
{
    match text::cut(code(raw), '-') {
        Some((a, b)) => {
            if is_country(a) && is_country(b) {
                lemma_cut(code(raw), '-');
                assert(code(raw) == a.push('-') + b);
            }
        },
        None => {},
    }
}

proof fn lemma_cut(s: Seq<char>, c: char)
    ensures
        text::cut(s, c) matches Some((a, b)) ==> s == a.push(c) + b && !a.contains(c),
        text::cut(s, c) is None ==> !s.contains(c),
{
    if s.contains(c) {
        let at = choose|at: int|
            0 <= at < s.len() && s[at] == c && forall|j: int| 0 <= j < at ==> s[j] != c;
        lemma_first(s, c);
        let (a, b) = (s.take(at), s.skip(at + 1));
        assert(s == a.push(c) + b);
        assert(!a.contains(c));
        text::text_is_cut_at_its_first_separator(a, c, b);
    } else {
        text::text_is_cut_at_its_first_separator(s, c, Seq::empty());
    }
}

proof fn lemma_first(s: Seq<char>, c: char)
    requires
        s.contains(c),
    ensures
        exists|at: int|
            0 <= at < s.len() && s[at] == c && forall|j: int| 0 <= j < at ==> s[j] != c,
    decreases s.len(),
{
    let k = s.index_of(c);
    let start = s.take(k);
    if start.contains(c) {
        lemma_first(start, c);
        let at = choose|at: int|
            0 <= at < start.len() && start[at] == c && forall|j: int|
                0 <= j < at ==> start[j] != c;
        assert(s[at] == c);
        assert forall|j: int| 0 <= j < at implies s[j] != c by {
            assert(start[j] == s[j]);
        }
    } else {
        assert forall|j: int| 0 <= j < k implies s[j] != c by {
            assert(start[j] == s[j]);
            assert(start[j] != c || start.contains(c));
        }
    }
}

impl PairTable {
    /// A rule is added under its key where the key is new and the rule names a relay; it is
    /// refused otherwise. What is there already stays.
    pub proof fn rules_are_added_under_their_keys(self, key: Seq<char>, value: Seq<char>)
        requires
            !key.contains('='),
        ensures
            match (rule_key(key), self.with_item(key.push('=') + value)) {
                (Err(reason), result) => result == Err::<PairTable, Seq<char>>(reason),
                (Ok(_), Err(reason)) if tiers::tiers_of(value).len() == 0 => reason
                    == "Geo relay rule has no relay servers: "@ + value,
                (Ok(name), Err(reason)) if name == "DEFAULT"@ => self.fallback.len() > 0 && reason
                    == "duplicate DEFAULT Geo relay rule"@,
                (Ok(name), Err(reason)) => self.by_pair.contains_key(name) && reason
                    == "duplicate Geo relay rule: "@ + name,
                (Ok(name), Ok(table)) if name == "DEFAULT"@ => {
                    &&& tiers::tiers_of(value).len() > 0
                    &&& self.fallback.len() == 0
                    &&& table.fallback == tiers::tiers_of(value)
                    &&& table.by_pair == self.by_pair
                },
                (Ok(name), Ok(table)) => {
                    &&& tiers::tiers_of(value).len() > 0
                    &&& !self.by_pair.contains_key(name)
                    &&& table.by_pair == self.by_pair.insert(name, tiers::tiers_of(value))
                    &&& table.fallback == self.fallback
                },
            },
            self.with_item(key) is Err,
    {
        text::text_is_cut_at_its_first_separator(key, '=', value);
    }

    /// Rules are read one after the other, and the first complaint ends the reading.
    pub proof fn rules_are_read_in_order(self, one: Seq<Seq<char>>, other: Seq<Seq<char>>)
        ensures
            self.with_items(Seq::empty()) == Ok::<PairTable, Seq<char>>(self),
            one.len() > 0 ==> self.with_items(seq![one[0]]) == self.with_item(one[0]),
            self.with_items(one + other) == match self.with_items(one) {
                Ok(table) => table.with_items(other),
                Err(reason) => Err(reason),
            },
        decreases one.len(),
    {
        if one.len() == 0 {
            assert(one + other == other);
        } else {
            assert((one + other)[0] == one[0]);
            assert((one + other).drop_first() == one.drop_first() + other);
            assert(seq![one[0]].drop_first() == Seq::<Seq<char>>::empty());
            match self.with_item(one[0]) {
                Ok(table) => {
                    table.rules_are_read_in_order(one.drop_first(), other);
                    assert(table.with_items(Seq::empty()) == Ok::<PairTable, Seq<char>>(table));
                },
                Err(_) => {},
            }
        }
    }

    proof fn lemma_not_empty(self, items: Seq<Seq<char>>)
        requires
            items.len() > 0,
        ensures
            self.with_items(items) matches Ok(table) ==> table != PairTable::empty(),
    {
        match self.with_item(items[0]) {
            Ok(table) => {
                table.rules_are_never_overwritten(items.drop_first());
                let (key, value) = text::cut(items[0], '=')->0;
                let name = rule_key(key)->Ok_0;
                if name == "DEFAULT"@ {
                    assert(table.fallback.len() > 0);
                } else {
                    assert(table.by_pair.contains_key(name));
                    match table.with_items(items.drop_first()) {
                        Ok(whole) => {
                            assert(whole.by_pair.contains_key(name));
                        },
                        Err(_) => {},
                    }
                }
            },
            Err(_) => {},
        }
    }

    /// The rules of a text stand between its semicolons: those that are not blank are read one
    /// after the other, without the white space around them.
    pub proof fn rules_stand_between_semicolons(parts: Seq<Seq<char>>)
        requires
            parts.len() > 0,
            forall|i: int| 0 <= i < parts.len() ==> !(#[trigger] parts[i]).contains(';'),
        ensures
            text::kept(parts).len() > 0 ==> PairTable::read(text::joined(parts, ';'))
                == PairTable::empty().with_items(text::kept(parts)),
            text::kept(parts).len() == 0 ==> PairTable::read(text::joined(parts, ';')) is Err,
    {
        let raw = text::joined(parts, ';');
        text::joined_parts_are_the_pieces(parts, ';');
        if text::kept(parts).len() > 0 {
            PairTable::empty().lemma_not_empty(text::kept(parts));
            if text::is_blank(raw) {
                lemma_blank(raw);
                lemma_no_semicolon(raw);
                text::separator_parts_the_pieces(raw, ';', Seq::empty());
                text::parts_are_kept_one_by_one(
                    Seq::empty(),
                    raw,
                    Seq::empty(),
                    Seq::empty(),
                    Seq::empty(),
                );
                assert(raw + Seq::<char>::empty() + Seq::<char>::empty() == raw);
                assert(false);
            }
        }
    }
}

proof fn lemma_blank(s: Seq<char>)
    requires
        text::is_blank(s),
    ensures
        text::all_space(s),
    decreases s.len(),
{
    if s.len() > 0 {
        if text::is_space(s[0]) {
            lemma_blank(s.drop_first());
            assert forall|i: int| 0 <= i < s.len() implies text::is_space(#[trigger] s[i]) by {
                if i > 0 {
                    assert(s.drop_first()[i - 1] == s[i]);
                }
            }
        } else {
            lemma_end_keeps(s);
        }
    }
}

proof fn lemma_end_keeps(s: Seq<char>)
    requires
        s.len() > 0,
        !text::is_space(s[0]),
    ensures
        text::trimmed_end(s).len() > 0,
    decreases s.len(),
{
    if text::is_space(s.last()) {
        assert(s.len() > 1);
        assert(s.drop_last()[0] == s[0]);
        lemma_end_keeps(s.drop_last());
    }
}

proof fn lemma_no_semicolon(s: Seq<char>)
    requires
        text::all_space(s),
    ensures
        !s.contains(';'),
{
    if s.contains(';') {
        assert(text::is_space(s[s.index_of(';')]));
    }
}

/// A rule for two countries.
pub struct PairRule {
    pub a: Seq<char>,
    pub b: Seq<char>,
    pub relay_tiers: Seq<Seq<Seq<char>>>,
}

impl PairRule {
    /// The text that writes the rule.
    pub open spec fn written(self) -> Seq<char> {
        (self.a.push('-') + self.b).push('=') + tiers::written(self.relay_tiers)
    }

    /// Whether the rule can be written: it is for two country codes and names relays, and no
    /// name holds a sign that the notation uses.
    pub open spec fn can_be_written(self) -> bool {
        &&& is_country(self.a)
        &&& is_country(self.b)
        &&& tiers::is_usable(self.relay_tiers)
        &&& tiers::are_plain(self.relay_tiers)
        &&& forall|i: int, j: int|
            0 <= i < self.relay_tiers.len() && 0 <= j < self.relay_tiers[i].len()
                ==> !(#[trigger] self.relay_tiers[i][j]).contains(';')
    }
}

/// The texts that write several rules.
pub open spec fn written_rules(rules: Seq<PairRule>) -> Seq<Seq<char>> {
    rules.map_values(|rule: PairRule| rule.written())
}

/// Whether no two rules are for the same two countries.
pub open spec fn have_distinct_pairs(rules: Seq<PairRule>) -> bool {
    forall|i: int, j: int|
        0 <= i < j < rules.len() ==> pair_key((#[trigger] rules[i]).a, rules[i].b) != pair_key(
            (#[trigger] rules[j]).a,
            rules[j].b,
        )
}

proof fn lemma_written_rule(rule: PairRule)
    requires
        rule.can_be_written(),
    ensures
        !rule.written().contains(';'),
        text::is_trim(rule.written()),
        !text::is_blank(rule.written()),
        !(rule.a.push('-') + rule.b).contains('='),
        rule_key(rule.a.push('-') + rule.b) == Ok::<Seq<char>, Seq<char>>(
            pair_key(rule.a, rule.b),
        ),
        pair_key(rule.a, rule.b) != "DEFAULT"@,
        tiers::tiers_of(tiers::written(rule.relay_tiers)) == rule.relay_tiers,
{
    reveal_strlit("-");
    reveal_strlit("DEFAULT");
    let (a, b) = (rule.a, rule.b);
    let key = a.push('-') + b;
    let value = tiers::written(rule.relay_tiers);
    let whole = rule.written();
    assert(is_letter(a[0]) && is_letter(a[1]) && is_letter(b[0]) && is_letter(b[1]));
    assert(key =~= a + "-"@ + b);
    pair_is_read_in_either_order(a, b);
    pair_keys_are_canonical(a, b);
    tiers::written_tiers_are_read_back(rule.relay_tiers);
    assert(key.len() == 5);
    assert forall|j: int| 0 <= j < 5 implies key[j] != '=' && key[j] != ';' by {
        assert(key[j] == a[0] || key[j] == a[1] || key[j] == '-' || key[j] == b[0] || key[j] == b[1]);
    }
    tiers::lemma_written(rule.relay_tiers);
    assert(whole[0] == a[0]);
    assert(whole.last() == value.last());
    if whole.contains(';') {
        let at = whole.index_of(';');
        if at < 5 {
            assert(key[at] == ';');
        } else if at > 5 {
            assert(value[at - 6] == ';');
        }
        assert(false);
    }
    text::trimming_settles(whole);
}

impl PairTable {
    proof fn lemma_written_items(self, rules: Seq<PairRule>)
        requires
            forall|i: int| 0 <= i < rules.len() ==> (#[trigger] rules[i]).can_be_written(),
            have_distinct_pairs(rules),
            forall|i: int|
                0 <= i < rules.len() ==> !self.by_pair.contains_key(
                    pair_key((#[trigger] rules[i]).a, rules[i].b),
                ),
        ensures
            self.with_items(written_rules(rules)) is Ok,
            ({
                let table = self.with_items(written_rules(rules))->Ok_0;
                &&& forall|i: int|
                    0 <= i < rules.len() ==> {
                        let key = pair_key((#[trigger] rules[i]).a, rules[i].b);
                        table.by_pair.contains_key(key) && table.by_pair[key]
                            == rules[i].relay_tiers
                    }
                &&& forall|key: Seq<char>| #[trigger]
                    table.by_pair.contains_key(key) ==> self.by_pair.contains_key(key)
                        || exists|i: int|
                        0 <= i < rules.len() && key == pair_key((#[trigger] rules[i]).a, rules[i].b)
                &&& table.fallback == self.fallback
            }),
        decreases rules.len(),
    {
        let items = written_rules(rules);
        if rules.len() > 0 {
            let rule = rules[0];
            let rest = rules.drop_first();
            let key = pair_key(rule.a, rule.b);
            lemma_written_rule(rule);
            self.rules_are_added_under_their_keys(
                rule.a.push('-') + rule.b,
                tiers::written(rule.relay_tiers),
            );
            assert(items[0] == rule.written());
            assert(!self.by_pair.contains_key(key));
            assert(rule.relay_tiers.len() > 0);
            assert(self.with_item(items[0]) is Ok);
            let table = self.with_item(items[0])->Ok_0;
            assert(items.drop_first() == written_rules(rest));
            assert forall|i: int| 0 <= i < rest.len() implies (#[trigger] rest[i]).can_be_written()
                && !table.by_pair.contains_key(pair_key(rest[i].a, rest[i].b)) by {
                assert(rest[i] == rules[i + 1]);
                assert(pair_key(rules[0].a, rules[0].b) != pair_key(
                    rules[i + 1].a,
                    rules[i + 1].b,
                ));
            }
            assert forall|i: int, j: int| 0 <= i < j < rest.len() implies pair_key(
                (#[trigger] rest[i]).a,
                rest[i].b,
            ) != pair_key((#[trigger] rest[j]).a, rest[j].b) by {
                assert(rest[i] == rules[i + 1]);
                assert(rest[j] == rules[j + 1]);
            }
            table.lemma_written_items(rest);
            table.rules_are_never_overwritten(items.drop_first());
            let whole = table.with_items(items.drop_first())->Ok_0;
            assert forall|i: int| 0 <= i < rules.len() implies {
                let key = pair_key((#[trigger] rules[i]).a, rules[i].b);
                whole.by_pair.contains_key(key) && whole.by_pair[key] == rules[i].relay_tiers
            } by {
                if i == 0 {
                    assert(table.by_pair.contains_key(key));
                } else {
                    assert(rest[i - 1] == rules[i]);
                }
            }
            assert forall|key: Seq<char>| #[trigger]
                whole.by_pair.contains_key(key) implies self.by_pair.contains_key(key)
                || exists|i: int|
                0 <= i < rules.len() && key == pair_key((#[trigger] rules[i]).a, rules[i].b) by {
                if !table.by_pair.contains_key(key) {
                    let i = choose|i: int|
                        0 <= i < rest.len() && key == pair_key((#[trigger] rest[i]).a, rest[i].b);
                    assert(rest[i] == rules[i + 1]);
                } else if !self.by_pair.contains_key(key) {
                    assert(key == pair_key(rules[0].a, rules[0].b));
                }
            }
        }
    }

    /// Rules that are written on one line are read back as they were: every pair has just the
    /// tiers that were written for it, no other pair has any, and there is no fallback.
    pub proof fn written_rules_are_read_back(rules: Seq<PairRule>)
        requires
            rules.len() > 0,
            forall|i: int| 0 <= i < rules.len() ==> (#[trigger] rules[i]).can_be_written(),
            have_distinct_pairs(rules),
        ensures
            PairTable::read(text::joined(written_rules(rules), ';')) is Ok,
            ({
                let table = PairTable::read(text::joined(written_rules(rules), ';'))->Ok_0;
                &&& forall|i: int|
                    0 <= i < rules.len() ==> {
                        let key = pair_key((#[trigger] rules[i]).a, rules[i].b);
                        table.by_pair.contains_key(key) && table.by_pair[key]
                            == rules[i].relay_tiers
                    }
                &&& forall|key: Seq<char>| #[trigger]
                    table.by_pair.contains_key(key) ==> exists|i: int|
                        0 <= i < rules.len() && key == pair_key((#[trigger] rules[i]).a, rules[i].b)
                &&& table.fallback.len() == 0
            }),
    {
        let items = written_rules(rules);
        assert forall|i: int| 0 <= i < items.len() implies !(#[trigger] items[i]).contains(';')
            && text::is_trim(items[i]) && !text::is_blank(items[i]) by {
            assert(items[i] == rules[i].written());
            lemma_written_rule(rules[i]);
        }
        text::clean_parts_are_kept(items);
        PairTable::rules_stand_between_semicolons(items);
        PairTable::empty().lemma_written_items(rules);
    }

    /// Rules for pairs and one for everyone behind them are read back as they were, the last of
    /// them as the fallback.
    pub proof fn written_fallback_is_read_back(
        rules: Seq<PairRule>,
        fallback: Seq<Seq<Seq<char>>>,
    )
        requires
            forall|i: int| 0 <= i < rules.len() ==> (#[trigger] rules[i]).can_be_written(),
            have_distinct_pairs(rules),
            tiers::is_usable(fallback),
            tiers::are_plain(fallback),
            forall|i: int, j: int|
                0 <= i < fallback.len() && 0 <= j < fallback[i].len()
                    ==> !(#[trigger] fallback[i][j]).contains(';'),
        ensures
            ({
                let everyone = "DEFAULT"@.push('=') + tiers::written(fallback);
                let raw = text::joined(written_rules(rules).push(everyone), ';');
                &&& PairTable::read(raw) matches Ok(table)
                &&& table.fallback == fallback
                &&& forall|i: int|
                    0 <= i < rules.len() ==> {
                        let key = pair_key((#[trigger] rules[i]).a, rules[i].b);
                        table.by_pair.contains_key(key) && table.by_pair[key]
                            == rules[i].relay_tiers
                    }
                &&& forall|key: Seq<char>| #[trigger]
                    table.by_pair.contains_key(key) ==> exists|i: int|
                        0 <= i < rules.len() && key == pair_key((#[trigger] rules[i]).a, rules[i].b)
            }),
    {
        let value = tiers::written(fallback);
        let everyone = "DEFAULT"@.push('=') + value;
        let items = written_rules(rules).push(everyone);
        reveal_strlit("DEFAULT");
        tiers::lemma_written(fallback);
        tiers::written_tiers_are_read_back(fallback);
        if everyone.contains(';') {
            let at = everyone.index_of(';');
            if at > 7 {
                assert(value[at - 8] == ';');
            }
            assert(false);
        }
        assert(everyone[0] == 'D');
        assert(everyone.last() == value.last());
        text::trimming_settles(everyone);
        assert forall|i: int| 0 <= i < items.len() implies !(#[trigger] items[i]).contains(';')
            && text::is_trim(items[i]) && !text::is_blank(items[i]) by {
            if i < rules.len() {
                assert(items[i] == rules[i].written());
                lemma_written_rule(rules[i]);
            }
        }
        text::clean_parts_are_kept(items);
        PairTable::rules_stand_between_semicolons(items);
        PairTable::empty().lemma_written_items(rules);
        PairTable::empty().rules_are_read_in_order(written_rules(rules), seq![everyone]);
        assert(written_rules(rules) + seq![everyone] == items);
        let table = PairTable::empty().with_items(written_rules(rules))->Ok_0;
        table.rules_are_read_in_order(seq![everyone], Seq::empty());
        assert(seq![everyone] + Seq::<Seq<char>>::empty() == seq![everyone]);
        text::texts_are_alike_letter_by_letter("DEFAULT"@, "DEFAULT"@);
        text::trimming_settles("DEFAULT"@);
        assert(text::uppercase("DEFAULT"@) =~= "DEFAULT"@);
        assert(!"DEFAULT"@.contains('='));
        table.rules_are_added_under_their_keys("DEFAULT"@, value);
        assert(seq![everyone][0] == everyone);
    }

    /// The rule of the clients' countries comes first: where it has a relay online, it alone
    /// decides. Where it has none, where there is no such rule, or where a country is unknown,
    /// the fallback decides.
    pub proof fn pair_comes_before_the_fallback(
        self,
        a: Option<Seq<char>>,
        b: Option<Seq<char>>,
        online: Seq<Seq<char>>,
        turn: nat,
        t: int,
    )
        ensures
            a is None || b is None ==> self.choice(a, b, online, turn) == tiers::pick(
                self.fallback,
                online,
                turn,
            ),
            (a, b) matches (Some(a), Some(b)) ==> {
                let key = pair_key(a, b);
                let choice = self.choice(Some(a), Some(b), online, turn);
                &&& !self.by_pair.contains_key(key) ==> choice == tiers::pick(
                    self.fallback,
                    online,
                    turn,
                )
                &&& self.by_pair.contains_key(key) && 0 <= t < self.by_pair[key].len()
                    && tiers::has_online(self.by_pair[key][t], online) ==> choice is Some && choice
                    == tiers::pick(self.by_pair[key], online, turn)
                &&& self.by_pair.contains_key(key) && (forall|i: int|
                    0 <= i < self.by_pair[key].len() ==> !tiers::has_online(
                        #[trigger] self.by_pair[key][i],
                        online,
                    )) ==> choice == tiers::pick(self.fallback, online, turn)
            },
    {
        if a is Some && b is Some {
            let key = pair_key(a->0, b->0);
            tiers::choice_is_online_and_foremost(self.by_pair[key], online, turn);
            if tiers::pick(self.by_pair[key], online, turn) is Some {
                let relays = self.by_pair[key];
                let i = choose|i: int|
                    {
                        &&& 0 <= i < relays.len()
                        &&& tiers::names(
                            #[trigger] relays[i],
                            tiers::pick(relays, online, turn)->0,
                        )
                        &&& forall|k: int|
                            0 <= k < i ==> !tiers::has_online(#[trigger] relays[k], online)
                    };
                tiers::first_online_tier_serves(relays, online);
            }
        }
    }
}

impl RelayRules {
    /// The table of the rules is that of their map, key for key, and their fallback.
    pub proof fn table_is_that_of_the_map(self, key: Seq<char>)
        ensures
            self.model().by_pair.contains_key(key) == self.by_pair@.contains_key(key),
            self.by_pair@.contains_key(key) ==> self.model().by_pair[key] == tiers::tier_texts(
                self.by_pair@[key]@,
            ),
            self.model().fallback == tiers::tier_texts(self.fallback@),
    {
    }
}

impl RelayRules {
    /// Reading that comes to a table gives the rules of that table, and reading that fails gives
    /// its reason.
    pub proof fn readings_are_what_they_came_to(
        read: Result<RelayRules, String>,
        table: Result<PairTable, Seq<char>>,
    )
        requires
            RelayRules::reads_as(read, table),
        ensures
            read is Ok == table is Ok,
            read is Ok ==> read->Ok_0.model() == table->Ok_0,
            read is Err ==> read->Err_0@ == table->Err_0,
    {
    }
}

} // verus!
