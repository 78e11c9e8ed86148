//! Conditions on what is known of a client.
use vstd::prelude::*;

use crate::facts::{FactsModel, GeoFacts};
use crate::pairs;
use crate::text;

verus! {

/// The databases that a condition reads.
#[derive(Clone, Copy, Debug, PartialEq, Eq, Structural)]
pub struct DbRequirements {
    pub country: bool,
    pub city: bool,
    pub asn: bool,
}

impl DbRequirements {
    /// The databases of either.
    pub open spec fn union(self, other: DbRequirements) -> DbRequirements {
        DbRequirements {
            country: self.country || other.country,
            city: self.city || other.city,
            asn: self.asn || other.asn,
        }
    }

    /// No database.
    pub open spec fn nothing() -> DbRequirements {
        DbRequirements { country: false, city: false, asn: false }
    }

    /// Adds the databases of `other`.
    pub fn merge(&mut self, other: DbRequirements)
        ensures
            *final(self) == old(self).union(other),
    {
        self.country = self.country || other.country;
        self.city = self.city || other.city;
        self.asn = self.asn || other.asn;
    }
}

impl Default for DbRequirements {
    fn default() -> (out: DbRequirements)
        ensures
            out == DbRequirements::nothing(),
    {
        DbRequirements { country: false, city: false, asn: false }
    }
}

/// A condition: every field that is not empty must hold.
#[derive(Debug)]
pub struct Matcher {
    /// Every one of these must hold.
    pub all: Vec<Matcher>,
    /// One of these must hold.
    pub any: Vec<Matcher>,
    /// This must not hold.
    pub not: Option<Box<Matcher>>,
    pub continent: Vec<String>,
    pub country: Vec<String>,
    /// Codes or names.
    pub subdivision: Vec<String>,
    pub city: Vec<String>,
    pub city_geoname_id: Vec<u32>,
    pub asn: Vec<u32>,
    /// Parts of the name of the autonomous system's organisation.
    pub asn_org_contains: Vec<String>,
}

/// `Matcher` with texts as sequences of characters.
#[verifier::ext_equal]
pub struct MatcherModel {
    pub all: Seq<MatcherModel>,
    pub any: Seq<MatcherModel>,
    pub not: Option<Box<MatcherModel>>,
    pub continent: Seq<Seq<char>>,
    pub country: Seq<Seq<char>>,
    pub subdivision: Seq<Seq<char>>,
    pub city: Seq<Seq<char>>,
    pub city_geoname_id: Seq<u32>,
    pub asn: Seq<u32>,
    pub asn_org_contains: Seq<Seq<char>>,
}

/// Whether `actual` is one of `allowed` up to ASCII case.
pub open spec fn is_allowed(actual: Seq<char>, allowed: Seq<Seq<char>>) -> bool {
    exists|k: int|
        0 <= k < allowed.len() && text::alike(actual, text::trimmed(#[trigger] allowed[k]))
}

/// Whether a value that may be unknown meets `allowed`; an empty list admits everything.
pub open spec fn meets_optional(actual: Option<Seq<char>>, allowed: Seq<Seq<char>>) -> bool {
    allowed.len() == 0 || match actual {
        Some(actual) => is_allowed(actual, allowed),
        None => false,
    }
}

/// Whether one of several values meets `allowed`; an empty list admits everything.
pub open spec fn meets_values(actual: Seq<Seq<char>>, allowed: Seq<Seq<char>>) -> bool {
    allowed.len() == 0 || exists|i: int|
        0 <= i < actual.len() && is_allowed(#[trigger] actual[i], allowed)
}

/// Whether a number that may be unknown meets `allowed`; an empty list admits everything.
pub open spec fn meets_number(actual: Option<u32>, allowed: Seq<u32>) -> bool {
    allowed.len() == 0 || match actual {
        Some(actual) => allowed.contains(actual),
        None => false,
    }
}

/// Whether `needle` is not blank and stands in `actual` up to ASCII case.
pub open spec fn is_part(actual: Seq<char>, needle: Seq<char>) -> bool {
    !text::is_blank(needle) && text::holds_part(
        text::lowercase(actual),
        text::lowercase(text::trimmed(needle)),
    )
}

/// Whether a value that may be unknown holds one of `needles`; an empty list admits everything.
pub open spec fn meets_parts(actual: Option<Seq<char>>, needles: Seq<Seq<char>>) -> bool {
    needles.len() == 0 || match actual {
        Some(actual) => exists|k: int|
            0 <= k < needles.len() && is_part(actual, #[trigger] needles[k]),
        None => false,
    }
}

/// Whether one of `values` is blank.
pub open spec fn has_blank(values: Seq<Seq<char>>) -> bool {
    exists|k: int| 0 <= k < values.len() && text::is_blank(#[trigger] values[k])
}

/// The complaint about a blank value in `field`.
pub open spec fn blank_value(field: Seq<char>, rule_name: Seq<char>) -> Seq<char> {
    "rule '"@ + rule_name + "' contains an empty value in "@ + field
}

impl MatcherModel {
    /// The condition that always holds.
    pub open spec fn always() -> MatcherModel {
        MatcherModel {
            all: Seq::empty(),
            any: Seq::empty(),
            not: None,
            continent: Seq::empty(),
            country: Seq::empty(),
            subdivision: Seq::empty(),
            city: Seq::empty(),
            city_geoname_id: Seq::empty(),
            asn: Seq::empty(),
            asn_org_contains: Seq::empty(),
        }
    }

    /// The condition of being in the country `code`.
    pub open spec fn in_country(code: Seq<char>) -> MatcherModel {
        MatcherModel { country: seq![code], ..MatcherModel::always() }
    }

    /// Whether the fields other than `all`, `any` and `not` hold of `facts`.
    pub open spec fn fields_hold(self, facts: FactsModel) -> bool {
        &&& meets_optional(facts.continent, self.continent)
        &&& meets_optional(facts.country, self.country)
        &&& meets_values(facts.subdivision_codes, self.subdivision) || meets_values(
            facts.subdivision_names,
            self.subdivision,
        )
        &&& meets_values(facts.city_names, self.city)
        &&& meets_number(facts.city_geoname_id, self.city_geoname_id)
        &&& meets_number(facts.asn, self.asn)
        &&& meets_parts(facts.asn_org, self.asn_org_contains)
    }

    /// Whether the condition holds of `facts`.
    pub open spec fn accepts(self, facts: FactsModel) -> bool
        decreases self,
    {
        &&& self.fields_hold(facts)
        &&& forall|i: int| 0 <= i < self.all.len() ==> (#[trigger] self.all[i]).accepts(facts)
        &&& self.any.len() == 0 || exists|i: int|
            0 <= i < self.any.len() && (#[trigger] self.any[i]).accepts(facts)
        &&& match self.not {
            Some(inner) => !inner.accepts(facts),
            None => true,
        }
    }

    /// What is wrong with the fields other than `all`, `any` and `not`.
    pub open spec fn field_fault(self, rule_name: Seq<char>) -> Option<Seq<char>> {
        if has_blank(self.continent) {
            Some(blank_value("continent"@, rule_name))
        } else if has_blank(self.country) {
            Some(blank_value("country"@, rule_name))
        } else if has_blank(self.subdivision) {
            Some(blank_value("subdivision"@, rule_name))
        } else if has_blank(self.city) {
            Some(blank_value("city"@, rule_name))
        } else if has_blank(self.asn_org_contains) {
            Some(blank_value("asn_org_contains"@, rule_name))
        } else if self.asn.contains(0) {
            Some("rule '"@ + rule_name + "' contains invalid ASN 0"@)
        } else {
            None
        }
    }

    /// The first thing that is wrong with the condition, outer conditions before inner ones.
    pub open spec fn fault(self, rule_name: Seq<char>) -> Option<Seq<char>>
        decreases self,
    {
        match self.field_fault(rule_name) {
            Some(complaint) => Some(complaint),
            None => match first_fault(self.all, rule_name) {
                Some(complaint) => Some(complaint),
                None => match first_fault(self.any, rule_name) {
                    Some(complaint) => Some(complaint),
                    None => match self.not {
                        Some(inner) => inner.fault(rule_name),
                        None => None,
                    },
                },
            },
        }
    }

    /// Whether `p` holds of the condition or of one inside it.
    pub open spec fn somewhere(self, p: spec_fn(MatcherModel) -> bool) -> bool
        decreases self,
    {
        ||| p(self)
        ||| exists|i: int| 0 <= i < self.all.len() && (#[trigger] self.all[i]).somewhere(p)
        ||| exists|i: int| 0 <= i < self.any.len() && (#[trigger] self.any[i]).somewhere(p)
        ||| match self.not {
            Some(inner) => inner.somewhere(p),
            None => false,
        }
    }

    /// The databases that the condition reads.
    pub open spec fn needs(self) -> DbRequirements {
        DbRequirements {
            country: self.somewhere(reads_country()),
            city: self.somewhere(reads_city()),
            asn: self.somewhere(reads_asn()),
        }
    }
}

/// Whether a condition's own fields need the Country database.
pub open spec fn reads_country() -> spec_fn(MatcherModel) -> bool {
    |m: MatcherModel| m.country.len() > 0 || m.continent.len() > 0
}

/// Whether a condition's own fields need the City database.
pub open spec fn reads_city() -> spec_fn(MatcherModel) -> bool {
    |m: MatcherModel| m.subdivision.len() > 0 || m.city.len() > 0 || m.city_geoname_id.len() > 0
}

/// Whether a condition's own fields need the ASN database.
pub open spec fn reads_asn() -> spec_fn(MatcherModel) -> bool {
    |m: MatcherModel| m.asn.len() > 0 || m.asn_org_contains.len() > 0
}

/// The first thing that is wrong with one of `conditions`.
pub open spec fn first_fault(conditions: Seq<MatcherModel>, rule_name: Seq<char>) -> Option<
    Seq<char>,
>
    decreases conditions,
{
    if conditions.len() == 0 {
        None
    } else {
        match conditions[0].fault(rule_name) {
            Some(complaint) => Some(complaint),
            None => first_fault(conditions.drop_first(), rule_name),
        }
    }
}

impl Matcher {
    /// The condition with texts as sequences of characters.
    pub open spec fn model(self) -> MatcherModel
        decreases self,
    {
        MatcherModel {
            all: Seq::new(
                self.all@.len(),
                |i: int|
                    if 0 <= i < self.all@.len() {
                        self.all@[i].model()
                    } else {
                        MatcherModel::always()
                    },
            ),
            any: Seq::new(
                self.any@.len(),
                |i: int|
                    if 0 <= i < self.any@.len() {
                        self.any@[i].model()
                    } else {
                        MatcherModel::always()
                    },
            ),
            not: match self.not {
                Some(inner) => Some(Box::new(inner.model())),
                None => None,
            },
            continent: text::texts(self.continent@),
            country: text::texts(self.country@),
            subdivision: text::texts(self.subdivision@),
            city: text::texts(self.city@),
            city_geoname_id: self.city_geoname_id@,
            asn: self.asn@,
            asn_org_contains: text::texts(self.asn_org_contains@),
        }
    }
}

/// Whether a value that may be unknown meets `allowed`.
pub fn matches_optional(actual: &Option<String>, allowed: &[String]) -> (out: bool)
    ensures
        out == meets_optional(text::maybe_text(*actual), text::texts(allowed@)),
{
    assert(text::texts(allowed@).len() == allowed@.len());
    if allowed.len() == 0 {
        return true;
    }
    match actual {
        Some(actual) => one_of(actual.as_str(), allowed),
        None => false,
    }
}

fn one_of(actual: &str, allowed: &[String]) -> (out: bool)
    ensures
        out == is_allowed(actual@, text::texts(allowed@)),
{
    let ghost values = text::texts(allowed@);
    let mut k: usize = 0;
    while k < allowed.len()
        invariant
            k <= allowed@.len(),
            values == text::texts(allowed@),
            forall|j: int|
                0 <= j < k ==> !text::alike(actual@, text::trimmed(#[trigger] values[j])),
        decreases allowed.len() - k,
    {
        assert(values[k as int] == allowed@[k as int]@);
        if text::same_ignoring_case(actual, text::trim(allowed[k].as_str())) {
            return true;
        }
        k = k + 1;
    }
    false
}

/// Whether one of several values meets `allowed`.
pub fn matches_values(actual: &[String], allowed: &[String]) -> (out: bool)
    ensures
        out == meets_values(text::texts(actual@), text::texts(allowed@)),
{
    let ghost values = text::texts(actual@);
    assert(text::texts(allowed@).len() == allowed@.len());
    if allowed.len() == 0 {
        return true;
    }
    let mut i: usize = 0;
    while i < actual.len()
        invariant
            i <= actual@.len(),
            values == text::texts(actual@),
            forall|j: int|
                0 <= j < i ==> !is_allowed(#[trigger] values[j], text::texts(allowed@)),
        decreases actual.len() - i,
    {
        assert(values[i as int] == actual@[i as int]@);
        if one_of(actual[i].as_str(), allowed) {
            return true;
        }
        i = i + 1;
    }
    false
}

/// Whether one of several values, of either kind, meets `allowed`.
pub fn matches_any_value(first: &[String], second: &[String], allowed: &[String]) -> (out: bool)
    ensures
        out == (meets_values(text::texts(first@), text::texts(allowed@)) || meets_values(
            text::texts(second@),
            text::texts(allowed@),
        )),
{
    matches_values(first, allowed) || matches_values(second, allowed)
}

/// Whether a number that may be unknown meets `allowed`.
pub fn matches_number(actual: Option<u32>, allowed: &[u32]) -> (out: bool)
    ensures
        out == meets_number(actual, allowed@),
{
    if allowed.len() == 0 {
        return true;
    }
    match actual {
        Some(actual) => has_number(allowed, actual),
        None => false,
    }
}

fn has_number(values: &[u32], wanted: u32) -> (out: bool)
    ensures
        out == values@.contains(wanted),
{
    let mut k: usize = 0;
    while k < values.len()
        invariant
            k <= values@.len(),
            forall|j: int| 0 <= j < k ==> values@[j] != wanted,
        decreases values.len() - k,
    {
        if values[k] == wanted {
            return true;
        }
        k = k + 1;
    }
    false
}

/// Whether a value that may be unknown holds one of `needles`.
#[verifier::loop_isolation(false)]
pub fn matches_contains(actual: &Option<String>, needles: &[String]) -> (out: bool)
    ensures
        out == meets_parts(text::maybe_text(*actual), text::texts(needles@)),
{
    let ghost values = text::texts(needles@);
    if needles.len() == 0 {
        return true;
    }
    let actual: &String = match actual {
        Some(actual) => actual,
        None => {
            return false;
        },
    };
    let lowered: String = text::to_lowercase(actual.as_str());
    let mut k: usize = 0;
    while k < needles.len()
        invariant
            k <= needles@.len(),
            values == text::texts(needles@),
            lowered@ == text::lowercase(actual@),
            forall|j: int| 0 <= j < k ==> !is_part(actual@, #[trigger] values[j]),
        decreases needles.len() - k,
    {
        assert(values[k as int] == needles@[k as int]@);
        let needle: String = text::to_lowercase(text::trim(needles[k].as_str()));
        assert(needle@.len() == text::trimmed(values[k as int]).len());
        assert(is_part(actual@, values[k as int]) == (needle@.len() > 0 && text::holds_part(
            lowered@,
            needle@,
        )));
        if !needle.as_str().is_empty() && text::contains(lowered.as_str(), needle.as_str()) {
            return true;
        }
        k = k + 1;
    }
    false
}

/// Complains where one of `values` is blank.
pub fn validate_strings(values: &[String], field: &str, rule_name: &str) -> (out: Result<
    (),
    String,
>)
    ensures
        match out {
            Ok(_) => !has_blank(text::texts(values@)),
            Err(complaint) => has_blank(text::texts(values@)) && complaint@ == blank_value(
                field@,
                rule_name@,
            ),
        },
{
    let ghost parts = text::texts(values@);
    let mut k: usize = 0;
    while k < values.len()
        invariant
            k <= values@.len(),
            parts == text::texts(values@),
            forall|j: int| 0 <= j < k ==> !text::is_blank(#[trigger] parts[j]),
        decreases values.len() - k,
    {
        assert(parts[k as int] == values@[k as int]@);
        if text::blank(values[k].as_str()) {
            let start: String = text::join3("rule '", rule_name, "' contains an empty value in ");
            return Err(text::join(start.as_str(), field));
        }
        k = k + 1;
    }
    Ok(())
}

impl Default for Matcher {
    fn default() -> (out: Matcher)
        ensures
            out.model() == MatcherModel::always(),
    {
        let out = Matcher {
            all: Vec::new(),
            any: Vec::new(),
            not: None,
            continent: Vec::new(),
            country: Vec::new(),
            subdivision: Vec::new(),
            city: Vec::new(),
            city_geoname_id: Vec::new(),
            asn: Vec::new(),
            asn_org_contains: Vec::new(),
        };
        proof {
            out.lemma_model();
            assert(out.model().all =~= Seq::<MatcherModel>::empty());
            assert(out.model().any =~= Seq::<MatcherModel>::empty());
            assert(out.model().not is None);
            assert(out.model().continent =~= Seq::<Seq<char>>::empty());
            assert(out.model().country =~= Seq::<Seq<char>>::empty());
            assert(out.model().subdivision =~= Seq::<Seq<char>>::empty());
            assert(out.model().city =~= Seq::<Seq<char>>::empty());
            assert(out.model().city_geoname_id =~= Seq::<u32>::empty());
            assert(out.model().asn =~= Seq::<u32>::empty());
            assert(out.model().asn_org_contains =~= Seq::<Seq<char>>::empty());
        }
        out
    }
}

impl Matcher {
    /// The conditions with texts as sequences of characters.
    pub open spec fn models(conditions: Seq<Matcher>) -> Seq<MatcherModel> {
        conditions.map_values(|m: Matcher| m.model())
    }

    proof fn lemma_model(self)
        ensures
            self.model().all == Matcher::models(self.all@),
            self.model().any == Matcher::models(self.any@),
    {
        assert(self.model().all =~= Matcher::models(self.all@));
        assert(self.model().any =~= Matcher::models(self.any@));
    }

    /// The condition of being in `country`.
    pub fn country(country: &str) -> (out: Matcher)
        ensures
            out.model() == MatcherModel::in_country(pairs::code(country@)),
    {
        let mut out: Matcher = Matcher::default();
        let mut codes: Vec<String> = Vec::new();
        codes.push(text::to_uppercase(text::trim(country)));
        assert(text::texts(codes@) == seq![pairs::code(country@)]);
        out.country = codes;
        assert(out.model() == MatcherModel::in_country(pairs::code(country@)));
        out
    }

    /// Whether the condition holds of `facts`.
    #[verifier::loop_isolation(false)]
    pub fn matches(&self, facts: &GeoFacts) -> (out: bool)
        ensures
            out == self.model().accepts(facts@),
        decreases self, 1int,
    {
        proof {
            self.lemma_model();
        }
        if !matches_optional(&facts.continent, &self.continent) || !matches_optional(
            &facts.country,
            &self.country,
        ) || !matches_any_value(
            &facts.subdivision_codes,
            &facts.subdivision_names,
            &self.subdivision,
        ) || !matches_values(&facts.city_names, &self.city) || !matches_number(
            facts.city_geoname_id,
            &self.city_geoname_id,
        ) || !matches_number(facts.asn, &self.asn) || !matches_contains(
            &facts.asn_org,
            &self.asn_org_contains,
        ) {
            return false;
        }
        let ghost model = self.model();
        let mut i: usize = 0;
        while i < self.all.len()
            invariant
                i <= self.all@.len(),
                model == self.model(),
                forall|j: int| 0 <= j < i ==> (#[trigger] model.all[j]).accepts(facts@),
            decreases self.all.len() - i,
        {
            assert(model.all[i as int] == self.all@[i as int].model());
            if !self.all[i].matches(facts) {
                return false;
            }
            i = i + 1;
        }
        if self.any.len() > 0 && !self.any_matches(facts) {
            return false;
        }
        match &self.not {
            Some(inner) => !inner.matches(facts),
            None => true,
        }
    }

    #[verifier::loop_isolation(false)]
    fn any_matches(&self, facts: &GeoFacts) -> (out: bool)
        ensures
            out == exists|i: int|
                0 <= i < self.model().any.len() && (#[trigger] self.model().any[i]).accepts(facts@),
        decreases self, 0int,
    {
        let ghost model = self.model();
        let mut i: usize = 0;
        while i < self.any.len()
            invariant
                i <= self.any@.len(),
                model == self.model(),
                forall|j: int| 0 <= j < i ==> !(#[trigger] model.any[j]).accepts(facts@),
            decreases self.any.len() - i,
        {
            assert(model.any[i as int] == self.any@[i as int].model());
            if self.any[i].matches(facts) {
                return true;
            }
            i = i + 1;
        }
        false
    }

    /// Complains about the first thing that is wrong with the condition.
    pub fn validate(&self, rule_name: &str) -> (out: Result<(), String>)
        ensures
            match out {
                Ok(_) => self.model().fault(rule_name@) is None,
                Err(complaint) => self.model().fault(rule_name@) == Some(complaint@),
            },
        decreases self, 1int,
    {
        proof {
            self.lemma_model();
        }
        validate_strings(&self.continent, "continent", rule_name)?;
        validate_strings(&self.country, "country", rule_name)?;
        validate_strings(&self.subdivision, "subdivision", rule_name)?;
        validate_strings(&self.city, "city", rule_name)?;
        validate_strings(&self.asn_org_contains, "asn_org_contains", rule_name)?;
        if has_number(&self.asn, 0) {
            return Err(text::join3("rule '", rule_name, "' contains invalid ASN 0"));
        }
        Matcher::validate_each(&self.all, rule_name)?;
        Matcher::validate_each(&self.any, rule_name)?;
        match &self.not {
            Some(inner) => inner.validate(rule_name),
            None => Ok(()),
        }
    }

    fn validate_each(conditions: &Vec<Matcher>, rule_name: &str) -> (out: Result<(), String>)
        ensures
            match out {
                Ok(_) => first_fault(Matcher::models(conditions@), rule_name@) is None,
                Err(complaint) => first_fault(Matcher::models(conditions@), rule_name@) == Some(
                    complaint@,
                ),
            },
        decreases conditions, 0int,
    {
        let ghost models = Matcher::models(conditions@);
        let mut i: usize = 0;
        assert(models.skip(0) == models);
        while i < conditions.len()
            invariant
                i <= conditions@.len(),
                models == Matcher::models(conditions@),
                first_fault(models.skip(i as int), rule_name@) == first_fault(models, rule_name@),
            decreases conditions.len() - i,
        {
            assert(models.skip(i as int).drop_first() == models.skip(i + 1));
            assert(models.skip(i as int)[0] == conditions@[i as int].model());
            conditions[i].validate(rule_name)?;
            i = i + 1;
        }
        Ok(())
    }

    /// The databases that the condition reads.
    #[verifier::loop_isolation(false)]
    pub fn requirements(&self) -> (out: DbRequirements)
        ensures
            out == self.model().needs(),
        decreases self,
    {
        let mut out: DbRequirements = DbRequirements {
            country: self.country.len() > 0 || self.continent.len() > 0,
            city: self.subdivision.len() > 0 || self.city.len() > 0 || self.city_geoname_id.len()
                > 0,
            asn: self.asn.len() > 0 || self.asn_org_contains.len() > 0,
        };
        let ghost model = self.model();
        let mut i: usize = 0;
        while i < self.all.len()
            invariant
                i <= self.all@.len(),
                model == self.model(),
                out.country == (reads_country()(model) || exists|j: int|
                    0 <= j < i && (#[trigger] model.all[j]).somewhere(reads_country())),
                out.city == (reads_city()(model) || exists|j: int|
                    0 <= j < i && (#[trigger] model.all[j]).somewhere(reads_city())),
                out.asn == (reads_asn()(model) || exists|j: int|
                    0 <= j < i && (#[trigger] model.all[j]).somewhere(reads_asn())),
            decreases self.all.len() - i,
        {
            assert(model.all[i as int] == self.all@[i as int].model());
            out.merge(self.all[i].requirements());
            i = i + 1;
        }
        let ghost outer = out;
        let mut i: usize = 0;
        while i < self.any.len()
            invariant
                i <= self.any@.len(),
                model == self.model(),
                out.country == (outer.country || exists|j: int|
                    0 <= j < i && (#[trigger] model.any[j]).somewhere(reads_country())),
                out.city == (outer.city || exists|j: int|
                    0 <= j < i && (#[trigger] model.any[j]).somewhere(reads_city())),
                out.asn == (outer.asn || exists|j: int|
                    0 <= j < i && (#[trigger] model.any[j]).somewhere(reads_asn())),
            decreases self.any.len() - i,
        {
            assert(model.any[i as int] == self.any@[i as int].model());
            out.merge(self.any[i].requirements());
            i = i + 1;
        }
        match &self.not {
            Some(inner) => {
                out.merge(inner.requirements());
            },
            None => {},
        }
        out
    }
}

/// The empty condition holds of everyone.
pub proof fn empty_condition_always_holds(facts: FactsModel)
    ensures
        MatcherModel::always().accepts(facts),
{
}

/// A condition with nothing but `not` holds where the inner one does not.
pub proof fn not_is_negation(inner: MatcherModel, facts: FactsModel)
    ensures
        (MatcherModel { not: Some(Box::new(inner)), ..MatcherModel::always() }).accepts(facts)
            == !inner.accepts(facts),
{
}

/// A condition with nothing but `all` holds where all the inner ones do.
pub proof fn all_is_conjunction(inner: Seq<MatcherModel>, facts: FactsModel)
    ensures
        (MatcherModel { all: inner, ..MatcherModel::always() }).accepts(facts) == forall|i: int|
            0 <= i < inner.len() ==> (#[trigger] inner[i]).accepts(facts),
{
    let m = MatcherModel { all: inner, ..MatcherModel::always() };
    assert(m.fields_hold(facts));
    assert(m.all == inner);
    if m.accepts(facts) {
        assert forall|i: int| 0 <= i < inner.len() implies (#[trigger] inner[i]).accepts(facts) by {
            assert(m.all[i].accepts(facts));
        }
    }
}

/// A condition with nothing but a list `any` that is not empty holds where one of the inner ones
/// does.
pub proof fn any_is_disjunction(inner: Seq<MatcherModel>, facts: FactsModel)
    requires
        inner.len() > 0,
    ensures
        (MatcherModel { any: inner, ..MatcherModel::always() }).accepts(facts) == exists|i: int|
            0 <= i < inner.len() && (#[trigger] inner[i]).accepts(facts),
{
}

/// The condition of being in a country holds of those who are known to be there.
pub proof fn country_condition_is_exact(code: Seq<char>, facts: FactsModel)
    ensures
        MatcherModel::in_country(code).accepts(facts) == (facts.country matches Some(country)
            && text::alike(country, text::trimmed(code))),
{
    let allowed = seq![code];
    assert(allowed[0] == code);
}

proof fn lemma_allowed_either(actual: Seq<char>, one: Seq<Seq<char>>, other: Seq<Seq<char>>)
    ensures
        is_allowed(actual, one + other) == (is_allowed(actual, one) || is_allowed(actual, other)),
{
    let both = one + other;
    if is_allowed(actual, one) {
        let k = choose|k: int|
            0 <= k < one.len() && text::alike(actual, text::trimmed(#[trigger] one[k]));
        assert(both[k] == one[k]);
    }
    if is_allowed(actual, other) {
        let k = choose|k: int|
            0 <= k < other.len() && text::alike(actual, text::trimmed(#[trigger] other[k]));
        assert(both[one.len() + k] == other[k]);
    }
    if is_allowed(actual, both) {
        let k = choose|k: int|
            0 <= k < both.len() && text::alike(actual, text::trimmed(#[trigger] both[k]));
        if k < one.len() {
            assert(one[k] == both[k]);
        } else {
            assert(other[k - one.len()] == both[k]);
        }
    }
}

/// A list of values for a field admits what any of its values admits.
pub proof fn values_are_alternatives(
    actual: Option<Seq<char>>,
    several: Seq<Seq<char>>,
    one: Seq<Seq<char>>,
    other: Seq<Seq<char>>,
)
    requires
        one.len() > 0,
        other.len() > 0,
    ensures
        meets_optional(actual, one + other) == (meets_optional(actual, one) || meets_optional(
            actual,
            other,
        )),
        meets_values(several, one + other) == (meets_values(several, one) || meets_values(
            several,
            other,
        )),
        meets_parts(actual, one + other) == (meets_parts(actual, one) || meets_parts(
            actual,
            other,
        )),
{
    let both = one + other;
    assert forall|text: Seq<char>| #[trigger]
        is_allowed(text, both) == (is_allowed(text, one) || is_allowed(text, other)) by {
        lemma_allowed_either(text, one, other);
    }
    if actual is Some {
        lemma_allowed_either(actual->0, one, other);
        let text = actual->0;
        if meets_parts(actual, one) {
            let k = choose|k: int| 0 <= k < one.len() && is_part(text, #[trigger] one[k]);
            assert(both[k] == one[k]);
        }
        if meets_parts(actual, other) {
            let k = choose|k: int| 0 <= k < other.len() && is_part(text, #[trigger] other[k]);
            assert(both[one.len() + k] == other[k]);
        }
        if meets_parts(actual, both) {
            let k = choose|k: int| 0 <= k < both.len() && is_part(text, #[trigger] both[k]);
            if k < one.len() {
                assert(one[k] == both[k]);
            } else {
                assert(other[k - one.len()] == both[k]);
            }
        }
    }
    if meets_values(several, one) {
        let i = choose|i: int| 0 <= i < several.len() && is_allowed(#[trigger] several[i], one);
        assert(is_allowed(several[i], both));
    }
    if meets_values(several, other) {
        let i = choose|i: int| 0 <= i < several.len() && is_allowed(#[trigger] several[i], other);
        assert(is_allowed(several[i], both));
    }
}

/// A list of numbers for a field admits what any of its numbers admits.
pub proof fn numbers_are_alternatives(actual: Option<u32>, one: Seq<u32>, other: Seq<u32>)
    requires
        one.len() > 0,
        other.len() > 0,
    ensures
        meets_number(actual, one + other) == (meets_number(actual, one) || meets_number(
            actual,
            other,
        )),
{
    if actual is Some {
        let number = actual->0;
        let both = one + other;
        if one.contains(number) {
            assert(both[one.index_of(number)] == number);
        }
        if other.contains(number) {
            assert(both[one.len() + other.index_of(number)] == number);
        }
    }
}

/// Whether something is wrong with a condition's own fields.
pub open spec fn is_faulty() -> spec_fn(MatcherModel) -> bool {
    |m: MatcherModel|
        has_blank(m.continent) || has_blank(m.country) || has_blank(m.subdivision) || has_blank(
            m.city,
        ) || has_blank(m.asn_org_contains) || m.asn.contains(0)
}

/// A condition passes where, and only where, nothing is wrong with it or with one inside it.
pub proof fn validation_reaches_everywhere(m: MatcherModel, rule_name: Seq<char>)
    ensures
        m.fault(rule_name) is None == !m.somewhere(is_faulty()),
    decreases m,
{
    lemma_first_fault(m.all, rule_name);
    lemma_first_fault(m.any, rule_name);
    match m.not {
        Some(inner) => {
            validation_reaches_everywhere(*inner, rule_name);
        },
        None => {},
    }
}

proof fn lemma_first_fault(conditions: Seq<MatcherModel>, rule_name: Seq<char>)
    ensures
        first_fault(conditions, rule_name) is None == !exists|i: int|
            0 <= i < conditions.len() && (#[trigger] conditions[i]).somewhere(is_faulty()),
    decreases conditions,
{
    if conditions.len() > 0 {
        validation_reaches_everywhere(conditions[0], rule_name);
        let rest = conditions.drop_first();
        lemma_first_fault(rest, rule_name);
        assert forall|i: int| 0 <= i < rest.len() implies #[trigger] rest[i] == conditions[i + 1] by {}
        if exists|i: int|
            0 <= i < conditions.len() && (#[trigger] conditions[i]).somewhere(is_faulty()) {
            let i = choose|i: int|
                0 <= i < conditions.len() && (#[trigger] conditions[i]).somewhere(is_faulty());
            if i > 0 {
                assert(rest[i - 1] == conditions[i]);
            }
        }
    }
}

/// Whether `a` and `b` are the same as far as the databases `read` tell.
pub open spec fn agree(a: FactsModel, b: FactsModel, read: DbRequirements) -> bool {
    &&& read.country ==> a.continent == b.continent && a.country == b.country
    &&& read.city ==> {
        &&& a.subdivision_codes == b.subdivision_codes
        &&& a.subdivision_names == b.subdivision_names
        &&& a.city_names == b.city_names
        &&& a.city_geoname_id == b.city_geoname_id
    }
    &&& read.asn ==> a.asn == b.asn && a.asn_org == b.asn_org
}

/// What a database says makes no difference to a condition that does not read it.
pub proof fn unread_databases_do_not_matter(m: MatcherModel, a: FactsModel, b: FactsModel)
    requires
        agree(a, b, m.needs()),
    ensures
        m.accepts(a) == m.accepts(b),
    decreases m,
{
    assert(m.fields_hold(a) == m.fields_hold(b)) by {
        assert(reads_country()(m) ==> m.needs().country);
        assert(reads_city()(m) ==> m.needs().city);
        assert(reads_asn()(m) ==> m.needs().asn);
    }
    assert forall|i: int| 0 <= i < m.all.len() implies (#[trigger] m.all[i]).accepts(a)
        == m.all[i].accepts(b) by {
        unread_databases_do_not_matter(m.all[i], a, b);
    }
    assert forall|i: int| 0 <= i < m.any.len() implies (#[trigger] m.any[i]).accepts(a)
        == m.any[i].accepts(b) by {
        unread_databases_do_not_matter(m.any[i], a, b);
    }
    match m.not {
        Some(inner) => {
            unread_databases_do_not_matter(*inner, a, b);
        },
        None => {},
    }
}

/// A needle matches wherever it stands in the name, whatever the case of its ASCII letters and
/// the white space around it; where one matches, it stands somewhere.
pub proof fn needle_matches_wherever_it_stands(
    before: Seq<char>,
    part: Seq<char>,
    after: Seq<char>,
    space: Seq<char>,
    needle: Seq<char>,
    more_space: Seq<char>,
    actual: Seq<char>,
)
    requires
        part.len() > 0,
        text::alike(part, needle),
        text::is_trim(needle),
        text::all_space(space),
        text::all_space(more_space),
    ensures
        meets_parts(Some(before + part + after), seq![space + needle + more_space]),
        meets_parts(Some(actual), seq![space + needle + more_space]) ==> exists|
            a: Seq<char>,
            found: Seq<char>,
            b: Seq<char>,
        | actual == #[trigger] (a + found + b) && text::alike(found, needle),
        !meets_parts(None, seq![space + needle + more_space]),
{
    let padded = space + needle + more_space;
    let whole = before + part + after;
    text::white_space_around_is_taken_off(space, needle, more_space);
    text::texts_are_alike_letter_by_letter(part, needle);
    let low = text::lowercase(needle);
    assert(text::lowercase(whole) =~= text::lowercase(before) + text::lowercase(part)
        + text::lowercase(after));
    text::parts_are_found_anywhere(
        text::lowercase(before),
        low,
        text::lowercase(after),
        text::lowercase(actual),
    );
    assert(seq![padded][0] == padded);
    assert(is_part(whole, seq![padded][0]));
    if meets_parts(Some(actual), seq![padded]) {
        assert(is_part(actual, padded));
        let lowered = text::lowercase(actual);
        let i = choose|i: int|
            0 <= i && i + low.len() <= lowered.len() && #[trigger] lowered.subrange(
                i,
                i + low.len(),
            ) == low;
        let (a, found, b) = (
            actual.take(i),
            actual.subrange(i, i + low.len()),
            actual.skip(i + low.len()),
        );
        assert(actual == a + found + b);
        assert(text::lowercase(found) =~= lowered.subrange(i, i + low.len()));
        assert(text::alike(found, needle));
    }
}

/// A needle that is nothing but white space matches no name.
pub proof fn blank_needle_matches_nothing(actual: Seq<char>, space: Seq<char>)
    requires
        text::all_space(space),
    ensures
        !meets_parts(Some(actual), seq![space]),
{
    let nothing = Seq::<char>::empty();
    text::white_space_around_is_taken_off(space, nothing, nothing);
    assert(space + nothing + nothing == space);
    assert(seq![space][0] == space);
}

/// A condition on the continent holds where the continent is known and is one of those listed, up
/// to case.
pub proof fn continent_condition_is_exact(allowed: Seq<Seq<char>>, facts: FactsModel)
    ensures
        (MatcherModel { continent: allowed, ..MatcherModel::always() }).accepts(facts) <==> {
            ||| allowed.len() == 0
            ||| facts.continent is Some && exists|k: int|
                0 <= k < allowed.len() && text::alike(
                    facts.continent->0,
                    text::trimmed(#[trigger] allowed[k]),
                )
        },
{
    let m = MatcherModel { continent: allowed, ..MatcherModel::always() };
    assert(m.accepts(facts) == m.fields_hold(facts));
}

/// A condition on the country holds where the country is known and is one of those listed, up to
/// case.
pub proof fn countries_are_alternatives(allowed: Seq<Seq<char>>, facts: FactsModel)
    ensures
        (MatcherModel { country: allowed, ..MatcherModel::always() }).accepts(facts) <==> {
            ||| allowed.len() == 0
            ||| facts.country is Some && exists|k: int|
                0 <= k < allowed.len() && text::alike(
                    facts.country->0,
                    text::trimmed(#[trigger] allowed[k]),
                )
        },
{
    let m = MatcherModel { country: allowed, ..MatcherModel::always() };
    assert(m.accepts(facts) == m.fields_hold(facts));
}

/// A condition on the subdivision holds where a code or a name of one of the client's
/// subdivisions is listed, up to case.
pub proof fn subdivision_condition_is_exact(allowed: Seq<Seq<char>>, facts: FactsModel)
    ensures
        (MatcherModel { subdivision: allowed, ..MatcherModel::always() }).accepts(facts) <==> {
            ||| allowed.len() == 0
            ||| exists|i: int, k: int|
                0 <= i < facts.subdivision_codes.len() && 0 <= k < allowed.len() && text::alike(
                    #[trigger] facts.subdivision_codes[i],
                    text::trimmed(#[trigger] allowed[k]),
                )
            ||| exists|i: int, k: int|
                0 <= i < facts.subdivision_names.len() && 0 <= k < allowed.len() && text::alike(
                    #[trigger] facts.subdivision_names[i],
                    text::trimmed(#[trigger] allowed[k]),
                )
        },
{
    let m = MatcherModel { subdivision: allowed, ..MatcherModel::always() };
    assert(m.accepts(facts) == m.fields_hold(facts));
    lemma_values(facts.subdivision_codes, allowed);
    lemma_values(facts.subdivision_names, allowed);
}

proof fn lemma_values(actual: Seq<Seq<char>>, allowed: Seq<Seq<char>>)
    ensures
        meets_values(actual, allowed) <==> {
            ||| allowed.len() == 0
            ||| exists|i: int, k: int|
                0 <= i < actual.len() && 0 <= k < allowed.len() && text::alike(
                    #[trigger] actual[i],
                    text::trimmed(#[trigger] allowed[k]),
                )
        },
{
    if exists|i: int, k: int|
        0 <= i < actual.len() && 0 <= k < allowed.len() && text::alike(
            #[trigger] actual[i],
            text::trimmed(#[trigger] allowed[k]),
        ) {
        let (i, k) = choose|i: int, k: int|
            0 <= i < actual.len() && 0 <= k < allowed.len() && text::alike(
                #[trigger] actual[i],
                text::trimmed(#[trigger] allowed[k]),
            );
        assert(is_allowed(actual[i], allowed));
    }
    if allowed.len() > 0 && meets_values(actual, allowed) {
        let i = choose|i: int| 0 <= i < actual.len() && is_allowed(#[trigger] actual[i], allowed);
        let k = choose|k: int|
            0 <= k < allowed.len() && text::alike(actual[i], text::trimmed(#[trigger] allowed[k]));
        assert(text::alike(actual[i], text::trimmed(allowed[k])));
    }
}

/// A condition on the city holds where one of the city's names is listed, up to case.
pub proof fn city_condition_is_exact(allowed: Seq<Seq<char>>, facts: FactsModel)
    ensures
        (MatcherModel { city: allowed, ..MatcherModel::always() }).accepts(facts) <==> {
            ||| allowed.len() == 0
            ||| exists|i: int, k: int|
                0 <= i < facts.city_names.len() && 0 <= k < allowed.len() && text::alike(
                    #[trigger] facts.city_names[i],
                    text::trimmed(#[trigger] allowed[k]),
                )
        },
{
    let m = MatcherModel { city: allowed, ..MatcherModel::always() };
    assert(m.accepts(facts) == m.fields_hold(facts));
    lemma_values(facts.city_names, allowed);
}

/// A condition on a number holds where the number is known and listed: that of the city, and that
/// of the autonomous system.
pub proof fn number_conditions_are_exact(allowed: Seq<u32>, facts: FactsModel)
    ensures
        (MatcherModel { city_geoname_id: allowed, ..MatcherModel::always() }).accepts(facts) <==> {
            ||| allowed.len() == 0
            ||| facts.city_geoname_id is Some && exists|k: int|
                0 <= k < allowed.len() && #[trigger] allowed[k] == facts.city_geoname_id->0
        },
        (MatcherModel { asn: allowed, ..MatcherModel::always() }).accepts(facts) <==> {
            ||| allowed.len() == 0
            ||| facts.asn is Some && exists|k: int|
                0 <= k < allowed.len() && #[trigger] allowed[k] == facts.asn->0
        },
{
    let m = MatcherModel { city_geoname_id: allowed, ..MatcherModel::always() };
    let n = MatcherModel { asn: allowed, ..MatcherModel::always() };
    assert(m.accepts(facts) == m.fields_hold(facts));
    assert(n.accepts(facts) == n.fields_hold(facts));
}

/// A condition on the organisation holds where its name is known and one of the needles, which is
/// not blank, stands in it, up to case.
pub proof fn organisation_condition_is_exact(needles: Seq<Seq<char>>, facts: FactsModel)
    ensures
        (MatcherModel { asn_org_contains: needles, ..MatcherModel::always() }).accepts(facts) <==> {
            ||| needles.len() == 0
            ||| facts.asn_org is Some && exists|k: int|
                0 <= k < needles.len() && meets_parts(facts.asn_org, seq![#[trigger] needles[k]])
        },
{
    let m = MatcherModel { asn_org_contains: needles, ..MatcherModel::always() };
    assert(m.accepts(facts) == m.fields_hold(facts));
    if facts.asn_org is Some {
        let actual = facts.asn_org->0;
        assert forall|k: int| 0 <= k < needles.len() implies meets_parts(
            Some(actual),
            seq![#[trigger] needles[k]],
        ) == is_part(actual, needles[k]) by {
            let one = seq![needles[k]];
            assert(one[0] == needles[k]);
        }
        if exists|k: int|
            0 <= k < needles.len() && meets_parts(facts.asn_org, seq![#[trigger] needles[k]]) {
            let k = choose|k: int|
                0 <= k < needles.len() && meets_parts(facts.asn_org, seq![#[trigger] needles[k]]);
            assert(is_part(actual, needles[k]));
        }
        if needles.len() > 0 && m.accepts(facts) {
            let k = choose|k: int| 0 <= k < needles.len() && is_part(actual, #[trigger] needles[k]);
            assert(meets_parts(facts.asn_org, seq![needles[k]]));
        }
    }
}

/// A condition holds where, and only where, each of its fields holds by itself.
pub proof fn fields_are_a_conjunction(m: MatcherModel, facts: FactsModel)
    ensures
        m.accepts(facts) <==> {
            let always = MatcherModel::always();
            &&& (MatcherModel { all: m.all, ..always }).accepts(facts)
            &&& (MatcherModel { any: m.any, ..always }).accepts(facts)
            &&& (MatcherModel { not: m.not, ..always }).accepts(facts)
            &&& (MatcherModel { continent: m.continent, ..always }).accepts(facts)
            &&& (MatcherModel { country: m.country, ..always }).accepts(facts)
            &&& (MatcherModel { subdivision: m.subdivision, ..always }).accepts(facts)
            &&& (MatcherModel { city: m.city, ..always }).accepts(facts)
            &&& (MatcherModel { city_geoname_id: m.city_geoname_id, ..always }).accepts(facts)
            &&& (MatcherModel { asn: m.asn, ..always }).accepts(facts)
            &&& (MatcherModel { asn_org_contains: m.asn_org_contains, ..always }).accepts(facts)
        },
        m.any.len() == 0 ==> (MatcherModel { any: m.any, ..MatcherModel::always() }).accepts(facts),
{
    let always = MatcherModel::always();
    assert(always.fields_hold(facts));
    let with_all = MatcherModel { all: m.all, ..always };
    let with_any = MatcherModel { any: m.any, ..always };
    all_is_conjunction(m.all, facts);
    if m.any.len() > 0 {
        any_is_disjunction(m.any, facts);
    }
    match m.not {
        Some(inner) => {
            not_is_negation(*inner, facts);
        },
        None => {
            assert((MatcherModel { not: m.not, ..always }) == always);
        },
    }
    let continent = MatcherModel { continent: m.continent, ..always };
    let country = MatcherModel { country: m.country, ..always };
    let subdivision = MatcherModel { subdivision: m.subdivision, ..always };
    let city = MatcherModel { city: m.city, ..always };
    let city_geoname_id = MatcherModel { city_geoname_id: m.city_geoname_id, ..always };
    let asn = MatcherModel { asn: m.asn, ..always };
    let asn_org_contains = MatcherModel { asn_org_contains: m.asn_org_contains, ..always };
    assert(continent.accepts(facts) == continent.fields_hold(facts));
    assert(country.accepts(facts) == country.fields_hold(facts));
    assert(subdivision.accepts(facts) == subdivision.fields_hold(facts));
    assert(city.accepts(facts) == city.fields_hold(facts));
    assert(city_geoname_id.accepts(facts) == city_geoname_id.fields_hold(facts));
    assert(asn.accepts(facts) == asn.fields_hold(facts));
    assert(asn_org_contains.accepts(facts) == asn_org_contains.fields_hold(facts));
}

/// Something holds somewhere in a condition where it holds of the condition itself or somewhere
/// in one inside it, and only there.
pub proof fn somewhere_is_here_or_inside(m: MatcherModel, p: spec_fn(MatcherModel) -> bool)
    ensures
        m.somewhere(p) <==> {
            ||| p(m)
            ||| exists|i: int| 0 <= i < m.all.len() && (#[trigger] m.all[i]).somewhere(p)
            ||| exists|i: int| 0 <= i < m.any.len() && (#[trigger] m.any[i]).somewhere(p)
            ||| m.not is Some && m.not->0.somewhere(p)
        },
{
}

/// A condition reads a database where one of its own fields is on what that database tells, or a
/// condition inside it reads it, and only there.
pub proof fn databases_are_read_by_field(m: MatcherModel)
    ensures
        m.needs().country <==> {
            ||| m.continent.len() > 0
            ||| m.country.len() > 0
            ||| exists|i: int| 0 <= i < m.all.len() && (#[trigger] m.all[i]).needs().country
            ||| exists|i: int| 0 <= i < m.any.len() && (#[trigger] m.any[i]).needs().country
            ||| m.not is Some && m.not->0.needs().country
        },
        m.needs().city <==> {
            ||| m.subdivision.len() > 0
            ||| m.city.len() > 0
            ||| m.city_geoname_id.len() > 0
            ||| exists|i: int| 0 <= i < m.all.len() && (#[trigger] m.all[i]).needs().city
            ||| exists|i: int| 0 <= i < m.any.len() && (#[trigger] m.any[i]).needs().city
            ||| m.not is Some && m.not->0.needs().city
        },
        m.needs().asn <==> {
            ||| m.asn.len() > 0
            ||| m.asn_org_contains.len() > 0
            ||| exists|i: int| 0 <= i < m.all.len() && (#[trigger] m.all[i]).needs().asn
            ||| exists|i: int| 0 <= i < m.any.len() && (#[trigger] m.any[i]).needs().asn
            ||| m.not is Some && m.not->0.needs().asn
        },
{
    somewhere_is_here_or_inside(m, reads_country());
    somewhere_is_here_or_inside(m, reads_city());
    somewhere_is_here_or_inside(m, reads_asn());
    assert forall|i: int| 0 <= i < m.all.len() implies {
        let inner = #[trigger] m.all[i];
        &&& inner.needs().country == inner.somewhere(reads_country())
        &&& inner.needs().city == inner.somewhere(reads_city())
        &&& inner.needs().asn == inner.somewhere(reads_asn())
    } by {}
    assert forall|i: int| 0 <= i < m.any.len() implies {
        let inner = #[trigger] m.any[i];
        &&& inner.needs().country == inner.somewhere(reads_country())
        &&& inner.needs().city == inner.somewhere(reads_city())
        &&& inner.needs().asn == inner.somewhere(reads_asn())
    } by {}
}

/// A condition is refused where a text in it is blank or an ASN is zero, in its own fields or in
/// a condition inside it, and only there.
pub proof fn blank_texts_and_zero_are_refused(m: MatcherModel, rule_name: Seq<char>)
    ensures
        m.fault(rule_name) is Some <==> {
            ||| exists|k: int| 0 <= k < m.continent.len() && text::is_blank(#[trigger] m.continent[k])
            ||| exists|k: int| 0 <= k < m.country.len() && text::is_blank(#[trigger] m.country[k])
            ||| exists|k: int|
                0 <= k < m.subdivision.len() && text::is_blank(#[trigger] m.subdivision[k])
            ||| exists|k: int| 0 <= k < m.city.len() && text::is_blank(#[trigger] m.city[k])
            ||| exists|k: int|
                0 <= k < m.asn_org_contains.len() && text::is_blank(
                    #[trigger] m.asn_org_contains[k],
                )
            ||| exists|k: int| 0 <= k < m.asn.len() && #[trigger] m.asn[k] == 0
            ||| exists|i: int|
                0 <= i < m.all.len() && (#[trigger] m.all[i]).fault(rule_name) is Some
            ||| exists|i: int|
                0 <= i < m.any.len() && (#[trigger] m.any[i]).fault(rule_name) is Some
            ||| m.not is Some && m.not->0.fault(rule_name) is Some
        },
{
    validation_reaches_everywhere(m, rule_name);
    somewhere_is_here_or_inside(m, is_faulty());
    assert forall|i: int| 0 <= i < m.all.len() implies ((#[trigger] m.all[i]).fault(rule_name)
        is Some) == m.all[i].somewhere(is_faulty()) by {
        validation_reaches_everywhere(m.all[i], rule_name);
    }
    assert forall|i: int| 0 <= i < m.any.len() implies ((#[trigger] m.any[i]).fault(rule_name)
        is Some) == m.any[i].somewhere(is_faulty()) by {
        validation_reaches_everywhere(m.any[i], rule_name);
    }
    match m.not {
        Some(inner) => {
            validation_reaches_everywhere(*inner, rule_name);
        },
        None => {},
    }
}

/// Whether `complaint` is one about a blank value in `field`.
pub open spec fn is_about(complaint: Option<Seq<char>>, field: Seq<char>, rule_name: Seq<char>) -> bool {
    complaint == Some("rule '"@ + rule_name + "' contains an empty value in "@ + field)
}

/// Of several things that are wrong with a condition, the first is named: its own texts field by
/// field, then a zero ASN, then the conditions inside it, those of `all` before those of `any`
/// and both before `not`, each list from its start.
pub proof fn first_fault_is_named(m: MatcherModel, rule_name: Seq<char>, i: int)
    ensures
        ({
            let complaint = m.fault(rule_name);
            let no_text = !has_blank(m.continent) && !has_blank(m.country) && !has_blank(
                m.subdivision,
            ) && !has_blank(m.city) && !has_blank(m.asn_org_contains);
            let nothing_here = no_text && !m.asn.contains(0);
            let nothing_in_all = forall|k: int|
                0 <= k < m.all.len() ==> (#[trigger] m.all[k]).fault(rule_name) is None;
            let nothing_in_any = forall|k: int|
                0 <= k < m.any.len() ==> (#[trigger] m.any[k]).fault(rule_name) is None;
            &&& has_blank(m.continent) ==> is_about(complaint, "continent"@, rule_name)
            &&& !has_blank(m.continent) && has_blank(m.country) ==> is_about(
                complaint,
                "country"@,
                rule_name,
            )
            &&& !has_blank(m.continent) && !has_blank(m.country) && has_blank(m.subdivision)
                ==> is_about(complaint, "subdivision"@, rule_name)
            &&& !has_blank(m.continent) && !has_blank(m.country) && !has_blank(m.subdivision)
                && has_blank(m.city) ==> is_about(complaint, "city"@, rule_name)
            &&& !has_blank(m.continent) && !has_blank(m.country) && !has_blank(m.subdivision)
                && !has_blank(m.city) && has_blank(m.asn_org_contains) ==> is_about(
                complaint,
                "asn_org_contains"@,
                rule_name,
            )
            &&& no_text && m.asn.contains(0) ==> complaint == Some(
                "rule '"@ + rule_name + "' contains invalid ASN 0"@,
            )
            &&& nothing_here && 0 <= i < m.all.len() && m.all[i].fault(rule_name) is Some && (
            forall|k: int| 0 <= k < i ==> (#[trigger] m.all[k]).fault(rule_name) is None)
                ==> complaint == m.all[i].fault(rule_name)
            &&& nothing_here && nothing_in_all && 0 <= i < m.any.len() && m.any[i].fault(rule_name)
                is Some && (forall|k: int|
                0 <= k < i ==> (#[trigger] m.any[k]).fault(rule_name) is None) ==> complaint
                == m.any[i].fault(rule_name)
            &&& nothing_here && nothing_in_all && nothing_in_any ==> complaint == match m.not {
                Some(inner) => inner.fault(rule_name),
                None => None,
            }
        }),
{
    lemma_first_of(m.all, rule_name, m.all.len() as int);
    lemma_first_of(m.any, rule_name, m.any.len() as int);
    if 0 <= i < m.all.len() && forall|k: int|
        0 <= k < i ==> (#[trigger] m.all[k]).fault(rule_name) is None {
        lemma_first_of(m.all, rule_name, i);
    }
    if 0 <= i < m.any.len() && forall|k: int|
        0 <= k < i ==> (#[trigger] m.any[k]).fault(rule_name) is None {
        lemma_first_of(m.any, rule_name, i);
    }
}

proof fn lemma_first_of(conditions: Seq<MatcherModel>, rule_name: Seq<char>, i: int)
    requires
        0 <= i <= conditions.len(),
    ensures
        (forall|k: int| 0 <= k < i ==> (#[trigger] conditions[k]).fault(rule_name) is None) ==> {
            &&& i == conditions.len() ==> first_fault(conditions, rule_name) is None
            &&& i < conditions.len() && conditions[i].fault(rule_name) is Some ==> first_fault(
                conditions,
                rule_name,
            ) == conditions[i].fault(rule_name)
        },
    decreases conditions.len(),
{
    if i > 0 && forall|k: int|
        0 <= k < i ==> (#[trigger] conditions[k]).fault(rule_name) is None {
        let rest = conditions.drop_first();
        assert(conditions[0].fault(rule_name) is None);
        assert forall|k: int| 0 <= k < i - 1 implies (#[trigger] rest[k]).fault(rule_name)
            is None by {
            assert(rest[k] == conditions[k + 1]);
        }
        lemma_first_of(rest, rule_name, i - 1);
    }
}

impl Matcher {
    /// The model of a condition has every value of every field, and every condition inside it.
    pub proof fn model_has_every_field(self)
        ensures
            self.model().continent == text::texts(self.continent@),
            self.model().country == text::texts(self.country@),
            self.model().subdivision == text::texts(self.subdivision@),
            self.model().city == text::texts(self.city@),
            self.model().city_geoname_id == self.city_geoname_id@,
            self.model().asn == self.asn@,
            self.model().asn_org_contains == text::texts(self.asn_org_contains@),
            self.model().all.len() == self.all@.len(),
            forall|i: int|
                0 <= i < self.all@.len() ==> #[trigger] self.model().all[i] == self.all@[i].model(),
            self.model().any.len() == self.any@.len(),
            forall|i: int|
                0 <= i < self.any@.len() ==> #[trigger] self.model().any[i] == self.any@[i].model(),
            self.model().not is Some == self.not is Some,
            self.not is Some ==> *(self.model().not->0) == self.not->0.model(),
    {
    }
}

/// What two conditions read together is what either reads.
pub proof fn requirements_add_up(one: DbRequirements, other: DbRequirements)
    ensures
        one.union(other).country == (one.country || other.country),
        one.union(other).city == (one.city || other.city),
        one.union(other).asn == (one.asn || other.asn),
{
}

} // verus!
