//! What is known of where a client is.
use vstd::prelude::*;

use crate::text;

verus! {

/// What the databases say of a client's address.
#[derive(Debug)]
pub struct GeoFacts {
    /// Two-letter continent code.
    pub continent: Option<String>,
    /// Two-letter country code.
    pub country: Option<String>,
    /// Codes of the provinces or states that hold the place.
    pub subdivision_codes: Vec<String>,
    /// Names of the provinces or states that hold the place.
    pub subdivision_names: Vec<String>,
    /// Names of the city, in several languages.
    pub city_names: Vec<String>,
    /// GeoNames number of the city.
    pub city_geoname_id: Option<u32>,
    /// Number of the autonomous system.
    pub asn: Option<u32>,
    /// Organisation that runs the autonomous system.
    pub asn_org: Option<String>,
}

/// `GeoFacts` with texts as sequences of characters.
#[verifier::ext_equal]
pub struct FactsModel {
    pub continent: Option<Seq<char>>,
    pub country: Option<Seq<char>>,
    pub subdivision_codes: Seq<Seq<char>>,
    pub subdivision_names: Seq<Seq<char>>,
    pub city_names: Seq<Seq<char>>,
    pub city_geoname_id: Option<u32>,
    pub asn: Option<u32>,
    pub asn_org: Option<Seq<char>>,
}

impl View for GeoFacts {
    type V = FactsModel;

    open spec fn view(&self) -> FactsModel {
        FactsModel {
            continent: text::maybe_text(self.continent),
            country: text::maybe_text(self.country),
            subdivision_codes: text::texts(self.subdivision_codes@),
            subdivision_names: text::texts(self.subdivision_names@),
            city_names: text::texts(self.city_names@),
            city_geoname_id: self.city_geoname_id,
            asn: self.asn,
            asn_org: text::maybe_text(self.asn_org),
        }
    }
}

impl FactsModel {
    /// Nothing is known.
    pub open spec fn unknown() -> FactsModel {
        FactsModel {
            continent: None,
            country: None,
            subdivision_codes: Seq::empty(),
            subdivision_names: Seq::empty(),
            city_names: Seq::empty(),
            city_geoname_id: None,
            asn: None,
            asn_org: None,
        }
    }
}

impl Default for GeoFacts {
    fn default() -> (out: GeoFacts)
        ensures
            out@ == FactsModel::unknown(),
    {
        GeoFacts {
            continent: None,
            country: None,
            subdivision_codes: Vec::new(),
            subdivision_names: Vec::new(),
            city_names: Vec::new(),
            city_geoname_id: None,
            asn: None,
            asn_org: None,
        }
    }
}

/// The model of facts has every one of them.
pub proof fn model_has_every_fact(facts: GeoFacts)
    ensures
        facts@.continent == text::maybe_text(facts.continent),
        facts@.country == text::maybe_text(facts.country),
        facts@.subdivision_codes == text::texts(facts.subdivision_codes@),
        facts@.subdivision_names == text::texts(facts.subdivision_names@),
        facts@.city_names == text::texts(facts.city_names@),
        facts@.city_geoname_id == facts.city_geoname_id,
        facts@.asn == facts.asn,
        facts@.asn_org == text::maybe_text(facts.asn_org),
{
}

} // verus!
