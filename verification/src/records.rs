//! What the databases have for an address, and what is known from it.
use vstd::prelude::*;

use crate::database;
use crate::database::{Address, Database, Step, StepModel};
use crate::facts::{FactsModel, GeoFacts};
use crate::text;

verus! {

/// Where an address is, as a country or a city database has it.
#[derive(Debug)]
pub struct CountryRecord {
    pub continent: Option<String>,
    pub country: Option<String>,
}

/// A province or state, as a city database has it.
#[derive(Debug)]
pub struct SubdivisionRecord {
    pub code: Option<String>,
    /// Its names in several languages.
    pub names: Vec<String>,
}

/// Where an address is, as a city database has it.
#[derive(Debug)]
pub struct CityRecord {
    pub place: CountryRecord,
    /// GeoNames number of the city.
    pub geoname_id: Option<u32>,
    /// Names of the city in several languages.
    pub names: Vec<String>,
    pub subdivisions: Vec<SubdivisionRecord>,
}

/// Who runs the network of an address, as an ASN database has it.
#[derive(Debug)]
pub struct AsnRecord {
    pub number: Option<u32>,
    pub organization: Option<String>,
}

/// What the databases have for an address.
#[derive(Debug)]
pub struct Records {
    pub country: CountryRecord,
    pub city: CityRecord,
    pub asn: AsnRecord,
}

/// `CountryRecord` with texts as sequences of characters.
pub struct CountryModel {
    pub continent: Option<Seq<char>>,
    pub country: Option<Seq<char>>,
}

/// `SubdivisionRecord` with texts as sequences of characters.
#[verifier::ext_equal]
pub struct SubdivisionModel {
    pub code: Option<Seq<char>>,
    pub names: Seq<Seq<char>>,
}

/// `CityRecord` with texts as sequences of characters.
#[verifier::ext_equal]
pub struct CityModel {
    pub place: CountryModel,
    pub geoname_id: Option<u32>,
    pub names: Seq<Seq<char>>,
    pub subdivisions: Seq<SubdivisionModel>,
}

/// `AsnRecord` with texts as sequences of characters.
pub struct AsnModel {
    pub number: Option<u32>,
    pub organization: Option<Seq<char>>,
}

/// `Records` with texts as sequences of characters.
#[verifier::ext_equal]
pub struct RecordsModel {
    pub country: CountryModel,
    pub city: CityModel,
    pub asn: AsnModel,
}

impl View for CountryRecord {
    type V = CountryModel;

    open spec fn view(&self) -> CountryModel {
        CountryModel {
            continent: text::maybe_text(self.continent),
            country: text::maybe_text(self.country),
        }
    }
}

impl View for SubdivisionRecord {
    type V = SubdivisionModel;

    open spec fn view(&self) -> SubdivisionModel {
        SubdivisionModel { code: text::maybe_text(self.code), names: text::texts(self.names@) }
    }
}

impl View for CityRecord {
    type V = CityModel;

    open spec fn view(&self) -> CityModel {
        CityModel {
            place: self.place@,
            geoname_id: self.geoname_id,
            names: text::texts(self.names@),
            subdivisions: subdivision_models(self.subdivisions@),
        }
    }
}

impl View for AsnRecord {
    type V = AsnModel;

    open spec fn view(&self) -> AsnModel {
        AsnModel { number: self.number, organization: text::maybe_text(self.organization) }
    }
}

impl View for Records {
    type V = RecordsModel;

    open spec fn view(&self) -> RecordsModel {
        RecordsModel { country: self.country@, city: self.city@, asn: self.asn@ }
    }
}

/// The models of several subdivisions.
pub open spec fn subdivision_models(subdivisions: Seq<SubdivisionRecord>) -> Seq<SubdivisionModel> {
    subdivisions.map_values(|subdivision: SubdivisionRecord| subdivision@)
}

/// What was found, where a failure counts as nothing.
pub open spec fn known<T>(found: Option<Option<T>>) -> Option<T> {
    match found {
        Some(found) => found,
        None => None,
    }
}

/// The names that were found, where a failure counts as none.
pub open spec fn known_names(found: Option<Option<Seq<Seq<char>>>>) -> Seq<Seq<char>> {
    match found {
        Some(Some(names)) => names,
        _ => Seq::empty(),
    }
}

/// What a country or city database has for an address.
pub open spec fn country_record(source: Seq<u8>, address: Seq<u8>) -> CountryModel {
    CountryModel {
        continent: known(
            database::text_record(source, address, database::inside("continent"@, "code"@)),
        ),
        country: known(
            database::text_record(source, address, database::inside("country"@, "iso_code"@)),
        ),
    }
}

/// The path to what the province or state at `place` has under `key`.
pub open spec fn in_subdivision(place: usize, key: Seq<char>) -> Seq<StepModel> {
    seq![StepModel::Key("subdivisions"@), StepModel::Index(place), StepModel::Key(key)]
}

/// What a city database has for an address about the province or state at `place`.
pub open spec fn subdivision_record(source: Seq<u8>, address: Seq<u8>, place: usize) -> SubdivisionModel {
    SubdivisionModel {
        code: known(
            database::text_record(source, address, in_subdivision(place, "iso_code"@)),
        ),
        names: known_names(
            database::names_record(source, address, in_subdivision(place, "names"@)),
        ),
    }
}

/// How many provinces or states a city database has for an address.
pub open spec fn subdivision_count(source: Seq<u8>, address: Seq<u8>) -> usize {
    match database::length_record(source, address, seq![StepModel::Key("subdivisions"@)]) {
        Some(Some(count)) => count,
        _ => 0,
    }
}

/// What a city database has for an address.
pub open spec fn city_record(source: Seq<u8>, address: Seq<u8>) -> CityModel {
    CityModel {
        place: country_record(source, address),
        geoname_id: known(
            database::number_record(source, address, database::inside("city"@, "geoname_id"@)),
        ),
        names: known_names(
            database::names_record(source, address, database::inside("city"@, "names"@)),
        ),
        subdivisions: Seq::new(
            subdivision_count(source, address) as nat,
            |place: int| subdivision_record(source, address, place as usize),
        ),
    }
}

/// What an ASN database has for an address.
pub open spec fn asn_record(source: Seq<u8>, address: Seq<u8>) -> AsnModel {
    AsnModel {
        number: known(
            database::number_record(
                source,
                address,
                seq![StepModel::Key("autonomous_system_number"@)],
            ),
        ),
        organization: known(
            database::text_record(
                source,
                address,
                seq![StepModel::Key("autonomous_system_organization"@)],
            ),
        ),
    }
}

impl CountryModel {
    /// Nothing.
    pub open spec fn nothing() -> CountryModel {
        CountryModel { continent: None, country: None }
    }
}

impl CityModel {
    /// Nothing.
    pub open spec fn nothing() -> CityModel {
        CityModel {
            place: CountryModel::nothing(),
            geoname_id: None,
            names: Seq::empty(),
            subdivisions: Seq::empty(),
        }
    }
}

impl AsnModel {
    /// Nothing.
    pub open spec fn nothing() -> AsnModel {
        AsnModel { number: None, organization: None }
    }
}

/// What the databases that are there have for an address.
pub open spec fn records_of(
    country: Option<Seq<u8>>,
    city: Option<Seq<u8>>,
    asn: Option<Seq<u8>>,
    address: Seq<u8>,
) -> RecordsModel {
    RecordsModel {
        country: match country {
            Some(source) => country_record(source, address),
            None => CountryModel::nothing(),
        },
        city: match city {
            Some(source) => city_record(source, address),
            None => CityModel::nothing(),
        },
        asn: match asn {
            Some(source) => asn_record(source, address),
            None => AsnModel::nothing(),
        },
    }
}

/// The first of two codes that is one.
pub open spec fn either_code(first: Option<Seq<char>>, second: Option<Seq<char>>) -> Option<
    Seq<char>,
> {
    match database::country_in(Some(first)) {
        Some(code) => Some(code),
        None => database::country_in(Some(second)),
    }
}

/// The codes of those subdivisions that have one.
pub open spec fn codes_of(subdivisions: Seq<SubdivisionModel>) -> Seq<Seq<char>>
    decreases subdivisions.len(),
{
    if subdivisions.len() == 0 {
        Seq::empty()
    } else {
        let codes = codes_of(subdivisions.drop_last());
        match subdivisions.last().code {
            Some(code) => codes.push(code),
            None => codes,
        }
    }
}

/// The names of the subdivisions, one subdivision after the other.
pub open spec fn names_of(subdivisions: Seq<SubdivisionModel>) -> Seq<Seq<char>>
    decreases subdivisions.len(),
{
    if subdivisions.len() == 0 {
        Seq::empty()
    } else {
        names_of(subdivisions.drop_last()) + subdivisions.last().names
    }
}

impl RecordsModel {
    /// What is known from the records. The country database comes first where both it and the
    /// city database name a continent or a country.
    pub open spec fn facts(self) -> FactsModel {
        FactsModel {
            continent: either_code(self.country.continent, self.city.place.continent),
            country: either_code(self.country.country, self.city.place.country),
            subdivision_codes: codes_of(self.city.subdivisions),
            subdivision_names: names_of(self.city.subdivisions),
            city_names: self.city.names,
            city_geoname_id: self.city.geoname_id,
            asn: self.asn.number,
            asn_org: self.asn.organization,
        }
    }
}

fn text_at(database: &Database, address: &Address, path: &[Step]) -> (out: Option<String>)
    ensures
        text::maybe_text(out) == known(
            database::text_record(
                database::database_source(*database),
                address@,
                database::path_of(path@),
            ),
        ),
{
    match database::lookup_text(database, address, path) {
        Some(found) => found,
        None => None,
    }
}

fn number_at(database: &Database, address: &Address, path: &[Step]) -> (out: Option<u32>)
    ensures
        out == known(
            database::number_record(
                database::database_source(*database),
                address@,
                database::path_of(path@),
            ),
        ),
{
    match database::lookup_number(database, address, path) {
        Some(found) => found,
        None => None,
    }
}

fn names_at(database: &Database, address: &Address, path: &[Step]) -> (out: Vec<String>)
    ensures
        text::texts(out@) == known_names(
            database::names_record(
                database::database_source(*database),
                address@,
                database::path_of(path@),
            ),
        ),
{
    match database::lookup_names(database, address, path) {
        Some(Some(names)) => names,
        _ => Vec::new(),
    }
}

/// What a country or city database has for `address`.
pub fn read_country(database: &Database, address: &Address) -> (out: CountryRecord)
    ensures
        out@ == country_record(database::database_source(*database), address@),
{
    let continent: [Step; 2] = [Step::Key("continent"), Step::Key("code")];
    let country: [Step; 2] = [Step::Key("country"), Step::Key("iso_code")];
    assert(database::path_of(continent@) == database::inside("continent"@, "code"@));
    assert(database::path_of(country@) == database::inside("country"@, "iso_code"@));
    CountryRecord {
        continent: text_at(database, address, &continent),
        country: text_at(database, address, &country),
    }
}

fn read_subdivision(database: &Database, address: &Address, place: usize) -> (out: SubdivisionRecord)
    ensures
        out@ == subdivision_record(database::database_source(*database), address@, place),
{
    let code: [Step; 3] = [Step::Key("subdivisions"), Step::Index(place), Step::Key("iso_code")];
    let names: [Step; 3] = [Step::Key("subdivisions"), Step::Index(place), Step::Key("names")];
    assert(database::path_of(code@) == in_subdivision(place, "iso_code"@));
    assert(database::path_of(names@) == in_subdivision(place, "names"@));
    SubdivisionRecord {
        code: text_at(database, address, &code),
        names: names_at(database, address, &names),
    }
}

fn read_subdivisions(database: &Database, address: &Address) -> (out: Vec<SubdivisionRecord>)
    ensures
        subdivision_models(out@) == city_record(
            database::database_source(*database),
            address@,
        ).subdivisions,
{
    let path: [Step; 1] = [Step::Key("subdivisions")];
    assert(database::path_of(path@) == seq![StepModel::Key("subdivisions"@)]);
    let count: usize = match database::lookup_length(database, address, &path) {
        Some(Some(count)) => count,
        _ => 0,
    };
    let ghost source = database::database_source(*database);
    let mut out: Vec<SubdivisionRecord> = Vec::new();
    let mut place: usize = 0;
    while place < count
        invariant
            place <= count,
            source == database::database_source(*database),
            out@.len() == place,
            forall|i: int|
                0 <= i < place ==> (#[trigger] out@[i])@ == subdivision_record(
                    source,
                    address@,
                    i as usize,
                ),
        decreases count - place,
    {
        out.push(read_subdivision(database, address, place));
        place = place + 1;
    }
    out
}

/// What a city database has for `address`.
pub fn read_city(database: &Database, address: &Address) -> (out: CityRecord)
    ensures
        out@ == city_record(database::database_source(*database), address@),
{
    let geoname_id: [Step; 2] = [Step::Key("city"), Step::Key("geoname_id")];
    let names: [Step; 2] = [Step::Key("city"), Step::Key("names")];
    assert(database::path_of(geoname_id@) == database::inside("city"@, "geoname_id"@));
    assert(database::path_of(names@) == database::inside("city"@, "names"@));
    CityRecord {
        place: read_country(database, address),
        geoname_id: number_at(database, address, &geoname_id),
        names: names_at(database, address, &names),
        subdivisions: read_subdivisions(database, address),
    }
}

/// What an ASN database has for `address`.
pub fn read_asn(database: &Database, address: &Address) -> (out: AsnRecord)
    ensures
        out@ == asn_record(database::database_source(*database), address@),
{
    let number: [Step; 1] = [Step::Key("autonomous_system_number")];
    let organization: [Step; 1] = [Step::Key("autonomous_system_organization")];
    assert(database::path_of(number@) == seq![StepModel::Key("autonomous_system_number"@)]);
    assert(database::path_of(organization@) == seq![
        StepModel::Key("autonomous_system_organization"@),
    ]);
    AsnRecord {
        number: number_at(database, address, &number),
        organization: text_at(database, address, &organization),
    }
}

/// The bytes of the file that a database was opened from, where there is one.
pub open spec fn maybe_source(database: Option<&Database>) -> Option<Seq<u8>> {
    match database {
        Some(database) => Some(database::database_source(*database)),
        None => None,
    }
}

/// What the databases that are there have for `address`.
pub fn read_records(
    country: Option<&Database>,
    city: Option<&Database>,
    asn: Option<&Database>,
    address: &Address,
) -> (out: Records)
    ensures
        out@ == records_of(maybe_source(country), maybe_source(city), maybe_source(asn), address@),
{
    let country: CountryRecord = match country {
        Some(database) => read_country(database, address),
        None => CountryRecord { continent: None, country: None },
    };
    let city: CityRecord = match city {
        Some(database) => read_city(database, address),
        None => CityRecord {
            place: CountryRecord { continent: None, country: None },
            geoname_id: None,
            names: Vec::new(),
            subdivisions: Vec::new(),
        },
    };
    let asn: AsnRecord = match asn {
        Some(database) => read_asn(database, address),
        None => AsnRecord { number: None, organization: None },
    };
    Records { country, city, asn }
}

fn choose_code(first: Option<String>, second: Option<String>) -> (out: Option<String>)
    ensures
        text::maybe_text(out) == either_code(text::maybe_text(first), text::maybe_text(second)),
{
    match database::country_code(Some(first)) {
        Some(code) => Some(code),
        None => database::country_code(Some(second)),
    }
}

/// What is known from the records.
pub fn known_facts(records: Records) -> (out: GeoFacts)
    ensures
        out@ == records@.facts(),
{
    let ghost models = records@.city.subdivisions;
    let mut codes: Vec<String> = Vec::new();
    let mut names: Vec<String> = Vec::new();
    assert(models.take(0) == Seq::<SubdivisionModel>::empty());
    for subdivision in walk: records.city.subdivisions.into_iter()
        invariant
            models == subdivision_models(walk.seq()),
            text::texts(codes@) == codes_of(models.take(walk.index() as int)),
            text::texts(names@) == names_of(models.take(walk.index() as int)),
    {
        let ghost i = walk.index() as int;
        let ghost (old_codes, old_names, added) = (codes@, names@, subdivision.names@);
        assert(models.take(i + 1).drop_last() == models.take(i));
        assert(models.take(i + 1).last() == subdivision@);
        match subdivision.code {
            Some(code) => {
                codes.push(code);
                assert(text::texts(codes@) == text::texts(old_codes).push(code@));
            },
            None => {},
        }
        let mut more: Vec<String> = subdivision.names;
        names.append(&mut more);
        assert(text::texts(names@) == text::texts(old_names) + text::texts(added));
    }
    assert(models.take(models.len() as int) == models);
    GeoFacts {
        continent: choose_code(records.country.continent, records.city.place.continent),
        country: choose_code(records.country.country, records.city.place.country),
        subdivision_codes: codes,
        subdivision_names: names,
        city_names: records.city.names,
        city_geoname_id: records.city.geoname_id,
        asn: records.asn.number,
        asn_org: records.asn.organization,
    }
}

/// What the databases that are there say of `address`.
pub fn lookup_facts(
    country: Option<&Database>,
    city: Option<&Database>,
    asn: Option<&Database>,
    address: &Address,
) -> (out: GeoFacts)
    ensures
        out@ == records_of(
            maybe_source(country),
            maybe_source(city),
            maybe_source(asn),
            address@,
        ).facts(),
{
    known_facts(read_records(country, city, asn, address))
}

/// What was found: the value where there is one, and nothing where the lookup failed or the file
/// has nothing.
pub open spec fn found_value<T>(found: Option<Option<T>>) -> Option<T> {
    if found is Some {
        found->0
    } else {
        None
    }
}

/// What a country or city file has for an address is what stands under these keys.
pub proof fn country_record_is_read(source: Seq<u8>, address: Seq<u8>)
    ensures
        country_record(source, address).continent == found_value(
            database::text_record(
                source,
                address,
                seq![StepModel::Key("continent"@), StepModel::Key("code"@)],
            ),
        ),
        country_record(source, address).country == found_value(
            database::text_record(
                source,
                address,
                seq![StepModel::Key("country"@), StepModel::Key("iso_code"@)],
            ),
        ),
{
}

/// What a city file has for an address is what stands under these keys, with every one of its
/// provinces or states.
pub proof fn city_record_is_read(source: Seq<u8>, address: Seq<u8>, place: usize)
    ensures
        ({
            let city = city_record(source, address);
            let count = found_value(
                database::length_record(source, address, seq![StepModel::Key("subdivisions"@)]),
            );
            let names = found_value(
                database::names_record(
                    source,
                    address,
                    seq![StepModel::Key("city"@), StepModel::Key("names"@)],
                ),
            );
            &&& city.place == country_record(source, address)
            &&& city.geoname_id == found_value(
                database::number_record(
                    source,
                    address,
                    seq![StepModel::Key("city"@), StepModel::Key("geoname_id"@)],
                ),
            )
            &&& names is Some ==> city.names == names->0
            &&& names is None ==> city.names.len() == 0
            &&& count is Some ==> city.subdivisions.len() == count->0
            &&& count is None ==> city.subdivisions.len() == 0
            &&& place < city.subdivisions.len() ==> {
                let subdivision = city.subdivisions[place as int];
                let start = seq![StepModel::Key("subdivisions"@), StepModel::Index(place)];
                let its_names = found_value(
                    database::names_record(
                        source,
                        address,
                        start.push(StepModel::Key("names"@)),
                    ),
                );
                &&& subdivision.code == found_value(
                    database::text_record(
                        source,
                        address,
                        start.push(StepModel::Key("iso_code"@)),
                    ),
                )
                &&& its_names is Some ==> subdivision.names == its_names->0
                &&& its_names is None ==> subdivision.names.len() == 0
            }
        }),
{
    let start = seq![StepModel::Key("subdivisions"@), StepModel::Index(place)];
    assert(start.push(StepModel::Key("names"@)) =~= in_subdivision(place, "names"@));
    assert(start.push(StepModel::Key("iso_code"@)) =~= in_subdivision(place, "iso_code"@));
}

/// What an ASN file has for an address is what stands under these keys.
pub proof fn asn_record_is_read(source: Seq<u8>, address: Seq<u8>)
    ensures
        asn_record(source, address).number == found_value(
            database::number_record(
                source,
                address,
                seq![StepModel::Key("autonomous_system_number"@)],
            ),
        ),
        asn_record(source, address).organization == found_value(
            database::text_record(
                source,
                address,
                seq![StepModel::Key("autonomous_system_organization"@)],
            ),
        ),
{
}

/// A database that is there is read from the bytes that it was opened from.
pub proof fn databases_are_read_from_their_bytes(database: &Database)
    ensures
        maybe_source(Some(database)) == Some(database::database_source(*database)),
        maybe_source(None) is None,
{
}

/// Every file that is there is read for every address, and nothing is known from one that is not.
pub proof fn every_file_is_read(
    country: Option<Seq<u8>>,
    city: Option<Seq<u8>>,
    asn: Option<Seq<u8>>,
    address: Seq<u8>,
)
    ensures
        ({
            let records = records_of(country, city, asn, address);
            &&& country is Some ==> records.country == country_record(country->0, address)
            &&& country is None ==> records.country.continent is None
                && records.country.country is None
            &&& city is Some ==> records.city == city_record(city->0, address)
            &&& city is None ==> records.city.place.continent is None
                && records.city.place.country is None && records.city.geoname_id is None
                && records.city.names.len() == 0 && records.city.subdivisions.len() == 0
            &&& asn is Some ==> records.asn == asn_record(asn->0, address)
            &&& asn is None ==> records.asn.number is None && records.asn.organization is None
        }),
{
}

impl RecordsModel {
    /// The continent and the country are those of the country database where it has a code, and
    /// those of the city database where it has none.
    pub proof fn country_database_comes_first(self)
        ensures
            database::country_in(Some(self.country.continent)) matches Some(code)
                ==> self.facts().continent == Some(code),
            database::country_in(Some(self.country.continent)) is None ==> self.facts().continent
                == database::country_in(Some(self.city.place.continent)),
            database::country_in(Some(self.country.country)) matches Some(code)
                ==> self.facts().country == Some(code),
            database::country_in(Some(self.country.country)) is None ==> self.facts().country
                == database::country_in(Some(self.city.place.country)),
    {
    }

    /// What the city and ASN databases have is known as it is: every name of the city, its number,
    /// and who runs the network.
    pub proof fn city_and_network_are_known(self)
        ensures
            self.facts().city_names == self.city.names,
            self.facts().city_geoname_id == self.city.geoname_id,
            self.facts().asn == self.asn.number,
            self.facts().asn_org == self.asn.organization,
    {
    }

    /// Every code and every name of every province or state is known, and no other.
    pub proof fn every_subdivision_is_known(self, word: Seq<char>)
        ensures
            self.facts().subdivision_codes.contains(word) <==> exists|i: int|
                0 <= i < self.city.subdivisions.len() && (
                #[trigger] self.city.subdivisions[i]).code == Some(word),
            self.facts().subdivision_names.contains(word) <==> exists|i: int|
                0 <= i < self.city.subdivisions.len() && (
                #[trigger] self.city.subdivisions[i]).names.contains(word),
    {
        lemma_subdivision_words(self.city.subdivisions, word);
    }
}

proof fn lemma_subdivision_words(subdivisions: Seq<SubdivisionModel>, word: Seq<char>)
    ensures
        codes_of(subdivisions).contains(word) <==> exists|i: int|
            0 <= i < subdivisions.len() && (#[trigger] subdivisions[i]).code == Some(word),
        names_of(subdivisions).contains(word) <==> exists|i: int|
            0 <= i < subdivisions.len() && (#[trigger] subdivisions[i]).names.contains(word),
    decreases subdivisions.len(),
{
    if subdivisions.len() > 0 {
        let (rest, last) = (subdivisions.drop_last(), subdivisions.last());
        lemma_subdivision_words(rest, word);
        let (codes, names) = (codes_of(subdivisions), names_of(subdivisions));
        assert(subdivisions[subdivisions.len() - 1] == last);
        assert(codes.contains(word) <==> codes_of(rest).contains(word) || last.code == Some(word))
            by {
            if codes_of(rest).contains(word) {
                assert(codes[codes_of(rest).index_of(word)] == word);
            }
            if last.code == Some(word) {
                assert(codes[codes.len() - 1] == word);
            }
            if codes.contains(word) {
                let at = codes.index_of(word);
                if at < codes_of(rest).len() {
                    assert(codes_of(rest)[at] == word);
                }
            }
        }
        assert(names.contains(word) <==> names_of(rest).contains(word) || last.names.contains(word))
            by {
            if names_of(rest).contains(word) {
                assert(names[names_of(rest).index_of(word)] == word);
            }
            if last.names.contains(word) {
                assert(names[names_of(rest).len() + last.names.index_of(word)] == word);
            }
            if names.contains(word) {
                let at = names.index_of(word);
                if at < names_of(rest).len() {
                    assert(names_of(rest)[at] == word);
                } else {
                    assert(last.names[at - names_of(rest).len()] == word);
                }
            }
        }
        if exists|i: int|
            0 <= i < subdivisions.len() && (#[trigger] subdivisions[i]).code == Some(word) {
            let i = choose|i: int|
                0 <= i < subdivisions.len() && (#[trigger] subdivisions[i]).code == Some(word);
            if i < rest.len() {
                assert(rest[i] == subdivisions[i]);
            }
        }
        if exists|i: int| 0 <= i < rest.len() && (#[trigger] rest[i]).code == Some(word) {
            let i = choose|i: int| 0 <= i < rest.len() && (#[trigger] rest[i]).code == Some(word);
            assert(rest[i] == subdivisions[i]);
        }
        if exists|i: int|
            0 <= i < subdivisions.len() && (#[trigger] subdivisions[i]).names.contains(word) {
            let i = choose|i: int|
                0 <= i < subdivisions.len() && (#[trigger] subdivisions[i]).names.contains(word);
            if i < rest.len() {
                assert(rest[i] == subdivisions[i]);
            }
        }
        if exists|i: int| 0 <= i < rest.len() && (#[trigger] rest[i]).names.contains(word) {
            let i = choose|i: int| 0 <= i < rest.len() && (#[trigger] rest[i]).names.contains(word);
            assert(rest[i] == subdivisions[i]);
        }
    }
}

/// The models of records have all that is in them.
pub proof fn models_have_every_record(records: Records, i: int)
    ensures
        records@.country.continent == text::maybe_text(records.country.continent),
        records@.country.country == text::maybe_text(records.country.country),
        records@.city.place.continent == text::maybe_text(records.city.place.continent),
        records@.city.place.country == text::maybe_text(records.city.place.country),
        records@.city.geoname_id == records.city.geoname_id,
        records@.city.names == text::texts(records.city.names@),
        records@.city.subdivisions.len() == records.city.subdivisions@.len(),
        0 <= i < records.city.subdivisions@.len() ==> {
            let subdivision = records.city.subdivisions@[i];
            &&& records@.city.subdivisions[i].code == text::maybe_text(subdivision.code)
            &&& records@.city.subdivisions[i].names == text::texts(subdivision.names@)
        },
        records@.asn.number == records.asn.number,
        records@.asn.organization == text::maybe_text(records.asn.organization),
{
}

} // verus!
