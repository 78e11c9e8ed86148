//! Databases: MaxMind DB files held in memory.
use vstd::prelude::*;

use crate::pairs;
use crate::text;

verus! {

/// A network address.
#[derive(Clone, Copy, Debug, PartialEq, Eq)]
pub enum Address {
    V4([u8; 4]),
    V6([u8; 16]),
}

impl View for Address {
    type V = Seq<u8>;

    /// The octets of the address, most significant first.
    open spec fn view(&self) -> Seq<u8> {
        match self {
            Address::V4(octets) => octets@,
            Address::V6(octets) => octets@,
        }
    }
}

/// A MaxMind DB that was opened: `maxminddb::Reader` over the bytes of a file.
#[verifier::external_body]
pub struct Database {
    reader: maxminddb::Reader<Vec<u8>>,
}

/// The bytes of the file that a database was opened from.
pub uninterp spec fn database_source(database: Database) -> Seq<u8>;

/// A step into a record of a MaxMind DB.
#[derive(Clone, Copy, Debug)]
pub enum Step<'a> {
    /// To what a map has under a key.
    Key(&'a str),
    /// To what a list has at a place, counted from zero.
    Index(usize),
}

/// `Step` with its key as a sequence of characters.
pub enum StepModel {
    Key(Seq<char>),
    Index(usize),
}

impl<'a> View for Step<'a> {
    type V = StepModel;

    open spec fn view(&self) -> StepModel {
        match self {
            Step::Key(key) => StepModel::Key(key@),
            Step::Index(place) => StepModel::Index(*place),
        }
    }
}

/// The steps one after the other.
pub open spec fn path_of(steps: Seq<Step>) -> Seq<StepModel> {
    steps.map_values(|step: Step| step@)
}

/// The text that a MaxMind DB file has for an address at the end of a path: nothing where the
/// lookup fails or what stands there is no text, and nothing inside where the file has nothing
/// there.
pub uninterp spec fn text_record(source: Seq<u8>, address: Seq<u8>, path: Seq<StepModel>) -> Option<Option<Seq<char>>>;

/// The number that a MaxMind DB file has for an address at the end of a path, in the same way.
pub uninterp spec fn number_record(source: Seq<u8>, address: Seq<u8>, path: Seq<StepModel>) -> Option<Option<u32>>;

/// The texts of the map that a MaxMind DB file has for an address at the end of a path, in the
/// order of their keys, in the same way.
pub uninterp spec fn names_record(source: Seq<u8>, address: Seq<u8>, path: Seq<StepModel>) -> Option<Option<Seq<Seq<char>>>>;

/// The length of the list that a MaxMind DB file has for an address at the end of a path, in the
/// same way.
pub uninterp spec fn length_record(source: Seq<u8>, address: Seq<u8>, path: Seq<StepModel>) -> Option<Option<usize>>;

/// `maxminddb::Reader::from_source`: a database that opens is one over the bytes that were
/// handed in. Which bytes open, and the wording of the error where they do not, is left unsaid:
/// the crate also asks the platform whether it can represent the file's build time.
#[verifier::external_body]
pub(crate) fn open_database(bytes: Vec<u8>) -> (opened: Result<Database, String>)
    ensures
        opened matches Ok(database) ==> database_source(database) == bytes@,
{
    match maxminddb::Reader::from_source(bytes) {
        Ok(reader) => Ok(Database { reader }),
        Err(error) => Err(error.to_string()),
    }
}

/// `maxminddb::Reader::lookup` and `maxminddb::LookupResult::decode_path::<String>` on its
/// result: what they give depends on the bytes of the file, the address and the path alone.
#[verifier::external_body]
pub(crate) fn lookup_text(database: &Database, address: &Address, path: &[Step]) -> (found: Option<
    Option<String>,
>)
    ensures
        found_text(found) == text_record(database_source(*database), address@, path_of(path@)),
{
    let path: Vec<maxminddb::PathElement> = path.iter().map(|step| match step {
        Step::Key(key) => maxminddb::PathElement::Key(key),
        Step::Index(place) => maxminddb::PathElement::Index(*place),
    }).collect();
    let address = match address {
        Address::V4(octets) => (*octets).into(),
        Address::V6(octets) => (*octets).into(),
    };
    let found = database.reader.lookup(address).ok()?;
    found.decode_path(&path).ok()
}

/// `maxminddb::Reader::lookup` and `maxminddb::LookupResult::decode_path::<u32>` on its result:
/// what they give depends on the bytes of the file, the address and the path alone.
#[verifier::external_body]
pub(crate) fn lookup_number(database: &Database, address: &Address, path: &[Step]) -> (found: Option<
    Option<u32>,
>)
    ensures
        found == number_record(database_source(*database), address@, path_of(path@)),
{
    let path: Vec<maxminddb::PathElement> = path.iter().map(|step| match step {
        Step::Key(key) => maxminddb::PathElement::Key(key),
        Step::Index(place) => maxminddb::PathElement::Index(*place),
    }).collect();
    let address = match address {
        Address::V4(octets) => (*octets).into(),
        Address::V6(octets) => (*octets).into(),
    };
    let found = database.reader.lookup(address).ok()?;
    found.decode_path(&path).ok()
}

/// `maxminddb::Reader::lookup` and `maxminddb::LookupResult::decode_path` on its result, into a
/// `BTreeMap` from text to text whose values are handed out in the order of their keys: what they
/// give depends on the bytes of the file, the address and the path alone.
#[verifier::external_body]
pub(crate) fn lookup_names(database: &Database, address: &Address, path: &[Step]) -> (found: Option<
    Option<Vec<String>>,
>)
    ensures
        found_names(found) == names_record(database_source(*database), address@, path_of(path@)),
{
    let path: Vec<maxminddb::PathElement> = path.iter().map(|step| match step {
        Step::Key(key) => maxminddb::PathElement::Key(key),
        Step::Index(place) => maxminddb::PathElement::Index(*place),
    }).collect();
    let address = match address {
        Address::V4(octets) => (*octets).into(),
        Address::V6(octets) => (*octets).into(),
    };
    let found = database.reader.lookup(address).ok()?;
    let names: Option<std::collections::BTreeMap<String, String>> = found.decode_path(&path).ok()?;
    Some(names.map(|names| names.into_values().collect()))
}

/// `maxminddb::Reader::lookup` and `maxminddb::LookupResult::decode_path` on its result, into a
/// list whose elements are passed over: the length they give depends on the bytes of the file,
/// the address and the path alone.
#[verifier::external_body]
pub(crate) fn lookup_length(database: &Database, address: &Address, path: &[Step]) -> (found: Option<
    Option<usize>,
>)
    ensures
        found == length_record(database_source(*database), address@, path_of(path@)),
{
    let path: Vec<maxminddb::PathElement> = path.iter().map(|step| match step {
        Step::Key(key) => maxminddb::PathElement::Key(key),
        Step::Index(place) => maxminddb::PathElement::Index(*place),
    }).collect();
    let address = match address {
        Address::V4(octets) => (*octets).into(),
        Address::V6(octets) => (*octets).into(),
    };
    let found = database.reader.lookup(address).ok()?;
    let list: Option<Vec<serde::de::IgnoredAny>> = found.decode_path(&path).ok()?;
    Some(list.map(|list| list.len()))
}

/// What was found, with the text as a sequence of characters.
pub open spec fn found_text(found: Option<Option<String>>) -> Option<Option<Seq<char>>> {
    match found {
        Some(found) => Some(text::maybe_text(found)),
        None => None,
    }
}

/// What was found, with the texts as sequences of characters.
pub open spec fn found_names(found: Option<Option<Vec<String>>>) -> Option<Option<Seq<Seq<char>>>> {
    match found {
        Some(Some(names)) => Some(Some(text::texts(names@))),
        Some(None) => Some(None),
        None => None,
    }
}

/// The path to what the map under `outer` has under `inner`.
pub open spec fn inside(outer: Seq<char>, inner: Seq<char>) -> Seq<StepModel> {
    seq![StepModel::Key(outer), StepModel::Key(inner)]
}

/// The country code in what was found: trimmed, in upper case, and two bytes long.
pub open spec fn country_in(found: Option<Option<Seq<char>>>) -> Option<Seq<char>> {
    match found {
        Some(Some(raw)) if vstd::utf8::encode_utf8(pairs::code(raw)).len() == 2 => Some(
            pairs::code(raw),
        ),
        _ => None,
    }
}

/// The country code that a MaxMind DB file has for an address.
pub open spec fn country_of(source: Seq<u8>, address: Seq<u8>) -> Option<Seq<char>> {
    country_in(text_record(source, address, inside("country"@, "iso_code"@)))
}

/// The country code in what was found.
pub fn country_code(found: Option<Option<String>>) -> (out: Option<String>)
    ensures
        text::maybe_text(out) == country_in(found_text(found)),
{
    match found {
        Some(Some(raw)) => {
            let code: String = text::to_uppercase(text::trim(raw.as_str()));
            if code.as_str().as_bytes().len() == 2 {
                Some(code)
            } else {
                None
            }
        },
        _ => None,
    }
}

/// The country code that the database has for `address`.
pub fn lookup_country(database: &Database, address: &Address) -> (out: Option<String>)
    ensures
        text::maybe_text(out) == country_of(database_source(*database), address@),
{
    let path: [Step; 2] = [Step::Key("country"), Step::Key("iso_code")];
    assert(path_of(path@) == inside("country"@, "iso_code"@));
    country_code(lookup_text(database, address, &path))
}

proof fn lemma_bytes(s: Seq<char>)
    ensures
        vstd::utf8::encode_utf8(s).len() >= s.len(),
    decreases s.len(),
{
    if s.len() > 0 {
        lemma_bytes(s.drop_first());
    }
}

/// The code in a text is the text without the white space around it and in upper case, where that
/// takes two bytes: two ASCII characters, or one of those that take two bytes by themselves.
pub proof fn codes_take_two_bytes(before: Seq<char>, s: Seq<char>, after: Seq<char>)
    requires
        text::all_space(before),
        text::is_trim(s),
        text::all_space(after),
    ensures
        country_in(Some(Some(before + s + after))) == if (s.len() == 2 && (s[0] as int) < 0x80 && (
        s[1] as int) < 0x80) || (s.len() == 1 && 0x80 <= s[0] as int && (s[0] as int) < 0x800) {
            Some(text::uppercase(s))
        } else {
            None
        },
        country_in(Some(None)) is None,
        country_in(None) is None,
{
    text::white_space_around_is_taken_off(before, s, after);
    let code = text::uppercase(s);
    lemma_bytes(code);
    reveal_with_fuel(vstd::utf8::encode_utf8, 3);
    if s.len() >= 1 {
        text::case_changes_ascii_letters_alone(s, 0);
    }
    if s.len() == 2 {
        text::case_changes_ascii_letters_alone(s, 1);
        assert(code.drop_first()[0] == code[1]);
        assert(code.drop_first().drop_first().len() == 0);
    }
    if s.len() == 1 {
        assert(code.drop_first().len() == 0);
    }
}

/// A path has the steps that it was made of, one for one, and an address its octets.
pub proof fn paths_have_all_their_steps(steps: Seq<Step>, v4: [u8; 4], v6: [u8; 16])
    ensures
        path_of(steps).len() == steps.len(),
        forall|i: int|
            0 <= i < steps.len() ==> #[trigger] path_of(steps)[i] == match steps[i] {
                Step::Key(key) => StepModel::Key(key@),
                Step::Index(place) => StepModel::Index(place),
            },
        Address::V4(v4)@ == v4@,
        Address::V6(v6)@ == v6@,
{
}

/// The country code of an address, of either length, is the code in what the file has for it
/// under `country` and `iso_code`.
pub proof fn country_is_that_of_the_file(source: Seq<u8>, address: Seq<u8>)
    ensures
        country_of(source, address) == country_in(
            text_record(
                source,
                address,
                seq![StepModel::Key("country"@), StepModel::Key("iso_code"@)],
            ),
        ),
{
}

} // verus!
