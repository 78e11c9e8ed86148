//! What the environment says.
use vstd::prelude::*;

use crate::text;

verus! {

/// Where the country database is unless the environment says otherwise.
pub const DEFAULT_DB_PATH: &'static str = "/root/geoip/GeoLite2-Country.mmdb";

/// Where the city database is unless the environment says otherwise.
pub const DEFAULT_CITY_DB_PATH: &'static str = "/root/geoip/GeoLite2-City.mmdb";

/// Where the ASN database is unless the environment says otherwise.
pub const DEFAULT_ASN_DB_PATH: &'static str = "/root/geoip/GeoLite2-ASN.mmdb";

/// What the environment says.
pub struct Settings {
    /// `GEO_RELAY_ENABLED`.
    pub enabled: Option<String>,
    /// `GEO_RELAY_RULES`.
    pub rules: Option<String>,
    /// `GEOIP_COUNTRY_DB_PATH`.
    pub country_db_path: Option<String>,
    /// `GEOIP_DB_PATH`, the older name of `GEOIP_COUNTRY_DB_PATH`.
    pub db_path: Option<String>,
    /// `GEOIP_CITY_DB_PATH`.
    pub city_db_path: Option<String>,
    /// `GEOIP_ASN_DB_PATH`.
    pub asn_db_path: Option<String>,
}

/// Whether `word` says yes.
pub open spec fn says_yes(word: Seq<char>) -> bool {
    word == "1"@ || word == "true"@ || word == "yes"@ || word == "y"@ || word == "on"@
}

/// Whether `word` says no.
pub open spec fn says_no(word: Seq<char>) -> bool {
    word == "0"@ || word == "false"@ || word == "no"@ || word == "n"@ || word == "off"@
}

/// The switch that `value` writes; `default` where it writes none.
pub open spec fn switch(value: Option<Seq<char>>, default: bool) -> bool {
    match value {
        Some(value) => {
            let word = text::lowercase(text::trimmed(value));
            says_yes(word) || (default && !says_no(word))
        },
        None => default,
    }
}

/// The switch that `value` writes; `default` where it writes none.
pub fn parse_bool_env(value: &Option<String>, default: bool) -> (out: bool)
    ensures
        out == switch(text::maybe_text(*value), default),
{
    match value {
        Some(value) => {
            let word: String = text::to_lowercase(text::trim(value.as_str()));
            let word: &str = word.as_str();
            if text::same(word, "1") || text::same(word, "true") || text::same(word, "yes")
                || text::same(word, "y") || text::same(word, "on") {
                true
            } else if text::same(word, "0") || text::same(word, "false") || text::same(word, "no")
                || text::same(word, "n") || text::same(word, "off") {
                false
            } else {
                default
            }
        },
        None => default,
    }
}

impl Settings {
    /// Whether relays are chosen at all.
    pub open spec fn is_enabled(self) -> bool {
        switch(text::maybe_text(self.enabled), true)
    }

    /// The rules as they are written.
    pub open spec fn raw_rules(self) -> Seq<char> {
        match self.rules {
            Some(rules) => rules@,
            None => Seq::empty(),
        }
    }

    /// Where the databases are.
    pub open spec fn paths(self) -> PathsModel {
        PathsModel {
            country: match (self.country_db_path, self.db_path) {
                (Some(path), _) => path@,
                (None, Some(path)) => path@,
                (None, None) => DEFAULT_DB_PATH@,
            },
            city: match self.city_db_path {
                Some(path) => path@,
                None => DEFAULT_CITY_DB_PATH@,
            },
            asn: match self.asn_db_path {
                Some(path) => path@,
                None => DEFAULT_ASN_DB_PATH@,
            },
        }
    }
}

/// Where the databases are.
pub struct Paths {
    pub country: String,
    pub city: String,
    pub asn: String,
}

/// `Paths` with texts as sequences of characters.
pub struct PathsModel {
    pub country: Seq<char>,
    pub city: Seq<char>,
    pub asn: Seq<char>,
}

impl View for Paths {
    type V = PathsModel;

    open spec fn view(&self) -> PathsModel {
        PathsModel { country: self.country@, city: self.city@, asn: self.asn@ }
    }
}

fn path_or(path: &Option<String>, default: &str) -> (out: String)
    ensures
        out@ == match *path {
            Some(path) => path@,
            None => default@,
        },
{
    match path {
        Some(path) => path.clone(),
        None => default.to_owned(),
    }
}

impl Settings {
    /// Where the databases are.
    pub fn database_paths(&self) -> (out: Paths)
        ensures
            out@ == self.paths(),
    {
        let older: String = path_or(&self.db_path, DEFAULT_DB_PATH);
        Paths {
            country: path_or(&self.country_db_path, older.as_str()),
            city: path_or(&self.city_db_path, DEFAULT_CITY_DB_PATH),
            asn: path_or(&self.asn_db_path, DEFAULT_ASN_DB_PATH),
        }
    }
}

/// Whatever the case of a word and the white space around it, these words switch on and off,
/// and any other leaves the default.
pub proof fn words_switch_whatever_their_case(
    before: Seq<char>,
    word: Seq<char>,
    after: Seq<char>,
    default: bool,
)
    requires
        text::all_space(before),
        text::is_trim(word),
        text::all_space(after),
    ensures
        ({
            let yes = text::alike(word, "1"@) || text::alike(word, "true"@) || text::alike(
                word,
                "yes"@,
            ) || text::alike(word, "y"@) || text::alike(word, "on"@);
            let no = text::alike(word, "0"@) || text::alike(word, "false"@) || text::alike(
                word,
                "no"@,
            ) || text::alike(word, "n"@) || text::alike(word, "off"@);
            let result = switch(Some(before + word + after), default);
            &&& yes ==> result
            &&& no ==> !result
            &&& !yes && !no ==> result == default
            &&& !(yes && no)
        }),
        switch(None, default) == default,
{
    text::white_space_around_is_taken_off(before, word, after);
    reveal_strlit("1");
    reveal_strlit("true");
    reveal_strlit("yes");
    reveal_strlit("y");
    reveal_strlit("on");
    reveal_strlit("0");
    reveal_strlit("false");
    reveal_strlit("no");
    reveal_strlit("n");
    reveal_strlit("off");
    assert(text::lowercase("1"@) =~= "1"@);
    assert(text::lowercase("true"@) =~= "true"@);
    assert(text::lowercase("yes"@) =~= "yes"@);
    assert(text::lowercase("y"@) =~= "y"@);
    assert(text::lowercase("on"@) =~= "on"@);
    assert(text::lowercase("0"@) =~= "0"@);
    assert(text::lowercase("false"@) =~= "false"@);
    assert(text::lowercase("no"@) =~= "no"@);
    assert(text::lowercase("n"@) =~= "n"@);
    assert(text::lowercase("off"@) =~= "off"@);
    let low = text::lowercase(word);
    if says_yes(low) {
        assert(low[0] == '1' || low[0] == 't' || low[0] == 'y' || (low[0] == 'o' && low[1] == 'n'));
        assert(!says_no(low));
    }
}

impl Settings {
    /// Each database is where its own variable says; the country database where the older
    /// variable says if the newer does not; and each where its default says otherwise. Relays are
    /// chosen unless the switch says no, and rules that are not there are no text.
    pub proof fn variables_come_before_defaults(self)
        ensures
            self.country_db_path matches Some(path) ==> self.paths().country == path@,
            self.country_db_path is None && self.db_path is Some ==> self.paths().country
                == self.db_path->0@,
            self.country_db_path is None && self.db_path is None ==> self.paths().country
                == "/root/geoip/GeoLite2-Country.mmdb"@,
            self.city_db_path matches Some(path) ==> self.paths().city == path@,
            self.city_db_path is None ==> self.paths().city == "/root/geoip/GeoLite2-City.mmdb"@,
            self.asn_db_path matches Some(path) ==> self.paths().asn == path@,
            self.asn_db_path is None ==> self.paths().asn == "/root/geoip/GeoLite2-ASN.mmdb"@,
            self.is_enabled() == switch(text::maybe_text(self.enabled), true),
            self.rules matches Some(rules) ==> self.raw_rules() == rules@,
            self.rules is None ==> self.raw_rules().len() == 0,
    {
    }
}

} // verus!
