//! What is loaded, how it is loaded anew, and the choice of a relay for two addresses.
use vstd::prelude::*;

use crate::database;
use crate::database::{Address, Database, StepModel};
use crate::facts::{FactsModel, GeoFacts};
use crate::matcher::DbRequirements;
use crate::pairs;
use crate::pairs::{PairTable, RelayRules};
use crate::records;
use crate::records::CountryModel;
use crate::rules;
use crate::rules::{ParseStep, RuleDocument, RuleSet, RuleSetModel};
use crate::settings;
use crate::settings::{Paths, PathsModel, Settings};
use crate::text;
use crate::tiers;

verus! {

/// What relays are chosen by.
pub enum Policy {
    /// Rules for pairs of countries, written on one line.
    Pairs(RelayRules),
    /// Ordered rules, written as a YAML document.
    Rules(RuleSet),
}

/// What a policy says.
pub enum PolicyModel {
    Pairs(PairTable),
    Rules(RuleSetModel),
}

impl PolicyModel {
    /// The databases that the policy reads.
    pub open spec fn needs(self) -> DbRequirements {
        match self {
            PolicyModel::Pairs(_) => DbRequirements { country: true, city: false, asn: false },
            PolicyModel::Rules(set) => set.requirements,
        }
    }
}

impl Policy {
    /// What the policy says.
    pub open spec fn model(self) -> PolicyModel {
        match self {
            Policy::Pairs(table) => PolicyModel::Pairs(table.model()),
            Policy::Rules(set) => PolicyModel::Rules(set.model()),
        }
    }

    /// The databases that the policy reads.
    pub fn requirements(&self) -> (out: DbRequirements)
        ensures
            out == self.model().needs(),
    {
        match self {
            Policy::Pairs(_) => DbRequirements { country: true, city: false, asn: false },
            Policy::Rules(set) => set.requirements(),
        }
    }
}

/// A database and the file that it came from.
pub struct OpenDatabase {
    pub path: String,
    pub database: Database,
}

/// A file: where it is and what is in it.
pub struct FileModel {
    pub path: Seq<char>,
    pub source: Seq<u8>,
}

impl OpenDatabase {
    /// The file of the database.
    pub open spec fn model(self) -> FileModel {
        FileModel { path: self.path@, source: database::database_source(self.database) }
    }
}

/// The file of a database, where there is one.
pub open spec fn maybe_file(opened: Option<OpenDatabase>) -> Option<FileModel> {
    match opened {
        Some(opened) => Some(opened.model()),
        None => None,
    }
}

/// The bytes of a file, where there is one.
pub open spec fn maybe_bytes(file: Option<FileModel>) -> Option<Seq<u8>> {
    match file {
        Some(file) => Some(file.source),
        None => None,
    }
}

/// What a state holds.
pub struct StateModel {
    pub enabled: bool,
    pub policy: PolicyModel,
    pub country: Option<FileModel>,
    pub city: Option<FileModel>,
    pub asn: Option<FileModel>,
}

/// The part of a report about one database.
pub open spec fn mention(label: Seq<char>, file: Option<FileModel>) -> Seq<char> {
    match file {
        Some(file) => label + file.path,
        None => Seq::empty(),
    }
}

impl StateModel {
    /// The state in which no relay is chosen.
    pub open spec fn disabled() -> StateModel {
        StateModel {
            enabled: false,
            policy: PolicyModel::Pairs(PairTable::empty()),
            country: None,
            city: None,
            asn: None,
        }
    }

    /// Whether the databases that the policy reads are there.
    pub open spec fn has_needed(self) -> bool {
        &&& self.policy.needs().country ==> self.country is Some
        &&& self.policy.needs().city ==> self.city is Some
        &&& self.policy.needs().asn ==> self.asn is Some
    }

    /// Whether there is something to choose by.
    pub open spec fn is_loaded(self) -> bool {
        self.enabled && self.has_needed()
    }

    /// Where relays are chosen, the databases that the policy reads are there, and no others.
    pub open spec fn well_formed(self) -> bool {
        if self.enabled {
            &&& (self.country is Some) == self.policy.needs().country
            &&& (self.city is Some) == self.policy.needs().city
            &&& (self.asn is Some) == self.policy.needs().asn
        } else {
            self == StateModel::disabled()
        }
    }

    /// What is known of an address.
    pub open spec fn facts(self, address: Seq<u8>) -> FactsModel {
        records::records_of(
            maybe_bytes(self.country),
            maybe_bytes(self.city),
            maybe_bytes(self.asn),
            address,
        ).facts()
    }

    /// The country of an address.
    pub open spec fn country(self, address: Seq<u8>) -> Option<Seq<char>> {
        match self.country {
            Some(file) => database::country_of(file.source, address),
            None => None,
        }
    }

    /// The relay for clients with the addresses `a` and `b`.
    pub open spec fn choice(
        self,
        a: Seq<u8>,
        b: Seq<u8>,
        online: Seq<Seq<char>>,
        turn: nat,
    ) -> Option<Seq<char>> {
        if !self.is_loaded() || online.len() == 0 {
            None
        } else {
            match self.policy {
                PolicyModel::Pairs(table) => table.choice(
                    self.country(a),
                    self.country(b),
                    online,
                    turn,
                ),
                PolicyModel::Rules(set) => match rules::choice(
                    set.rules,
                    self.facts(a),
                    self.facts(b),
                    online,
                    turn,
                ) {
                    Some((relay, _)) => Some(relay),
                    None => None,
                },
            }
        }
    }

    /// The report that this state was loaded.
    pub open spec fn report(self) -> Seq<char> {
        if self.enabled {
            match self.policy {
                PolicyModel::Pairs(table) => "Geo relay loaded: "@ + text::decimal(
                    table.by_pair.dom().len(),
                ) + " country-pair rules"@ + mention(", database="@, self.country),
                PolicyModel::Rules(set) => "Geo relay loaded: "@ + text::decimal(set.rules.len())
                    + " ordered rules, notation="@ + set.syntax.name() + mention(
                    ", country database="@,
                    self.country,
                ) + mention(", city database="@, self.city) + mention(
                    ", ASN database="@,
                    self.asn,
                ),
            }
        } else {
            "Geo relay disabled by GEO_RELAY_ENABLED"@
        }
    }
}

/// The report that loading failed.
pub open spec fn failure(keeping_previous: bool, reason: Seq<char>) -> Seq<char> {
    if keeping_previous {
        "Geo relay reload failed; keeping previous data: "@ + reason
    } else {
        "Geo relay unavailable; using upstream round-robin: "@ + reason
    }
}

/// The complaint about a database that does not open.
pub open spec fn unopened(db_path: Seq<char>, reason: Seq<char>) -> Seq<char> {
    "cannot open GeoIP database "@ + db_path + ": "@ + reason
}

/// What is loaded.
pub struct GeoState {
    enabled: bool,
    policy: Policy,
    country: Option<OpenDatabase>,
    city: Option<OpenDatabase>,
    asn: Option<OpenDatabase>,
}

/// One of the databases.
#[derive(Clone, Copy, Debug, PartialEq, Eq, Structural)]
pub enum DatabaseKind {
    Country,
    City,
    Asn,
}

/// What is loaded so far.
pub struct Loading {
    pub policy: Policy,
    pub paths: Paths,
    pub country: Option<OpenDatabase>,
    pub city: Option<OpenDatabase>,
    pub asn: Option<OpenDatabase>,
}

/// What is loaded so far.
pub struct LoadingModel {
    pub policy: PolicyModel,
    pub paths: PathsModel,
    pub country: Option<FileModel>,
    pub city: Option<FileModel>,
    pub asn: Option<FileModel>,
}

/// A state that lacks one of its databases.
pub struct PendingState {
    /// Which database it lacks.
    pub kind: DatabaseKind,
    /// Where that database is.
    pub db_path: String,
    pub loading: Loading,
}

/// A state that lacks its rules.
pub struct PendingRules {
    /// The rules as a YAML document.
    pub document: String,
    pub paths: Paths,
}

/// The next step of loading.
pub enum LoadStep {
    /// Nothing is left to do.
    Ready(GeoState),
    /// The document is to be decoded and handed to `PendingRules::decoded`.
    Decode(PendingRules),
    /// The file at the state's `db_path` is to be read and handed to `PendingState::with_file`.
    Open(PendingState),
}

impl LoadingModel {
    /// The beginning: a policy without any database.
    pub open spec fn start(policy: PolicyModel, paths: PathsModel) -> LoadingModel {
        LoadingModel { policy, paths, country: None, city: None, asn: None }
    }

    /// The first database that the policy reads and that is not there yet.
    pub open spec fn missing(self) -> Option<DatabaseKind> {
        if self.policy.needs().country && self.country is None {
            Some(DatabaseKind::Country)
        } else if self.policy.needs().city && self.city is None {
            Some(DatabaseKind::City)
        } else if self.policy.needs().asn && self.asn is None {
            Some(DatabaseKind::Asn)
        } else {
            None
        }
    }

    /// Where a database is.
    pub open spec fn path(self, kind: DatabaseKind) -> Seq<char> {
        match kind {
            DatabaseKind::Country => self.paths.country,
            DatabaseKind::City => self.paths.city,
            DatabaseKind::Asn => self.paths.asn,
        }
    }

    /// With one more database.
    pub open spec fn with(self, kind: DatabaseKind, file: FileModel) -> LoadingModel {
        match kind {
            DatabaseKind::Country => LoadingModel { country: Some(file), ..self },
            DatabaseKind::City => LoadingModel { city: Some(file), ..self },
            DatabaseKind::Asn => LoadingModel { asn: Some(file), ..self },
        }
    }

    /// The state that this becomes when nothing is missing.
    pub open spec fn state(self) -> StateModel {
        StateModel {
            enabled: true,
            policy: self.policy,
            country: self.country,
            city: self.city,
            asn: self.asn,
        }
    }

    /// No database is there that the policy does not read.
    pub open spec fn well_formed(self) -> bool {
        &&& self.country is Some ==> self.policy.needs().country
        &&& self.city is Some ==> self.policy.needs().city
        &&& self.asn is Some ==> self.policy.needs().asn
    }
}

impl PendingState {
    /// What is asked for is the first database that is missing.
    pub open spec fn well_formed(self) -> bool {
        &&& self.loading.model().well_formed()
        &&& self.loading.model().missing() == Some(self.kind)
        &&& self.db_path@ == self.loading.model().path(self.kind)
    }
}

impl LoadStep {
    /// What the step holds is well-formed.
    pub open spec fn well_formed(self) -> bool {
        match self {
            LoadStep::Ready(state) => state.model().well_formed(),
            LoadStep::Decode(_) => true,
            LoadStep::Open(pending) => pending.well_formed(),
        }
    }

    /// Whether this is the step that comes after what is loaded so far.
    pub open spec fn follows(self, loading: LoadingModel) -> bool {
        match self {
            LoadStep::Ready(state) => loading.missing() is None && state.model()
                == loading.state(),
            LoadStep::Decode(_) => false,
            LoadStep::Open(pending) => {
                &&& loading.missing() == Some(pending.kind)
                &&& pending.db_path@ == loading.path(pending.kind)
                &&& pending.loading.model() == loading
            },
        }
    }
}

impl Loading {
    /// What is loaded so far.
    pub open spec fn model(self) -> LoadingModel {
        LoadingModel {
            policy: self.policy.model(),
            paths: self.paths@,
            country: maybe_file(self.country),
            city: maybe_file(self.city),
            asn: maybe_file(self.asn),
        }
    }

    /// The beginning: a policy without any database.
    pub fn start(policy: Policy, paths: Paths) -> (out: Loading)
        ensures
            out.model() == LoadingModel::start(policy.model(), paths@),
            out.model().well_formed(),
    {
        Loading { policy, paths, country: None, city: None, asn: None }
    }

    /// The step that comes next.
    pub fn next(self) -> (out: LoadStep)
        ensures
            out.follows(self.model()),
            self.model().well_formed() ==> out.well_formed(),
    {
        let needs: DbRequirements = self.policy.requirements();
        if needs.country && self.country.is_none() {
            let db_path: String = self.paths.country.clone();
            LoadStep::Open(PendingState { kind: DatabaseKind::Country, db_path, loading: self })
        } else if needs.city && self.city.is_none() {
            let db_path: String = self.paths.city.clone();
            LoadStep::Open(PendingState { kind: DatabaseKind::City, db_path, loading: self })
        } else if needs.asn && self.asn.is_none() {
            let db_path: String = self.paths.asn.clone();
            LoadStep::Open(PendingState { kind: DatabaseKind::Asn, db_path, loading: self })
        } else {
            LoadStep::Ready(
                GeoState {
                    enabled: true,
                    policy: self.policy,
                    country: self.country,
                    city: self.city,
                    asn: self.asn,
                },
            )
        }
    }
}

impl GeoState {
    /// What the state holds.
    pub closed spec fn model(self) -> StateModel {
        StateModel {
            enabled: self.enabled,
            policy: self.policy.model(),
            country: maybe_file(self.country),
            city: maybe_file(self.city),
            asn: maybe_file(self.asn),
        }
    }

    /// The state in which no relay is chosen.
    pub fn disabled() -> (out: GeoState)
        ensures
            out.model() == StateModel::disabled(),
            out.model().well_formed(),
    {
        GeoState {
            enabled: false,
            policy: Policy::Pairs(RelayRules::default()),
            country: None,
            city: None,
            asn: None,
        }
    }

    /// Loads what the environment asks for, up to what has to be decoded or opened. The rules are
    /// those of pairs of countries where they can be read so; otherwise they are a document,
    /// unless they are in the one-line notation or not there at all.
    pub fn from_env(settings: Settings) -> (out: Result<LoadStep, String>)
        ensures
            match PairTable::read(settings.raw_rules()) {
                _ if !settings.is_enabled() => out matches Ok(LoadStep::Ready(state))
                    && state.model() == StateModel::disabled(),
                Ok(table) => out matches Ok(step) && step.follows(
                    LoadingModel::start(PolicyModel::Pairs(table), settings.paths()),
                ),
                Err(reason) => if text::is_blank(settings.raw_rules()) || rules::is_legacy(
                    text::trimmed(settings.raw_rules()),
                ) {
                    out matches Err(complaint) && complaint@ == reason
                } else {
                    out matches Ok(LoadStep::Decode(pending)) && pending.document@
                        == text::trimmed(settings.raw_rules()) && pending.paths@
                        == settings.paths()
                },
            },
            out matches Ok(step) ==> step.well_formed(),
    {
        if !settings::parse_bool_env(&settings.enabled, true) {
            return Ok(LoadStep::Ready(GeoState::disabled()));
        }
        let paths: Paths = settings.database_paths();
        let raw_rules: String = match settings.rules {
            Some(rules) => rules,
            None => String::new(),
        };
        match RelayRules::parse(raw_rules.as_str()) {
            Ok(rules) => Ok(Loading::start(Policy::Pairs(rules), paths).next()),
            Err(reason) => match RuleSet::parse(raw_rules.as_str()) {
                ParseStep::Decode(document) => Ok(
                    LoadStep::Decode(PendingRules { document, paths }),
                ),
                ParseStep::Done(_) => Err(reason),
            },
        }
    }
}

impl PendingRules {
    /// The step that comes after the document was decoded, or what is wrong with the rules.
    pub fn decoded(self, decoded: Result<RuleDocument, String>) -> (out: Result<LoadStep, String>)
        ensures
            match rules::document_rules(decoded) {
                Ok(set) => out matches Ok(step) && step.follows(
                    LoadingModel::start(PolicyModel::Rules(set), self.paths@),
                ),
                Err(reason) => out matches Err(complaint) && complaint@ == reason,
            },
            out matches Ok(step) ==> step.well_formed(),
    {
        match RuleSet::from_document(decoded) {
            Ok(set) => Ok(Loading::start(Policy::Rules(set), self.paths).next()),
            Err(reason) => Err(reason),
        }
    }
}

impl PendingState {
    /// The step that comes after the database was opened, or the reason why it did not open.
    pub fn with_database(self, opened: Result<Database, String>) -> (out: Result<LoadStep, String>)
        ensures
            match (opened, out) {
                (Ok(database), Ok(step)) => step.follows(
                    self.loading.model().with(
                        self.kind,
                        FileModel {
                            path: self.db_path@,
                            source: database::database_source(database),
                        },
                    ),
                ),
                (Err(reason), Err(complaint)) => complaint@ == unopened(self.db_path@, reason@),
                _ => false,
            },
            self.well_formed() && out is Ok ==> out->Ok_0.well_formed(),
    {
        match opened {
            Ok(database) => {
                let opened: OpenDatabase = OpenDatabase { path: self.db_path, database };
                let mut loading: Loading = self.loading;
                match self.kind {
                    DatabaseKind::Country => {
                        loading.country = Some(opened);
                    },
                    DatabaseKind::City => {
                        loading.city = Some(opened);
                    },
                    DatabaseKind::Asn => {
                        loading.asn = Some(opened);
                    },
                }
                Ok(loading.next())
            },
            Err(reason) => {
                let start: String = text::join3(
                    "cannot open GeoIP database ",
                    self.db_path.as_str(),
                    ": ",
                );
                Err(text::join(start.as_str(), reason.as_str()))
            },
        }
    }

    /// The step that comes after the file of the database was read, or the reason why it could
    /// not be read or opened.
    pub fn with_file(self, file: Result<Vec<u8>, String>) -> (out: Result<LoadStep, String>)
        ensures
            match (file, out) {
                (Ok(bytes), Ok(step)) => step.follows(
                    self.loading.model().with(
                        self.kind,
                        FileModel { path: self.db_path@, source: bytes@ },
                    ),
                ),
                (Ok(_), Err(complaint)) => exists|reason: Seq<char>|
                    complaint@ == #[trigger] unopened(self.db_path@, reason),
                (Err(reason), Err(complaint)) => complaint@ == unopened(self.db_path@, reason@),
                (Err(_), Ok(_)) => false,
            },
            self.well_formed() && out is Ok ==> out->Ok_0.well_formed(),
    {
        let opened: Result<Database, String> = match file {
            Ok(bytes) => database::open_database(bytes),
            Err(reason) => Err(reason),
        };
        self.with_database(opened)
    }
}

/// The report that loading failed.
pub fn reload_failure(keeping_previous: bool, reason: &str) -> (out: String)
    ensures
        out@ == failure(keeping_previous, reason@),
{
    if keeping_previous {
        text::join("Geo relay reload failed; keeping previous data: ", reason)
    } else {
        text::join("Geo relay unavailable; using upstream round-robin: ", reason)
    }
}

fn with_mention(start: String, label: &str, opened: &Option<OpenDatabase>) -> (out: String)
    ensures
        out@ == start@ + mention(label@, maybe_file(*opened)),
{
    match opened {
        Some(opened) => text::join3(start.as_str(), label, opened.path.as_str()),
        None => start,
    }
}

impl GeoState {
    fn load_report(&self) -> (out: String)
        ensures
            out@ == self.model().report(),
    {
        if !self.enabled {
            return "Geo relay disabled by GEO_RELAY_ENABLED".to_owned();
        }
        match &self.policy {
            Policy::Pairs(table) => {
                let count: String = text::number(table.by_pair.len());
                let start: String = text::join3(
                    "Geo relay loaded: ",
                    count.as_str(),
                    " country-pair rules",
                );
                assert(table.model().by_pair.dom() == table.by_pair@.dom());
                with_mention(start, ", database=", &self.country)
            },
            Policy::Rules(set) => {
                let count: String = text::number(set.len());
                let start: String = text::join3(
                    "Geo relay loaded: ",
                    count.as_str(),
                    " ordered rules, notation=",
                );
                let start: String = text::join(start.as_str(), set.syntax_name());
                let start: String = with_mention(start, ", country database=", &self.country);
                let start: String = with_mention(start, ", city database=", &self.city);
                with_mention(start, ", ASN database=", &self.asn)
            },
        }
    }

    fn is_loaded(&self) -> (out: bool)
        ensures
            out == self.model().is_loaded(),
    {
        let needs: DbRequirements = self.policy.requirements();
        self.enabled && (!needs.country || self.country.is_some()) && (!needs.city
            || self.city.is_some()) && (!needs.asn || self.asn.is_some())
    }
}

/// Puts what was loaded in place, and reports it. Where loading failed, what was in place stays.
pub fn reload(state: &mut GeoState, loaded: Result<GeoState, String>) -> (report: String)
    ensures
        match loaded {
            Ok(new_state) => *final(state) == new_state && report@ == new_state.model().report(),
            Err(reason) => *final(state) == *old(state) && report@ == failure(
                old(state).model().is_loaded(),
                reason@,
            ),
        },
        old(state).model().well_formed() && (loaded matches Ok(new_state)
            ==> new_state.model().well_formed()) ==> final(state).model().well_formed(),
{
    match loaded {
        Ok(new_state) => {
            let report: String = new_state.load_report();
            *state = new_state;
            report
        },
        Err(reason) => reload_failure(state.is_loaded(), reason.as_str()),
    }
}

fn opened_database(opened: &Option<OpenDatabase>) -> (out: Option<&Database>)
    ensures
        records::maybe_source(out) == maybe_bytes(maybe_file(*opened)),
{
    match opened {
        Some(opened) => Some(&opened.database),
        None => None,
    }
}

impl GeoState {
    fn country_of(&self, address: &Address) -> (out: Option<String>)
        ensures
            text::maybe_text(out) == self.model().country(address@),
    {
        match &self.country {
            Some(opened) => database::lookup_country(&opened.database, address),
            None => None,
        }
    }

    fn facts_of(&self, address: &Address) -> (out: GeoFacts)
        ensures
            out@ == self.model().facts(address@),
    {
        records::lookup_facts(
            opened_database(&self.country),
            opened_database(&self.city),
            opened_database(&self.asn),
            address,
        )
    }
}

fn slice(t: &Option<String>) -> (out: Option<&str>)
    ensures
        pairs::maybe_slice(out) == text::maybe_text(*t),
{
    match t {
        Some(t) => Some(t.as_str()),
        None => None,
    }
}

/// Chooses a relay for clients with the addresses `pa` and `pb`.
pub fn select_relay(
    state: &GeoState,
    pa: &Address,
    pb: &Address,
    online_relays: &[String],
    rotation: &mut usize,
) -> (out: Option<String>)
    ensures
        text::maybe_text(out) == state.model().choice(
            pa@,
            pb@,
            text::texts(online_relays@),
            *old(rotation) as nat,
        ),
        *final(rotation) == tiers::turn_after(*old(rotation), out is Some),
{
    assert(text::texts(online_relays@).len() == online_relays@.len());
    if !state.is_loaded() || online_relays.len() == 0 {
        return None;
    }
    match &state.policy {
        Policy::Pairs(table) => {
            let a: Option<String> = state.country_of(pa);
            let b: Option<String> = state.country_of(pb);
            table.select(slice(&a), slice(&b), online_relays, rotation)
        },
        Policy::Rules(set) => {
            let a: GeoFacts = state.facts_of(pa);
            let b: GeoFacts = state.facts_of(pb);
            match set.select(&a, &b, online_relays, rotation) {
                Some(selection) => Some(selection.relay),
                None => None,
            }
        },
    }
}

impl LoadingModel {
    /// How many databases are missing.
    pub open spec fn left(self) -> nat {
        let country: nat = if self.policy.needs().country && self.country is None { 1 } else { 0 };
        let city: nat = if self.policy.needs().city && self.city is None { 1 } else { 0 };
        let asn: nat = if self.policy.needs().asn && self.asn is None { 1 } else { 0 };
        country + city + asn
    }

    /// Each database that is opened brings loading one step nearer to its end, which is when no
    /// database is missing.
    pub proof fn loading_comes_to_an_end(self, kind: DatabaseKind, file: FileModel)
        requires
            self.missing() == Some(kind),
        ensures
            self.left() == self.with(kind, file).left() + 1,
            self.with(kind, file).missing() is None <==> self.with(kind, file).left() == 0,
    {
    }

    /// When nothing is missing, the state is one to choose by, with just the databases that its
    /// policy reads.
    pub proof fn loading_ends_well(self)
        requires
            self.well_formed(),
            self.missing() is None,
        ensures
            self.state().well_formed(),
            self.state().is_loaded(),
    {
    }
}

/// Ordered rules see the country that rules for pairs of countries see, where there is one.
pub proof fn country_is_known_alike(state: StateModel, address: Seq<u8>)
    ensures
        state.country(address) matches Some(code) ==> state.facts(address).country == Some(code),
{
}

/// The choice of a relay does not depend on which client comes first, as long as no rule minds
/// the order.
pub proof fn choice_ignores_order(
    state: StateModel,
    a: Seq<u8>,
    b: Seq<u8>,
    online: Seq<Seq<char>>,
    turn: nat,
)
    requires
        state.policy matches PolicyModel::Rules(set) ==> forall|i: int|
            0 <= i < set.rules.len() ==> (#[trigger] set.rules[i]).symmetric,
    ensures
        state.choice(a, b, online, turn) == state.choice(b, a, online, turn),
{
    match state.policy {
        PolicyModel::Pairs(table) => {
            pairs::choice_ignores_order(table, state.country(a), state.country(b), online, turn);
        },
        PolicyModel::Rules(set) => {
            rules::symmetric_rules_ignore_order(
                set.rules,
                state.facts(a),
                state.facts(b),
                online,
                turn,
            );
        },
    }
}

/// A relay is chosen only where something is loaded, and only one that is online.
pub proof fn chosen_relay_is_online(
    state: StateModel,
    a: Seq<u8>,
    b: Seq<u8>,
    online: Seq<Seq<char>>,
    turn: nat,
)
    ensures
        state.choice(a, b, online, turn) matches Some(relay) ==> state.is_loaded()
            && online.contains(relay),
{
    match state.policy {
        PolicyModel::Pairs(table) => {
            pairs::chosen_relay_is_online(table, state.country(a), state.country(b), online, turn);
        },
        PolicyModel::Rules(set) => {
            rules::chosen_relay_is_online(
                set.rules,
                state.facts(a),
                state.facts(b),
                online,
                turn,
            );
        },
    }
}

/// Where ordered rules are loaded, the first that is for the clients and has a relay online
/// decides; where there is no such rule, no relay is chosen.
pub proof fn first_serving_rule_decides(
    state: StateModel,
    set: RuleSetModel,
    a: Seq<u8>,
    b: Seq<u8>,
    online: Seq<Seq<char>>,
    turn: nat,
)
    requires
        state.is_loaded(),
        state.policy == PolicyModel::Rules(set),
    ensures
        match state.choice(a, b, online, turn) {
            Some(relay) => exists|i: int|
                {
                    &&& 0 <= i < set.rules.len()
                    &&& rules::serves(#[trigger] set.rules[i], state.facts(a), state.facts(b), online)
                    &&& tiers::pick(set.rules[i].relay_tiers, online, turn) == Some(relay)
                    &&& forall|k: int|
                        0 <= k < i ==> !rules::serves(
                            #[trigger] set.rules[k],
                            state.facts(a),
                            state.facts(b),
                            online,
                        )
                },
            None => forall|i: int|
                0 <= i < set.rules.len() ==> !rules::serves(
                    #[trigger] set.rules[i],
                    state.facts(a),
                    state.facts(b),
                    online,
                ),
        },
{
    rules::first_serving_rule_decides(set.rules, state.facts(a), state.facts(b), online, turn);
    if online.len() == 0 {
        assert forall|i: int| 0 <= i < set.rules.len() implies !rules::serves(
            #[trigger] set.rules[i],
            state.facts(a),
            state.facts(b),
            online,
        ) by {
            tiers::first_online_tier_serves(set.rules[i].relay_tiers, online);
        }
    }
}

/// The country of an address, of either length, is the code that the country database has for it.
pub proof fn every_address_is_looked_up(state: StateModel, address: Seq<u8>)
    ensures
        state.country matches Some(file) ==> state.country(address) == database::country_in(
            database::text_record(
                file.source,
                address,
                seq![StepModel::Key("country"@), StepModel::Key("iso_code"@)],
            ),
        ),
        state.country is None ==> state.country(address) is None,
{
    if state.country is Some {
        database::country_is_that_of_the_file(state.country->0.source, address);
    }
}

/// What is known of an address comes from all the databases that are there.
pub proof fn facts_come_from_every_database(state: StateModel, address: Seq<u8>)
    ensures
        ({
            let country = if state.country is Some {
                records::country_record(state.country->0.source, address)
            } else {
                CountryModel { continent: None, country: None }
            };
            let city = records::city_record(state.city->0.source, address);
            let asn = records::asn_record(state.asn->0.source, address);
            let facts = state.facts(address);
            &&& database::country_in(Some(country.continent)) is Some ==> facts.continent
                == database::country_in(Some(country.continent))
            &&& database::country_in(Some(country.country)) is Some ==> facts.country
                == database::country_in(Some(country.country))
            &&& state.city is Some ==> {
                &&& database::country_in(Some(country.continent)) is None ==> facts.continent
                    == database::country_in(Some(city.place.continent))
                &&& database::country_in(Some(country.country)) is None ==> facts.country
                    == database::country_in(Some(city.place.country))
                &&& facts.city_names == city.names
                &&& facts.city_geoname_id == city.geoname_id
                &&& facts.subdivision_codes == records::codes_of(city.subdivisions)
                &&& facts.subdivision_names == records::names_of(city.subdivisions)
            }
            &&& state.city is None ==> facts.city_names.len() == 0 && facts.city_geoname_id is None
                && facts.subdivision_codes.len() == 0 && facts.subdivision_names.len() == 0
            &&& state.asn is Some ==> facts.asn == asn.number && facts.asn_org == asn.organization
            &&& state.asn is None ==> facts.asn is None && facts.asn_org is None
        }),
{
    let (country, city, asn) = (
        maybe_bytes(state.country),
        maybe_bytes(state.city),
        maybe_bytes(state.asn),
    );
    records::every_file_is_read(country, city, asn, address);
    let known = records::records_of(country, city, asn, address);
    known.country_database_comes_first();
    known.city_and_network_are_known();
}

/// Where rules for pairs of countries are loaded and the database has a code for both addresses,
/// the rule of the two countries decides if it has a relay online, and its relay is one that it
/// names. The fallback decides if it has none, if there is no such rule, or if a code is missing.
pub proof fn pair_rule_decides(
    state: StateModel,
    table: PairTable,
    a: Seq<u8>,
    b: Seq<u8>,
    online: Seq<Seq<char>>,
    turn: nat,
    t: int,
)
    requires
        state.is_loaded(),
        state.policy == PolicyModel::Pairs(table),
    ensures
        ({
            let path = seq![StepModel::Key("country"@), StepModel::Key("iso_code"@)];
            let source = state.country->0.source;
            let code_a = database::country_in(database::text_record(source, a, path));
            let code_b = database::country_in(database::text_record(source, b, path));
            let key = pairs::pair_key(code_a->0, code_b->0);
            let choice = state.choice(a, b, online, turn);
            let relays = table.by_pair[key];
            let fallback = tiers::pick(table.fallback, online, turn);
            &&& code_a is None || code_b is None ==> choice == fallback
            &&& code_a is Some && code_b is Some && !table.by_pair.contains_key(key) ==> choice
                == fallback
            &&& code_a is Some && code_b is Some && table.by_pair.contains_key(key) && 0 <= t
                < relays.len() && tiers::has_online(relays[t], online) ==> {
                &&& choice is Some
                &&& choice == tiers::pick(relays, online, turn)
                &&& exists|i: int|
                    0 <= i < relays.len() && tiers::names(#[trigger] relays[i], choice->0)
            }
            &&& code_a is Some && code_b is Some && table.by_pair.contains_key(key) && (forall|
                i: int,
            |
                0 <= i < relays.len() ==> !tiers::has_online(#[trigger] relays[i], online))
                ==> choice == fallback
        }),
{
    every_address_is_looked_up(state, a);
    every_address_is_looked_up(state, b);
    table.pair_comes_before_the_fallback(state.country(a), state.country(b), online, turn, t);
    if online.len() == 0 {
        tiers::first_online_tier_serves(table.fallback, online);
        if 0 <= t {
            let key = pairs::pair_key(state.country(a)->0, state.country(b)->0);
            assert(!tiers::has_online(table.by_pair[key][t], online));
        }
    }
    if state.country(a) is Some && state.country(b) is Some {
        let relays = table.by_pair[pairs::pair_key(state.country(a)->0, state.country(b)->0)];
        tiers::choice_is_online_and_foremost(relays, online, turn);
    }
}

/// Nothing is chosen where relays are not to be chosen, where none is online, or where a database
/// that the policy reads is missing.
pub proof fn nothing_is_chosen_without_grounds(
    state: StateModel,
    a: Seq<u8>,
    b: Seq<u8>,
    online: Seq<Seq<char>>,
    turn: nat,
)
    ensures
        !state.enabled ==> state.choice(a, b, online, turn) is None,
        online.len() == 0 ==> state.choice(a, b, online, turn) is None,
        state.policy.needs().country && state.country is None ==> state.choice(a, b, online, turn)
            is None,
        state.policy.needs().city && state.city is None ==> state.choice(a, b, online, turn)
            is None,
        state.policy.needs().asn && state.asn is None ==> state.choice(a, b, online, turn) is None,
{
}

/// There is something to choose by where relays are to be chosen and no database that the policy
/// reads is missing, and only there. Rules for pairs read the country database alone, ordered
/// rules what their conditions are on.
pub proof fn loaded_states_have_what_they_read(state: StateModel)
    ensures
        state.is_loaded() <==> {
            &&& state.enabled
            &&& state.policy.needs().country ==> state.country is Some
            &&& state.policy.needs().city ==> state.city is Some
            &&& state.policy.needs().asn ==> state.asn is Some
        },
        state.policy is Pairs ==> state.policy.needs().country && !state.policy.needs().city
            && !state.policy.needs().asn,
        state.policy matches PolicyModel::Rules(set) ==> state.policy.needs() == set.requirements,
        !StateModel::disabled().enabled,
{
}

impl LoadingModel {
    /// What is asked for is a database that the policy reads and that is not there, at the path of
    /// its kind; country before city before ASN. Nothing is asked for where, and only where, all
    /// are there.
    pub proof fn needed_databases_are_asked_for(self)
        ensures
            self.missing() == Some(DatabaseKind::Country) <==> self.policy.needs().country
                && self.country is None,
            self.missing() == Some(DatabaseKind::City) <==> self.policy.needs().city
                && self.city is None && !(self.policy.needs().country && self.country is None),
            self.missing() is None <==> {
                &&& self.policy.needs().country ==> self.country is Some
                &&& self.policy.needs().city ==> self.city is Some
                &&& self.policy.needs().asn ==> self.asn is Some
            },
            self.path(DatabaseKind::Country) == self.paths.country,
            self.path(DatabaseKind::City) == self.paths.city,
            self.path(DatabaseKind::Asn) == self.paths.asn,
    {
    }

    /// A database that was opened is put in its place, and nothing else changes; the state has
    /// all that was loaded.
    pub proof fn opened_database_is_put_in_its_place(self, kind: DatabaseKind, file: FileModel)
        ensures
            ({
                let more = self.with(kind, file);
                &&& more.policy == self.policy
                &&& more.paths == self.paths
                &&& more.country == if kind == DatabaseKind::Country {
                    Some(file)
                } else {
                    self.country
                }
                &&& more.city == if kind == DatabaseKind::City {
                    Some(file)
                } else {
                    self.city
                }
                &&& more.asn == if kind == DatabaseKind::Asn {
                    Some(file)
                } else {
                    self.asn
                }
            }),
            self.state().enabled,
            self.state().policy == self.policy,
            self.state().country == self.country,
            self.state().city == self.city,
            self.state().asn == self.asn,
    {
    }

    /// Loading begins without any database.
    pub proof fn loading_begins_with_the_rules(policy: PolicyModel, paths: PathsModel)
        ensures
            LoadingModel::start(policy, paths).policy == policy,
            LoadingModel::start(policy, paths).paths == paths,
            LoadingModel::start(policy, paths).country is None,
            LoadingModel::start(policy, paths).city is None,
            LoadingModel::start(policy, paths).asn is None,
            LoadingModel::start(policy, paths).well_formed(),
    {
    }
}

/// A report says what was loaded: how many rules there are and where the databases are that they
/// read; or that relays are not to be chosen.
pub proof fn reports_say_what_was_loaded(
    state: StateModel,
    table: PairTable,
    set: RuleSetModel,
    file: FileModel,
)
    requires
        state.enabled,
    ensures
        state.policy == PolicyModel::Pairs(table) && state.country == Some(file) ==> state.report()
            == "Geo relay loaded: "@ + text::decimal(table.by_pair.dom().len())
            + " country-pair rules"@ + (", database="@ + file.path),
        state.policy == PolicyModel::Rules(set) && state.country == Some(file) && state.city is None
            && state.asn is None ==> state.report() =~= "Geo relay loaded: "@ + text::decimal(
            set.rules.len(),
        ) + " ordered rules, notation="@ + set.syntax.name() + (", country database="@
            + file.path),
        state.policy == PolicyModel::Rules(set) && state.country is None && state.city == Some(file)
            && state.asn is None ==> state.report() =~= "Geo relay loaded: "@ + text::decimal(
            set.rules.len(),
        ) + " ordered rules, notation="@ + set.syntax.name() + (", city database="@ + file.path),
        state.policy == PolicyModel::Rules(set) && state.country is None && state.city is None
            && state.asn == Some(file) ==> state.report() =~= "Geo relay loaded: "@ + text::decimal(
            set.rules.len(),
        ) + " ordered rules, notation="@ + set.syntax.name() + (", ASN database="@ + file.path),
        StateModel::disabled().report() == "Geo relay disabled by GEO_RELAY_ENABLED"@,
{
}

/// A failure names its reason, and says whether what was loaded before is kept.
pub proof fn failures_name_their_reason(reason: Seq<char>, db_path: Seq<char>)
    ensures
        failure(true, reason) == "Geo relay reload failed; keeping previous data: "@ + reason,
        failure(false, reason) == "Geo relay unavailable; using upstream round-robin: "@ + reason,
        unopened(db_path, reason) == "cannot open GeoIP database "@ + db_path + ": "@ + reason,
{
}

/// The model of a policy is that of its rules, and the file of a database the one that it was
/// opened from.
pub proof fn models_are_those_of_what_is_loaded(
    table: RelayRules,
    set: RuleSet,
    opened: OpenDatabase,
)
    ensures
        Policy::Pairs(table).model() == PolicyModel::Pairs(table.model()),
        Policy::Rules(set).model() == PolicyModel::Rules(set.model()),
        maybe_file(Some(opened)) == Some(
            FileModel {
                path: opened.path@,
                source: database::database_source(opened.database),
            },
        ),
        maybe_file(None) is None,
        maybe_bytes(maybe_file(Some(opened))) == Some(database::database_source(opened.database)),
        maybe_bytes(None) is None,
{
}

impl LoadStep {
    /// A step that follows holds what was loaded: a state with all of it where nothing is missing,
    /// and otherwise a question for what is missing, at its path.
    pub proof fn steps_follow_what_is_loaded(self, loading: LoadingModel)
        requires
            self.follows(loading),
        ensures
            match self {
                LoadStep::Ready(state) => loading.missing() is None && state.model()
                    == loading.state(),
                LoadStep::Decode(_) => false,
                LoadStep::Open(pending) => {
                    &&& loading.missing() == Some(pending.kind)
                    &&& pending.db_path@ == loading.path(pending.kind)
                    &&& pending.loading.policy.model() == loading.policy
                    &&& pending.loading.paths.country@ == loading.paths.country
                    &&& pending.loading.paths.city@ == loading.paths.city
                    &&& pending.loading.paths.asn@ == loading.paths.asn
                    &&& maybe_file(pending.loading.country) == loading.country
                    &&& maybe_file(pending.loading.city) == loading.city
                    &&& maybe_file(pending.loading.asn) == loading.asn
                },
            },
    {
    }
}

} // verus!
