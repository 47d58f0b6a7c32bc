//! The notifier's settings, read from a JSON object.
use vstd::prelude::*;
use vstd::string::*;
use crate::json::{
    JsonNode, json_tape, parse_json, is_object_at, is_array_at, object_get, str_at, u64_at,
    array_strings, object_get_node, str_node, u64_node, array_strings_node, texts, container_len,
    container_len_node, entry_keys, object_entry_keys, ints, str_eq, SMALL_OBJECT_MAX,
};

verus! {

pub const PUMPFUN_COOKIE_KEY: &'static str = "pumpfun_cookie";

pub const DEXSCREEN_COOKIE_KEY: &'static str = "dexscreen_cookie";

pub const PROXIES_KEY: &'static str = "proxies";

pub const CHECKERS_COUNT_KEY: &'static str = "checkers_count";

pub const DEXSCREEN_FETCH_FILTERS_KEY: &'static str = "dexscreen_fetch_filters";

pub const DEXSCREEN_FETCH_MAX_PAGES_KEY: &'static str = "dexscreen_fetch_max_pages";

pub const DEXSCREEN_FETCH_TIMEOUT_KEY: &'static str = "dexscreen_fetch_timeout";

/// A setting of the configuration.
#[derive(Debug, Clone, Copy, PartialEq, Eq, Structural)]
pub enum ConfigField {
    PumpfunCookie,
    DexscreenCookie,
    Proxies,
    CheckersCount,
    DexscreenFetchFilters,
    DexscreenFetchMaxPages,
    DexscreenFetchTimeout,
}

/// The key under which a setting is stored.
pub open spec fn field_key(f: ConfigField) -> Seq<char> {
    match f {
        ConfigField::PumpfunCookie => PUMPFUN_COOKIE_KEY@,
        ConfigField::DexscreenCookie => DEXSCREEN_COOKIE_KEY@,
        ConfigField::Proxies => PROXIES_KEY@,
        ConfigField::CheckersCount => CHECKERS_COUNT_KEY@,
        ConfigField::DexscreenFetchFilters => DEXSCREEN_FETCH_FILTERS_KEY@,
        ConfigField::DexscreenFetchMaxPages => DEXSCREEN_FETCH_MAX_PAGES_KEY@,
        ConfigField::DexscreenFetchTimeout => DEXSCREEN_FETCH_TIMEOUT_KEY@,
    }
}

impl ConfigField {
    /// The key under which the setting is stored.
    pub fn key(&self) -> (r: &'static str)
        ensures
            r@ == field_key(*self),
    {
        match self {
            ConfigField::PumpfunCookie => PUMPFUN_COOKIE_KEY,
            ConfigField::DexscreenCookie => DEXSCREEN_COOKIE_KEY,
            ConfigField::Proxies => PROXIES_KEY,
            ConfigField::CheckersCount => CHECKERS_COUNT_KEY,
            ConfigField::DexscreenFetchFilters => DEXSCREEN_FETCH_FILTERS_KEY,
            ConfigField::DexscreenFetchMaxPages => DEXSCREEN_FETCH_MAX_PAGES_KEY,
            ConfigField::DexscreenFetchTimeout => DEXSCREEN_FETCH_TIMEOUT_KEY,
        }
    }
}

/// Why a configuration is refused.
#[derive(Debug)]
pub enum ConfigError {
    /// The text is not JSON.
    ParseFailed(simd_json::Error),
    /// The JSON is not an object.
    NotAnObject,
    /// A setting is absent.
    Missing(ConfigField),
    /// A setting has the wrong kind of value: a cookie must be a string, a
    /// count a non-negative integer, a list an array.
    WrongType(ConfigField),
    EmptyPumpfunCookie,
    EmptyDexscreenCookie,
    EmptyProxies,
}

/// What is wrong with one setting.
#[derive(Debug)]
pub enum FieldProblem {
    Missing,
    WrongType,
}

pub open spec fn field_error(f: ConfigField, p: FieldProblem) -> ConfigError {
    match p {
        FieldProblem::Missing => ConfigError::Missing(f),
        FieldProblem::WrongType => ConfigError::WrongType(f),
    }
}

/// A setting's place in the order in which the settings are read.
pub open spec fn field_rank(f: ConfigField) -> nat {
    match f {
        ConfigField::PumpfunCookie => 0,
        ConfigField::DexscreenCookie => 1,
        ConfigField::Proxies => 2,
        ConfigField::CheckersCount => 3,
        ConfigField::DexscreenFetchFilters => 4,
        ConfigField::DexscreenFetchMaxPages => 5,
        ConfigField::DexscreenFetchTimeout => 6,
    }
}

/// The setting read at a place in the reading order.
pub open spec fn field_of_rank(i: nat) -> ConfigField {
    if i == 0 {
        ConfigField::PumpfunCookie
    } else if i == 1 {
        ConfigField::DexscreenCookie
    } else if i == 2 {
        ConfigField::Proxies
    } else if i == 3 {
        ConfigField::CheckersCount
    } else if i == 4 {
        ConfigField::DexscreenFetchFilters
    } else if i == 5 {
        ConfigField::DexscreenFetchMaxPages
    } else {
        ConfigField::DexscreenFetchTimeout
    }
}

/// Index of the first entry, from index `i` on, whose key is `key`.
pub open spec fn first_with_key(t: Seq<JsonNode>, keys: Seq<int>, key: Seq<char>, i: int) -> Option<
    int,
>
    decreases keys.len() - i,
{
    if i < 0 || i >= keys.len() {
        None
    } else if str_at(t, keys[i]) == Some(key) {
        Some(i)
    } else {
        first_with_key(t, keys, key, i + 1)
    }
}

/// Takes the first entry with `key` out of the entries (given by their key
/// positions) the way a small simd-json object removes it: the last entry
/// moves into its place. Gives the position of the value taken, and the
/// entries left.
pub open spec fn take_key(t: Seq<JsonNode>, keys: Seq<int>, key: Seq<char>) -> (Option<int>, Seq<
    int,
>) {
    match first_with_key(t, keys, key, 0) {
        None => (None, keys),
        Some(i) => (Some(keys[i] + 1), keys.update(i, keys.last()).drop_last()),
    }
}

/// The entries of the configuration object left once the first `i`
/// settings, in reading order, were taken out.
pub open spec fn entries_left(t: Seq<JsonNode>, i: nat) -> Seq<int>
    decreases i,
{
    if i == 0 {
        entry_keys(t, 0)
    } else {
        take_key(
            t,
            entries_left(t, (i - 1) as nat),
            field_key(field_of_rank((i - 1) as nat)),
        ).1
    }
}

/// Position of a setting's value in the object at the start of the tape, as
/// the settings are taken out of it one by one in reading order. An object
/// of more than `SMALL_OBJECT_MAX` entries keeps only the last of repeated
/// keys; a smaller one keeps them all, and each setting taken out is the
/// first left with its key.
pub open spec fn setting_pos(t: Seq<JsonNode>, f: ConfigField) -> Option<int> {
    if !is_object_at(t, 0) {
        None
    } else if container_len(t, 0) > SMALL_OBJECT_MAX {
        object_get(t, 0, field_key(f))
    } else {
        take_key(t, entries_left(t, field_rank(f)), field_key(f)).0
    }
}

/// A text setting whose value is at `p`.
pub open spec fn text_value(t: Seq<JsonNode>, p: Option<int>) -> Result<Seq<char>, FieldProblem> {
    match p {
        None => Err(FieldProblem::Missing),
        Some(p) => match str_at(t, p) {
            Some(s) => Ok(s),
            None => Err(FieldProblem::WrongType),
        },
    }
}

/// A count setting (a non-negative integer) whose value is at `p`.
pub open spec fn count_value(t: Seq<JsonNode>, p: Option<int>) -> Result<u64, FieldProblem> {
    match p {
        None => Err(FieldProblem::Missing),
        Some(p) => match u64_at(t, p) {
            Some(v) => Ok(v),
            None => Err(FieldProblem::WrongType),
        },
    }
}

/// A list setting whose value is at `p`: the strings among the elements of
/// an array (other elements are passed over).
pub open spec fn list_value(t: Seq<JsonNode>, p: Option<int>) -> Result<Seq<Seq<char>>, FieldProblem> {
    match p {
        None => Err(FieldProblem::Missing),
        Some(p) => if is_array_at(t, p) {
            Ok(array_strings(t, p))
        } else {
            Err(FieldProblem::WrongType)
        },
    }
}

/// A text setting of the configuration tape.
pub open spec fn text_setting(t: Seq<JsonNode>, f: ConfigField) -> Result<Seq<char>, FieldProblem> {
    text_value(t, setting_pos(t, f))
}

/// A count setting of the configuration tape.
pub open spec fn count_setting(t: Seq<JsonNode>, f: ConfigField) -> Result<u64, FieldProblem> {
    count_value(t, setting_pos(t, f))
}

/// A list setting of the configuration tape.
pub open spec fn list_setting(t: Seq<JsonNode>, f: ConfigField) -> Result<Seq<Seq<char>>, FieldProblem> {
    list_value(t, setting_pos(t, f))
}

/// The first thing wrong with a configuration tape, in the order in which
/// the settings are read and then checked; nothing when it is accepted.
pub open spec fn config_problem(t: Seq<JsonNode>) -> Option<ConfigError> {
    if !is_object_at(t, 0) {
        Some(ConfigError::NotAnObject)
    } else if let Err(p) = text_setting(t, ConfigField::PumpfunCookie) {
        Some(field_error(ConfigField::PumpfunCookie, p))
    } else if let Err(p) = text_setting(t, ConfigField::DexscreenCookie) {
        Some(field_error(ConfigField::DexscreenCookie, p))
    } else if let Err(p) = list_setting(t, ConfigField::Proxies) {
        Some(field_error(ConfigField::Proxies, p))
    } else if let Err(p) = count_setting(t, ConfigField::CheckersCount) {
        Some(field_error(ConfigField::CheckersCount, p))
    } else if let Err(p) = list_setting(t, ConfigField::DexscreenFetchFilters) {
        Some(field_error(ConfigField::DexscreenFetchFilters, p))
    } else if let Err(p) = count_setting(t, ConfigField::DexscreenFetchMaxPages) {
        Some(field_error(ConfigField::DexscreenFetchMaxPages, p))
    } else if let Err(p) = count_setting(t, ConfigField::DexscreenFetchTimeout) {
        Some(field_error(ConfigField::DexscreenFetchTimeout, p))
    } else if text_setting(t, ConfigField::PumpfunCookie)->Ok_0.len() == 0 {
        Some(ConfigError::EmptyPumpfunCookie)
    } else if text_setting(t, ConfigField::DexscreenCookie)->Ok_0.len() == 0 {
        Some(ConfigError::EmptyDexscreenCookie)
    } else if list_setting(t, ConfigField::Proxies)->Ok_0.len() == 0 {
        Some(ConfigError::EmptyProxies)
    } else {
        None
    }
}

/// The notifier's settings.
#[derive(Debug)]
pub struct Config {
    pumpfun_cookie: String,
    dexscreen_cookie: String,
    proxies: Vec<String>,
    checkers_count: usize,
    dexscreen_fetch_filters: Vec<String>,
    dexscreen_fetch_max_pages: usize,
    dexscreen_fetch_timeout: u64,
}

impl Config {
    /// Both cookies are set and there is at least one proxy.
    #[verifier::type_invariant]
    closed spec fn wf(&self) -> bool {
        &&& self.pumpfun_cookie@.len() > 0
        &&& self.dexscreen_cookie@.len() > 0
        &&& self.proxies@.len() > 0
    }

    pub closed spec fn spec_pumpfun_cookie(&self) -> Seq<char> {
        self.pumpfun_cookie@
    }

    pub closed spec fn spec_dexscreen_cookie(&self) -> Seq<char> {
        self.dexscreen_cookie@
    }

    pub closed spec fn spec_proxies(&self) -> Seq<Seq<char>> {
        texts(self.proxies@)
    }

    pub closed spec fn spec_checkers_count(&self) -> usize {
        self.checkers_count
    }

    pub closed spec fn spec_dexscreen_fetch_filters(&self) -> Seq<Seq<char>> {
        texts(self.dexscreen_fetch_filters@)
    }

    pub closed spec fn spec_dexscreen_fetch_max_pages(&self) -> usize {
        self.dexscreen_fetch_max_pages
    }

    pub closed spec fn spec_dexscreen_fetch_timeout(&self) -> u64 {
        self.dexscreen_fetch_timeout
    }

    /// The settings held in a configuration tape, per `config_problem` and
    /// the setting readers.
    pub fn from_tape(t: &Vec<JsonNode>) -> (r: Result<Config, ConfigError>)
        ensures
            match r {
                Ok(c) => config_problem(t@) is None && c.spec_pumpfun_cookie() == text_setting(
                    t@,
                    ConfigField::PumpfunCookie,
                )->Ok_0 && c.spec_dexscreen_cookie() == text_setting(
                    t@,
                    ConfigField::DexscreenCookie,
                )->Ok_0 && c.spec_proxies() == list_setting(t@, ConfigField::Proxies)->Ok_0
                    && c.spec_checkers_count() == count_setting(
                    t@,
                    ConfigField::CheckersCount,
                )->Ok_0 as usize && c.spec_dexscreen_fetch_filters() == list_setting(
                    t@,
                    ConfigField::DexscreenFetchFilters,
                )->Ok_0 && c.spec_dexscreen_fetch_max_pages() == count_setting(
                    t@,
                    ConfigField::DexscreenFetchMaxPages,
                )->Ok_0 as usize && c.spec_dexscreen_fetch_timeout() == count_setting(
                    t@,
                    ConfigField::DexscreenFetchTimeout,
                )->Ok_0,
                Err(e) => config_problem(t@) == Some(e),
            },
    {
        if t.len() == 0 {
            return Err(ConfigError::NotAnObject);
        }
        match &t[0] {
            JsonNode::Object { .. } => {},
            _ => return Err(ConfigError::NotAnObject),
        }
        let large = container_len_node(t, 0) > SMALL_OBJECT_MAX;
        let mut keys: Vec<usize> = if large {
            Vec::new()
        } else {
            object_entry_keys(t, 0)
        };
        let p = setting_position(t, &mut keys, large, ConfigField::PumpfunCookie);
        let pumpfun_cookie = match read_text(t, p) {
            Ok(s) => s,
            Err(e) => return Err(problem_error(ConfigField::PumpfunCookie, e)),
        };
        let p = setting_position(t, &mut keys, large, ConfigField::DexscreenCookie);
        let dexscreen_cookie = match read_text(t, p) {
            Ok(s) => s,
            Err(e) => return Err(problem_error(ConfigField::DexscreenCookie, e)),
        };
        let p = setting_position(t, &mut keys, large, ConfigField::Proxies);
        let proxies = match read_list(t, p) {
            Ok(v) => v,
            Err(e) => return Err(problem_error(ConfigField::Proxies, e)),
        };
        let p = setting_position(t, &mut keys, large, ConfigField::CheckersCount);
        let checkers_count = match read_count(t, p) {
            Ok(v) => v,
            Err(e) => return Err(problem_error(ConfigField::CheckersCount, e)),
        };
        let p = setting_position(t, &mut keys, large, ConfigField::DexscreenFetchFilters);
        let dexscreen_fetch_filters = match read_list(t, p) {
            Ok(v) => v,
            Err(e) => return Err(problem_error(ConfigField::DexscreenFetchFilters, e)),
        };
        let p = setting_position(t, &mut keys, large, ConfigField::DexscreenFetchMaxPages);
        let dexscreen_fetch_max_pages = match read_count(t, p) {
            Ok(v) => v,
            Err(e) => return Err(problem_error(ConfigField::DexscreenFetchMaxPages, e)),
        };
        let p = setting_position(t, &mut keys, large, ConfigField::DexscreenFetchTimeout);
        let dexscreen_fetch_timeout = match read_count(t, p) {
            Ok(v) => v,
            Err(e) => return Err(problem_error(ConfigField::DexscreenFetchTimeout, e)),
        };
        if pumpfun_cookie.as_str().is_empty() {
            return Err(ConfigError::EmptyPumpfunCookie);
        }
        if dexscreen_cookie.as_str().is_empty() {
            return Err(ConfigError::EmptyDexscreenCookie);
        }
        if proxies.len() == 0 {
            return Err(ConfigError::EmptyProxies);
        }
        Ok(
            Config {
                pumpfun_cookie,
                dexscreen_cookie,
                proxies,
                checkers_count: checkers_count as usize,
                dexscreen_fetch_filters,
                dexscreen_fetch_max_pages: dexscreen_fetch_max_pages as usize,
                dexscreen_fetch_timeout,
            },
        )
    }

    /// Reads the settings from the text of a JSON object, per `json_tape`
    /// and `from_tape`.
    pub fn from_json(text: Vec<u8>) -> (r: Result<Config, ConfigError>)
        ensures
            json_tape(text@) is None <==> r matches Err(ConfigError::ParseFailed(_)),
            json_tape(text@) matches Some(t) ==> match r {
                Ok(c) => config_problem(t) is None && c.spec_pumpfun_cookie() == text_setting(
                    t,
                    ConfigField::PumpfunCookie,
                )->Ok_0 && c.spec_dexscreen_cookie() == text_setting(
                    t,
                    ConfigField::DexscreenCookie,
                )->Ok_0 && c.spec_proxies() == list_setting(t, ConfigField::Proxies)->Ok_0
                    && c.spec_checkers_count() == count_setting(
                    t,
                    ConfigField::CheckersCount,
                )->Ok_0 as usize && c.spec_dexscreen_fetch_filters() == list_setting(
                    t,
                    ConfigField::DexscreenFetchFilters,
                )->Ok_0 && c.spec_dexscreen_fetch_max_pages() == count_setting(
                    t,
                    ConfigField::DexscreenFetchMaxPages,
                )->Ok_0 as usize && c.spec_dexscreen_fetch_timeout() == count_setting(
                    t,
                    ConfigField::DexscreenFetchTimeout,
                )->Ok_0,
                Err(e) => config_problem(t) == Some(e),
            },
    {
        let mut bytes = text;
        match parse_json(&mut bytes) {
            Ok(t) => Config::from_tape(&t),
            Err(e) => Err(ConfigError::ParseFailed(e)),
        }
    }

    pub fn pumpfun_cookie(&self) -> (r: &str)
        ensures
            r@ == self.spec_pumpfun_cookie(),
            r@.len() > 0,
    {
        proof {
            use_type_invariant(self);
        }
        self.pumpfun_cookie.as_str()
    }

    pub fn dexscreen_cookie(&self) -> (r: &str)
        ensures
            r@ == self.spec_dexscreen_cookie(),
            r@.len() > 0,
    {
        proof {
            use_type_invariant(self);
        }
        self.dexscreen_cookie.as_str()
    }

    pub fn proxies(&self) -> (r: &Vec<String>)
        ensures
            texts(r@) == self.spec_proxies(),
            r@.len() > 0,
    {
        proof {
            use_type_invariant(self);
        }
        &self.proxies
    }

    pub fn checkers_count(&self) -> (r: usize)
        ensures
            r == self.spec_checkers_count(),
    {
        self.checkers_count
    }

    pub fn dexscreen_fetch_filters(&self) -> (r: &Vec<String>)
        ensures
            texts(r@) == self.spec_dexscreen_fetch_filters(),
    {
        &self.dexscreen_fetch_filters
    }

    pub fn dexscreen_fetch_max_pages(&self) -> (r: usize)
        ensures
            r == self.spec_dexscreen_fetch_max_pages(),
    {
        self.dexscreen_fetch_max_pages
    }

    pub fn dexscreen_fetch_timeout(&self) -> (r: u64)
        ensures
            r == self.spec_dexscreen_fetch_timeout(),
    {
        self.dexscreen_fetch_timeout
    }
}

fn problem_error(f: ConfigField, p: FieldProblem) -> (r: ConfigError)
    ensures
        r == field_error(f, p),
{
    match p {
        FieldProblem::Missing => ConfigError::Missing(f),
        FieldProblem::WrongType => ConfigError::WrongType(f),
    }
}

/// A text setting is the JSON string exactly: whenever a string stands at a
/// setting's position, the setting read is that string, every character
/// kept.
pub proof fn lemma_text_setting_is_the_string(t: Seq<JsonNode>, f: ConfigField, s: Seq<char>)
    requires
        setting_pos(t, f) matches Some(p) && str_at(t, p) == Some(s),
    ensures
        text_setting(t, f) == Ok::<Seq<char>, FieldProblem>(s),
{
}

/// A text setting read is always the string stored at the setting's
/// position.
pub proof fn lemma_text_setting_read_back(t: Seq<JsonNode>, f: ConfigField)
    ensures
        text_setting(t, f) matches Ok(s) ==> setting_pos(t, f) matches Some(p) && str_at(t, p)
            == Some(s),
{
}

/// The value position as an integer.
pub open spec fn opt_int(p: Option<usize>) -> Option<int> {
    match p {
        Some(q) => Some(q as int),
        None => None,
    }
}

/// Takes the first entry with `key` out of `keys`, per `take_key`.
fn take_entry(t: &Vec<JsonNode>, keys: &mut Vec<usize>, key: &str) -> (r: Option<usize>)
    ensures
        opt_int(r) == take_key(t@, ints(old(keys)@), key@).0,
        ints(final(keys)@) == take_key(t@, ints(old(keys)@), key@).1,
{
    let n = keys.len();
    let tl = t.len();
    let ghost ks = ints(keys@);
    let mut i: usize = 0;
    while i < n
        invariant
            tl == t@.len(),
            n == keys@.len(),
            ks == ints(keys@),
            ks == ints(old(keys)@),
            i <= n,
            first_with_key(t@, ks, key@, 0) == first_with_key(t@, ks, key@, i as int),
        decreases n - i,
    {
        let kp = keys[i];
        let found = match str_node(t, kp) {
            Some(s) => str_eq(s, key),
            None => false,
        };
        assert(ks[i as int] == kp as int);
        if found {
            assert(str_at(t@, kp as int) == Some(key@));
            assert(kp < tl);
            assert(first_with_key(t@, ks, key@, i as int) == Some(i as int));
            let taken = keys.swap_remove(i);
            proof {
                assert(ints(keys@) =~= ks.update(i as int, ks.last()).drop_last());
            }
            return Some(taken + 1);
        }
        i += 1;
    }
    None
}

/// The setting's value position, per `setting_pos`; with a small object the
/// setting's entry is taken out of `keys`.
fn setting_position(t: &Vec<JsonNode>, keys: &mut Vec<usize>, large: bool, f: ConfigField) -> (r:
    Option<usize>)
    requires
        is_object_at(t@, 0),
        large == (container_len(t@, 0) > SMALL_OBJECT_MAX),
        !large ==> ints(old(keys)@) == entries_left(t@, field_rank(f)),
    ensures
        opt_int(r) == setting_pos(t@, f),
        !large ==> ints(final(keys)@) == entries_left(t@, field_rank(f) + 1),
{
    if large {
        match object_get_node(t, 0, f.key()) {
            Some(p) => Some(p),
            None => None,
        }
    } else {
        proof {
            assert(field_of_rank(field_rank(f)) == f);
        }
        take_entry(t, keys, f.key())
    }
}

fn read_text(t: &Vec<JsonNode>, p: Option<usize>) -> (r: Result<String, FieldProblem>)
    ensures
        match r {
            Ok(s) => text_value(t@, opt_int(p)) == Ok::<Seq<char>, FieldProblem>(s@),
            Err(e) => text_value(t@, opt_int(p)) == Err::<Seq<char>, FieldProblem>(e),
        },
{
    match p {
        None => Err(FieldProblem::Missing),
        Some(p) => match str_node(t, p) {
            Some(s) => Ok(s.to_owned()),
            None => Err(FieldProblem::WrongType),
        },
    }
}

fn read_count(t: &Vec<JsonNode>, p: Option<usize>) -> (r: Result<u64, FieldProblem>)
    ensures
        r == count_value(t@, opt_int(p)),
{
    match p {
        None => Err(FieldProblem::Missing),
        Some(p) => match u64_node(t, p) {
            Some(v) => Ok(v),
            None => Err(FieldProblem::WrongType),
        },
    }
}

fn read_list(t: &Vec<JsonNode>, p: Option<usize>) -> (r: Result<Vec<String>, FieldProblem>)
    ensures
        match r {
            Ok(v) => list_value(t@, opt_int(p)) == Ok::<Seq<Seq<char>>, FieldProblem>(texts(v@)),
            Err(e) => list_value(t@, opt_int(p)) == Err::<Seq<Seq<char>>, FieldProblem>(e),
        },
{
    match p {
        None => Err(FieldProblem::Missing),
        Some(p) => {
            let is_array = p < t.len() && match &t[p] {
                JsonNode::Array { .. } => true,
                _ => false,
            };
            if is_array {
                Ok(array_strings_node(t, p))
            } else {
                Err(FieldProblem::WrongType)
            }
        },
    }
}

} // verus!
