//! The typed configuration: its defaults, how a merged mapping is bound to
//! it, and the resolution of all sources into one configuration.

use vstd::prelude::*;
use vstd::string::StringExecFns;
use crate::error::{kind_name, kind_of, ConfigError, ErrorModel, Kind};
use crate::merge::{applied, apply_overrides, overrides_of, Path};
use crate::source::{
    env_overrides, env_prefix, explicit_overrides, explicit_overrides_of, load_config_from_env,
    pairs_of,
};
use crate::text::texts;
use crate::value::{find, get, lemma_find, ConfigValue, Entries, Mapping, Tree};
use crate::yaml::{file_entries, parse_mapping};

verus! {

/// The directory under which source directories are looked for.
#[derive(Debug, PartialEq, Eq)]
pub struct SourceRoot(pub String);

/// Where the cache is kept.
#[derive(Debug, PartialEq, Eq)]
pub struct CacheLocation(pub String);

/// The cache settings.
#[derive(Debug, PartialEq, Eq)]
pub struct CacheConfig {
    pub enabled: bool,
    pub location: CacheLocation,
}

/// The resolved configuration.
#[derive(Debug, PartialEq, Eq)]
pub struct Config {
    pub source_root: SourceRoot,
    pub cache: CacheConfig,
}

/// The mathematical model of a [`Config`].
pub struct ConfigModel {
    pub source_root: Seq<char>,
    pub cache_enabled: bool,
    pub cache_location: Seq<char>,
}

impl View for Config {
    type V = ConfigModel;

    open spec fn view(&self) -> ConfigModel {
        ConfigModel {
            source_root: self.source_root.0@,
            cache_enabled: self.cache.enabled,
            cache_location: self.cache.location.0@,
        }
    }
}

/// The fields of the configuration that a mapping is bound to.
#[derive(Debug, Clone, Copy, PartialEq, Eq, Structural)]
pub enum Field {
    SourceRoot,
    Cache,
    CacheEnabled,
    CacheLocation,
}

/// The dotted name of a field.
pub open spec fn field_name(field: Field) -> Seq<char> {
    match field {
        Field::SourceRoot => "sourceRoot"@,
        Field::Cache => "cache"@,
        Field::CacheEnabled => "cache.enabled"@,
        Field::CacheLocation => "cache.location"@,
    }
}

/// The path of a field.
pub open spec fn field_path(field: Field) -> Path {
    match field {
        Field::SourceRoot => seq!["sourceRoot"@],
        Field::Cache => seq!["cache"@],
        Field::CacheEnabled => seq!["cache"@, "enabled"@],
        Field::CacheLocation => seq!["cache"@, "location"@],
    }
}

/// The kind of value that a field takes.
pub open spec fn field_kind(field: Field) -> Kind {
    match field {
        Field::SourceRoot => Kind::String,
        Field::Cache => Kind::Mapping,
        Field::CacheEnabled => Kind::Bool,
        Field::CacheLocation => Kind::String,
    }
}

/// `name` below the directory `base`, as paths are joined where `/`
/// separates them: an empty base gives `name` alone, and a base that ends in
/// `/` takes no second one.
pub open spec fn below(base: Seq<char>, name: Seq<char>) -> Seq<char> {
    if base.len() == 0 {
        name
    } else if base.last() == '/' {
        base + name
    } else {
        base + seq!['/'] + name
    }
}

/// The default source root: the home directory, written `~`.
pub open spec fn default_source_root() -> Seq<char> {
    "~"@
}

/// The default cache location: `csrc` below the cache home where there is
/// one, and `~/.cache/csrc` where there is none.
pub open spec fn default_cache_location(cache_home: Option<Seq<char>>) -> Seq<char> {
    match cache_home {
        Some(home) => below(home, "csrc"@),
        None => "~/.cache/csrc"@,
    }
}

/// The configuration that holds when no source says anything.
pub open spec fn default_config(cache_home: Option<Seq<char>>) -> ConfigModel {
    ConfigModel {
        source_root: default_source_root(),
        cache_enabled: false,
        cache_location: default_cache_location(cache_home),
    }
}

/// The candidate paths of the configuration file, in the order in which they
/// are tried: two below the configuration home, where there is one, then
/// three below the home directory, where there is one.
pub open spec fn candidates(config_home: Option<Seq<char>>, home: Option<Seq<char>>) -> Seq<
    Seq<char>,
> {
    let first = match config_home {
        Some(dir) => seq![below(dir, "csrc/config.yaml"@), below(dir, "csrc.yaml"@)],
        None => Seq::empty(),
    };
    let second = match home {
        Some(dir) => seq![
            below(dir, ".config/csrc/config.yaml"@),
            below(dir, ".config/csrc.yaml"@),
            below(dir, ".csrc.yaml"@),
        ],
        None => Seq::empty(),
    };
    first + second
}

/// The text that a field takes from `entries` under `key`: the string that
/// stands there, `default` where nothing stands there, and otherwise the
/// value that is in the way.
pub open spec fn bound_text(entries: Entries, key: Seq<char>, default: Seq<char>) -> Result<
    Seq<char>,
    Tree,
> {
    match get(entries, key) {
        None => Ok(default),
        Some(Tree::String(text)) => Ok(text),
        Some(other) => Err(other),
    }
}

/// The flag that a field takes from `entries` under `key`: the boolean that
/// stands there, `false` where nothing stands there, and otherwise the value
/// that is in the way.
pub open spec fn bound_flag(entries: Entries, key: Seq<char>) -> Result<bool, Tree> {
    match get(entries, key) {
        None => Ok(false),
        Some(Tree::Bool(flag)) => Ok(flag),
        Some(other) => Err(other),
    }
}

/// The cache settings that `entries` gives, or the first field in the order
/// of the entries that holds a value of the wrong kind, with that value.
pub open spec fn bound_cache(entries: Entries, cache_home: Option<Seq<char>>) -> Result<
    (bool, Seq<char>),
    (Field, Tree),
> {
    let enabled = bound_flag(entries, "enabled"@);
    let location = bound_text(entries, "location"@, default_cache_location(cache_home));
    match (enabled, location) {
        (Ok(flag), Ok(text)) => Ok((flag, text)),
        (Err(found), Ok(_)) => Err((Field::CacheEnabled, found)),
        (Ok(_), Err(found)) => Err((Field::CacheLocation, found)),
        (Err(first), Err(second)) => if find(entries, "enabled"@) < find(entries, "location"@) {
            Err((Field::CacheEnabled, first))
        } else {
            Err((Field::CacheLocation, second))
        },
    }
}

/// The cache settings that the value under `cache` gives: the defaults where
/// the key is absent or holds null, what its mapping gives where it holds
/// one, and otherwise the value as one of the wrong kind.
pub open spec fn bound_cache_value(value: Option<Tree>, cache_home: Option<Seq<char>>) -> Result<
    (bool, Seq<char>),
    (Field, Tree),
> {
    match value {
        None => Ok((false, default_cache_location(cache_home))),
        Some(Tree::Null) => Ok((false, default_cache_location(cache_home))),
        Some(Tree::Mapping(entries)) => bound_cache(entries, cache_home),
        Some(other) => Err((Field::Cache, other)),
    }
}

/// The configuration that the merged mapping `entries` gives: each field
/// from its key, a key that is absent giving the field's default and keys
/// that no field has being passed over. Where a field's key holds a value of
/// the wrong kind, the result is the first such field in the order of the
/// entries, with that value.
pub open spec fn bound(entries: Entries, cache_home: Option<Seq<char>>) -> Result<
    ConfigModel,
    (Field, Tree),
> {
    let root = bound_text(entries, "sourceRoot"@, default_source_root());
    let cache = bound_cache_value(get(entries, "cache"@), cache_home);
    match (root, cache) {
        (Ok(source_root), Ok((cache_enabled, cache_location))) => Ok(
            ConfigModel { source_root, cache_enabled, cache_location },
        ),
        (Err(found), Ok(_)) => Err((Field::SourceRoot, found)),
        (Ok(_), Err(fault)) => Err(fault),
        (Err(found), Err(fault)) => if find(entries, "sourceRoot"@) < find(entries, "cache"@) {
            Err((Field::SourceRoot, found))
        } else {
            Err(fault)
        },
    }
}

/// The error for `field` holding `found`, a value of the wrong kind.
pub open spec fn schema_error(field: Field, found: Tree) -> ErrorModel {
    ErrorModel::SchemaError { field: field_name(field), found, expected: field_kind(field) }
}

/// Whether a value is a scalar: null, a boolean, a number or a string.
pub open spec fn is_scalar(tree: Tree) -> bool {
    tree is Null || tree is Bool || tree is Number || tree is String
}

/// Whether a field takes a scalar.
pub open spec fn takes_scalar(field: Field) -> bool {
    field_kind(field) != Kind::Mapping
}

/// Whether an override of `path` writes the place at `target` as a whole:
/// `path` is `target`, or leads to a place above it. The empty path writes
/// nothing.
pub open spec fn reaches(path: Path, target: Path) -> bool {
    0 < path.len() <= target.len() && target.take(path.len() as int) == path
}

/// The last of `overrides` that writes the place at `path` as a whole, if
/// one does.
pub open spec fn last_writer(overrides: Seq<(Path, Seq<char>)>, path: Path) -> Option<
    (Path, Seq<char>),
>
    decreases overrides.len(),
{
    if overrides.len() == 0 {
        None
    } else if reaches(overrides.last().0, path) {
        Some(overrides.last())
    } else {
        last_writer(overrides.drop_last(), path)
    }
}

/// What is said of a value of the wrong kind that an override gave.
pub open spec fn kind_details(found: Tree, expected: Kind) -> Seq<char> {
    "found "@ + kind_name(kind_of(found)) + ", expected "@ + kind_name(expected)
}

/// Whether what stands at `path` after `overrides` is what an override gave
/// to that place itself: the last of `overrides` that writes the place as a
/// whole addresses `path`, and no place above it.
pub open spec fn given_by_override(overrides: Seq<(Path, Seq<char>)>, path: Path) -> bool {
    last_writer(overrides, path) matches Some(writer) && writer.0 == path
}

/// The error for `field` holding `found`, a value of the wrong kind, after
/// `overrides`.
///
/// A sequence or a mapping where a scalar is expected, and whatever stands
/// for the cache and is no mapping, is an error of the schema, whichever
/// source gave it. So is a scalar of the wrong kind that the file gave, or an
/// override of a place above the field. A scalar of the wrong kind that an
/// override gave to the field itself is an invalid value of that override,
/// named with the text of the override.
pub open spec fn binding_error(field: Field, found: Tree, overrides: Seq<(Path, Seq<char>)>) ->
    ErrorModel {
    if takes_scalar(field) && is_scalar(found) && given_by_override(overrides, field_path(field)) {
        ErrorModel::InvalidValue {
            field: field_name(field),
            value: last_writer(overrides, field_path(field))->Some_0.1,
            details: kind_details(found, field_kind(field)),
        }
    } else {
        schema_error(field, found)
    }
}

/// The mapping that the configuration file gives: the empty one where there
/// is no file, and otherwise what its contents stand for.
pub open spec fn base_entries(contents: Option<Seq<u8>>) -> Result<Entries, ErrorModel> {
    match contents {
        None => Ok(Seq::empty()),
        Some(bytes) => match file_entries(bytes) {
            Ok(entries) => Ok(entries),
            Err(message) => Err(ErrorModel::ParseError(message)),
        },
    }
}

/// The overrides of a run, in the order in which they are applied: those of
/// the environment `env`, then those of the command line `pairs`.
pub open spec fn all_overrides(
    env: Seq<(Seq<char>, Seq<char>)>,
    pairs: Seq<(Seq<char>, Seq<char>)>,
) -> Seq<(Path, Seq<char>)> {
    env_overrides(env_prefix(), env) + explicit_overrides_of(pairs)
}

/// The configuration that the sources resolve to, or the error that the
/// resolution ends in: the file gives the mapping to start from, the
/// overrides of the environment and then those of the command line are
/// applied to it, and the outcome is bound to the configuration.
pub open spec fn resolved(
    contents: Option<Seq<u8>>,
    env: Seq<(Seq<char>, Seq<char>)>,
    cache_home: Option<Seq<char>>,
    pairs: Seq<(Seq<char>, Seq<char>)>,
) -> Result<ConfigModel, ErrorModel> {
    match base_entries(contents) {
        Err(error) => Err(error),
        Ok(base) => {
            let overrides = all_overrides(env, pairs);
            let (merged, failure) = applied(base, overrides);
            match failure {
                Some(error) => Err(error),
                None => match bound(merged, cache_home) {
                    Ok(config) => Ok(config),
                    Err((field, found)) => Err(binding_error(field, found, overrides)),
                },
            }
        },
    }
}

/// The model of an optional text.
pub open spec fn text_of(text: Option<&str>) -> Option<Seq<char>> {
    match text {
        Some(s) => Some(s@),
        None => None,
    }
}

/// The model of optional bytes.
pub open spec fn bytes_of(bytes: Option<&[u8]>) -> Option<Seq<u8>> {
    match bytes {
        Some(b) => Some(b@),
        None => None,
    }
}

impl Field {
    /// The dotted name of the field.
    pub fn name(self) -> (r: &'static str)
        ensures
            r@ == field_name(self),
    {
        match self {
            Field::SourceRoot => "sourceRoot",
            Field::Cache => "cache",
            Field::CacheEnabled => "cache.enabled",
            Field::CacheLocation => "cache.location",
        }
    }

    /// The path of the field.
    pub fn path(self) -> (r: Vec<String>)
        ensures
            texts(r@) == field_path(self),
    {
        let mut path: Vec<String> = Vec::new();
        match self {
            Field::SourceRoot => {
                path.push(String::from_str("sourceRoot"));
            },
            Field::Cache => {
                path.push(String::from_str("cache"));
            },
            Field::CacheEnabled => {
                path.push(String::from_str("cache"));
                path.push(String::from_str("enabled"));
            },
            Field::CacheLocation => {
                path.push(String::from_str("cache"));
                path.push(String::from_str("location"));
            },
        }
        assert(texts(path@) =~= field_path(self));
        path
    }

    /// The kind of value that the field takes.
    pub fn kind(self) -> (r: Kind)
        ensures
            r == field_kind(self),
    {
        match self {
            Field::SourceRoot => Kind::String,
            Field::Cache => Kind::Mapping,
            Field::CacheEnabled => Kind::Bool,
            Field::CacheLocation => Kind::String,
        }
    }
}

/// `name` below the directory `base`.
pub fn join_path(base: &str, name: &str) -> (r: String)
    ensures
        r@ == below(base@, name@),
{
    let chars = crate::text::chars_of(base);
    let mut out = String::from_str(base);
    if chars.len() == 0 {
        assert(out@ + name@ =~= name@);
    } else if chars[chars.len() - 1] != '/' {
        out.push('/');
    }
    out.append(name);
    out
}

impl Default for SourceRoot {
    /// The home directory, written `~`.
    fn default() -> (r: SourceRoot)
        ensures
            r.0@ == default_source_root(),
    {
        SourceRoot(String::from_str("~"))
    }
}

impl CacheLocation {
    /// The default cache location, `cache_home` being the cache home of the
    /// environment, if it has one.
    pub fn default_in(cache_home: Option<&str>) -> (r: CacheLocation)
        ensures
            r.0@ == default_cache_location(text_of(cache_home)),
    {
        match cache_home {
            Some(home) => CacheLocation(join_path(home, "csrc")),
            None => CacheLocation(String::from_str("~/.cache/csrc")),
        }
    }
}

impl Config {
    /// The configuration that holds when no source says anything.
    pub fn default_in(cache_home: Option<&str>) -> (r: Config)
        ensures
            r@ == default_config(text_of(cache_home)),
    {
        Config {
            source_root: SourceRoot::default(),
            cache: CacheConfig { enabled: false, location: CacheLocation::default_in(cache_home) },
        }
    }
}

/// The candidate paths of the configuration file, in the order in which they
/// are tried.
pub fn config_file_candidates(config_home: Option<&str>, home: Option<&str>) -> (r: Vec<String>)
    ensures
        texts(r@) == candidates(text_of(config_home), text_of(home)),
{
    let mut out: Vec<String> = Vec::new();
    if let Some(dir) = config_home {
        out.push(join_path(dir, "csrc/config.yaml"));
        out.push(join_path(dir, "csrc.yaml"));
    }
    if let Some(dir) = home {
        out.push(join_path(dir, ".config/csrc/config.yaml"));
        out.push(join_path(dir, ".config/csrc.yaml"));
        out.push(join_path(dir, ".csrc.yaml"));
    }
    assert(texts(out@) =~= candidates(text_of(config_home), text_of(home)));
    out
}

/// What came of reading one candidate path.
#[derive(Debug, PartialEq, Eq)]
pub enum ReadOutcome {
    /// The file is there, with these contents.
    Found(Vec<u8>),
    /// There is no file at the path.
    Missing,
    /// The file is there and could not be read, for this cause.
    Failed(String),
}

/// What to do after one candidate path was read.
#[derive(Debug, PartialEq, Eq)]
pub enum FileStep {
    /// Try the next candidate; where none is left, there is no file.
    TryNext,
    /// Take these contents, and try no other candidate.
    Use(Vec<u8>),
    /// Give up with this error, and try no other candidate.
    Fail(ConfigError),
}

/// Decides on one candidate path of the configuration file: the first file
/// that is there is the one that counts, whether or not it can be read.
pub fn read_step(outcome: ReadOutcome) -> (r: FileStep)
    ensures
        match outcome {
            ReadOutcome::Found(contents) => r == FileStep::Use(contents),
            ReadOutcome::Missing => r == FileStep::TryNext,
            ReadOutcome::Failed(cause) => r matches FileStep::Fail(error) && error@
                == ErrorModel::ReadError(cause@),
        },
{
    match outcome {
        ReadOutcome::Found(contents) => FileStep::Use(contents),
        ReadOutcome::Missing => FileStep::TryNext,
        ReadOutcome::Failed(cause) => FileStep::Fail(ConfigError::ReadError(cause)),
    }
}

/// The mapping that the configuration file gives, `contents` being what the
/// file holds, if there is one.
pub fn load_config_from_file(contents: Option<&[u8]>) -> (r: Result<Mapping, ConfigError>)
    ensures
        match r {
            Ok(mapping) => base_entries(bytes_of(contents)) == Ok::<Entries, ErrorModel>(mapping@)
                && mapping.wf(),
            Err(error) => base_entries(bytes_of(contents)) == Err::<Entries, ErrorModel>(error@),
        },
{
    match contents {
        None => Ok(Mapping::new()),
        Some(bytes) => match parse_mapping(bytes) {
            Ok(mapping) => Ok(mapping),
            Err(message) => Err(ConfigError::ParseError(message)),
        },
    }
}

/// The text that a field takes from `map` under `key`.
fn bind_text(map: &Mapping, key: &str, default: String) -> (r: Result<String, ConfigValue>)
    ensures
        match bound_text(map@, key@, default@) {
            Ok(text) => r matches Ok(s) && s@ == text,
            Err(found) => r matches Err(v) && v@ == found,
        },
{
    match map.get(key) {
        None => Ok(default),
        Some(ConfigValue::String(text)) => Ok(text.clone()),
        Some(other) => Err(other.clone()),
    }
}

/// The flag that a field takes from `map` under `key`.
fn bind_flag(map: &Mapping, key: &str) -> (r: Result<bool, ConfigValue>)
    ensures
        match bound_flag(map@, key@) {
            Ok(flag) => r == Ok::<bool, ConfigValue>(flag),
            Err(found) => r matches Err(v) && v@ == found,
        },
{
    match map.get(key) {
        None => Ok(false),
        Some(ConfigValue::Bool(flag)) => Ok(*flag),
        Some(other) => Err(other.clone()),
    }
}

/// Whether the key `first` stands before the key `second` in `map`, a key
/// that is absent standing behind every other.
fn stands_before(map: &Mapping, first: &str, second: &str) -> (r: bool)
    ensures
        r == (find(map@, first@) < find(map@, second@)),
{
    proof {
        lemma_find(map@, first@);
        lemma_find(map@, second@);
    }
    match (map.position(first), map.position(second)) {
        (Some(i), Some(j)) => i < j,
        (Some(_), None) => true,
        (None, _) => false,
    }
}

/// The cache settings that `map` gives.
fn bind_cache(map: &Mapping, cache_home: Option<&str>) -> (r: Result<
    CacheConfig,
    (Field, ConfigValue),
>)
    ensures
        match bound_cache(map@, text_of(cache_home)) {
            Ok((flag, text)) => r matches Ok(cache) && cache.enabled == flag && cache.location.0@
                == text,
            Err((field, found)) => r matches Err((f, v)) && f == field && v@ == found,
        },
{
    let enabled = bind_flag(map, "enabled");
    let location = bind_text(map, "location", CacheLocation::default_in(cache_home).0);
    match (enabled, location) {
        (Ok(flag), Ok(text)) => Ok(CacheConfig { enabled: flag, location: CacheLocation(text) }),
        (Err(found), Ok(_)) => Err((Field::CacheEnabled, found)),
        (Ok(_), Err(found)) => Err((Field::CacheLocation, found)),
        (Err(first), Err(second)) => if stands_before(map, "enabled", "location") {
            Err((Field::CacheEnabled, first))
        } else {
            Err((Field::CacheLocation, second))
        },
    }
}

/// The cache settings that the value under `cache` gives.
fn bind_cache_value(value: Option<&ConfigValue>, cache_home: Option<&str>) -> (r: Result<
    CacheConfig,
    (Field, ConfigValue),
>)
    ensures
        match bound_cache_value(
            match value {
                Some(v) => Some(v@),
                None => None,
            },
            text_of(cache_home),
        ) {
            Ok((flag, text)) => r matches Ok(cache) && cache.enabled == flag && cache.location.0@
                == text,
            Err((field, found)) => r matches Err((f, v)) && f == field && v@ == found,
        },
{
    match value {
        None => Ok(
            CacheConfig { enabled: false, location: CacheLocation::default_in(cache_home) },
        ),
        Some(ConfigValue::Null) => Ok(
            CacheConfig { enabled: false, location: CacheLocation::default_in(cache_home) },
        ),
        Some(ConfigValue::Mapping(map)) => {
            proof {
                crate::value::lemma_mapping_tree(*map);
            }
            bind_cache(map, cache_home)
        },
        Some(other) => Err((Field::Cache, other.clone())),
    }
}

/// Binds the merged mapping `map` to the configuration, `cache_home` being
/// the cache home of the environment, if it has one.
///
/// Each field is taken from its key: `sourceRoot` a string, `cache` a
/// mapping or null, `cache.enabled` a boolean, `cache.location` a string. A
/// key that is absent gives the field's default, and keys that no field has
/// are passed over. Where a field's key holds a value of another kind, the
/// result names the first such field in the order of the entries, and that
/// value.
pub fn bind_config(map: &Mapping, cache_home: Option<&str>) -> (r: Result<
    Config,
    (Field, ConfigValue),
>)
    ensures
        match bound(map@, text_of(cache_home)) {
            Ok(config) => r matches Ok(c) && c@ == config,
            Err((field, found)) => r matches Err((f, v)) && f == field && v@ == found,
        },
{
    let root = bind_text(map, "sourceRoot", SourceRoot::default().0);
    let cache = bind_cache_value(map.get("cache"), cache_home);
    match (root, cache) {
        (Ok(text), Ok(cache)) => Ok(Config { source_root: SourceRoot(text), cache }),
        (Err(found), Ok(_)) => Err((Field::SourceRoot, found)),
        (Ok(_), Err(fault)) => Err(fault),
        (Err(found), Err(fault)) => if stands_before(map, "sourceRoot", "cache") {
            Err((Field::SourceRoot, found))
        } else {
            Err(fault)
        },
    }
}

/// Whether two paths hold the same keys.
fn same_path(a: &Vec<String>, b: &Vec<String>) -> (r: bool)
    ensures
        r == (texts(a@) == texts(b@)),
{
    if a.len() != b.len() {
        assert(texts(a@).len() != texts(b@).len());
        return false;
    }
    let mut i: usize = 0;
    while i < a.len()
        invariant
            0 <= i <= a@.len() == b@.len(),
            forall|k: int| 0 <= k < i ==> a@[k]@ == b@[k]@,
        decreases a@.len() - i,
    {
        if a[i] != b[i] {
            assert(texts(a@)[i as int] != texts(b@)[i as int]);
            return false;
        }
        i = i + 1;
    }
    assert(texts(a@) =~= texts(b@));
    true
}

/// Whether an override of `path` writes the place at `target` as a whole.
fn reaches_path(path: &Vec<String>, target: &Vec<String>) -> (r: bool)
    ensures
        r == reaches(texts(path@), texts(target@)),
{
    if path.len() == 0 || path.len() > target.len() {
        return false;
    }
    let mut i: usize = 0;
    while i < path.len()
        invariant
            0 <= i <= path@.len() <= target@.len(),
            forall|k: int| 0 <= k < i ==> path@[k]@ == target@[k]@,
        decreases path@.len() - i,
    {
        if path[i] != target[i] {
            assert(texts(target@).take(path@.len() as int)[i as int] != texts(path@)[i as int]);
            return false;
        }
        i = i + 1;
    }
    assert(texts(target@).take(path@.len() as int) =~= texts(path@));
    true
}

/// The index of the last of `overrides` that writes the place at `path` as a
/// whole, if one does.
fn last_writer_of(overrides: &Vec<(Vec<String>, String)>, path: &Vec<String>) -> (r: Option<usize>)
    ensures
        match last_writer(overrides_of(overrides@), texts(path@)) {
            Some(writer) => r matches Some(i) && i < overrides@.len() && overrides_of(
                overrides@,
            )[i as int] == writer,
            None => r is None,
        },
{
    let ghost all = overrides_of(overrides@);
    let mut i: usize = overrides.len();
    assert(all.take(i as int) =~= all);
    while i > 0
        invariant
            0 <= i <= overrides@.len(),
            all == overrides_of(overrides@),
            last_writer(all, texts(path@)) == last_writer(all.take(i as int), texts(path@)),
        decreases i,
    {
        let ghost front = all.take(i as int);
        assert(front.drop_last() =~= all.take(i - 1));
        assert(front.last() == all[i - 1]);
        i = i - 1;
        if reaches_path(&overrides[i].0, path) {
            return Some(i);
        }
    }
    assert(all.take(0) =~= Seq::<(Path, Seq<char>)>::empty());
    None
}

/// Whether the value is a scalar.
fn scalar(value: &ConfigValue) -> (r: bool)
    ensures
        r == is_scalar(value@),
{
    match value {
        ConfigValue::Sequence(_) => false,
        ConfigValue::Mapping(_) => false,
        _ => true,
    }
}

/// The error for `field` holding `found` after `overrides`.
fn blame(field: Field, found: ConfigValue, overrides: &Vec<(Vec<String>, String)>) -> (r:
    ConfigError)
    ensures
        r@ == binding_error(field, found@, overrides_of(overrides@)),
{
    let path = field.path();
    if field.kind() != Kind::Mapping && scalar(&found) {
        if let Some(i) = last_writer_of(overrides, &path) {
            if same_path(&overrides[i].0, &path) {
                let mut details = String::from_str("found ");
                details.append(found.kind().name());
                details.append(", expected ");
                details.append(field.kind().name());
                return ConfigError::InvalidValue {
                    field: String::from_str(field.name()),
                    value: overrides[i].1.clone(),
                    details,
                };
            }
        }
    }
    ConfigError::SchemaError { field: String::from_str(field.name()), found, expected: field.kind() }
}

/// Resolves the configuration of a run from its sources.
///
/// `contents` is what the configuration file holds, if there is one; `env`
/// is the environment, as names and values; `cache_home` is the cache home
/// of the environment, if it has one; `overrides` are the pairs of key and
/// value of the command line. The file gives the mapping to start from; the
/// overrides of the environment and then those of the command line are
/// applied to it in order; the outcome is bound to the configuration.
///
/// A field that holds a value of the wrong kind ends the resolution in an
/// error of the schema, which names the field and the value. The one
/// exception is a scalar that an override gave to a field that takes a scalar
/// of another kind: that is an invalid value of the override, named with its
/// text.
pub fn load_config(
    contents: Option<&[u8]>,
    env: &[(String, String)],
    cache_home: Option<&str>,
    overrides: &[(String, String)],
) -> (r: Result<Config, ConfigError>)
    ensures
        match resolved(bytes_of(contents), pairs_of(env@), text_of(cache_home), pairs_of(overrides@)) {
            Ok(config) => r matches Ok(c) && c@ == config,
            Err(error) => r matches Err(e) && e@ == error,
        },
{
    let mut merged = match load_config_from_file(contents) {
        Ok(mapping) => mapping,
        Err(error) => {
            return Err(error);
        },
    };
    let mut all = load_config_from_env(env);
    let mut explicit = explicit_overrides(overrides);
    let ghost first = overrides_of(all@);
    let ghost second = overrides_of(explicit@);
    all.append(&mut explicit);
    assert(overrides_of(all@) =~= first + second);
    match apply_overrides(&mut merged, all.as_slice()) {
        Ok(()) => {},
        Err(error) => {
            return Err(error);
        },
    }
    match bind_config(&merged, cache_home) {
        Ok(config) => Ok(config),
        Err((field, found)) => Err(blame(field, found, &all)),
    }
}

} // verus!
