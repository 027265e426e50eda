//! Configuration helpers: where an application's configuration lives, how
//! environment variables override it, how `secret://` references inside it
//! are resolved, and how JSON-with-comments text is read.

use vstd::prelude::*;
use crate::error::{ConfigError, ErrorKind};
use crate::env::{apply_env_overrides, env_entries, law_overrides_well_ordered};
use crate::json::{Json, JsonValue, entries_model, merge, well_ordered, law_merge_well_ordered};
use crate::store::StoreLookup;
use crate::secret::{asked_along, json_outcome, resolution, resolve_secret_refs, law_resolution_well_ordered};
use crate::text::concat;

pub mod env;
pub mod error;
pub mod format;
pub mod json;
pub mod jsonc;
pub mod paths;
pub mod secret;
pub mod sql;
pub mod store;
pub mod document;
pub mod text;

pub use crate::format::ConfigFormat;
pub use crate::sql::DEFAULT_CONFIG_TABLE;

verus! {

/// Whether, and from where, a dotenv file is loaded before reading.
#[derive(Clone, Copy, Debug, PartialEq, Eq)]
pub enum DotenvOptions<'a> {
    Enabled,
    Disabled,
    Path(&'a str),
}

impl<'a> Default for DotenvOptions<'a> {
    fn default() -> (r: Self)
        ensures
            r == DotenvOptions::<'a>::Enabled,
    {
        DotenvOptions::Enabled
    }
}

/// How a configuration is read: the prefix of the environment variables that
/// override it, if any, and the dotenv file to load first.
#[derive(Clone, Copy, Debug, PartialEq, Eq)]
pub struct ReadOptions<'a> {
    pub env_prefix: Option<&'a str>,
    pub dotenv: DotenvOptions<'a>,
}

/// `options` with its dotenv setting replaced by `dotenv`.
pub open spec fn with_dotenv_setting<'a>(options: ReadOptions<'a>, dotenv: DotenvOptions<'a>) -> ReadOptions<'a> {
    ReadOptions { env_prefix: options.env_prefix, dotenv }
}

impl<'a> Default for ReadOptions<'a> {
    fn default() -> (r: Self)
        ensures
            r.env_prefix.is_none(),
            r.dotenv == DotenvOptions::<'a>::Enabled,
    {
        ReadOptions { env_prefix: None, dotenv: DotenvOptions::Enabled }
    }
}

impl<'a> ReadOptions<'a> {
    /// Reads with environment overrides under `env_prefix`, loading `.env` first.
    pub fn with_env_prefix(env_prefix: &'a str) -> (r: Self)
        ensures
            r.env_prefix == Some(env_prefix),
            r.dotenv == DotenvOptions::<'a>::Enabled,
    {
        ReadOptions { env_prefix: Some(env_prefix), dotenv: DotenvOptions::Enabled }
    }

    /// Loads no dotenv file.
    pub fn without_dotenv(self) -> (r: Self)
        ensures
            r == with_dotenv_setting(self, DotenvOptions::Disabled),
    {
        let mut options = self;
        options.dotenv = DotenvOptions::Disabled;
        options
    }

    /// Loads the dotenv file at `path`.
    pub fn with_dotenv_path(self, path: &'a str) -> (r: Self)
        ensures
            r == with_dotenv_setting(self, DotenvOptions::Path(path)),
    {
        let mut options = self;
        options.dotenv = DotenvOptions::Path(path);
        options
    }

    /// Loads `.env` from the current directory.
    pub fn with_dotenv(self) -> (r: Self)
        ensures
            r == with_dotenv_setting(self, DotenvOptions::Enabled),
    {
        let mut options = self;
        options.dotenv = DotenvOptions::Enabled;
        options
    }
}

/// Law: of several dotenv settings made one after another, the last one
/// decides, and none of them touches the environment prefix.
pub proof fn law_last_dotenv_setting_wins<'a>(
    options: ReadOptions<'a>,
    first: DotenvOptions<'a>,
    second: DotenvOptions<'a>,
)
    ensures
        with_dotenv_setting(with_dotenv_setting(options, first), second) == with_dotenv_setting(
            options,
            second,
        ),
        with_dotenv_setting(options, second).env_prefix == options.env_prefix,
{
}

impl<'a> DotenvOptions<'a> {
    /// The dotenv file that these options load: `.env` when enabled, the given
    /// path, or none when disabled.
    pub fn file_to_load(self) -> (r: Option<&'a str>)
        ensures
            match self {
                DotenvOptions::Enabled => r matches Some(p) && p@ == ".env"@,
                DotenvOptions::Disabled => r.is_none(),
                DotenvOptions::Path(p) => r == Some(p),
            },
    {
        match self {
            DotenvOptions::Enabled => Some(".env"),
            DotenvOptions::Disabled => None,
            DotenvOptions::Path(p) => Some(p),
        }
    }
}

/// A failure to load a dotenv file: whether the file was simply missing,
/// and the loader's description of the failure.
pub struct DotenvFailure {
    pub missing_file: bool,
    pub detail: String,
}

/// How loading the dotenv file ends: a missing `.env` is fine when the
/// default file was asked for, any other failure names the file.
pub fn dotenv_outcome(options: DotenvOptions, failure: Option<DotenvFailure>) -> (r: Result<(), ConfigError>)
    requires
        !(options is Disabled && failure is Some),
    ensures
        match failure {
            None => r is Ok,
            Some(f) => if options is Enabled && f.missing_file {
                r is Ok
            } else {
                r matches Err(e) && e.is(
                    ErrorKind::InvalidData,
                    "failed to load dotenv file "@ + match options {
                        DotenvOptions::Path(p) => p@,
                        _ => ".env"@,
                    } + ": "@ + f.detail@,
                )
            },
        },
{
    match failure {
        None => Ok(()),
        Some(f) => {
            if f.missing_file {
                if let DotenvOptions::Enabled = options {
                    return Ok(());
                }
            }
            let source = match options {
                DotenvOptions::Path(p) => p,
                _ => ".env",
            };
            let mut message = concat("failed to load dotenv file ", source);
            message.append(": ");
            message.append(f.detail.as_str());
            Err(ConfigError::new(ErrorKind::InvalidData, message))
        },
    }
}

/// The document `config` after the environment overrides under `prefix`, if
/// there is one, are merged into it.
pub open spec fn overridden(config: Json, prefix: Option<Seq<char>>, vars: Seq<(Seq<char>, Json)>) -> Json {
    match prefix {
        Some(p) => merge(config, Json::Object(env_entries(vars, p))),
        None => config,
    }
}

pub open spec fn str_view(s: Option<&str>) -> Option<Seq<char>> {
    match s {
        Some(v) => Some(v@),
        None => None,
    }
}

/// Processes a loaded configuration before it is handed to the application:
/// the environment variables `env_vars` (name, value) override it under
/// `env_prefix`, when there is a prefix, and then its secret references are
/// resolved. Returns the outcome and the store lookups that were made, by
/// the place of each reference: each reference reached was looked up under
/// its own service and user, and the outcome is what `resolution` makes of
/// those lookups' answers.
pub fn process_config_value(
    config: JsonValue,
    env_prefix: Option<&str>,
    env_vars: Vec<(String, JsonValue)>,
) -> (r: (Result<JsonValue, ConfigError>, Ghost<spec_fn(Seq<nat>) -> StoreLookup>))
    ensures
        asked_along(
            overridden(config.model(), str_view(env_prefix), entries_model(env_vars@)),
            seq![],
            r.1@,
        ),
        json_outcome(r.0) == resolution(
            overridden(config.model(), str_view(env_prefix), entries_model(env_vars@)),
            seq![],
            r.1@,
        ),
{
    let value = match env_prefix {
        Some(prefix) => apply_env_overrides(config, env_vars, prefix),
        None => config,
    };
    resolve_secret_refs(value)
}

/// Law: processing keeps documents in key order. When every object of the
/// loaded configuration and of the variables' values has its keys in order,
/// then, whatever the credential store answers, so does every object of the
/// processed configuration.
pub proof fn law_processing_keeps_key_order(
    config: Json,
    prefix: Option<Seq<char>>,
    vars: Seq<(Seq<char>, Json)>,
    answers: spec_fn(Seq<nat>) -> StoreLookup,
)
    requires
        well_ordered(config),
        forall|i: int| 0 <= i < vars.len() ==> well_ordered(#[trigger] vars[i].1),
    ensures
        resolution(overridden(config, prefix, vars), seq![], answers) matches Ok(after) ==> well_ordered(
            after,
        ),
{
    if let Some(p) = prefix {
        law_overrides_well_ordered(vars, p);
        law_merge_well_ordered(config, Json::Object(env_entries(vars, p)));
    }
    law_resolution_well_ordered(overridden(config, prefix, vars), seq![], answers);
}

} // verus!
