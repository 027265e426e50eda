use vstd::prelude::*;
use crate::error::{ConfigError, ErrorKind};
use crate::text::{chars_of, concat};

verus! {

/// The table that holds configurations unless another is named.
pub const DEFAULT_CONFIG_TABLE: &'static str = "app_configs";

/// The database engines a configuration can be stored in.
#[derive(Clone, Copy, Debug, PartialEq, Eq)]
pub enum SqlBackend {
    Sqlite,
    Postgres,
}

pub open spec fn backend_name(b: SqlBackend) -> Seq<char> {
    match b {
        SqlBackend::Sqlite => "sqlite"@,
        SqlBackend::Postgres => "postgres"@,
    }
}

impl SqlBackend {
    pub fn name(self) -> (r: &'static str)
        ensures
            r@ == backend_name(self),
    {
        match self {
            SqlBackend::Sqlite => "sqlite",
            SqlBackend::Postgres => "postgres",
        }
    }
}

/// `c` is an ASCII letter or digit, or `_`.
pub open spec fn identifier_char(c: char) -> bool {
    ('a' <= c <= 'z') || ('A' <= c <= 'Z') || ('0' <= c <= '9') || c == '_'
}

/// `s` can be put into SQL text as a table name: it is not empty and holds
/// only ASCII letters, digits and `_`.
pub open spec fn valid_identifier(s: Seq<char>) -> bool {
    s.len() > 0 && forall|i: int| 0 <= i < s.len() ==> identifier_char(#[trigger] s[i])
}

pub fn is_valid_identifier(ident: &str) -> (r: bool)
    ensures
        r == valid_identifier(ident@),
{
    let chars = chars_of(ident);
    if chars.len() == 0 {
        return false;
    }
    for i in 0..chars.len()
        invariant
            chars@ == ident@,
            forall|j: int| 0 <= j < i ==> identifier_char(#[trigger] chars@[j]),
    {
        let c = chars[i];
        if !(('a' <= c && c <= 'z') || ('A' <= c && c <= 'Z') || ('0' <= c && c <= '9') || c == '_') {
            return false;
        }
    }
    true
}

/// Where a database-backed configuration lives: the engine, the table and
/// the application whose row holds it.
pub struct StoreSettings {
    pub backend: SqlBackend,
    pub table_name: String,
    pub app_name: String,
}

pub open spec fn sql_text(prefix: &str, table: Seq<char>, suffix: &str) -> Seq<char> {
    prefix@ + table + suffix@
}

fn wrap(prefix: &str, table: &str, suffix: &str) -> (r: String)
    ensures
        r@ == sql_text(prefix, table@, suffix),
{
    let mut s = concat(prefix, table);
    s.append(suffix);
    s
}

pub open spec fn create_table_prefix() -> &'static str {
    "CREATE TABLE IF NOT EXISTS "
}

pub open spec fn sqlite_create_suffix() -> &'static str {
    " (\n                        app_name TEXT PRIMARY KEY,\n                        config_json TEXT NOT NULL,\n                        updated_at TEXT NOT NULL DEFAULT CURRENT_TIMESTAMP\n                    )"
}

pub open spec fn postgres_create_suffix() -> &'static str {
    " (\n                    app_name TEXT PRIMARY KEY,\n                    config_json TEXT NOT NULL,\n                    updated_at TIMESTAMPTZ NOT NULL DEFAULT NOW()\n                )"
}

pub open spec fn select_prefix() -> &'static str {
    "SELECT config_json FROM "
}

pub open spec fn sqlite_select_suffix() -> &'static str {
    " WHERE app_name = ?1"
}

pub open spec fn postgres_select_suffix() -> &'static str {
    " WHERE app_name = $1"
}

pub open spec fn upsert_prefix() -> &'static str {
    "INSERT INTO "
}

pub open spec fn sqlite_upsert_suffix() -> &'static str {
    " (app_name, config_json) VALUES (?1, ?2)\n             ON CONFLICT(app_name) DO UPDATE\n             SET config_json = excluded.config_json, updated_at = CURRENT_TIMESTAMP"
}

pub open spec fn postgres_upsert_suffix() -> &'static str {
    " (app_name, config_json) VALUES ($1, $2)\n             ON CONFLICT (app_name) DO UPDATE\n             SET config_json = EXCLUDED.config_json, updated_at = NOW()"
}

impl StoreSettings {
    /// The settings of a store for `app_name`, in `table_name` or else in the
    /// default table.
    pub fn new(backend: SqlBackend, app_name: &str, table_name: Option<&str>) -> (r: StoreSettings)
        ensures
            r.backend == backend,
            r.app_name@ == app_name@,
            r.table_name@ == match table_name {
                Some(t) => t@,
                None => DEFAULT_CONFIG_TABLE@,
            },
    {
        let table = match table_name {
            Some(t) => t.to_owned(),
            None => DEFAULT_CONFIG_TABLE.to_owned(),
        };
        StoreSettings { backend, table_name: table, app_name: app_name.to_owned() }
    }

    /// How the store is named in messages: `<engine>:<table>:<app>`.
    pub fn source_name(&self) -> (r: String)
        ensures
            r@ == backend_name(self.backend) + ":"@ + self.table_name@ + ":"@ + self.app_name@,
    {
        let mut s = concat(self.backend.name(), ":");
        s.append(self.table_name.as_str());
        s.append(":");
        s.append(self.app_name.as_str());
        s
    }

    /// Checks that the table name can be put into SQL text.
    pub fn validate_identifier(&self) -> (r: Result<(), ConfigError>)
        ensures
            if valid_identifier(self.table_name@) {
                r is Ok
            } else {
                r matches Err(e) && e.is(
                    ErrorKind::InvalidInput,
                    "invalid "@ + backend_name(self.backend) + " config table name "@ + self.table_name@,
                )
            },
    {
        if is_valid_identifier(self.table_name.as_str()) {
            Ok(())
        } else {
            let mut s = concat("invalid ", self.backend.name());
            s.append(" config table name ");
            s.append(self.table_name.as_str());
            Err(ConfigError::new(ErrorKind::InvalidInput, s))
        }
    }

    /// The statement that creates the configuration table when it is missing.
    pub fn create_table_statement(&self) -> (r: String)
        ensures
            r@ == sql_text(
                create_table_prefix(),
                self.table_name@,
                match self.backend {
                    SqlBackend::Sqlite => sqlite_create_suffix(),
                    SqlBackend::Postgres => postgres_create_suffix(),
                },
            ),
    {
        match self.backend {
            SqlBackend::Sqlite => wrap(
                "CREATE TABLE IF NOT EXISTS ",
                self.table_name.as_str(),
                " (\n                        app_name TEXT PRIMARY KEY,\n                        config_json TEXT NOT NULL,\n                        updated_at TEXT NOT NULL DEFAULT CURRENT_TIMESTAMP\n                    )",
            ),
            SqlBackend::Postgres => wrap(
                "CREATE TABLE IF NOT EXISTS ",
                self.table_name.as_str(),
                " (\n                    app_name TEXT PRIMARY KEY,\n                    config_json TEXT NOT NULL,\n                    updated_at TIMESTAMPTZ NOT NULL DEFAULT NOW()\n                )",
            ),
        }
    }

    /// The query that reads the application's configuration text.
    pub fn select_statement(&self) -> (r: String)
        ensures
            r@ == sql_text(
                select_prefix(),
                self.table_name@,
                match self.backend {
                    SqlBackend::Sqlite => sqlite_select_suffix(),
                    SqlBackend::Postgres => postgres_select_suffix(),
                },
            ),
    {
        match self.backend {
            SqlBackend::Sqlite => wrap("SELECT config_json FROM ", self.table_name.as_str(), " WHERE app_name = ?1"),
            SqlBackend::Postgres => wrap("SELECT config_json FROM ", self.table_name.as_str(), " WHERE app_name = $1"),
        }
    }

    /// The statement that writes the application's configuration text,
    /// replacing what was there.
    pub fn upsert_statement(&self) -> (r: String)
        ensures
            r@ == sql_text(
                upsert_prefix(),
                self.table_name@,
                match self.backend {
                    SqlBackend::Sqlite => sqlite_upsert_suffix(),
                    SqlBackend::Postgres => postgres_upsert_suffix(),
                },
            ),
    {
        match self.backend {
            SqlBackend::Sqlite => wrap(
                "INSERT INTO ",
                self.table_name.as_str(),
                " (app_name, config_json) VALUES (?1, ?2)\n             ON CONFLICT(app_name) DO UPDATE\n             SET config_json = excluded.config_json, updated_at = CURRENT_TIMESTAMP",
            ),
            SqlBackend::Postgres => wrap(
                "INSERT INTO ",
                self.table_name.as_str(),
                " (app_name, config_json) VALUES ($1, $2)\n             ON CONFLICT (app_name) DO UPDATE\n             SET config_json = EXCLUDED.config_json, updated_at = NOW()",
            ),
        }
    }

    /// The statement that lists the columns of the SQLite table.
    pub fn table_info_statement(&self) -> (r: String)
        ensures
            r@ == "PRAGMA table_info("@ + self.table_name@ + ")"@,
    {
        wrap("PRAGMA table_info(", self.table_name.as_str(), ")")
    }

    /// Accepts the existing table when it has the expected columns.
    pub fn check_schema(&self, has_app_name: bool, has_config_json: bool) -> (r: Result<(), ConfigError>)
        ensures
            if has_app_name && has_config_json {
                r is Ok
            } else {
                r matches Err(e) && e.is(
                    ErrorKind::AlreadyExists,
                    "refusing to use "@ + backend_name(self.backend) + " table "@ + self.table_name@
                        + " because it does not match the expected config schema"@,
                )
            },
    {
        if has_app_name && has_config_json {
            Ok(())
        } else {
            let mut s = concat("refusing to use ", self.backend.name());
            s.append(" table ");
            s.append(self.table_name.as_str());
            s.append(" because it does not match the expected config schema");
            Err(ConfigError::new(ErrorKind::AlreadyExists, s))
        }
    }
}

/// Whether the SQLite table description `columns` (column name, primary key
/// position) has `app_name` as its primary key and a `config_json` column.
pub fn sqlite_columns_match(columns: &Vec<(String, i64)>) -> (r: (bool, bool))
    ensures
        r.0 == exists|i: int| 0 <= i < columns@.len() && #[trigger] columns@[i].0@ == "app_name"@ && columns@[i].1 == 1,
        r.1 == exists|i: int| 0 <= i < columns@.len() && #[trigger] columns@[i].0@ == "config_json"@,
{
    let app_name = "app_name".to_owned();
    let config_json = "config_json".to_owned();
    let mut has_app_name = false;
    let mut has_config_json = false;
    for i in 0..columns.len()
        invariant
            app_name@ == "app_name"@,
            config_json@ == "config_json"@,
            has_app_name == exists|j: int| 0 <= j < i && #[trigger] columns@[j].0@ == "app_name"@ && columns@[j].1 == 1,
            has_config_json == exists|j: int| 0 <= j < i && #[trigger] columns@[j].0@ == "config_json"@,
    {
        let (name, pk) = (&columns[i].0, columns[i].1);
        if *name == app_name && pk == 1 {
            has_app_name = true;
        }
        if *name == config_json {
            has_config_json = true;
        }
    }
    (has_app_name, has_config_json)
}

/// Law: a table name is accepted exactly when it is not empty and each of
/// its characters is an ASCII letter of either case (code points 0x41 to
/// 0x5A and 0x61 to 0x7A), an ASCII digit (0x30 to 0x39) or `_`.
pub proof fn law_identifier_characters(s: Seq<char>)
    ensures
        valid_identifier(s) <==> (s.len() > 0 && forall|i: int|
            0 <= i < s.len() ==> {
                let c = #[trigger] s[i] as int;
                (0x41 <= c <= 0x5A) || (0x61 <= c <= 0x7A) || (0x30 <= c <= 0x39) || c == 0x5F
            }),
{
    assert forall|i: int| 0 <= i < s.len() implies identifier_char(#[trigger] s[i]) == {
        let c = s[i] as int;
        (0x41 <= c <= 0x5A) || (0x61 <= c <= 0x7A) || (0x30 <= c <= 0x39) || c == 0x5F
    } by {}
}

} // verus!
