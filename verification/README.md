# cloudiful-config

Configuration helpers for applications: where an application's configuration
file lives, how environment variables override it, how `secret://`
references inside it are resolved through the platform credential store, and
how configurations are kept in SQLite or Postgres tables.

## Layout

- `src/` is the library, verified with Verus. Every function states what it
  returns in its contract, and the laws of the library are proof functions
  named `law_*`:
  - `paths`: application names and the default configuration path
    (XDG, macOS and Windows roots).
  - `format`: file formats by extension, the check before a write, the name
    of the temporary file a write goes through.
  - `jsonc`: blanking the comments of JSON-with-comments text.
  - `json`: the JSON document type, its model, sorted object keys, merging.
  - `env`: environment variable names to object paths, override documents.
  - `secret`: parsing `secret://` references, percent-decoding, resolving
    references through the credential store.
  - `store`: the `keyring` crate's entries and lookups, each lookup tagged
    with the service and user it asked for.
  - `document`: TOML and JSON configuration text to JSON documents, through
    the `toml` and `serde_json` crates.
  - `sql`: table names, statements and schema checks of the SQL stores.
  - `lib.rs`: read options, the dotenv outcome, and the processing of a
    loaded configuration (overrides, then secrets).
- `app/` is the unverified side: files, the process environment, dotenv
  loading, serde, SQLite and Postgres, and the `read`/`save` entry points.
  It hands the library plain values and takes plain values back.
- `tests/` exercises the library on concrete values.
