use vstd::prelude::*;
use crate::error::{ConfigError, ErrorKind};
use crate::format::{ConfigFormat, FileFormat};
use crate::json::{Json, JsonValue, well_ordered};
use crate::jsonc::{strip_jsonc_comments, strip_jsonc_text};
use crate::text::concat;

verus! {

#[verifier::external_type_specification]
#[verifier::external_body]
pub struct ExSerdeJsonValue(serde_json::Value);

/// Why TOML text gives no JSON document: it is not TOML (with the parser's
/// description), or its value has no JSON form (with the converter's).
#[derive(Debug)]
pub enum TomlFailure {
    Syntax(String),
    Conversion(String),
}

/// The JSON document that the JSON text `text` holds, or the parser's
/// description of why it holds none (`serde_json::from_str`).
pub uninterp spec fn json_document(text: Seq<char>) -> Result<Json, Seq<char>>;

/// The JSON document that the TOML text `text` holds, or why it holds none
/// (`toml::from_str` into a TOML value, then `serde_json::to_value`).
pub uninterp spec fn toml_document(text: Seq<char>) -> Result<Json, TomlFailure>;

/// The library's JSON document for a serde JSON value: each variant to the
/// variant of the same name, numbers in their textual form, object entries
/// in the value's order. Nothing is stated of it: the value is opaque here.
#[verifier::external_body]
fn json_value_of(value: serde_json::Value) -> JsonValue {
    match value {
        serde_json::Value::Null => JsonValue::Null,
        serde_json::Value::Bool(b) => JsonValue::Bool(b),
        serde_json::Value::Number(n) => JsonValue::Number(n.to_string()),
        serde_json::Value::String(s) => JsonValue::Str(s),
        serde_json::Value::Array(items) => JsonValue::Array(items.into_iter().map(json_value_of).collect()),
        serde_json::Value::Object(map) => JsonValue::Object(map.into_iter().map(|(k, v)| (k, json_value_of(v))).collect()),
    }
}

/// Parses JSON text (`serde_json::from_str` into a JSON value): the result
/// is `json_document` of the text. A parsed document is well ordered:
/// serde_json's map (built here without its `preserve_order` feature) is a
/// sorted map of strings, and its entries are converted in that order.
#[verifier::external_body]
pub(crate) fn parse_json_text(text: &str) -> (r: Result<JsonValue, String>)
    ensures
        match r {
            Ok(v) => json_document(text@) == Ok::<Json, Seq<char>>(v.model()) && well_ordered(v.model()),
            Err(m) => json_document(text@) == Err::<Json, Seq<char>>(m@),
        },
{
    match serde_json::from_str::<serde_json::Value>(text) {
        Ok(value) => Ok(json_value_of(value)),
        Err(err) => Err(err.to_string()),
    }
}

/// Parses TOML text into a JSON document (`toml::from_str` into a TOML
/// value, then `serde_json::to_value`): the result is `toml_document` of the
/// text. A converted document is well ordered, as serde_json's sorted map
/// makes it.
#[verifier::external_body]
fn parse_toml_text(text: &str) -> (r: Result<JsonValue, TomlFailure>)
    ensures
        match r {
            Ok(v) => toml_document(text@) == Ok::<Json, TomlFailure>(v.model()) && well_ordered(v.model()),
            Err(f) => toml_document(text@) == Err::<Json, TomlFailure>(f),
        },
{
    match toml::from_str::<toml::Value>(text) {
        Err(err) => Err(TomlFailure::Syntax(err.to_string())),
        Ok(value) => match serde_json::to_value(value) {
            Ok(json) => Ok(json_value_of(json)),
            Err(err) => Err(TomlFailure::Conversion(err.to_string())),
        },
    }
}

/// The message of a configuration text of kind `kind` (TOML, JSON, JSONC)
/// from `source` that does not parse.
pub open spec fn msg_parse_failed(kind: Seq<char>, source: Seq<char>, detail: Seq<char>) -> Seq<char> {
    "failed to parse "@ + kind + " config "@ + source + ": "@ + detail
}

/// The message of TOML text from `source` whose value has no JSON form.
pub open spec fn msg_convert_failed(source: Seq<char>, detail: Seq<char>) -> Seq<char> {
    "failed to convert TOML config "@ + source + " to JSON value: "@ + detail
}

/// The document that `content`, read as text of kind `kind`, gives, or the
/// failure that names `source`.
pub open spec fn parsed_json(kind: Seq<char>, content: Seq<char>, source: Seq<char>, r: Result<JsonValue, ConfigError>) -> bool {
    match json_document(content) {
        Ok(j) => r matches Ok(v) && v.model() == j,
        Err(d) => r matches Err(e) && e.is(ErrorKind::InvalidData, msg_parse_failed(kind, source, d)),
    }
}

pub open spec fn parsed_toml(content: Seq<char>, source: Seq<char>, r: Result<JsonValue, ConfigError>) -> bool {
    match toml_document(content) {
        Ok(j) => r matches Ok(v) && v.model() == j,
        Err(TomlFailure::Syntax(d)) => r matches Err(e) && e.is(
            ErrorKind::InvalidData,
            msg_parse_failed("TOML"@, source, d@),
        ),
        Err(TomlFailure::Conversion(d)) => r matches Err(e) && e.is(
            ErrorKind::InvalidData,
            msg_convert_failed(source, d@),
        ),
    }
}

fn parse_failed(kind: &str, source: &str, detail: &str) -> (e: ConfigError)
    ensures
        e.is(ErrorKind::InvalidData, msg_parse_failed(kind@, source@, detail@)),
{
    let mut text = concat("failed to parse ", kind);
    text.append(" config ");
    text.append(source);
    text.append(": ");
    text.append(detail);
    ConfigError::new(ErrorKind::InvalidData, text)
}

fn parse_json_config(content: &str, kind: &str, source: &str) -> (r: Result<JsonValue, ConfigError>)
    ensures
        parsed_json(kind@, content@, source@, r),
        r matches Ok(v) ==> well_ordered(v.model()),
{
    match parse_json_text(content) {
        Ok(v) => Ok(v),
        Err(detail) => Err(parse_failed(kind, source, detail.as_str())),
    }
}

fn parse_toml_config(content: &str, source: &str) -> (r: Result<JsonValue, ConfigError>)
    ensures
        parsed_toml(content@, source@, r),
        r matches Ok(v) ==> well_ordered(v.model()),
{
    match parse_toml_text(content) {
        Ok(v) => Ok(v),
        Err(TomlFailure::Syntax(detail)) => Err(parse_failed("TOML", source, detail.as_str())),
        Err(TomlFailure::Conversion(detail)) => {
            let mut text = concat("failed to convert TOML config ", source);
            text.append(" to JSON value: ");
            text.append(detail.as_str());
            Err(ConfigError::new(ErrorKind::InvalidData, text))
        },
    }
}

/// Parses configuration text kept in `source` in the format `format` into a
/// JSON document.
pub fn parse_config_value(content: &str, format: ConfigFormat, source: &str) -> (r: Result<
    JsonValue,
    ConfigError,
>)
    ensures
        match format {
            ConfigFormat::Toml => parsed_toml(content@, source@, r),
            ConfigFormat::Json => parsed_json("JSON"@, content@, source@, r),
        },
        r matches Ok(v) ==> well_ordered(v.model()),
{
    match format {
        ConfigFormat::Toml => parse_toml_config(content, source),
        ConfigFormat::Json => parse_json_config(content, "JSON", source),
    }
}

/// Parses the text of the configuration file at `path`, in the format its
/// extension names, into a JSON document: JSON-with-comments text has its
/// comments blanked out first.
pub fn parse_config_file(content: &str, format: FileFormat, path: &str) -> (r: Result<
    JsonValue,
    ConfigError,
>)
    ensures
        match format {
            FileFormat::Toml => parsed_toml(content@, path@, r),
            FileFormat::Json => parsed_json("JSON"@, content@, path@, r),
            FileFormat::Jsonc => parsed_json("JSONC"@, strip_jsonc_text(content@), path@, r),
        },
        r matches Ok(v) ==> well_ordered(v.model()),
{
    match format {
        FileFormat::Toml => parse_toml_config(content, path),
        FileFormat::Json => parse_json_config(content, "JSON", path),
        FileFormat::Jsonc => {
            let stripped = strip_jsonc_comments(content);
            parse_json_config(stripped.as_str(), "JSONC", path)
        },
    }
}

} // verus!
