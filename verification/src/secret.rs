use vstd::prelude::*;
use vstd::utf8::{decode_utf8, encode_utf8, valid_utf8, encode_scalar, has_width_1_encoding, char_is_scalar, encode_utf8_valid_utf8, encode_utf8_decode_utf8};
use crate::error::{ConfigError, ErrorKind};
use crate::store::{StoreLookup, ask_keyring};
use vstd::pervasive::arbitrary;
use crate::json::{Json, JsonValue, items_model, entries_model, lemma_items_model, lemma_entries_model, key_less, well_ordered, lemma_items_well_ordered, lemma_entries_well_ordered};
use crate::text::{push_char, push_decimal, decimal, concat, chars_of, has_prefix, starts_with, index_of, split_at_char, string_views, find_char, substring, split_on_char, lemma_index_of};

verus! {

/// The value of an ASCII hexadecimal digit.
pub open spec fn hex_nibble(b: u8) -> Option<u8> {
    if 0x30 <= b <= 0x39 {
        Some((b - 0x30) as u8)
    } else if 0x61 <= b <= 0x66 {
        Some((b - 0x61 + 10) as u8)
    } else if 0x41 <= b <= 0x46 {
        Some((b - 0x41 + 10) as u8)
    } else {
        None
    }
}

/// The byte that two hexadecimal digits spell, high digit first.
pub open spec fn hex_pair(high: u8, low: u8) -> Option<u8> {
    match (hex_nibble(high), hex_nibble(low)) {
        (Some(h), Some(l)) => Some((h * 16 + l) as u8),
        _ => None,
    }
}

/// The bytes that the percent-encoded bytes `b` stand for: `%XY` is the byte
/// with hexadecimal value XY, `+` is a space, any other byte stands for itself.
/// `None` when a `%` is not followed by two hexadecimal digits.
pub open spec fn percent_decoded(b: Seq<u8>) -> Option<Seq<u8>>
    decreases b.len(),
{
    if b.len() == 0 {
        Some(seq![])
    } else if b[0] == 0x25 {
        if b.len() < 3 {
            None
        } else {
            match (hex_pair(b[1], b[2]), percent_decoded(b.subrange(3, b.len() as int))) {
                (Some(v), Some(rest)) => Some(seq![v] + rest),
                _ => None,
            }
        }
    } else {
        match percent_decoded(b.subrange(1, b.len() as int)) {
            Some(rest) => Some(seq![if b[0] == 0x2b { 0x20u8 } else { b[0] }] + rest),
            None => None,
        }
    }
}

pub open spec fn msg_bad_percent() -> Seq<char> {
    "invalid percent-encoding in secret reference"@
}

pub open spec fn msg_bad_utf8() -> Seq<char> {
    "secret reference contains invalid UTF-8"@
}

/// The text that the percent-encoded text `raw` stands for, or the message
/// of why it stands for none.
pub open spec fn percent_decoded_text(raw: Seq<char>) -> Result<Seq<char>, Seq<char>> {
    match percent_decoded(encode_utf8(raw)) {
        Some(bytes) => if valid_utf8(bytes) {
            Ok(decode_utf8(bytes))
        } else {
            Err(msg_bad_utf8())
        },
        None => Err(msg_bad_percent()),
    }
}

pub fn decode_hex_nibble(byte: u8) -> (r: Option<u8>)
    ensures
        r == hex_nibble(byte),
{
    if 0x30 <= byte && byte <= 0x39 {
        Some(byte - 0x30)
    } else if 0x61 <= byte && byte <= 0x66 {
        Some(byte - 0x61 + 10)
    } else if 0x41 <= byte && byte <= 0x46 {
        Some(byte - 0x41 + 10)
    } else {
        None
    }
}

pub fn decode_hex_pair(high: u8, low: u8) -> (r: Option<u8>)
    ensures
        r == hex_pair(high, low),
{
    let h = match decode_hex_nibble(high) {
        Some(h) => h,
        None => return None,
    };
    let l = match decode_hex_nibble(low) {
        Some(l) => l,
        None => return None,
    };
    assert((h << 4) | l == h * 16 + l) by (bit_vector)
        requires
            h < 16,
            l < 16,
    ;
    Some((h << 4) | l)
}

/// Decodes percent-encoded bytes (see `percent_decoded`).
#[verifier::spinoff_prover]
pub fn percent_decode_bytes(bytes: &[u8]) -> (r: Option<Vec<u8>>)
    ensures
        match r {
            Some(v) => percent_decoded(bytes@) == Some(v@),
            None => percent_decoded(bytes@) == None::<Seq<u8>>,
        },
{
    let n = bytes.len();
    let mut out: Vec<u8> = Vec::new();
    let mut i: usize = 0;
    proof {
        assert(bytes@.subrange(0, n as int) =~= bytes@);
    }
    while i < n
        invariant
            n == bytes@.len(),
            0 <= i <= n,
            percent_decoded(bytes@) == match percent_decoded(bytes@.subrange(i as int, n as int)) {
                Some(rest) => Some(out@ + rest),
                None => None::<Seq<u8>>,
            },
        decreases n - i,
    {
        let ghost s = bytes@.subrange(i as int, n as int);
        if bytes[i] == 0x25 {
            if n - i < 3 {
                return None;
            }
            match decode_hex_pair(bytes[i + 1], bytes[i + 2]) {
                Some(v) => {
                    proof {
                        assert(s.subrange(3, s.len() as int) =~= bytes@.subrange(i + 3, n as int));
                        assert(out@.push(v) + percent_decoded(bytes@.subrange(i + 3, n as int))->0
                            =~= out@ + (seq![v] + percent_decoded(
                            bytes@.subrange(i + 3, n as int),
                        )->0));
                    }
                    out.push(v);
                    i = i + 3;
                },
                None => {
                    return None;
                },
            }
        } else {
            let c = if bytes[i] == 0x2b {
                0x20u8
            } else {
                bytes[i]
            };
            proof {
                assert(s.subrange(1, s.len() as int) =~= bytes@.subrange(i + 1, n as int));
                assert(out@.push(c) + percent_decoded(bytes@.subrange(i + 1, n as int))->0 =~= out@
                    + (seq![c] + percent_decoded(bytes@.subrange(i + 1, n as int))->0));
            }
            out.push(c);
            i = i + 1;
        }
    }
    proof {
        assert(bytes@.subrange(n as int, n as int) =~= Seq::<u8>::empty());
        assert(out@ + Seq::<u8>::empty() =~= out@);
    }
    Some(out)
}

/// The text whose UTF-8 encoding is `bytes` (`String::from_utf8`): `None`
/// exactly when `bytes` is not valid UTF-8.
#[verifier::external_body]
fn string_from_utf8(bytes: Vec<u8>) -> (r: Option<String>)
    ensures
        match r {
            Some(s) => valid_utf8(bytes@) && s@ == decode_utf8(bytes@),
            None => !valid_utf8(bytes@),
        },
{
    String::from_utf8(bytes).ok()
}

} // verus!

verus! {

/// One step on the way from the document root to a value: an object key or
/// an array index.
#[derive(Debug)]
pub enum PathSegment {
    Field(String),
    Index(usize),
}

/// One step of a path in the model of a document: an object key or an
/// array index.
pub enum PathStep {
    Key(Seq<char>),
    At(nat),
}

pub open spec fn step_of(s: PathSegment) -> PathStep {
    match s {
        PathSegment::Field(name) => PathStep::Key(name@),
        PathSegment::Index(i) => PathStep::At(i as nat),
    }
}

/// The model of a path of segments.
pub open spec fn steps_of(p: Seq<PathSegment>) -> Seq<PathStep> {
    p.map_values(|s: PathSegment| step_of(s))
}

/// The steps of `p` written out: keys joined by dots, indexes in brackets.
pub open spec fn render_path(p: Seq<PathStep>) -> Seq<char>
    decreases p.len(),
{
    if p.len() == 0 {
        seq![]
    } else {
        let prev = render_path(p.drop_last());
        match p[p.len() - 1] {
            PathStep::Key(name) => if prev.len() == 0 {
                name
            } else {
                prev.push('.') + name
            },
            PathStep::At(i) => prev.push('[') + decimal(i).push(']'),
        }
    }
}

/// How a path is named in messages: `<root>` for the root itself.
pub open spec fn display_path_text(p: Seq<PathStep>) -> Seq<char> {
    if p.len() == 0 {
        "<root>"@
    } else {
        render_path(p)
    }
}

/// The message of a secret failure at `path`.
pub open spec fn secret_error_message(path: Seq<PathStep>, message: Seq<char>) -> Seq<char> {
    "failed to resolve secret at "@ + display_path_text(path) + ": "@ + message
}

#[verifier::spinoff_prover]
pub fn display_path(path: &Vec<PathSegment>) -> (r: String)
    ensures
        r@ == display_path_text(steps_of(path@)),
{
    if path.len() == 0 {
        return "<root>".to_owned();
    }
    let ghost steps = steps_of(path@);
    let mut output = String::new();
    for i in 0..path.len()
        invariant
            steps == steps_of(path@),
            output@ == render_path(steps.subrange(0, i as int)),
    {
        let ghost prev = output@;
        proof {
            assert(steps.subrange(0, i + 1).drop_last() =~= steps.subrange(0, i as int));
            assert(steps.subrange(0, i + 1)[i as int] == step_of(path@[i as int]));
        }
        match &path[i] {
            PathSegment::Field(name) => {
                if !output.as_str().is_empty() {
                    push_char(&mut output, '.');
                }
                output.append(name.as_str());
                proof {
                    if prev.len() == 0 {
                        assert(output@ =~= name@);
                    }
                }
            },
            PathSegment::Index(index) => {
                push_char(&mut output, '[');
                push_decimal(&mut output, *index as u128);
                push_char(&mut output, ']');
                proof {
                    assert(output@ =~= prev.push('[') + decimal(*index as nat).push(']'));
                }
            },
        }
    }
    proof {
        assert(steps.subrange(0, path@.len() as int) =~= steps);
    }
    output
}

/// The failure of resolving the secret at `path`.
pub fn path_error(path: &Vec<PathSegment>, kind: ErrorKind, message: &str) -> (e: ConfigError)
    ensures
        e.is(kind, secret_error_message(steps_of(path@), message@)),
{
    let mut text = "failed to resolve secret at ".to_owned();
    let shown = display_path(path);
    text.append(shown.as_str());
    text.append(": ");
    text.append(message);
    ConfigError::new(kind, text)
}

/// Decodes a percent-encoded parameter (see `percent_decoded_text`).
pub fn percent_decode(raw: &str, path: &Vec<PathSegment>) -> (r: Result<String, ConfigError>)
    ensures
        match percent_decoded_text(raw@) {
            Ok(t) => r matches Ok(s) && s@ == t,
            Err(m) => r matches Err(e) && e.is(ErrorKind::InvalidInput, secret_error_message(steps_of(path@), m)),
        },
{
    let bytes = raw.as_bytes();
    match percent_decode_bytes(bytes) {
        None => Err(path_error(path, ErrorKind::InvalidInput, "invalid percent-encoding in secret reference")),
        Some(decoded) => match string_from_utf8(decoded) {
            Some(s) => Ok(s),
            None => Err(path_error(path, ErrorKind::InvalidInput, "secret reference contains invalid UTF-8")),
        },
    }
}

} // verus!

verus! {

pub open spec fn msg_not_key_value() -> Seq<char> {
    "secret query parameter must be key=value"@
}

pub open spec fn msg_empty_key() -> Seq<char> {
    "secret query parameter key must not be empty"@
}

/// The parameters that the `&`-separated pieces `pieces` give, in order,
/// or the message of the first piece that is malformed. Empty pieces are
/// skipped; a piece is split at its first `=` into a non-empty key and a
/// value, and both are percent-decoded, the key first.
pub open spec fn parse_pairs(pieces: Seq<Seq<char>>) -> Result<Seq<(Seq<char>, Seq<char>)>, Seq<char>>
    decreases pieces.len(),
{
    if pieces.len() == 0 {
        Ok(seq![])
    } else {
        let piece = pieces[0];
        let rest = parse_pairs(pieces.subrange(1, pieces.len() as int));
        if piece.len() == 0 {
            rest
        } else {
            match index_of(piece, '=') {
                None => Err(msg_not_key_value()),
                Some(i) => if i == 0 {
                    Err(msg_empty_key())
                } else {
                    match percent_decoded_text(piece.subrange(0, i)) {
                        Err(m) => Err(m),
                        Ok(k) => match percent_decoded_text(piece.subrange(i + 1, piece.len() as int)) {
                            Err(m) => Err(m),
                            Ok(v) => match rest {
                                Ok(r) => Ok(seq![(k, v)] + r),
                                Err(m) => Err(m),
                            },
                        },
                    }
                },
            }
        }
    }
}

/// The parameters of the query part `query` of a secret reference.
pub open spec fn parse_query_params(query: Seq<char>) -> Result<Seq<(Seq<char>, Seq<char>)>, Seq<char>> {
    parse_pairs(split_at_char(query, '&'))
}

pub open spec fn pair_views(v: Seq<(String, String)>) -> Seq<(Seq<char>, Seq<char>)> {
    v.map_values(|p: (String, String)| (p.0@, p.1@))
}

pub open spec fn prefixed<T>(acc: Seq<T>, r: Result<Seq<T>, Seq<char>>) -> Result<Seq<T>, Seq<char>> {
    match r {
        Ok(x) => Ok(acc + x),
        Err(m) => Err(m),
    }
}

/// Parses the query part of a secret reference into its parameters, in order.
#[verifier::spinoff_prover]
pub fn parse_query(query: &str, path: &Vec<PathSegment>) -> (r: Result<Vec<(String, String)>, ConfigError>)
    ensures
        match parse_query_params(query@) {
            Ok(ps) => r matches Ok(v) && pair_views(v@) == ps,
            Err(m) => r matches Err(e) && e.is(ErrorKind::InvalidInput, secret_error_message(steps_of(path@), m)),
        },
{
    let pieces = split_on_char(query, '&');
    let ghost all = string_views(pieces@);
    let n = pieces.len();
    let mut params: Vec<(String, String)> = Vec::new();
    proof {
        assert(all.subrange(0, n as int) =~= all);
        assert(pair_views(params@) =~= seq![]);
        assert(seq![] + parse_pairs(all)->Ok_0 =~= parse_pairs(all)->Ok_0);
    }
    for k in 0..n
        invariant
            n == pieces@.len(),
            all == string_views(pieces@),
            all == split_at_char(query@, '&'),
            parse_pairs(all) == prefixed(pair_views(params@), parse_pairs(all.subrange(k as int, n as int))),
    {
        let ghost rest = all.subrange(k + 1, n as int);
        proof {
            assert(all.subrange(k as int, n as int).subrange(1, n - k) =~= rest);
        }
        let piece = &pieces[k];
        let chars = chars_of(piece.as_str());
        if chars.len() == 0 {
            proof {
                assert(all[k as int].len() == 0);
            }
        } else {
            let eq = match find_char(&chars, '=') {
                Some(i) => i,
                None => {
                    return Err(path_error(path, ErrorKind::InvalidInput, "secret query parameter must be key=value"));
                },
            };
            if eq == 0 {
                return Err(path_error(path, ErrorKind::InvalidInput, "secret query parameter key must not be empty"));
            }
            proof {
                lemma_index_of(chars@, '=');
            }
            let raw_key = substring(&chars, 0, eq);
            let raw_value = substring(&chars, eq + 1, chars.len());
            let key = match percent_decode(raw_key.as_str(), path) {
                Ok(key) => key,
                Err(e) => return Err(e),
            };
            let value = match percent_decode(raw_value.as_str(), path) {
                Ok(value) => value,
                Err(e) => return Err(e),
            };
            let ghost before = params@;
            params.push((key, value));
            proof {
                assert(pair_views(params@) =~= pair_views(before).push((key@, value@)));
                match parse_pairs(rest) {
                    Ok(r) => {
                        assert(pair_views(before) + (seq![(key@, value@)] + r) =~= pair_views(params@) + r);
                    },
                    Err(_) => {},
                }
            }
        }
    }
    proof {
        assert(all.subrange(n as int, n as int) =~= Seq::<Seq<char>>::empty());
        assert(pair_views(params@) + Seq::<(Seq<char>, Seq<char>)>::empty() =~= pair_views(params@));
    }
    Ok(params)
}

} // verus!

verus! {

pub open spec fn secret_scheme() -> Seq<char> {
    "secret://"@
}

pub open spec fn msg_no_scheme() -> Seq<char> {
    "secret reference must start with secret://"@
}

pub open spec fn msg_no_query() -> Seq<char> {
    "secret reference must include query parameters"@
}

pub open spec fn msg_empty_provider() -> Seq<char> {
    "secret provider must not be empty"@
}

/// A string value that names a secret: one that starts with `secret://`.
pub open spec fn is_secret_ref(s: Seq<char>) -> bool {
    starts_with(s, secret_scheme())
}

/// The provider and parameters of the secret reference `raw`
/// (`secret://<provider>?<query>`), or the message of why it is malformed.
pub open spec fn parse_secret_ref(raw: Seq<char>) -> Result<(Seq<char>, Seq<(Seq<char>, Seq<char>)>), Seq<char>> {
    if !is_secret_ref(raw) {
        Err(msg_no_scheme())
    } else {
        let rest = raw.subrange(secret_scheme().len() as int, raw.len() as int);
        match index_of(rest, '?') {
            None => Err(msg_no_query()),
            Some(i) => if i == 0 {
                Err(msg_empty_provider())
            } else {
                match parse_query_params(rest.subrange(i + 1, rest.len() as int)) {
                    Ok(params) => Ok((rest.subrange(0, i), params)),
                    Err(m) => Err(m),
                }
            },
        }
    }
}

/// The value that `params` gives `key`: that of its last occurrence, as a
/// map filled in order keeps it.
pub open spec fn lookup_param(params: Seq<(Seq<char>, Seq<char>)>, key: Seq<char>) -> Option<Seq<char>>
    decreases params.len(),
{
    if params.len() == 0 {
        None
    } else if params[params.len() - 1].0 == key {
        Some(params[params.len() - 1].1)
    } else {
        lookup_param(params.drop_last(), key)
    }
}

/// A parsed secret reference: the provider that holds the secret and the
/// parameters that find it, in the order they were written.
#[derive(Debug)]
pub struct SecretRef {
    pub provider: String,
    pub params: Vec<(String, String)>,
}

impl SecretRef {
    /// Parses the secret reference `raw` (see `parse_secret_ref`).
    pub fn parse(raw: &str, path: &Vec<PathSegment>) -> (r: Result<SecretRef, ConfigError>)
        ensures
            match parse_secret_ref(raw@) {
                Ok((provider, params)) => r matches Ok(s) && s.provider@ == provider && pair_views(
                    s.params@,
                ) == params,
                Err(m) => r matches Err(e) && e.is(ErrorKind::InvalidInput, secret_error_message(steps_of(path@), m)),
            },
    {
        let chars = chars_of(raw);
        let scheme = chars_of("secret://");
        if !has_prefix(&chars, &scheme) {
            return Err(path_error(path, ErrorKind::InvalidInput, "secret reference must start with secret://"));
        }
        let rest = substring(&chars, scheme.len(), chars.len());
        let rest_chars = chars_of(rest.as_str());
        let q = match find_char(&rest_chars, '?') {
            Some(q) => q,
            None => {
                return Err(path_error(path, ErrorKind::InvalidInput, "secret reference must include query parameters"));
            },
        };
        if q == 0 {
            return Err(path_error(path, ErrorKind::InvalidInput, "secret provider must not be empty"));
        }
        proof {
            lemma_index_of(rest_chars@, '?');
        }
        let provider = substring(&rest_chars, 0, q);
        let query = substring(&rest_chars, q + 1, rest_chars.len());
        match parse_query(query.as_str(), path) {
            Ok(params) => Ok(SecretRef { provider, params }),
            Err(e) => Err(e),
        }
    }

    /// The non-empty value of the parameter `key`, or the failure that names
    /// the missing parameter.
    pub fn required_param(&self, key: &str, path: &Vec<PathSegment>) -> (r: Result<String, ConfigError>)
        ensures
            match lookup_param(pair_views(self.params@), key@) {
                Some(v) if v.len() > 0 => r matches Ok(s) && s@ == v,
                _ => r matches Err(e) && e.is(
                    ErrorKind::InvalidInput,
                    secret_error_message(steps_of(path@), "missing required parameter "@ + key@),
                ),
            },
    {
        let n = self.params.len();
        let ghost all = pair_views(self.params@);
        let wanted = key.to_owned();
        let mut found: Option<usize> = None;
        for i in 0..n
            invariant
                n == self.params@.len(),
                all == pair_views(self.params@),
                wanted@ == key@,
                match found {
                    Some(j) => j < i && lookup_param(all.subrange(0, i as int), key@) == Some(
                        all[j as int].1,
                    ),
                    None => lookup_param(all.subrange(0, i as int), key@) == None::<Seq<char>>,
                },
        {
            proof {
                assert(all.subrange(0, i + 1).drop_last() =~= all.subrange(0, i as int));
            }
            if self.params[i].0 == wanted {
                found = Some(i);
            }
        }
        proof {
            assert(all.subrange(0, n as int) =~= all);
        }
        match found {
            Some(j) => {
                let value = &self.params[j].1;
                if !value.as_str().is_empty() {
                    return Ok(value.clone());
                }
            },
            None => {},
        }
        let message = concat("missing required parameter ", key);
        Err(path_error(path, ErrorKind::InvalidInput, message.as_str()))
    }
}

} // verus!

verus! {

/// Why the credential store could not give a secret, as plain values.
#[derive(Debug)]
pub enum KeyringFailure {
    PlatformFailure,
    NoStorageAccess,
    NoEntry,
    BadEncoding,
    BadDataFormat,
    BadStoreFormat(String),
    TooLong(String, u32),
    Invalid(String, String),
    Ambiguous,
    NoDefaultStore,
    NotSupportedByStore(String),
    Other(String),
}

/// How a credential store failure is described in messages.
pub open spec fn failure_detail(f: KeyringFailure) -> Seq<char> {
    match f {
        KeyringFailure::NoEntry => "no entry found"@,
        KeyringFailure::Ambiguous => "multiple matching entries found"@,
        KeyringFailure::NoStorageAccess => "storage access denied"@,
        KeyringFailure::BadEncoding => "stored secret is not valid UTF-8"@,
        KeyringFailure::BadDataFormat => "stored secret has invalid data format"@,
        KeyringFailure::BadStoreFormat(reason) => "store data is malformed: "@ + reason@,
        KeyringFailure::Invalid(attribute, reason) => "invalid "@ + attribute@ + ": "@ + reason@,
        KeyringFailure::TooLong(attribute, limit) => attribute@ + " exceeds platform limit "@
            + decimal(limit as nat),
        KeyringFailure::NoDefaultStore => "no default keyring store configured"@,
        KeyringFailure::NotSupportedByStore(reason) => "operation not supported by store: "@
            + reason@,
        KeyringFailure::PlatformFailure => "platform keyring failure"@,
        KeyringFailure::Other(text) => text@,
    }
}

pub fn describe_failure(f: &KeyringFailure) -> (r: String)
    ensures
        r@ == failure_detail(*f),
{
    match f {
        KeyringFailure::NoEntry => "no entry found".to_owned(),
        KeyringFailure::Ambiguous => "multiple matching entries found".to_owned(),
        KeyringFailure::NoStorageAccess => "storage access denied".to_owned(),
        KeyringFailure::BadEncoding => "stored secret is not valid UTF-8".to_owned(),
        KeyringFailure::BadDataFormat => "stored secret has invalid data format".to_owned(),
        KeyringFailure::BadStoreFormat(reason) => concat("store data is malformed: ", reason.as_str()),
        KeyringFailure::Invalid(attribute, reason) => {
            let mut s = concat("invalid ", attribute.as_str());
            s.append(": ");
            s.append(reason.as_str());
            s
        },
        KeyringFailure::TooLong(attribute, limit) => {
            let mut s = concat(attribute.as_str(), " exceeds platform limit ");
            push_decimal(&mut s, *limit as u128);
            s
        },
        KeyringFailure::NoDefaultStore => "no default keyring store configured".to_owned(),
        KeyringFailure::NotSupportedByStore(reason) => concat(
            "operation not supported by store: ",
            reason.as_str(),
        ),
        KeyringFailure::PlatformFailure => "platform keyring failure".to_owned(),
        KeyringFailure::Other(text) => text.clone(),
    }
}


} // verus!

verus! {

pub open spec fn msg_missing_param(key: Seq<char>) -> Seq<char> {
    "missing required parameter "@ + key
}

pub open spec fn msg_entry_failed() -> Seq<char> {
    "failed to construct keyring entry via keyring: "@
}

pub open spec fn msg_lookup_failed() -> Seq<char> {
    "failed to resolve secret via keyring: "@
}

/// What the platform credential store answered to one lookup: the secret,
/// a failure to open the entry (with the store's own description of it), or
/// a failure to give the secret.
#[derive(Debug)]
pub enum KeyringAnswer {
    Found(String),
    EntryFailed(String),
    LookupFailed(KeyringFailure),
}

/// A secret or the kind and message of a failure, as plain values.
pub open spec fn text_outcome(r: Result<String, ConfigError>) -> Result<Seq<char>, (ErrorKind, Seq<char>)> {
    match r {
        Ok(s) => Ok(s@),
        Err(e) => Err((e.kind, e.message@)),
    }
}

/// What the store's answer `answer` makes of the lookup at `path`.
pub open spec fn answer_result(path: Seq<PathStep>, answer: KeyringAnswer) -> Result<
    Seq<char>,
    (ErrorKind, Seq<char>),
> {
    match answer {
        KeyringAnswer::Found(secret) => Ok(secret@),
        KeyringAnswer::EntryFailed(text) => Err(
            (ErrorKind::InvalidInput, secret_error_message(path, msg_entry_failed() + text@)),
        ),
        KeyringAnswer::LookupFailed(f) => Err(
            (ErrorKind::NotFound, secret_error_message(path, msg_lookup_failed() + failure_detail(f))),
        ),
    }
}

/// The result of looking up the keyring reference with parameters `params`
/// at `path` when the store answers `answer`: the missing parameter is named
/// when `service` or `user` is absent or empty (the store is then not asked);
/// otherwise the store's answer decides.
pub open spec fn keyring_result(
    params: Seq<(Seq<char>, Seq<char>)>,
    path: Seq<PathStep>,
    answer: KeyringAnswer,
) -> Result<Seq<char>, (ErrorKind, Seq<char>)> {
    if !(lookup_param(params, "service"@) matches Some(s) && s.len() > 0) {
        Err((ErrorKind::InvalidInput, secret_error_message(path, msg_missing_param("service"@))))
    } else if !(lookup_param(params, "user"@) matches Some(u) && u.len() > 0) {
        Err((ErrorKind::InvalidInput, secret_error_message(path, msg_missing_param("user"@))))
    } else {
        answer_result(path, answer)
    }
}

/// The result of resolving the secret reference `raw` at `path` when the
/// credential store answers `answer`.
pub open spec fn secret_result(raw: Seq<char>, path: Seq<PathStep>, answer: KeyringAnswer) -> Result<
    Seq<char>,
    (ErrorKind, Seq<char>),
> {
    match parse_secret_ref(raw) {
        Err(m) => Err((ErrorKind::InvalidInput, secret_error_message(path, m))),
        Ok((provider, params)) => if provider == "keyring"@ {
            keyring_result(params, path, answer)
        } else {
            Err(
                (
                    ErrorKind::InvalidInput,
                    secret_error_message(path, "unsupported secret provider "@ + provider),
                ),
            )
        },
    }
}

/// The secret that a reference of the `test` provider carries in its own
/// `value` parameter, or the failure that names the missing parameter. The
/// provider is for exercising resolution without a credential store; the
/// `keyring` provider is the one that `resolve_secret_ref` dispatches to.
pub fn resolve_test_secret(secret_ref: &SecretRef, path: &Vec<PathSegment>) -> (r: Result<String, ConfigError>)
    ensures
        match lookup_param(pair_views(secret_ref.params@), "value"@) {
            Some(v) if v.len() > 0 => r matches Ok(s) && s@ == v,
            _ => r matches Err(e) && e.is(
                ErrorKind::InvalidInput,
                secret_error_message(steps_of(path@), msg_missing_param("value"@)),
            ),
        },
{
    secret_ref.required_param("value", path)
}

/// Turns the credential store's answer for the secret at `path` into the
/// secret or the failure that names `path`.
pub fn keyring_reply(answer: KeyringAnswer, path: &Vec<PathSegment>) -> (r: Result<String, ConfigError>)
    ensures
        text_outcome(r) == answer_result(steps_of(path@), answer),
{
    match answer {
        KeyringAnswer::Found(secret) => Ok(secret),
        KeyringAnswer::EntryFailed(text) => {
            let message = concat("failed to construct keyring entry via keyring: ", text.as_str());
            Err(path_error(path, ErrorKind::InvalidInput, message.as_str()))
        },
        KeyringAnswer::LookupFailed(failure) => {
            let detail = describe_failure(&failure);
            let message = concat("failed to resolve secret via keyring: ", detail.as_str());
            Err(path_error(path, ErrorKind::NotFound, message.as_str()))
        },
    }
}


/// The service and user that the keyring reference with parameters `params`
/// asks the store for, when both are present and not empty.
pub open spec fn keyring_request(params: Seq<(Seq<char>, Seq<char>)>) -> Option<(Seq<char>, Seq<char>)> {
    match (lookup_param(params, "service"@), lookup_param(params, "user"@)) {
        (Some(service), Some(user)) => if service.len() > 0 && user.len() > 0 {
            Some((service, user))
        } else {
            None
        },
        _ => None,
    }
}

/// `lookup` is the lookup that a keyring reference with parameters `params`
/// makes: when the reference names a service and a user, the store was
/// asked for exactly those.
pub open spec fn asks_for(params: Seq<(Seq<char>, Seq<char>)>, lookup: StoreLookup) -> bool {
    keyring_request(params) matches Some(req) ==> lookup.request() == req
}

/// `lookup` is the lookup that the secret reference `raw` makes, when it is
/// a keyring reference.
pub open spec fn secret_asks_for(raw: Seq<char>, lookup: StoreLookup) -> bool {
    match parse_secret_ref(raw) {
        Ok((provider, params)) => provider == "keyring"@ ==> asks_for(params, lookup),
        Err(_) => true,
    }
}

/// The failure of a keyring reference with parameters `params` at `path`
/// that lacks a non-empty `service` (named first) or `user`.
pub open spec fn keyring_params_error(params: Seq<(Seq<char>, Seq<char>)>, path: Seq<PathStep>) -> Result<
    Seq<char>,
    (ErrorKind, Seq<char>),
> {
    if !(lookup_param(params, "service"@) matches Some(s) && s.len() > 0) {
        Err((ErrorKind::InvalidInput, secret_error_message(path, msg_missing_param("service"@))))
    } else {
        Err((ErrorKind::InvalidInput, secret_error_message(path, msg_missing_param("user"@))))
    }
}

/// What looking up the keyring reference with parameters `params` at `path`
/// came to, given its outcome and the store lookup it made: without a
/// service and a user the store is not asked and the missing parameter is
/// named; otherwise the store was asked for exactly that service and user,
/// and its answer decides the outcome.
pub open spec fn keyring_looked_up(
    params: Seq<(Seq<char>, Seq<char>)>,
    path: Seq<PathStep>,
    outcome: Result<Seq<char>, (ErrorKind, Seq<char>)>,
    lookup: Option<StoreLookup>,
) -> bool {
    match keyring_request(params) {
        None => lookup is None && outcome == keyring_params_error(params, path),
        Some(req) => lookup matches Some(l) && l.request() == req && outcome == answer_result(
            path,
            l.reply(),
        ),
    }
}

/// What resolving the secret reference `raw` at `path` came to, given its
/// outcome and the store lookup it made: a malformed reference or one of
/// another provider fails without asking the store; a keyring reference is
/// looked up as `keyring_looked_up` says.
pub open spec fn secret_looked_up(
    raw: Seq<char>,
    path: Seq<PathStep>,
    outcome: Result<Seq<char>, (ErrorKind, Seq<char>)>,
    lookup: Option<StoreLookup>,
) -> bool {
    match parse_secret_ref(raw) {
        Err(m) => lookup is None && outcome == Err::<Seq<char>, (ErrorKind, Seq<char>)>(
            (ErrorKind::InvalidInput, secret_error_message(path, m)),
        ),
        Ok((provider, params)) => if provider == "keyring"@ {
            keyring_looked_up(params, path, outcome, lookup)
        } else {
            lookup is None && outcome == Err::<Seq<char>, (ErrorKind, Seq<char>)>(
                (
                    ErrorKind::InvalidInput,
                    secret_error_message(path, "unsupported secret provider "@ + provider),
                ),
            )
        },
    }
}

/// Looks the secret up in the platform credential store, under the
/// reference's `service` and `user` parameters. Returns the outcome and the
/// store lookup that was made (none when a parameter is missing).
pub fn resolve_keyring_secret(secret_ref: &SecretRef, path: &Vec<PathSegment>) -> (r: (
    Result<String, ConfigError>,
    Ghost<Option<StoreLookup>>,
))
    ensures
        keyring_looked_up(pair_views(secret_ref.params@), steps_of(path@), text_outcome(r.0), r.1@),
{
    let ghost params = pair_views(secret_ref.params@);
    let service = match secret_ref.required_param("service", path) {
        Ok(s) => s,
        Err(e) => {
            return (Err(e), Ghost(None));
        },
    };
    let user = match secret_ref.required_param("user", path) {
        Ok(u) => u,
        Err(e) => {
            return (Err(e), Ghost(None));
        },
    };
    let lookup = ask_keyring(service.as_str(), user.as_str());
    let ghost asked = lookup;
    let r = keyring_reply(lookup.into_answer(), path);
    proof {
        assert(keyring_request(params) == Some((service@, user@)));
    }
    (r, Ghost(Some(asked)))
}

/// Resolves the secret reference `raw` found at `path`: it is parsed, and its
/// provider is asked for the secret; `keyring` is the one provider there is.
/// Returns the outcome and the store lookup that was made, if any.
pub fn resolve_secret_ref(raw: &str, path: &Vec<PathSegment>) -> (r: (
    Result<String, ConfigError>,
    Ghost<Option<StoreLookup>>,
))
    ensures
        secret_looked_up(raw@, steps_of(path@), text_outcome(r.0), r.1@),
{
    let secret_ref = match SecretRef::parse(raw, path) {
        Ok(s) => s,
        Err(e) => {
            return (Err(e), Ghost(None));
        },
    };
    if secret_ref.provider == "keyring".to_owned() {
        resolve_keyring_secret(&secret_ref, path)
    } else {
        let message = concat("unsupported secret provider ", secret_ref.provider.as_str());
        (Err(path_error(path, ErrorKind::InvalidInput, message.as_str())), Ghost(None))
    }
}

/// A secret reference resolved with the store lookup `lookup` (or, when the
/// store was not asked, any lookup) gives what `secret_result` makes of that
/// lookup's answer, and the lookup asked for the reference's service and user.
proof fn lemma_secret_looked_up(
    raw: Seq<char>,
    path: Seq<PathStep>,
    outcome: Result<Seq<char>, (ErrorKind, Seq<char>)>,
    lookup: Option<StoreLookup>,
    fallback: StoreLookup,
)
    requires
        secret_looked_up(raw, path, outcome, lookup),
    ensures
        ({
            let l = match lookup {
                Some(l) => l,
                None => fallback,
            };
            outcome == secret_result(raw, path, l.reply()) && secret_asks_for(raw, l)
        }),
{
}

} // verus!

verus! {

/// The secret reference `s` is well formed and names the keyring provider
/// with non-empty `service` and `user` parameters.
pub open spec fn resolvable_ref(s: Seq<char>) -> bool {
    parse_secret_ref(s) matches Ok((provider, params)) && provider == "keyring"@ && (lookup_param(
        params,
        "service"@,
    ) matches Some(v) && v.len() > 0) && (lookup_param(params, "user"@) matches Some(u) && u.len()
        > 0)
}

/// Some string value of `j` is a secret reference.
pub open spec fn has_secret_refs(j: Json) -> bool
    decreases j,
{
    match j {
        Json::Str(s) => is_secret_ref(s),
        Json::Array(items) => items_have_secret_refs(items),
        Json::Object(entries) => entries_have_secret_refs(entries),
        _ => false,
    }
}

pub open spec fn items_have_secret_refs(items: Seq<Json>) -> bool
    decreases items,
{
    items.len() > 0 && (items_have_secret_refs(items.drop_last()) || has_secret_refs(
        items[items.len() - 1],
    ))
}

pub open spec fn entries_have_secret_refs(entries: Seq<(Seq<char>, Json)>) -> bool
    decreases entries,
{
    entries.len() > 0 && (entries_have_secret_refs(entries.drop_last()) || has_secret_refs(
        entries[entries.len() - 1].1,
    ))
}

/// `after` is `before` with every secret reference replaced by a string, each
/// of them a well-formed keyring reference; nothing else differs.
pub open spec fn resolved_from(before: Json, after: Json) -> bool
    decreases before,
{
    match before {
        Json::Str(s) => if is_secret_ref(s) {
            after is Str && resolvable_ref(s)
        } else {
            after == before
        },
        Json::Array(a) => match after {
            Json::Array(b) => items_resolved(a, b),
            _ => false,
        },
        Json::Object(e) => match after {
            Json::Object(f) => entries_resolved(e, f),
            _ => false,
        },
        _ => after == before,
    }
}

pub open spec fn items_resolved(a: Seq<Json>, b: Seq<Json>) -> bool
    decreases a,
{
    a.len() == b.len() && (a.len() > 0 ==> items_resolved(a.drop_last(), b.drop_last())
        && resolved_from(a[a.len() - 1], b[b.len() - 1]))
}

pub open spec fn entries_resolved(e: Seq<(Seq<char>, Json)>, f: Seq<(Seq<char>, Json)>) -> bool
    decreases e,
{
    e.len() == f.len() && (e.len() > 0 ==> entries_resolved(e.drop_last(), f.drop_last()) && e[e.len()
        - 1].0 == f[f.len() - 1].0 && resolved_from(e[e.len() - 1].1, f[f.len() - 1].1))
}

} // verus!

verus! {

/// A document or the kind and message of a failure, as plain values.
pub open spec fn json_outcome(r: Result<JsonValue, ConfigError>) -> Result<Json, (ErrorKind, Seq<char>)> {
    match r {
        Ok(v) => Ok(v.model()),
        Err(e) => Err((e.kind, e.message@)),
    }
}

/// The answers of the credential store for the places below the place `k`,
/// given the answers for the places below its parent. A place is the
/// sequence of positions (array indexes, entry numbers) that leads to it.
pub open spec fn shifted(answers: spec_fn(Seq<nat>) -> StoreLookup, k: nat) -> spec_fn(
    Seq<nat>,
) -> StoreLookup {
    |place: Seq<nat>| answers(seq![k] + place)
}

/// The result of resolving every secret reference in `j`, whose path from the
/// document root is `path`, when the credential store gives `answers(place)`
/// to the lookup of the reference at `place` (relative to `j`); the places
/// are the sequences of positions (array indexes, entry numbers) that lead
/// to a reference. Arrays are
/// walked by index and objects in entry order; the first failure is the
/// result, and otherwise each reference is replaced by its secret.
pub open spec fn resolution(
    j: Json,
    path: Seq<PathStep>,
    answers: spec_fn(Seq<nat>) -> StoreLookup,
) -> Result<Json, (ErrorKind, Seq<char>)>
    decreases j,
{
    match j {
        Json::Str(s) => if is_secret_ref(s) {
            match secret_result(s, path, answers(seq![]).reply()) {
                Ok(secret) => Ok(Json::Str(secret)),
                Err(e) => Err(e),
            }
        } else {
            Ok(j)
        },
        Json::Array(items) => match items_resolution(items, path, answers) {
            Ok(resolved) => Ok(Json::Array(resolved)),
            Err(e) => Err(e),
        },
        Json::Object(entries) => match entries_resolution(entries, path, answers) {
            Ok(resolved) => Ok(Json::Object(resolved)),
            Err(e) => Err(e),
        },
        _ => Ok(j),
    }
}

pub open spec fn items_resolution(
    items: Seq<Json>,
    path: Seq<PathStep>,
    answers: spec_fn(Seq<nat>) -> StoreLookup,
) -> Result<Seq<Json>, (ErrorKind, Seq<char>)>
    decreases items,
{
    if items.len() == 0 {
        Ok(seq![])
    } else {
        let k = (items.len() - 1) as nat;
        match items_resolution(items.drop_last(), path, answers) {
            Err(e) => Err(e),
            Ok(done) => match resolution(
                items[items.len() - 1],
                path.push(PathStep::At(k)),
                shifted(answers, k),
            ) {
                Ok(x) => Ok(done.push(x)),
                Err(e) => Err(e),
            },
        }
    }
}

pub open spec fn entries_resolution(
    entries: Seq<(Seq<char>, Json)>,
    path: Seq<PathStep>,
    answers: spec_fn(Seq<nat>) -> StoreLookup,
) -> Result<Seq<(Seq<char>, Json)>, (ErrorKind, Seq<char>)>
    decreases entries,
{
    if entries.len() == 0 {
        Ok(seq![])
    } else {
        let k = (entries.len() - 1) as nat;
        let key = entries[entries.len() - 1].0;
        match entries_resolution(entries.drop_last(), path, answers) {
            Err(e) => Err(e),
            Ok(done) => match resolution(
                entries[entries.len() - 1].1,
                path.push(PathStep::Key(key)),
                shifted(answers, k),
            ) {
                Ok(x) => Ok(done.push((key, x))),
                Err(e) => Err(e),
            },
        }
    }
}

/// Every secret reference that the walk of `resolution` reaches in `j` was
/// looked up in the credential store for its own service and user. The walk
/// reaches a reference when no reference before it failed.
pub open spec fn asked_along(
    j: Json,
    path: Seq<PathStep>,
    answers: spec_fn(Seq<nat>) -> StoreLookup,
) -> bool
    decreases j,
{
    match j {
        Json::Str(s) => is_secret_ref(s) ==> secret_asks_for(s, answers(seq![])),
        Json::Array(items) => items_asked(items, path, answers),
        Json::Object(entries) => entries_asked(entries, path, answers),
        _ => true,
    }
}

pub open spec fn items_asked(
    items: Seq<Json>,
    path: Seq<PathStep>,
    answers: spec_fn(Seq<nat>) -> StoreLookup,
) -> bool
    decreases items,
{
    items.len() > 0 ==> items_asked(items.drop_last(), path, answers) && (items_resolution(
        items.drop_last(),
        path,
        answers,
    ) is Ok ==> asked_along(
        items[items.len() - 1],
        path.push(PathStep::At((items.len() - 1) as nat)),
        shifted(answers, (items.len() - 1) as nat),
    ))
}

pub open spec fn entries_asked(
    entries: Seq<(Seq<char>, Json)>,
    path: Seq<PathStep>,
    answers: spec_fn(Seq<nat>) -> StoreLookup,
) -> bool
    decreases entries,
{
    entries.len() > 0 ==> entries_asked(entries.drop_last(), path, answers) && (entries_resolution(
        entries.drop_last(),
        path,
        answers,
    ) is Ok ==> asked_along(
        entries[entries.len() - 1].1,
        path.push(PathStep::Key(entries[entries.len() - 1].0)),
        shifted(answers, (entries.len() - 1) as nat),
    ))
}

proof fn lemma_items_asked_extends(
    items: Seq<Json>,
    k: int,
    path: Seq<PathStep>,
    answers: spec_fn(Seq<nat>) -> StoreLookup,
)
    requires
        0 <= k <= items.len(),
        items_resolution(items.subrange(0, k), path, answers) is Err,
        items_asked(items.subrange(0, k), path, answers),
    ensures
        items_asked(items, path, answers),
    decreases items.len() - k,
{
    if k == items.len() {
        assert(items.subrange(0, k) =~= items);
    } else {
        let shorter = items.drop_last();
        assert(shorter.subrange(0, k) =~= items.subrange(0, k));
        lemma_items_asked_extends(shorter, k, path, answers);
        lemma_items_failure_extends(shorter, k, path, answers);
    }
}

proof fn lemma_entries_asked_extends(
    entries: Seq<(Seq<char>, Json)>,
    k: int,
    path: Seq<PathStep>,
    answers: spec_fn(Seq<nat>) -> StoreLookup,
)
    requires
        0 <= k <= entries.len(),
        entries_resolution(entries.subrange(0, k), path, answers) is Err,
        entries_asked(entries.subrange(0, k), path, answers),
    ensures
        entries_asked(entries, path, answers),
    decreases entries.len() - k,
{
    if k == entries.len() {
        assert(entries.subrange(0, k) =~= entries);
    } else {
        let shorter = entries.drop_last();
        assert(shorter.subrange(0, k) =~= entries.subrange(0, k));
        lemma_entries_asked_extends(shorter, k, path, answers);
        lemma_entries_failure_extends(shorter, k, path, answers);
    }
}

proof fn lemma_items_resolution_agree(
    items: Seq<Json>,
    path: Seq<PathStep>,
    a1: spec_fn(Seq<nat>) -> StoreLookup,
    a2: spec_fn(Seq<nat>) -> StoreLookup,
)
    requires
        forall|k: nat| k < items.len() ==> #[trigger] shifted(a1, k) == shifted(a2, k),
    ensures
        items_resolution(items, path, a1) == items_resolution(items, path, a2),
        items_asked(items, path, a1) == items_asked(items, path, a2),
    decreases items.len(),
{
    if items.len() > 0 {
        let k = (items.len() - 1) as nat;
        assert(shifted(a1, k) == shifted(a2, k));
        lemma_items_resolution_agree(items.drop_last(), path, a1, a2);
    }
}

proof fn lemma_entries_resolution_agree(
    entries: Seq<(Seq<char>, Json)>,
    path: Seq<PathStep>,
    a1: spec_fn(Seq<nat>) -> StoreLookup,
    a2: spec_fn(Seq<nat>) -> StoreLookup,
)
    requires
        forall|k: nat| k < entries.len() ==> #[trigger] shifted(a1, k) == shifted(a2, k),
    ensures
        entries_resolution(entries, path, a1) == entries_resolution(entries, path, a2),
        entries_asked(entries, path, a1) == entries_asked(entries, path, a2),
    decreases entries.len(),
{
    if entries.len() > 0 {
        let k = (entries.len() - 1) as nat;
        assert(shifted(a1, k) == shifted(a2, k));
        lemma_entries_resolution_agree(entries.drop_last(), path, a1, a2);
    }
}

/// A failure among the first `k` items is the failure of all of them.
proof fn lemma_items_failure_extends(
    items: Seq<Json>,
    k: int,
    path: Seq<PathStep>,
    answers: spec_fn(Seq<nat>) -> StoreLookup,
)
    requires
        0 <= k <= items.len(),
        items_resolution(items.subrange(0, k), path, answers) is Err,
    ensures
        items_resolution(items, path, answers) == items_resolution(items.subrange(0, k), path, answers),
    decreases items.len() - k,
{
    if k == items.len() {
        assert(items.subrange(0, k) =~= items);
    } else {
        let shorter = items.drop_last();
        assert(shorter.subrange(0, k) =~= items.subrange(0, k));
        lemma_items_failure_extends(shorter, k, path, answers);
    }
}

proof fn lemma_entries_failure_extends(
    entries: Seq<(Seq<char>, Json)>,
    k: int,
    path: Seq<PathStep>,
    answers: spec_fn(Seq<nat>) -> StoreLookup,
)
    requires
        0 <= k <= entries.len(),
        entries_resolution(entries.subrange(0, k), path, answers) is Err,
    ensures
        entries_resolution(entries, path, answers) == entries_resolution(
            entries.subrange(0, k),
            path,
            answers,
        ),
    decreases entries.len() - k,
{
    if k == entries.len() {
        assert(entries.subrange(0, k) =~= entries);
    } else {
        let shorter = entries.drop_last();
        assert(shorter.subrange(0, k) =~= entries.subrange(0, k));
        lemma_entries_failure_extends(shorter, k, path, answers);
    }
}

/// The answers `answers`, with those below the place `k` replaced by `child`.
pub open spec fn with_child_answers(
    answers: spec_fn(Seq<nat>) -> StoreLookup,
    k: nat,
    child: spec_fn(Seq<nat>) -> StoreLookup,
) -> spec_fn(Seq<nat>) -> StoreLookup {
    |place: Seq<nat>|
        if place.len() > 0 && place[0] == k {
            child(place.drop_first())
        } else {
            answers(place)
        }
}

proof fn lemma_with_child_answers(
    answers: spec_fn(Seq<nat>) -> StoreLookup,
    k: nat,
    child: spec_fn(Seq<nat>) -> StoreLookup,
)
    ensures
        shifted(with_child_answers(answers, k, child), k) == child,
        forall|j: nat|
            j != k ==> #[trigger] shifted(with_child_answers(answers, k, child), j) == shifted(
                answers,
                j,
            ),
{
    let combined = with_child_answers(answers, k, child);
    assert forall|place: Seq<nat>| #[trigger] shifted(combined, k)(place) == child(place) by {
        assert((seq![k] + place)[0] == k);
        assert((seq![k] + place).drop_first() =~= place);
    }
    assert(shifted(combined, k) =~= child);
    assert forall|j: nat| j != k implies #[trigger] shifted(combined, j) == shifted(answers, j) by {
        assert forall|place: Seq<nat>| #[trigger] shifted(combined, j)(place) == shifted(
            answers,
            j,
        )(place) by {
            assert((seq![j] + place)[0] == j);
        }
        assert(shifted(combined, j) =~= shifted(answers, j));
    }
}

/// Resolves every secret reference inside `value`, whose place in the whole
/// document is `path`. Arrays are walked by index and objects in entry
/// order; the first failure ends the walk. Returns the outcome and the store
/// lookups that were made, by the place of each reference (relative to
/// `value`): each reference that the walk reaches was looked up under its
/// own service and user (`asked_along`), and the outcome is what
/// `resolution` makes of those lookups' answers.
#[verifier::loop_isolation(false)]
#[verifier::spinoff_prover]
pub fn resolve_value(value: JsonValue, path: &mut Vec<PathSegment>) -> (r: (
    Result<JsonValue, ConfigError>,
    Ghost<spec_fn(Seq<nat>) -> StoreLookup>,
))
    ensures
        final(path)@ == old(path)@,
        asked_along(value.model(), steps_of(old(path)@), r.1@),
        json_outcome(r.0) == resolution(value.model(), steps_of(old(path)@), r.1@),
    decreases value,
{
    let ghost path0 = path@;
    let ghost p0 = steps_of(path0);
    let ghost j0 = value.model();
    let ghost nothing = |place: Seq<nat>| arbitrary::<StoreLookup>();
    match value {
        JsonValue::Array(items0) => {
            let ghost a = items_model(items0@);
            let ghost n = items0@.len();
            let mut items = items0;
            let mut out: Vec<JsonValue> = Vec::new();
            let mut index: usize = 0;
            let ghost mut answers = nothing;
            proof {
                lemma_items_model(items0@);
                assert(items0@.subrange(0, n as int) =~= items0@);
                lemma_items_model(out@);
                assert(a.subrange(0, 0) =~= items_model(out@));
            }
            while items.len() > 0
                invariant
                    n == items0@.len(),
                    a == items_model(items0@),
                    j0 == Json::Array(a),
                    a.len() == n,
                    forall|j: int| 0 <= j < n ==> #[trigger] a[j] == items0@[j].model(),
                    index <= n,
                    items@ == items0@.subrange(index as int, n as int),
                    out@.len() == index,
                    items_resolution(a.subrange(0, index as int), p0, answers) == Ok::<
                        Seq<Json>,
                        (ErrorKind, Seq<char>),
                    >(items_model(out@)),
                    items_asked(a.subrange(0, index as int), p0, answers),
                    path@ == path0,
                    p0 == steps_of(path0),
                decreases items@.len(),
            {
                let ghost out_before = out@;
                let item = items.remove(0);
                proof {
                    assert(items@ =~= items0@.subrange(index + 1, n as int));
                    assert(item == items0@[index as int]);
                    assert(decreases_to!(items0@ => items0@[index as int]));
                    assert(decreases_to!(items0 => items0@));
                }
                path.push(PathSegment::Index(index));
                let ghost child_path = p0.push(PathStep::At(index as nat));
                proof {
                    assert(steps_of(path@) =~= child_path);
                }
                let (res, child_answers) = resolve_value(item, path);
                let _ = path.pop();
                let ghost child = child_answers@;
                let ghost before = answers;
                proof {
                    answers = with_child_answers(before, index as nat, child);
                    lemma_with_child_answers(before, index as nat, child);
                    lemma_items_resolution_agree(a.subrange(0, index as int), p0, answers, before);
                    let s = a.subrange(0, index + 1);
                    assert(s.drop_last() =~= a.subrange(0, index as int));
                    assert(s[index as int] == a[index as int]);
                }
                match res {
                    Ok(v) => {
                        out.push(v);
                        proof {
                            lemma_items_model(out_before);
                            lemma_items_model(out@);
                            assert(items_model(out@) =~= items_model(out_before).push(v.model()));
                        }
                    },
                    Err(e) => {
                        proof {
                            lemma_items_failure_extends(a, index + 1, p0, answers);
                            lemma_items_asked_extends(a, index + 1, p0, answers);
                            assert(asked_along(j0, p0, answers));
                            assert(json_outcome(Err(e)) == resolution(j0, p0, answers));
                        }
                        return (Err(e), Ghost(answers));
                    },
                }
                index = out.len();
            }
            proof {
                assert(a.subrange(0, n as int) =~= a);
                assert(json_outcome(Ok(JsonValue::Array(out))) == resolution(j0, p0, answers));
                assert(asked_along(j0, p0, answers));
            }
            (Ok(JsonValue::Array(out)), Ghost(answers))
        },
        JsonValue::Object(entries0) => {
            let ghost a = entries_model(entries0@);
            let ghost n = entries0@.len();
            let mut entries = entries0;
            let mut out: Vec<(String, JsonValue)> = Vec::new();
            let mut index: usize = 0;
            let ghost mut answers = nothing;
            proof {
                lemma_entries_model(entries0@);
                assert(entries0@.subrange(0, n as int) =~= entries0@);
                lemma_entries_model(out@);
                assert(a.subrange(0, 0) =~= entries_model(out@));
            }
            while entries.len() > 0
                invariant
                    n == entries0@.len(),
                    a == entries_model(entries0@),
                    j0 == Json::Object(a),
                    a.len() == n,
                    forall|j: int|
                        0 <= j < n ==> #[trigger] a[j] == (entries0@[j].0@, entries0@[j].1.model()),
                    index <= n,
                    entries@ == entries0@.subrange(index as int, n as int),
                    out@.len() == index,
                    entries_resolution(a.subrange(0, index as int), p0, answers) == Ok::<
                        Seq<(Seq<char>, Json)>,
                        (ErrorKind, Seq<char>),
                    >(entries_model(out@)),
                    entries_asked(a.subrange(0, index as int), p0, answers),
                    path@ == path0,
                    p0 == steps_of(path0),
                decreases entries@.len(),
            {
                let ghost out_before = out@;
                let (key, item) = entries.remove(0);
                proof {
                    assert(entries@ =~= entries0@.subrange(index + 1, n as int));
                    assert((key, item) == entries0@[index as int]);
                    assert(decreases_to!(entries0@ => entries0@[index as int]));
                    assert(decreases_to!(entries0@[index as int] => entries0@[index as int].1));
                    assert(decreases_to!(entries0 => entries0@));
                }
                path.push(PathSegment::Field(key.clone()));
                let ghost child_path = p0.push(PathStep::Key(key@));
                proof {
                    assert(steps_of(path@) =~= child_path);
                }
                let (res, child_answers) = resolve_value(item, path);
                let _ = path.pop();
                let ghost child = child_answers@;
                let ghost before = answers;
                proof {
                    answers = with_child_answers(before, index as nat, child);
                    lemma_with_child_answers(before, index as nat, child);
                    lemma_entries_resolution_agree(a.subrange(0, index as int), p0, answers, before);
                    let s = a.subrange(0, index + 1);
                    assert(s.drop_last() =~= a.subrange(0, index as int));
                    assert(s[index as int] == a[index as int]);
                }
                match res {
                    Ok(v) => {
                        out.push((key, v));
                        proof {
                            lemma_entries_model(out_before);
                            lemma_entries_model(out@);
                            assert(entries_model(out@) =~= entries_model(out_before).push(
                                (key@, v.model()),
                            ));
                        }
                    },
                    Err(e) => {
                        proof {
                            lemma_entries_failure_extends(a, index + 1, p0, answers);
                            lemma_entries_asked_extends(a, index + 1, p0, answers);
                            assert(asked_along(j0, p0, answers));
                            assert(json_outcome(Err(e)) == resolution(j0, p0, answers));
                        }
                        return (Err(e), Ghost(answers));
                    },
                }
                index = out.len();
            }
            proof {
                assert(a.subrange(0, n as int) =~= a);
                assert(json_outcome(Ok(JsonValue::Object(out))) == resolution(j0, p0, answers));
                assert(asked_along(j0, p0, answers));
            }
            (Ok(JsonValue::Object(out)), Ghost(answers))
        },
        JsonValue::Str(s) => {
            let chars = chars_of(s.as_str());
            let scheme = chars_of("secret://");
            if has_prefix(&chars, &scheme) {
                let (res, asked) = resolve_secret_ref(s.as_str(), path);
                let ghost lookup = match asked@ {
                    Some(l) => l,
                    None => arbitrary::<StoreLookup>(),
                };
                proof {
                    lemma_secret_looked_up(s@, p0, text_outcome(res), asked@, arbitrary::<StoreLookup>());
                }
                let ghost answers = |place: Seq<nat>| lookup;
                match res {
                    Ok(v) => {
                        proof {
                            assert(json_outcome(Ok(JsonValue::Str(v))) == resolution(j0, p0, answers));
                            assert(asked_along(j0, p0, answers));
                        }
                        (Ok(JsonValue::Str(v)), Ghost(answers))
                    },
                    Err(e) => {
                        proof {
                            assert(json_outcome(Err(e)) == resolution(j0, p0, answers));
                            assert(asked_along(j0, p0, answers));
                        }
                        (Err(e), Ghost(answers))
                    },
                }
            } else {
                proof {
                    assert(json_outcome(Ok(JsonValue::Str(s))) == resolution(j0, p0, nothing));
                }
                (Ok(JsonValue::Str(s)), Ghost(nothing))
            }
        },
        other => {
            proof {
                assert(json_outcome(Ok(other)) == resolution(j0, p0, nothing));
            }
            (Ok(other), Ghost(nothing))
        },
    }
}

} // verus!

verus! {

/// Resolves every secret reference in the document `root`, and returns the
/// store lookups made (see `resolve_value`).
pub fn resolve_secret_refs(root: JsonValue) -> (r: (Result<JsonValue, ConfigError>, Ghost<spec_fn(Seq<nat>) -> StoreLookup>))
    ensures
        asked_along(root.model(), seq![], r.1@),
        json_outcome(r.0) == resolution(root.model(), seq![], r.1@),
{
    let mut path: Vec<PathSegment> = Vec::new();
    proof {
        assert(steps_of(path@) =~= seq![]);
    }
    resolve_value(root, &mut path)
}

} // verus!

verus! {

/// Some string value of `j` is a secret reference that no answer of the
/// credential store can resolve: it is malformed, names another provider, or
/// lacks a non-empty `service` or `user`.
pub open spec fn has_unresolvable_refs(j: Json) -> bool
    decreases j,
{
    match j {
        Json::Str(s) => is_secret_ref(s) && !resolvable_ref(s),
        Json::Array(items) => items_have_unresolvable_refs(items),
        Json::Object(entries) => entries_have_unresolvable_refs(entries),
        _ => false,
    }
}

pub open spec fn items_have_unresolvable_refs(items: Seq<Json>) -> bool
    decreases items,
{
    items.len() > 0 && (items_have_unresolvable_refs(items.drop_last()) || has_unresolvable_refs(
        items[items.len() - 1],
    ))
}

pub open spec fn entries_have_unresolvable_refs(entries: Seq<(Seq<char>, Json)>) -> bool
    decreases entries,
{
    entries.len() > 0 && (entries_have_unresolvable_refs(entries.drop_last())
        || has_unresolvable_refs(entries[entries.len() - 1].1))
}

/// Law: resolution changes nothing but secret references. When it succeeds,
/// each reference was a well-formed keyring reference and became a string,
/// and every other value and every key is as it was; it fails only on a
/// document that holds a reference.
pub proof fn law_resolution_changes_only_references(
    j: Json,
    path: Seq<PathStep>,
    answers: spec_fn(Seq<nat>) -> StoreLookup,
)
    ensures
        resolution(j, path, answers) matches Ok(after) ==> resolved_from(j, after),
        resolution(j, path, answers) is Err ==> has_secret_refs(j),
    decreases j,
{
    match j {
        Json::Array(items) => {
            lemma_items_change_only_references(items, path, answers);
        },
        Json::Object(entries) => {
            lemma_entries_change_only_references(entries, path, answers);
        },
        _ => {},
    }
}

proof fn lemma_items_change_only_references(
    items: Seq<Json>,
    path: Seq<PathStep>,
    answers: spec_fn(Seq<nat>) -> StoreLookup,
)
    ensures
        items_resolution(items, path, answers) matches Ok(after) ==> items_resolved(items, after),
        items_resolution(items, path, answers) is Err ==> items_have_secret_refs(items),
    decreases items,
{
    if items.len() > 0 {
        let k = (items.len() - 1) as nat;
        lemma_items_change_only_references(items.drop_last(), path, answers);
        law_resolution_changes_only_references(
            items[items.len() - 1],
            path.push(PathStep::At(k)),
            shifted(answers, k),
        );
        match items_resolution(items.drop_last(), path, answers) {
            Ok(done) => match resolution(
                items[items.len() - 1],
                path.push(PathStep::At(k)),
                shifted(answers, k),
            ) {
                Ok(x) => {
                    assert(done.push(x).drop_last() =~= done);
                },
                Err(_) => {},
            },
            Err(_) => {},
        }
    }
}

proof fn lemma_entries_change_only_references(
    entries: Seq<(Seq<char>, Json)>,
    path: Seq<PathStep>,
    answers: spec_fn(Seq<nat>) -> StoreLookup,
)
    ensures
        entries_resolution(entries, path, answers) matches Ok(after) ==> entries_resolved(
            entries,
            after,
        ),
        entries_resolution(entries, path, answers) is Err ==> entries_have_secret_refs(entries),
    decreases entries,
{
    if entries.len() > 0 {
        let k = (entries.len() - 1) as nat;
        let key = entries[entries.len() - 1].0;
        lemma_entries_change_only_references(entries.drop_last(), path, answers);
        law_resolution_changes_only_references(
            entries[entries.len() - 1].1,
            path.push(PathStep::Key(key)),
            shifted(answers, k),
        );
        match entries_resolution(entries.drop_last(), path, answers) {
            Ok(done) => match resolution(
                entries[entries.len() - 1].1,
                path.push(PathStep::Key(key)),
                shifted(answers, k),
            ) {
                Ok(x) => {
                    assert(done.push((key, x)).drop_last() =~= done);
                },
                Err(_) => {},
            },
            Err(_) => {},
        }
    }
}

/// `after` is `before` with each secret reference replaced by the secret
/// that the credential store found for it: the answer at the reference's
/// place is `Found(secret)` and `after` holds exactly that secret there;
/// every other value and every key is as it was.
pub open spec fn filled_from(
    before: Json,
    after: Json,
    answers: spec_fn(Seq<nat>) -> StoreLookup,
) -> bool
    decreases before,
{
    match before {
        Json::Str(s) => if is_secret_ref(s) {
            answers(seq![]).reply() matches KeyringAnswer::Found(secret) && after == Json::Str(
                secret@,
            )
        } else {
            after == before
        },
        Json::Array(a) => match after {
            Json::Array(b) => items_filled(a, b, answers),
            _ => false,
        },
        Json::Object(e) => match after {
            Json::Object(f) => entries_filled(e, f, answers),
            _ => false,
        },
        _ => after == before,
    }
}

pub open spec fn items_filled(
    a: Seq<Json>,
    b: Seq<Json>,
    answers: spec_fn(Seq<nat>) -> StoreLookup,
) -> bool
    decreases a,
{
    a.len() == b.len() && (a.len() > 0 ==> items_filled(a.drop_last(), b.drop_last(), answers)
        && filled_from(a[a.len() - 1], b[b.len() - 1], shifted(answers, (a.len() - 1) as nat)))
}

pub open spec fn entries_filled(
    e: Seq<(Seq<char>, Json)>,
    f: Seq<(Seq<char>, Json)>,
    answers: spec_fn(Seq<nat>) -> StoreLookup,
) -> bool
    decreases e,
{
    e.len() == f.len() && (e.len() > 0 ==> entries_filled(e.drop_last(), f.drop_last(), answers)
        && e[e.len() - 1].0 == f[f.len() - 1].0 && filled_from(
        e[e.len() - 1].1,
        f[f.len() - 1].1,
        shifted(answers, (e.len() - 1) as nat),
    ))
}

/// Law: a successful resolution puts, in the place of each secret reference,
/// exactly the secret that the credential store found for it, and changes
/// nothing else.
pub proof fn law_resolution_fills_found_secrets(
    j: Json,
    path: Seq<PathStep>,
    answers: spec_fn(Seq<nat>) -> StoreLookup,
)
    ensures
        resolution(j, path, answers) matches Ok(after) ==> filled_from(j, after, answers),
    decreases j,
{
    match j {
        Json::Array(items) => {
            lemma_items_filled(items, path, answers);
        },
        Json::Object(entries) => {
            lemma_entries_filled(entries, path, answers);
        },
        _ => {},
    }
}

proof fn lemma_items_filled(
    items: Seq<Json>,
    path: Seq<PathStep>,
    answers: spec_fn(Seq<nat>) -> StoreLookup,
)
    ensures
        items_resolution(items, path, answers) matches Ok(after) ==> items_filled(items, after, answers),
    decreases items,
{
    if items.len() > 0 {
        let k = (items.len() - 1) as nat;
        lemma_items_filled(items.drop_last(), path, answers);
        law_resolution_fills_found_secrets(items[items.len() - 1], path.push(PathStep::At(k)), shifted(answers, k));
        if let Ok(done) = items_resolution(items.drop_last(), path, answers) {
            if let Ok(x) = resolution(items[items.len() - 1], path.push(PathStep::At(k)), shifted(answers, k)) {
                assert(done.push(x).drop_last() =~= done);
            }
        }
    }
}

proof fn lemma_entries_filled(
    entries: Seq<(Seq<char>, Json)>,
    path: Seq<PathStep>,
    answers: spec_fn(Seq<nat>) -> StoreLookup,
)
    ensures
        entries_resolution(entries, path, answers) matches Ok(after) ==> entries_filled(
            entries,
            after,
            answers,
        ),
    decreases entries,
{
    if entries.len() > 0 {
        let k = (entries.len() - 1) as nat;
        let key = entries[entries.len() - 1].0;
        lemma_entries_filled(entries.drop_last(), path, answers);
        law_resolution_fills_found_secrets(
            entries[entries.len() - 1].1,
            path.push(PathStep::Key(key)),
            shifted(answers, k),
        );
        if let Ok(done) = entries_resolution(entries.drop_last(), path, answers) {
            if let Ok(x) = resolution(entries[entries.len() - 1].1, path.push(PathStep::Key(key)), shifted(answers, k)) {
                assert(done.push((key, x)).drop_last() =~= done);
            }
        }
    }
}

/// Law: a well-formed keyring reference (with a service and a user) whose
/// lookup finds a secret resolves to exactly that secret.
pub proof fn law_found_secret_replaces_reference(
    s: Seq<char>,
    path: Seq<PathStep>,
    answers: spec_fn(Seq<nat>) -> StoreLookup,
    secret: String,
)
    requires
        resolvable_ref(s),
        answers(seq![]).reply() == KeyringAnswer::Found(secret),
    ensures
        resolution(Json::Str(s), path, answers) == Ok::<Json, (ErrorKind, Seq<char>)>(
            Json::Str(secret@),
        ),
{
}

/// Law: a document without secret references comes back from resolution
/// exactly as it went in, whatever the credential store would answer.
pub proof fn law_no_secret_refs_unchanged(
    j: Json,
    path: Seq<PathStep>,
    answers: spec_fn(Seq<nat>) -> StoreLookup,
)
    requires
        !has_secret_refs(j),
    ensures
        resolution(j, path, answers) == Ok::<Json, (ErrorKind, Seq<char>)>(j),
{
    law_resolution_changes_only_references(j, path, answers);
    if let Ok(after) = resolution(j, path, answers) {
        lemma_resolved_without_refs(j, after);
    }
}

/// Law: resolution is strict. A document that holds a reference that no
/// answer can resolve (malformed, of another provider, or without a
/// non-empty `service` and `user`) fails, whatever the store would answer.
pub proof fn law_unresolvable_reference_fails(
    j: Json,
    path: Seq<PathStep>,
    answers: spec_fn(Seq<nat>) -> StoreLookup,
)
    requires
        has_unresolvable_refs(j),
    ensures
        resolution(j, path, answers) is Err,
{
    law_resolution_changes_only_references(j, path, answers);
    if let Ok(after) = resolution(j, path, answers) {
        lemma_resolved_refs_resolvable(j, after);
    }
}

proof fn lemma_items_resolved_pointwise(a: Seq<Json>, b: Seq<Json>)
    requires
        items_resolved(a, b),
    ensures
        a.len() == b.len(),
        forall|i: int| 0 <= i < a.len() ==> resolved_from(#[trigger] a[i], b[i]),
    decreases a.len(),
{
    if a.len() > 0 {
        lemma_items_resolved_pointwise(a.drop_last(), b.drop_last());
        assert forall|i: int| 0 <= i < a.len() implies resolved_from(#[trigger] a[i], b[i]) by {
            if i < a.len() - 1 {
                assert(a.drop_last()[i] == a[i]);
                assert(b.drop_last()[i] == b[i]);
            }
        }
    }
}

proof fn lemma_entries_resolved_pointwise(e: Seq<(Seq<char>, Json)>, f: Seq<(Seq<char>, Json)>)
    requires
        entries_resolved(e, f),
    ensures
        e.len() == f.len(),
        forall|i: int| 0 <= i < e.len() ==> #[trigger] f[i].0 == e[i].0 && resolved_from(e[i].1, f[i].1),
    decreases e.len(),
{
    if e.len() > 0 {
        lemma_entries_resolved_pointwise(e.drop_last(), f.drop_last());
        assert forall|i: int| 0 <= i < e.len() implies #[trigger] f[i].0 == e[i].0 && resolved_from(
            e[i].1,
            f[i].1,
        ) by {
            if i < e.len() - 1 {
                assert(e.drop_last()[i] == e[i]);
                assert(f.drop_last()[i] == f[i]);
            }
        }
    }
}

proof fn lemma_resolved_well_ordered(before: Json, after: Json)
    requires
        resolved_from(before, after),
        well_ordered(before),
    ensures
        well_ordered(after),
    decreases before,
{
    match before {
        Json::Array(a) => match after {
            Json::Array(b) => {
                lemma_items_resolved_pointwise(a, b);
                lemma_items_well_ordered(a);
                lemma_items_well_ordered(b);
                assert forall|i: int| 0 <= i < b.len() implies well_ordered(#[trigger] b[i]) by {
                    lemma_resolved_well_ordered(a[i], b[i]);
                }
            },
            _ => {},
        },
        Json::Object(e) => match after {
            Json::Object(f) => {
                lemma_entries_resolved_pointwise(e, f);
                lemma_entries_well_ordered(e);
                lemma_entries_well_ordered(f);
                assert forall|i: int, j: int| 0 <= i < j < f.len() implies key_less(
                    #[trigger] f[i].0,
                    #[trigger] f[j].0,
                ) by {
                    assert(key_less(e[i].0, e[j].0));
                }
                assert forall|i: int| 0 <= i < f.len() implies well_ordered(#[trigger] f[i].1) by {
                    assert(f[i].0 == e[i].0);
                    lemma_resolved_well_ordered(e[i].1, f[i].1);
                }
            },
            _ => {},
        },
        _ => {},
    }
}

/// Law: resolution keeps a document well ordered: when every object of the
/// document has its keys in order, so does every object of what it resolves to.
pub proof fn law_resolution_well_ordered(
    j: Json,
    path: Seq<PathStep>,
    answers: spec_fn(Seq<nat>) -> StoreLookup,
)
    requires
        well_ordered(j),
    ensures
        resolution(j, path, answers) matches Ok(after) ==> well_ordered(after),
{
    law_resolution_changes_only_references(j, path, answers);
    if let Ok(after) = resolution(j, path, answers) {
        lemma_resolved_well_ordered(j, after);
    }
}

proof fn lemma_resolved_refs_resolvable(before: Json, after: Json)
    requires
        resolved_from(before, after),
    ensures
        !has_unresolvable_refs(before),
    decreases before,
{
    match before {
        Json::Array(a) => match after {
            Json::Array(b) => {
                lemma_items_resolved_refs_resolvable(a, b);
            },
            _ => {},
        },
        Json::Object(e) => match after {
            Json::Object(f) => {
                lemma_entries_resolved_refs_resolvable(e, f);
            },
            _ => {},
        },
        _ => {},
    }
}

proof fn lemma_items_resolved_refs_resolvable(a: Seq<Json>, b: Seq<Json>)
    requires
        items_resolved(a, b),
    ensures
        !items_have_unresolvable_refs(a),
    decreases a,
{
    if a.len() > 0 {
        lemma_items_resolved_refs_resolvable(a.drop_last(), b.drop_last());
        lemma_resolved_refs_resolvable(a[a.len() - 1], b[b.len() - 1]);
    }
}

proof fn lemma_entries_resolved_refs_resolvable(e: Seq<(Seq<char>, Json)>, f: Seq<(Seq<char>, Json)>)
    requires
        entries_resolved(e, f),
    ensures
        !entries_have_unresolvable_refs(e),
    decreases e,
{
    if e.len() > 0 {
        lemma_entries_resolved_refs_resolvable(e.drop_last(), f.drop_last());
        lemma_resolved_refs_resolvable(e[e.len() - 1].1, f[f.len() - 1].1);
    }
}

proof fn lemma_resolved_without_refs(before: Json, after: Json)
    requires
        resolved_from(before, after),
        !has_secret_refs(before),
    ensures
        after == before,
    decreases before,
{
    match before {
        Json::Array(a) => match after {
            Json::Array(b) => {
                lemma_items_unchanged(a, b);
            },
            _ => {},
        },
        Json::Object(e) => match after {
            Json::Object(f) => {
                lemma_entries_unchanged(e, f);
            },
            _ => {},
        },
        _ => {},
    }
}

proof fn lemma_items_unchanged(a: Seq<Json>, b: Seq<Json>)
    requires
        items_resolved(a, b),
        !items_have_secret_refs(a),
    ensures
        a == b,
    decreases a,
{
    if a.len() > 0 {
        lemma_items_unchanged(a.drop_last(), b.drop_last());
        lemma_resolved_without_refs(a[a.len() - 1], b[b.len() - 1]);
        assert(a =~= a.drop_last().push(a[a.len() - 1]));
        assert(b =~= b.drop_last().push(b[b.len() - 1]));
    } else {
        assert(a =~= b);
    }
}

proof fn lemma_entries_unchanged(e: Seq<(Seq<char>, Json)>, f: Seq<(Seq<char>, Json)>)
    requires
        entries_resolved(e, f),
        !entries_have_secret_refs(e),
    ensures
        e == f,
    decreases e,
{
    if e.len() > 0 {
        lemma_entries_unchanged(e.drop_last(), f.drop_last());
        lemma_resolved_without_refs(e[e.len() - 1].1, f[f.len() - 1].1);
        assert(e =~= e.drop_last().push(e[e.len() - 1]));
        assert(f =~= f.drop_last().push(f[f.len() - 1]));
    } else {
        assert(e =~= f);
    }
}

} // verus!

verus! {

proof fn lemma_plain_bytes_decode(b: Seq<u8>)
    requires
        forall|i: int| 0 <= i < b.len() ==> #[trigger] b[i] != 0x25 && b[i] != 0x2b,
    ensures
        percent_decoded(b) == Some(b),
    decreases b.len(),
{
    if b.len() > 0 {
        let rest = b.subrange(1, b.len() as int);
        lemma_plain_bytes_decode(rest);
        assert(b =~= seq![b[0]] + rest);
    }
}

proof fn lemma_scalar_has_no_markers(c: char)
    requires
        c != '%',
        c != '+',
    ensures
        forall|i: int|
            0 <= i < encode_scalar(c as u32).len() ==> #[trigger] encode_scalar(c as u32)[i] != 0x25
                && encode_scalar(c as u32)[i] != 0x2b,
{
    let v = c as u32;
    char_is_scalar(c);
    if has_width_1_encoding(v) {
        assert(v != 0x25 && v != 0x2b);
        assert((v & 0x7F) as u8 == v) by (bit_vector)
            requires
                v <= 0x7f,
        ;
    } else {
        assert(forall|x: u32| #![auto] (0xC0u8 | ((x >> 6) & 0x1F) as u8) >= 0x80) by (bit_vector);
        assert(forall|x: u32| #![auto] (0xE0u8 | ((x >> 12) & 0x0F) as u8) >= 0x80) by (bit_vector);
        assert(forall|x: u32| #![auto] (0xF0u8 | ((x >> 18) & 0x7) as u8) >= 0x80) by (bit_vector);
        assert(forall|x: u32| #![auto] (0x80u8 | (x & 0x3F) as u8) >= 0x80) by (bit_vector);
        assert(forall|x: u32| #![auto] (0x80u8 | ((x >> 6) & 0x3F) as u8) >= 0x80) by (bit_vector);
        assert(forall|x: u32| #![auto] (0x80u8 | ((x >> 12) & 0x3F) as u8) >= 0x80) by (bit_vector);
    }
}

proof fn lemma_text_has_no_markers(s: Seq<char>)
    requires
        forall|i: int| 0 <= i < s.len() ==> #[trigger] s[i] != '%' && s[i] != '+',
    ensures
        forall|j: int|
            0 <= j < encode_utf8(s).len() ==> #[trigger] encode_utf8(s)[j] != 0x25 && encode_utf8(
                s,
            )[j] != 0x2b,
    decreases s.len(),
{
    if s.len() > 0 {
        let rest = s.drop_first();
        lemma_text_has_no_markers(rest);
        lemma_scalar_has_no_markers(s[0]);
        let head = encode_scalar(s[0] as u32);
        assert(encode_utf8(s) == head + encode_utf8(rest));
        assert forall|j: int| 0 <= j < encode_utf8(s).len() implies #[trigger] encode_utf8(s)[j]
            != 0x25 && encode_utf8(s)[j] != 0x2b by {
            if j >= head.len() {
                assert(encode_utf8(s)[j] == encode_utf8(rest)[j - head.len()]);
            } else {
                assert(encode_utf8(s)[j] == head[j]);
            }
        }
    }
}

/// Law: text without `%` and `+` is its own percent-decoding.
pub proof fn law_plain_text_decodes_to_itself(raw: Seq<char>)
    requires
        forall|i: int| 0 <= i < raw.len() ==> #[trigger] raw[i] != '%' && raw[i] != '+',
    ensures
        percent_decoded_text(raw) == Ok::<Seq<char>, Seq<char>>(raw),
{
    lemma_text_has_no_markers(raw);
    lemma_plain_bytes_decode(encode_utf8(raw));
    encode_utf8_valid_utf8(raw);
    encode_utf8_decode_utf8(raw);
}

/// The ASCII hexadecimal digit for `d` (below sixteen), in upper or lower case.
pub open spec fn hex_digit(d: nat, upper: bool) -> u8 {
    if d < 10 {
        (0x30 + d) as u8
    } else if upper {
        (0x37 + d) as u8
    } else {
        (0x57 + d) as u8
    }
}

/// Every byte of `b` written as `%` and two hexadecimal digits.
pub open spec fn percent_encoding(b: Seq<u8>, upper: bool) -> Seq<u8>
    decreases b.len(),
{
    if b.len() == 0 {
        seq![]
    } else {
        seq![0x25u8, hex_digit((b[0] / 16) as nat, upper), hex_digit((b[0] % 16) as nat, upper)]
            + percent_encoding(b.drop_first(), upper)
    }
}

/// The text whose characters are the ASCII bytes `b`.
pub open spec fn ascii_text(b: Seq<u8>) -> Seq<char> {
    b.map_values(|x: u8| x as char)
}

/// The text `s` with every byte of its UTF-8 encoding percent-encoded.
pub open spec fn percent_encoded(s: Seq<char>, upper: bool) -> Seq<char> {
    ascii_text(percent_encoding(encode_utf8(s), upper))
}

proof fn lemma_hex_digit(d: nat, upper: bool)
    requires
        d < 16,
    ensures
        hex_nibble(hex_digit(d, upper)) == Some(d as u8),
        hex_digit(d, upper) < 0x80,
{
}

proof fn lemma_percent_encoding_decodes(b: Seq<u8>, upper: bool)
    ensures
        percent_decoded(percent_encoding(b, upper)) == Some(b),
        forall|i: int| 0 <= i < percent_encoding(b, upper).len() ==> #[trigger] percent_encoding(
            b,
            upper,
        )[i] < 0x80,
    decreases b.len(),
{
    if b.len() > 0 {
        let v = b[0];
        let rest = b.drop_first();
        lemma_percent_encoding_decodes(rest, upper);
        lemma_hex_digit((v / 16) as nat, upper);
        lemma_hex_digit((v % 16) as nat, upper);
        assert(((v / 16) * 16 + v % 16) as u8 == v) by (nonlinear_arith);
        let e = percent_encoding(b, upper);
        let tail = percent_encoding(rest, upper);
        assert(e.subrange(3, e.len() as int) =~= tail);
        assert(b =~= seq![v] + rest);
        assert forall|i: int| 0 <= i < e.len() implies #[trigger] e[i] < 0x80 by {
            if i >= 3 {
                assert(e[i] == tail[i - 3]);
            }
        }
    }
}

proof fn lemma_ascii_encodes_to_itself(b: Seq<u8>)
    requires
        forall|i: int| 0 <= i < b.len() ==> #[trigger] b[i] < 0x80,
    ensures
        encode_utf8(ascii_text(b)) == b,
    decreases b.len(),
{
    if b.len() > 0 {
        let t = ascii_text(b);
        let v = b[0];
        assert(t.drop_first() =~= ascii_text(b.drop_first()));
        lemma_ascii_encodes_to_itself(b.drop_first());
        let c = t[0] as u32;
        assert(c == v as u32);
        assert((c & 0x7F) as u8 == v) by (bit_vector)
            requires
                c == v as u32,
                v < 0x80,
        ;
        assert(b =~= seq![v] + b.drop_first());
    }
}

/// Law: percent-encoding every byte of a text, in upper or lower case
/// hexadecimal digits, and decoding the result gives the text back.
pub proof fn law_percent_encoding_round_trip(s: Seq<char>, upper: bool)
    ensures
        percent_decoded_text(percent_encoded(s, upper)) == Ok::<Seq<char>, Seq<char>>(s),
{
    let e = percent_encoding(encode_utf8(s), upper);
    lemma_percent_encoding_decodes(encode_utf8(s), upper);
    lemma_ascii_encodes_to_itself(e);
    encode_utf8_valid_utf8(s);
    encode_utf8_decode_utf8(s);
}

} // verus!
