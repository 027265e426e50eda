use vstd::prelude::*;
use crate::error::{ConfigError, ErrorKind};
use crate::text::{chars_of, concat, decimal, push_char, push_decimal, split_at_char, split_on_char, string_views, substring};

verus! {

/// The last segment of `segs` that names something: empty and `.`
/// segments name nothing.
pub open spec fn last_named_segment(segs: Seq<Seq<char>>) -> Option<Seq<char>>
    decreases segs.len(),
{
    if segs.len() == 0 {
        None
    } else {
        let last = segs[segs.len() - 1];
        if last.len() == 0 || last == seq!['.'] {
            last_named_segment(segs.drop_last())
        } else {
            Some(last)
        }
    }
}

/// The final component of the path `p`, unless that is `..` or there is none.
pub open spec fn path_file_name(p: Seq<char>) -> Option<Seq<char>> {
    match last_named_segment(split_at_char(p, '/')) {
        Some(name) => if name == seq!['.', '.'] {
            None
        } else {
            Some(name)
        },
        None => None,
    }
}

/// The position of the last `c` in `s`.
pub open spec fn last_index_of(s: Seq<char>, c: char) -> Option<int>
    decreases s.len(),
{
    if s.len() == 0 {
        None
    } else if s[s.len() - 1] == c {
        Some(s.len() - 1)
    } else {
        last_index_of(s.drop_last(), c)
    }
}

/// The extension of the path `p`: what follows the last `.` of its file
/// name, when something precedes that `.`.
pub open spec fn path_extension(p: Seq<char>) -> Option<Seq<char>> {
    match path_file_name(p) {
        Some(name) => match last_index_of(name, '.') {
            Some(i) => if i > 0 {
                Some(name.subrange(i + 1, name.len() as int))
            } else {
                None
            },
            None => None,
        },
        None => None,
    }
}

pub open spec fn opt_view(value: Option<String>) -> Option<Seq<char>> {
    match value {
        Some(v) => Some(v@),
        None => None,
    }
}

/// The file name of the path `path` (see `path_file_name`).
pub fn file_name(path: &str) -> (r: Option<String>)
    ensures
        opt_view(r) == path_file_name(path@),
{
    let segs = split_on_char(path, '/');
    let ghost all = string_views(segs@);
    let mut i = segs.len();
    proof {
        assert(all.subrange(0, i as int) =~= all);
    }
    while i > 0
        invariant
            i <= segs@.len(),
            all == string_views(segs@),
            all == split_at_char(path@, '/'),
            last_named_segment(all) == last_named_segment(all.subrange(0, i as int)),
        decreases i,
    {
        let seg = chars_of(segs[i - 1].as_str());
        proof {
            assert(all.subrange(0, i as int).drop_last() =~= all.subrange(0, i - 1));
            assert(all[i - 1] == seg@);
        }
        let named = !(seg.len() == 0 || (seg.len() == 1 && seg[0] == '.'));
        if named {
            proof {
                assert(seg@ != seq!['.']);
            }
            let dot_dot = seg.len() == 2 && seg[0] == '.' && seg[1] == '.';
            if dot_dot {
                assert(seg@ =~= seq!['.', '.']);
                return None;
            }
            proof {
                if seg@ == seq!['.', '.'] {
                    assert(seg@[0] == '.' && seg@[1] == '.');
                }
            }
            return Some(segs[i - 1].clone());
        }
        proof {
            if seg@.len() == 1 {
                assert(seg@ =~= seq!['.']);
            }
        }
        i = i - 1;
    }
    None
}

/// The extension of the path `path` (see `path_extension`).
pub fn extension(path: &str) -> (r: Option<String>)
    ensures
        opt_view(r) == path_extension(path@),
{
    let name = match file_name(path) {
        Some(name) => name,
        None => return None,
    };
    let chars = chars_of(name.as_str());
    let mut last: Option<usize> = None;
    for i in 0..chars.len()
        invariant
            match last {
                Some(k) => k < i && last_index_of(chars@.subrange(0, i as int), '.') == Some(k as int),
                None => last_index_of(chars@.subrange(0, i as int), '.') == None::<int>,
            },
    {
        proof {
            assert(chars@.subrange(0, i + 1).drop_last() =~= chars@.subrange(0, i as int));
        }
        if chars[i] == '.' {
            last = Some(i);
        }
    }
    proof {
        assert(chars@.subrange(0, chars@.len() as int) =~= chars@);
    }
    match last {
        Some(k) => if k > 0 {
            Some(substring(&chars, k + 1, chars.len()))
        } else {
            None
        },
        None => None,
    }
}

/// The name of the temporary file that a write to `path` goes through before
/// it replaces the file: `.<file name>.<pid>.<unique>.tmp`, where `config`
/// stands for the file name of a path that has none.
pub open spec fn temporary_name_text(path: Seq<char>, pid: nat, unique: nat) -> Seq<char> {
    let name = match path_file_name(path) {
        Some(n) => n,
        None => "config"@,
    };
    "."@ + name + "."@ + decimal(pid) + "."@ + decimal(unique) + ".tmp"@
}

/// The name of the temporary file for a write to `path` by the process `pid`
/// at the moment `unique` (see `temporary_name_text`).
pub fn temporary_name(path: &str, pid: u32, unique: u128) -> (r: String)
    ensures
        r@ == temporary_name_text(path@, pid as nat, unique as nat),
{
    let name = match file_name(path) {
        Some(n) => n,
        None => "config".to_owned(),
    };
    let mut s = concat(".", name.as_str());
    push_char(&mut s, '.');
    push_decimal(&mut s, pid as u128);
    push_char(&mut s, '.');
    push_decimal(&mut s, unique);
    s.append(".tmp");
    proof {
        reveal_strlit(".");
        assert(s@ =~= temporary_name_text(path@, pid as nat, unique as nat));
    }
    s
}

/// The formats a configuration can be read from.
#[derive(Clone, Copy, Debug, PartialEq, Eq)]
pub enum ConfigFormat {
    Toml,
    Json,
}

/// The kinds of configuration file, by extension.
#[derive(Clone, Copy, Debug, PartialEq, Eq)]
pub enum FileFormat {
    Toml,
    Json,
    Jsonc,
}

/// The formats a configuration file can be written in.
#[derive(Clone, Copy, Debug, PartialEq, Eq, Structural)]
pub enum FileType {
    TOML,
    JSON,
}

/// The file format that the extension of `p` names.
pub open spec fn file_format_of(p: Seq<char>) -> Option<FileFormat> {
    match path_extension(p) {
        Some(ext) => if ext == "toml"@ {
            Some(FileFormat::Toml)
        } else if ext == "json"@ {
            Some(FileFormat::Json)
        } else if ext == "jsonc"@ {
            Some(FileFormat::Jsonc)
        } else {
            None
        },
        None => None,
    }
}

/// Why the extension of `p` names no configuration format.
pub open spec fn msg_unsupported_type(p: Seq<char>) -> Seq<char> {
    "config file type not supported for "@ + p + " (expected .toml, .json, or .jsonc)"@
}

fn unsupported_type(path: &str) -> (e: ConfigError)
    ensures
        e.is(ErrorKind::InvalidInput, msg_unsupported_type(path@)),
{
    let mut text = concat("config file type not supported for ", path);
    text.append(" (expected .toml, .json, or .jsonc)");
    ConfigError::new(ErrorKind::InvalidInput, text)
}

impl FileFormat {
    /// The format that the extension of `path` names.
    pub fn from_path(path: &str) -> (r: Result<FileFormat, ConfigError>)
        ensures
            match file_format_of(path@) {
                Some(f) => r == Ok::<FileFormat, ConfigError>(f),
                None => r matches Err(e) && e.is(ErrorKind::InvalidInput, msg_unsupported_type(path@)),
            },
    {
        match extension(path) {
            Some(ext) => {
                if ext == "toml".to_owned() {
                    Ok(FileFormat::Toml)
                } else if ext == "json".to_owned() {
                    Ok(FileFormat::Json)
                } else if ext == "jsonc".to_owned() {
                    Ok(FileFormat::Jsonc)
                } else {
                    Err(unsupported_type(path))
                }
            },
            None => Err(unsupported_type(path)),
        }
    }

    /// The format a file of this kind is written in: JSON-with-comments
    /// files are written as plain JSON.
    pub fn write_type(self) -> (r: FileType)
        ensures
            r == (match self {
                FileFormat::Toml => FileType::TOML,
                _ => FileType::JSON,
            }),
    {
        match self {
            FileFormat::Toml => FileType::TOML,
            FileFormat::Json | FileFormat::Jsonc => FileType::JSON,
        }
    }
}

/// The format a configuration file at `p` is written in.
pub open spec fn write_type_of(p: Seq<char>) -> Option<FileType> {
    match file_format_of(p) {
        Some(FileFormat::Toml) => Some(FileType::TOML),
        Some(_) => Some(FileType::JSON),
        None => None,
    }
}

/// The format a configuration file at `path` is written in, by its extension.
pub fn infer_file_type(path: &str) -> (r: Result<FileType, ConfigError>)
    ensures
        match write_type_of(path@) {
            Some(t) => r == Ok::<FileType, ConfigError>(t),
            None => r matches Err(e) && e.is(ErrorKind::InvalidInput, msg_unsupported_type(path@)),
        },
{
    match FileFormat::from_path(path) {
        Ok(f) => Ok(f.write_type()),
        Err(e) => Err(e),
    }
}

pub open spec fn format_name(t: FileType) -> Seq<char> {
    match t {
        FileType::TOML => "TOML"@,
        FileType::JSON => "JSON"@,
    }
}

impl FileType {
    pub fn as_str(self) -> (r: &'static str)
        ensures
            r@ == format_name(self),
    {
        match self {
            FileType::TOML => "TOML",
            FileType::JSON => "JSON",
        }
    }
}

/// Why writing `requested` content to a file at `p` whose extension
/// expects `expected` is refused.
pub open spec fn msg_type_mismatch(requested: FileType, p: Seq<char>, expected: FileType) -> Seq<char> {
    "refusing to write "@ + format_name(requested) + " config to "@ + p
        + " because its extension expects "@ + format_name(expected)
}

/// Checks that a configuration in the format `file_type` may be written to
/// `path`: the path's extension must name that same format.
pub fn check_write_type(path: &str, file_type: FileType) -> (r: Result<(), ConfigError>)
    ensures
        match write_type_of(path@) {
            Some(t) => if t == file_type {
                r is Ok
            } else {
                r matches Err(e) && e.is(ErrorKind::InvalidInput, msg_type_mismatch(file_type, path@, t))
            },
            None => r matches Err(e) && e.is(ErrorKind::InvalidInput, msg_unsupported_type(path@)),
        },
{
    let inferred = match infer_file_type(path) {
        Ok(t) => t,
        Err(e) => return Err(e),
    };
    if inferred != file_type {
        let mut text = concat("refusing to write ", file_type.as_str());
        text.append(" config to ");
        text.append(path);
        text.append(" because its extension expects ");
        text.append(inferred.as_str());
        return Err(ConfigError::new(ErrorKind::InvalidInput, text));
    }
    Ok(())
}

impl ConfigFormat {
    /// The format that the extension of `path` names: TOML, or JSON for
    /// `.json` and `.jsonc` files.
    pub fn from_path(path: &str) -> (r: Result<ConfigFormat, ConfigError>)
        ensures
            match file_format_of(path@) {
                Some(FileFormat::Toml) => r == Ok::<ConfigFormat, ConfigError>(ConfigFormat::Toml),
                Some(_) => r == Ok::<ConfigFormat, ConfigError>(ConfigFormat::Json),
                None => r matches Err(e) && e.is(ErrorKind::InvalidInput, msg_unsupported_type(path@)),
            },
    {
        match FileFormat::from_path(path) {
            Ok(FileFormat::Toml) => Ok(ConfigFormat::Toml),
            Ok(_) => Ok(ConfigFormat::Json),
            Err(e) => Err(e),
        }
    }
}

} // verus!
