use vstd::prelude::*;
use crate::error::{ConfigError, ErrorKind};
use crate::text::{push_char, chars_of, concat, split_at_char, split_on_char, string_views};
use crate::format::{opt_view, last_named_segment};

verus! {

/// The name of the configuration file inside the application's directory.
pub const DEFAULT_CONFIG_FILE_NAME: &'static str = "config.toml";

pub open spec fn msg_empty_app_name() -> Seq<char> {
    "app name must not be empty"@
}

pub open spec fn msg_absolute_app_name() -> Seq<char> {
    "app name must be relative, got "@
}

pub open spec fn msg_nested_app_name() -> Seq<char> {
    "app name must be a single path component, got "@
}

pub open spec fn msg_no_config_root() -> Seq<char> {
    "failed to resolve config directory from XDG_CONFIG_HOME or HOME"@
}

/// `name`, read as a relative path, is one plain path component: its first
/// `/`-separated segment is neither `.` nor `..`, and every later segment is
/// empty or `.` (path syntax drops those).
pub open spec fn single_component(name: Seq<char>) -> bool {
    let segs = split_at_char(name, '/');
    &&& segs[0] != seq!['.']
    &&& segs[0] != seq!['.', '.']
    &&& forall|i: int| 1 <= i < segs.len() ==> (#[trigger] segs[i].len() == 0 || segs[i] == seq!['.'])
}

/// Why `name` cannot name an application's configuration directory, if it cannot.
pub open spec fn app_name_problem(name: Seq<char>) -> Option<Seq<char>> {
    if name.len() == 0 {
        Some(msg_empty_app_name())
    } else if name[0] == '/' {
        Some(msg_absolute_app_name() + name)
    } else if !single_component(name) {
        Some(msg_nested_app_name() + name)
    } else {
        None
    }
}

/// `v` is the path segment `.`.
fn is_dot(v: &Vec<char>) -> (r: bool)
    ensures
        r == (v@ == seq!['.']),
{
    let r = v.len() == 1 && v[0] == '.';
    proof {
        if r {
            assert(v@ =~= seq!['.']);
        }
    }
    r
}

/// `v` is the path segment `..`.
fn is_dot_dot(v: &Vec<char>) -> (r: bool)
    ensures
        r == (v@ == seq!['.', '.']),
{
    let r = v.len() == 2 && v[0] == '.' && v[1] == '.';
    proof {
        if r {
            assert(v@ =~= seq!['.', '.']);
        }
    }
    r
}

proof fn lemma_split_without_separator(s: Seq<char>, c: char)
    requires
        forall|i: int| 0 <= i < s.len() ==> s[i] != c,
    ensures
        split_at_char(s, c) == seq![s],
    decreases s.len(),
{
    if s.len() > 0 {
        let rest = s.subrange(1, s.len() as int);
        lemma_split_without_separator(rest, c);
        assert(s =~= seq![s[0]] + rest);
        assert(seq![rest].update(0, seq![s[0]] + rest) =~= seq![s]);
    } else {
        assert(s =~= Seq::<char>::empty());
    }
}

/// Law: every name that is one plain path component is a valid application
/// name: a non-empty name without `/` other than `.` and `..` is accepted,
/// whatever other characters it holds.
pub proof fn law_plain_component_accepted(name: Seq<char>)
    requires
        name.len() > 0,
        forall|i: int| 0 <= i < name.len() ==> name[i] != '/',
        name != seq!['.'],
        name != seq!['.', '.'],
    ensures
        app_name_problem(name) is None,
{
    lemma_split_without_separator(name, '/');
}

/// Checks that `app_name` is a single relative path component.
pub fn validate_app_name(app_name: &str) -> (r: Result<(), ConfigError>)
    ensures
        match app_name_problem(app_name@) {
            None => r is Ok,
            Some(m) => r matches Err(e) && e.is(ErrorKind::InvalidInput, m),
        },
{
    let chars = chars_of(app_name);
    if chars.len() == 0 {
        return Err(ConfigError::new(ErrorKind::InvalidInput, "app name must not be empty".to_owned()));
    }
    if chars[0] == '/' {
        return Err(ConfigError::new(ErrorKind::InvalidInput, concat("app name must be relative, got ", app_name)));
    }
    let segs = split_on_char(app_name, '/');
    proof {
        crate::text::lemma_split_at_char_nonempty(app_name@, '/');
    }
    let first = chars_of(segs[0].as_str());
    let mut ok = !is_dot(&first) && !is_dot_dot(&first);
    proof {
        assert(string_views(segs@)[0] == first@);
    }
    let mut i: usize = 1;
    while i < segs.len()
        invariant
            1 <= i <= segs@.len(),
            string_views(segs@) == split_at_char(app_name@, '/'),
            ok == (string_views(segs@)[0] != seq!['.'] && string_views(segs@)[0] != seq!['.', '.']
                && forall|j: int|
                1 <= j < i ==> (#[trigger] string_views(segs@)[j].len() == 0 || string_views(
                    segs@,
                )[j] == seq!['.'])),
        decreases segs@.len() - i,
    {
        let seg = chars_of(segs[i].as_str());
        let plain = seg.len() == 0 || is_dot(&seg);
        proof {
            assert(string_views(segs@)[i as int] == seg@);
        }
        ok = ok && plain;
        i = i + 1;
        proof {
            if ok {
                assert forall|j: int| 1 <= j < i implies (#[trigger] string_views(segs@)[j].len() == 0
                    || string_views(segs@)[j] == seq!['.']) by {}
            }
        }
    }
    if ok {
        Ok(())
    } else {
        Err(ConfigError::new(ErrorKind::InvalidInput, concat("app name must be a single path component, got ", app_name)))
    }
}

/// `rel` appended to `base` as path syntax does it: a separator is put
/// between them unless `base` is empty or already ends with one; an absolute
/// `rel` replaces `base`.
pub open spec fn join_path(base: Seq<char>, rel: Seq<char>) -> Seq<char> {
    if rel.len() > 0 && rel[0] == '/' {
        rel
    } else if base.len() == 0 || base[base.len() - 1] == '/' {
        base + rel
    } else {
        base.push('/') + rel
    }
}

pub fn join(base: &str, rel: &str) -> (r: String)
    ensures
        r@ == join_path(base@, rel@),
{
    let b = chars_of(base);
    let r = chars_of(rel);
    if r.len() > 0 && r[0] == '/' {
        return rel.to_owned();
    }
    if b.len() == 0 || b[b.len() - 1] == '/' {
        concat(base, rel)
    } else {
        let mut s = base.to_owned();
        push_char(&mut s, '/');
        s.append(rel);
        s
    }
}

/// The value of an environment variable, when it is set and not empty.
pub open spec fn nonempty(value: Option<Seq<char>>) -> Option<Seq<char>> {
    match value {
        Some(v) => if v.len() > 0 {
            Some(v)
        } else {
            None
        },
        None => None,
    }
}

/// The directory that holds the configuration of every application: the
/// value of XDG_CONFIG_HOME, else `.config` under HOME.
pub open spec fn config_root_text(xdg_config_home: Option<Seq<char>>, home: Option<Seq<char>>) -> Option<Seq<char>> {
    match nonempty(xdg_config_home) {
        Some(x) => Some(x),
        None => match nonempty(home) {
            Some(h) => Some(join_path(h, ".config"@)),
            None => None,
        },
    }
}

/// The environment value `value`, when it is set and not empty.
pub fn env_path_with(value: Option<String>) -> (r: Option<String>)
    ensures
        opt_view(r) == nonempty(opt_view(value)),
{
    match value {
        Some(v) => if v.as_str().is_empty() {
            None
        } else {
            Some(v)
        },
        None => None,
    }
}

/// The configuration root, from the values of XDG_CONFIG_HOME and HOME.
pub fn config_root_from(xdg_config_home: Option<String>, home: Option<String>) -> (r: Result<String, ConfigError>)
    ensures
        match config_root_text(opt_view(xdg_config_home), opt_view(home)) {
            Some(root) => r matches Ok(s) && s@ == root,
            None => r matches Err(e) && e.is(ErrorKind::NotFound, msg_no_config_root()),
        },
{
    match env_path_with(xdg_config_home) {
        Some(x) => Ok(x),
        None => match env_path_with(home) {
            Some(h) => Ok(join(h.as_str(), ".config")),
            None => Err(ConfigError::new(
                ErrorKind::NotFound,
                "failed to resolve config directory from XDG_CONFIG_HOME or HOME".to_owned(),
            )),
        },
    }
}

pub open spec fn msg_no_macos_root() -> Seq<char> {
    "failed to resolve macOS config directory from HOME"@
}

/// The directory that holds the configuration of every application on
/// macOS: `Library/Application Support` under HOME.
pub open spec fn macos_root_text(home: Option<Seq<char>>) -> Option<Seq<char>> {
    match nonempty(home) {
        Some(h) => Some(join_path(join_path(h, "Library"@), "Application Support"@)),
        None => None,
    }
}

/// The configuration root on macOS, from the value of HOME.
pub fn macos_config_root_from(home: Option<String>) -> (r: Result<String, ConfigError>)
    ensures
        match macos_root_text(opt_view(home)) {
            Some(root) => r matches Ok(s) && s@ == root,
            None => r matches Err(e) && e.is(ErrorKind::NotFound, msg_no_macos_root()),
        },
{
    match env_path_with(home) {
        Some(h) => {
            let library = join(h.as_str(), "Library");
            Ok(join(library.as_str(), "Application Support"))
        },
        None => Err(ConfigError::new(
            ErrorKind::NotFound,
            "failed to resolve macOS config directory from HOME".to_owned(),
        )),
    }
}

pub open spec fn msg_no_windows_root() -> Seq<char> {
    "failed to resolve Windows config directory from APPDATA, USERPROFILE, or HOMEDRIVE/HOMEPATH"@
}

pub open spec fn is_windows_separator(c: char) -> bool {
    c == '\\' || c == '/'
}

/// `rel` appended to `base` as Windows path syntax does it: a path that
/// names a drive (`D:...`) replaces `base`; after a bare drive (`C:`), a
/// separator or an empty base, and before a root-relative `rel`, nothing is
/// put between them; otherwise a `\` is.
pub open spec fn windows_join(base: Seq<char>, rel: Seq<char>) -> Seq<char> {
    if rel.len() >= 2 && rel[1] == ':' {
        rel
    } else if base.len() == 0 || is_windows_separator(base[base.len() - 1]) || (base.len() == 2
        && base[1] == ':') || (rel.len() > 0 && is_windows_separator(rel[0])) {
        base + rel
    } else {
        base.push('\\') + rel
    }
}

/// `p` with each `/` written as `\`.
pub open spec fn windows_separators(p: Seq<char>) -> Seq<char> {
    p.map_values(|c: char| if c == '/' { '\\' } else { c })
}

/// The last component of the Windows path `p` is `name` (empty and `.`
/// components name nothing).
pub open spec fn windows_ends_with(p: Seq<char>, name: Seq<char>) -> bool {
    last_named_segment(split_at_char(windows_separators(p), '\\')) == Some(name)
}

/// `AppData\Roaming` under `p`.
pub open spec fn roaming_under(p: Seq<char>) -> Seq<char> {
    windows_join(windows_join(p, "AppData"@), "Roaming"@)
}

/// The directory that holds the configuration of every application on
/// Windows: APPDATA; else `AppData\Roaming` under USERPROFILE; else the
/// home directory HOMEDRIVE followed by HOMEPATH, with `AppData\Roaming`
/// under it unless it already ends in `Roaming`.
pub open spec fn windows_root_text(
    appdata: Option<Seq<char>>,
    userprofile: Option<Seq<char>>,
    homedrive: Option<Seq<char>>,
    homepath: Option<Seq<char>>,
) -> Option<Seq<char>> {
    match nonempty(appdata) {
        Some(a) => Some(a),
        None => match nonempty(userprofile) {
            Some(u) => Some(roaming_under(u)),
            None => match (nonempty(homedrive), nonempty(homepath)) {
                (Some(d), Some(h)) => {
                    let home = windows_join(d, h);
                    if windows_ends_with(home, "Roaming"@) {
                        Some(home)
                    } else {
                        Some(roaming_under(home))
                    }
                },
                _ => None,
            },
        },
    }
}

/// `rel` appended to `base` (see `windows_join`).
pub fn join_windows(base: &str, rel: &str) -> (r: String)
    ensures
        r@ == windows_join(base@, rel@),
{
    let b = chars_of(base);
    let r = chars_of(rel);
    if r.len() >= 2 && r[1] == ':' {
        return rel.to_owned();
    }
    let n = b.len();
    if n == 0 || b[n - 1] == '\\' || b[n - 1] == '/' || (n == 2 && b[1] == ':') || (r.len() > 0 && (
    r[0] == '\\' || r[0] == '/')) {
        concat(base, rel)
    } else {
        let mut s = base.to_owned();
        push_char(&mut s, '\\');
        s.append(rel);
        s
    }
}

/// Whether the last component of the Windows path `path` is `name` (see
/// `windows_ends_with`).
pub fn ends_with_component(path: &str, name: &str) -> (r: bool)
    ensures
        r == windows_ends_with(path@, name@),
{
    let chars = chars_of(path);
    let mut mapped = String::new();
    for i in 0..chars.len()
        invariant
            mapped@ == windows_separators(chars@.subrange(0, i as int)),
    {
        let c = if chars[i] == '/' {
            '\\'
        } else {
            chars[i]
        };
        push_char(&mut mapped, c);
        proof {
            assert(windows_separators(chars@.subrange(0, i + 1)) =~= windows_separators(
                chars@.subrange(0, i as int),
            ).push(c));
        }
    }
    proof {
        assert(chars@.subrange(0, chars@.len() as int) =~= chars@);
    }
    let segs = split_on_char(mapped.as_str(), '\\');
    let ghost all = string_views(segs@);
    let mut i = segs.len();
    proof {
        assert(all.subrange(0, i as int) =~= all);
    }
    let wanted = chars_of(name);
    while i > 0
        invariant
            i <= segs@.len(),
            all == string_views(segs@),
            all == split_at_char(windows_separators(path@), '\\'),
            wanted@ == name@,
            last_named_segment(all) == last_named_segment(all.subrange(0, i as int)),
        decreases i,
    {
        let seg = chars_of(segs[i - 1].as_str());
        proof {
            assert(all.subrange(0, i as int).drop_last() =~= all.subrange(0, i - 1));
            assert(all[i - 1] == seg@);
        }
        let dot = seg.len() == 1 && seg[0] == '.';
        proof {
            if seg@.len() == 1 && seg@[0] == '.' {
                assert(seg@ =~= seq!['.']);
            }
        }
        if !(seg.len() == 0 || dot) {
            let mut same = seg.len() == wanted.len();
            let mut k: usize = 0;
            while same && k < seg.len()
                invariant
                    same ==> seg@.len() == wanted@.len(),
                    k <= seg@.len(),
                    same ==> forall|j: int| 0 <= j < k ==> seg@[j] == wanted@[j],
                    !same ==> seg@ != wanted@,
                decreases seg@.len() - k,
            {
                if seg[k] != wanted[k] {
                    same = false;
                }
                k = k + 1;
            }
            proof {
                if same {
                    assert(seg@ =~= wanted@);
                }
            }
            return same;
        }
        i = i - 1;
    }
    false
}

/// The configuration root on Windows, from the values of APPDATA,
/// USERPROFILE, HOMEDRIVE and HOMEPATH (see `windows_root_text`).
pub fn windows_config_root_from(
    appdata: Option<String>,
    userprofile: Option<String>,
    homedrive: Option<String>,
    homepath: Option<String>,
) -> (r: Result<String, ConfigError>)
    ensures
        match windows_root_text(opt_view(appdata), opt_view(userprofile), opt_view(homedrive), opt_view(homepath)) {
            Some(root) => r matches Ok(s) && s@ == root,
            None => r matches Err(e) && e.is(ErrorKind::NotFound, msg_no_windows_root()),
        },
{
    if let Some(a) = env_path_with(appdata) {
        return Ok(a);
    }
    if let Some(u) = env_path_with(userprofile) {
        let app_data = join_windows(u.as_str(), "AppData");
        return Ok(join_windows(app_data.as_str(), "Roaming"));
    }
    match (env_path_with(homedrive), env_path_with(homepath)) {
        (Some(d), Some(h)) => {
            let home = join_windows(d.as_str(), h.as_str());
            if ends_with_component(home.as_str(), "Roaming") {
                Ok(home)
            } else {
                let app_data = join_windows(home.as_str(), "AppData");
                Ok(join_windows(app_data.as_str(), "Roaming"))
            }
        },
        _ => Err(ConfigError::new(
            ErrorKind::NotFound,
            "failed to resolve Windows config directory from APPDATA, USERPROFILE, or HOMEDRIVE/HOMEPATH".to_owned(),
        )),
    }
}

/// The configuration file of the application `app_name` under the
/// configuration root `root`: `<root>/<app_name>/config.toml`. An invalid
/// application name is reported before a missing root.
pub fn app_config_path(app_name: &str, root: Result<String, ConfigError>) -> (r: Result<String, ConfigError>)
    ensures
        match app_name_problem(app_name@) {
            Some(m) => r matches Err(e) && e.is(ErrorKind::InvalidInput, m),
            None => match root {
                Ok(dir) => r matches Ok(p) && p@ == join_path(
                    join_path(dir@, app_name@),
                    DEFAULT_CONFIG_FILE_NAME@,
                ),
                Err(e0) => r matches Err(e) && e.is(e0.kind, e0.message@),
            },
        },
{
    match validate_app_name(app_name) {
        Ok(()) => {},
        Err(e) => return Err(e),
    }
    let root = match root {
        Ok(root) => root,
        Err(e) => return Err(e),
    };
    let dir = join(root.as_str(), app_name);
    Ok(join(dir.as_str(), DEFAULT_CONFIG_FILE_NAME))
}

/// The configuration file of the application `app_name`:
/// `<root>/<app_name>/config.toml`, where the root comes from the values of
/// XDG_CONFIG_HOME and HOME.
pub fn default_config_path(app_name: &str, xdg_config_home: Option<String>, home: Option<String>) -> (r:
    Result<String, ConfigError>)
    ensures
        match app_name_problem(app_name@) {
            Some(m) => r matches Err(e) && e.is(ErrorKind::InvalidInput, m),
            None => match config_root_text(opt_view(xdg_config_home), opt_view(home)) {
                Some(root) => r matches Ok(p) && p@ == join_path(
                    join_path(root, app_name@),
                    DEFAULT_CONFIG_FILE_NAME@,
                ),
                None => r matches Err(e) && e.is(ErrorKind::NotFound, msg_no_config_root()),
            },
        },
{
    app_config_path(app_name, config_root_from(xdg_config_home, home))
}

} // verus!
