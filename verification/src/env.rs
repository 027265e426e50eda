use vstd::prelude::*;
use crate::document::{json_document, parse_json_text};
use crate::json::{Json, JsonValue, find_key, map_insert, entries_model, entry_index, lemma_entries_model, lemma_entries_model_update, lemma_entries_model_insert, insert_position, lemma_find_key, lemma_map_insert, lookup_path, merge, merge_entries, merge_json, unique_keys, keys_unique_on, law_override_wins, sorted_keys, value_of, well_ordered, lemma_entries_well_ordered, lemma_map_insert_well_ordered};
use crate::text::{lower, to_ascii_lower, starts_with, string_from_chars, string_views, has_prefix, chars_of};

verus! {

/// The pieces of `s` between the occurrences of "__", matched from the left
/// without overlap (as `str::split("__")` cuts them).
pub open spec fn dunder_pieces(s: Seq<char>) -> Seq<Seq<char>>
    decreases s.len(),
{
    if s.len() == 0 {
        seq![Seq::<char>::empty()]
    } else if s.len() >= 2 && s[0] == '_' && s[1] == '_' {
        seq![Seq::<char>::empty()] + dunder_pieces(s.subrange(2, s.len() as int))
    } else {
        let rest = dunder_pieces(s.subrange(1, s.len() as int));
        rest.update(0, seq![s[0]] + rest[0])
    }
}

/// The non-empty pieces of `pieces`, in order, in ASCII lower case.
pub open spec fn nonempty_lowered(pieces: Seq<Seq<char>>) -> Seq<Seq<char>>
    decreases pieces.len(),
{
    if pieces.len() == 0 {
        seq![]
    } else {
        let last = pieces[pieces.len() - 1];
        nonempty_lowered(pieces.drop_last()) + if last.len() > 0 {
            seq![lower(last)]
        } else {
            Seq::<Seq<char>>::empty()
        }
    }
}

/// The object path that an environment key (with its prefix removed) names:
/// its "__"-separated segments, empty ones dropped, in ASCII lower case.
pub open spec fn key_segments(key: Seq<char>) -> Seq<Seq<char>> {
    nonempty_lowered(dunder_pieces(key))
}

/// `entries` with `value` placed at the object path `segs`: every object on
/// the way is created, and a non-object on the way is replaced by an object.
pub open spec fn insert_path(entries: Seq<(Seq<char>, Json)>, segs: Seq<Seq<char>>, value: Json) -> Seq<
    (Seq<char>, Json),
>
    decreases segs.len(),
{
    if segs.len() == 0 {
        entries
    } else if segs.len() == 1 {
        map_insert(entries, segs[0], value)
    } else {
        let child = match find_key(entries, segs[0]) {
            Some(i) => match entries[i].1 {
                Json::Object(c) => c,
                _ => seq![],
            },
            None => seq![],
        };
        map_insert(
            entries,
            segs[0],
            Json::Object(insert_path(child, segs.subrange(1, segs.len() as int), value)),
        )
    }
}

/// The override object that the variables `vars` (name, value) give under
/// `prefix`: each variable whose name starts with the prefix is placed, in
/// order, at the path its remaining name names.
pub open spec fn env_entries(vars: Seq<(Seq<char>, Json)>, prefix: Seq<char>) -> Seq<
    (Seq<char>, Json),
>
    decreases vars.len(),
{
    if vars.len() == 0 {
        seq![]
    } else {
        let root = env_entries(vars.drop_last(), prefix);
        let (name, value) = vars[vars.len() - 1];
        if starts_with(name, prefix) {
            insert_path(root, key_segments(name.subrange(prefix.len() as int, name.len() as int)), value)
        } else {
            root
        }
    }
}

pub proof fn lemma_dunder_pieces_nonempty(s: Seq<char>)
    ensures
        dunder_pieces(s).len() >= 1,
    decreases s.len(),
{
    if s.len() >= 2 && s[0] == '_' && s[1] == '_' {
        lemma_dunder_pieces_nonempty(s.subrange(2, s.len() as int));
    } else if s.len() > 0 {
        lemma_dunder_pieces_nonempty(s.subrange(1, s.len() as int));
    }
}

/// The path segments of `key` from position `start` on (see `key_segments`).
#[verifier::spinoff_prover]
pub fn key_segments_from(key: &Vec<char>, start: usize) -> (r: Vec<String>)
    requires
        start <= key@.len(),
    ensures
        string_views(r@) == key_segments(key@.subrange(start as int, key@.len() as int)),
{
    let n = key.len();
    let ghost t = key@.subrange(start as int, n as int);
    let ghost mut done_raw: Seq<Seq<char>> = seq![];
    let ghost mut cur_raw: Seq<char> = seq![];
    let mut done: Vec<String> = Vec::new();
    let mut cur: Vec<char> = Vec::new();
    let mut i = start;
    proof {
        lemma_dunder_pieces_nonempty(t);
        let d = dunder_pieces(t);
        assert(d =~= done_raw + seq![cur_raw + d[0]] + d.subrange(1, d.len() as int));
        assert(key@.subrange(i as int, n as int) =~= t);
    }
    while i < n
        invariant
            n == key@.len(),
            start <= i <= n,
            t == key@.subrange(start as int, n as int),
            dunder_pieces(key@.subrange(i as int, n as int)).len() >= 1,
            dunder_pieces(t) == done_raw + seq![
                cur_raw + dunder_pieces(key@.subrange(i as int, n as int))[0],
            ] + dunder_pieces(key@.subrange(i as int, n as int)).subrange(
                1,
                dunder_pieces(key@.subrange(i as int, n as int)).len() as int,
            ),
            string_views(done@) == nonempty_lowered(done_raw),
            cur@ == lower(cur_raw),
        decreases n - i,
    {
        let ghost s = key@.subrange(i as int, n as int);
        if i + 1 < n && key[i] == '_' && key[i + 1] == '_' {
            proof {
                let s2 = key@.subrange(i + 2, n as int);
                assert(s.subrange(2, s.len() as int) =~= s2);
                lemma_dunder_pieces_nonempty(s2);
                let d2 = dunder_pieces(s2);
                assert(dunder_pieces(s) == seq![Seq::<char>::empty()] + d2);
                assert(dunder_pieces(s)[0] =~= Seq::<char>::empty());
                assert(dunder_pieces(s).subrange(1, dunder_pieces(s).len() as int) =~= d2);
                let new_done = done_raw.push(cur_raw);
                assert(new_done.drop_last() =~= done_raw);
                assert(dunder_pieces(t) =~= new_done + seq![Seq::<char>::empty() + d2[0]]
                    + d2.subrange(1, d2.len() as int));
            }
            if cur.len() > 0 {
                let piece = string_from_chars(&cur);
                done.push(piece);
            }
            proof {
                let old_done_raw = done_raw;
                done_raw = done_raw.push(cur_raw);
                assert(done_raw.drop_last() =~= old_done_raw);
                assert(string_views(done@) =~= nonempty_lowered(done_raw));
                cur_raw = seq![];
            }
            cur = Vec::new();
            i = i + 2;
        } else {
            let c = key[i];
            proof {
                let s1 = key@.subrange(i + 1, n as int);
                assert(s.subrange(1, s.len() as int) =~= s1);
                lemma_dunder_pieces_nonempty(s1);
                let d1 = dunder_pieces(s1);
                assert(dunder_pieces(s) == d1.update(0, seq![c] + d1[0]));
                assert(dunder_pieces(s)[0] == seq![c] + d1[0]);
                assert(cur_raw + dunder_pieces(s)[0] =~= cur_raw.push(c) + d1[0]);
                assert(dunder_pieces(s).subrange(1, dunder_pieces(s).len() as int) =~= d1.subrange(
                    1,
                    d1.len() as int,
                ));
                assert(dunder_pieces(t) =~= done_raw + seq![cur_raw.push(c) + d1[0]] + d1.subrange(
                    1,
                    d1.len() as int,
                ));
            }
            cur.push(to_ascii_lower(c));
            proof {
                cur_raw = cur_raw.push(c);
                assert(cur@ =~= lower(cur_raw));
            }
            i = i + 1;
        }
    }
    proof {
        let s = key@.subrange(n as int, n as int);
        assert(s =~= Seq::<char>::empty());
        assert(dunder_pieces(t) =~= done_raw.push(cur_raw));
        assert(done_raw.push(cur_raw).drop_last() =~= done_raw);
    }
    if cur.len() > 0 {
        let piece = string_from_chars(&cur);
        done.push(piece);
    }
    proof {
        assert(string_views(done@) =~= nonempty_lowered(done_raw.push(cur_raw)));
    }
    done
}

} // verus!

verus! {

/// Binds `key` to `value` in the object entries `entries` (see `map_insert`).
pub fn object_insert(entries: Vec<(String, JsonValue)>, key: String, value: JsonValue) -> (r: Vec<
    (String, JsonValue),
>)
    ensures
        entries_model(r@) == map_insert(entries_model(entries@), key@, value.model()),
{
    let mut entries = entries;
    let ghost before = entries@;
    proof {
        lemma_entries_model(entries@);
    }
    match entry_index(&entries, &key) {
        Some(i) => {
            proof {
                lemma_find_key(entries_model(entries@), key@);
            }
            let _old = entries.remove(i);
            entries.insert(i, (key, value));
            proof {
                assert(entries@ =~= before.update(i as int, (key, value)));
                lemma_entries_model_update(before, i as int, (key, value));
            }
        },
        None => {
            let at = insert_position(&entries, &key);
            entries.insert(at, (key, value));
            proof {
                lemma_entries_model_insert(before, at as int, (key, value));
            }
        },
    }
    entries
}

/// Places `value` at the object path `segs[at..]` inside `entries`.
#[verifier::spinoff_prover]
pub fn insert_env_value(
    entries: Vec<(String, JsonValue)>,
    segs: &Vec<String>,
    at: usize,
    value: JsonValue,
) -> (r: Vec<(String, JsonValue)>)
    requires
        at <= segs@.len(),
    ensures
        entries_model(r@) == insert_path(
            entries_model(entries@),
            string_views(segs@).subrange(at as int, segs@.len() as int),
            value.model(),
        ),
    decreases segs@.len() - at,
{
    let ghost rest = string_views(segs@).subrange(at as int, segs@.len() as int);
    if at == segs.len() {
        return entries;
    }
    let key = segs[at].clone();
    assert(rest[0] == key@);
    if at + 1 == segs.len() {
        return object_insert(entries, key, value);
    }
    proof {
        assert(rest.subrange(1, rest.len() as int) =~= string_views(segs@).subrange(
            at + 1,
            segs@.len() as int,
        ));
    }
    let mut entries = entries;
    let ghost before = entries@;
    proof {
        lemma_entries_model(entries@);
    }
    match entry_index(&entries, &key) {
        Some(i) => {
            proof {
                lemma_find_key(entries_model(entries@), key@);
            }
            let (k, old) = entries.remove(i);
            let child = match old {
                JsonValue::Object(c) => c,
                _ => Vec::new(),
            };
            proof {
                assert(entries_model(child@) =~= match entries_model(before)[i as int].1 {
                    Json::Object(c) => c,
                    _ => seq![],
                });
            }
            let new_child = insert_env_value(child, segs, at + 1, value);
            entries.insert(i, (k, JsonValue::Object(new_child)));
            proof {
                assert(entries@ =~= before.update(i as int, (k, JsonValue::Object(new_child))));
                lemma_entries_model_update(before, i as int, (k, JsonValue::Object(new_child)));
            }
            entries
        },
        None => {
            let empty: Vec<(String, JsonValue)> = Vec::new();
            proof {
                assert(entries_model(empty@) =~= seq![]);
            }
            let new_child = insert_env_value(empty, segs, at + 1, value);
            let pos = insert_position(&entries, &key);
            entries.insert(pos, (key, JsonValue::Object(new_child)));
            proof {
                lemma_entries_model_insert(before, pos as int, (key, JsonValue::Object(new_child)));
            }
            entries
        },
    }
}

/// The value an environment variable's raw text stands for: the JSON value
/// it parses to, or else the text itself as a string.
pub fn parse_env_value(raw: String) -> (r: JsonValue)
    ensures
        r.model() == match json_document(raw@) {
            Ok(j) => j,
            Err(_) => Json::Str(raw@),
        },
        well_ordered(r.model()),
{
    match parse_json_text(raw.as_str()) {
        Ok(v) => v,
        Err(_) => JsonValue::Str(raw),
    }
}

/// The override object that the environment variables `vars` give under
/// `prefix` (see `env_entries`).
#[verifier::spinoff_prover]
pub fn env_overrides(vars: Vec<(String, JsonValue)>, prefix: &str) -> (r: JsonValue)
    ensures
        r.model() == Json::Object(env_entries(entries_model(vars@), prefix@)),
{
    let p = chars_of(prefix);
    let ghost vars0 = vars@;
    let ghost n = vars@.len();
    let mut vars = vars;
    let mut root: Vec<(String, JsonValue)> = Vec::new();
    let ghost mut k: int = 0;
    proof {
        lemma_entries_model(vars0);
        assert(vars0.subrange(0, n as int) =~= vars0);
        assert(entries_model(vars0).subrange(0, 0) =~= seq![]);
        assert(entries_model(root@) =~= seq![]);
    }
    while vars.len() > 0
        invariant
            n == vars0.len(),
            0 <= k <= n,
            vars@ == vars0.subrange(k, n as int),
            p@ == prefix@,
            entries_model(vars0).len() == n,
            forall|j: int|
                0 <= j < n ==> #[trigger] entries_model(vars0)[j] == (
                    vars0[j].0@,
                    vars0[j].1.model(),
                ),
            entries_model(root@) == env_entries(entries_model(vars0).subrange(0, k), prefix@),
        decreases vars@.len(),
    {
        let ghost before = vars@;
        let (name, value) = vars.remove(0);
        proof {
            assert(vars@ =~= vars0.subrange(k + 1, n as int));
            assert(before[0] == vars0[k]);
        }
        let name_chars = chars_of(name.as_str());
        let ghost sub = entries_model(vars0).subrange(0, k + 1);
        proof {
            assert(sub.drop_last() =~= entries_model(vars0).subrange(0, k));
            assert(sub[sub.len() - 1] == (name@, value.model()));
        }
        if has_prefix(&name_chars, &p) {
            let segs = key_segments_from(&name_chars, p.len());
            root = insert_env_value(root, &segs, 0, value);
            proof {
                assert(string_views(segs@).subrange(0, segs@.len() as int) =~= string_views(segs@));
            }
        }
        proof {
            k = k + 1;
        }
    }
    proof {
        assert(entries_model(vars0).subrange(0, n as int) =~= entries_model(vars0));
    }
    JsonValue::Object(root)
}

/// The document `config` with the environment overrides of `vars` under
/// `prefix` merged into it.
pub fn apply_env_overrides(config: JsonValue, vars: Vec<(String, JsonValue)>, prefix: &str) -> (r:
    JsonValue)
    ensures
        r.model() == merge(config.model(), Json::Object(env_entries(entries_model(vars@), prefix@))),
{
    let overrides = env_overrides(vars, prefix);
    merge_json(config, overrides)
}

} // verus!

verus! {

/// Law: after a value is placed at a non-empty path, looking that path up
/// gives the value back.
pub proof fn law_insert_then_lookup(entries: Seq<(Seq<char>, Json)>, segs: Seq<Seq<char>>, value: Json)
    requires
        segs.len() >= 1,
    ensures
        lookup_path(Json::Object(insert_path(entries, segs, value)), segs) == Some(value),
    decreases segs.len(),
{
    let rest = segs.subrange(1, segs.len() as int);
    if segs.len() == 1 {
        lemma_map_insert(entries, segs[0], value);
        let r = map_insert(entries, segs[0], value);
        let i = find_key(r, segs[0])->0;
        assert(lookup_path(r[i].1, rest) == Some(r[i].1));
    } else {
        let child = match find_key(entries, segs[0]) {
            Some(i) => match entries[i].1 {
                Json::Object(c) => c,
                _ => seq![],
            },
            None => seq![],
        };
        law_insert_then_lookup(child, rest, value);
        lemma_map_insert(entries, segs[0], Json::Object(insert_path(child, rest, value)));
    }
}

proof fn lemma_insert_path_unique(entries: Seq<(Seq<char>, Json)>, segs: Seq<Seq<char>>, value: Json)
    requires
        keys_unique_on(Json::Object(entries), segs),
        unique_keys(entries),
    ensures
        keys_unique_on(Json::Object(insert_path(entries, segs, value)), segs),
        unique_keys(insert_path(entries, segs, value)),
    decreases segs.len(),
{
    if segs.len() >= 1 {
        let rest = segs.subrange(1, segs.len() as int);
        lemma_find_key(entries, segs[0]);
        if segs.len() == 1 {
            lemma_map_insert(entries, segs[0], value);
            let r = map_insert(entries, segs[0], value);
            let i = find_key(r, segs[0])->0;
            assert(keys_unique_on(r[i].1, rest));
        } else {
            let child = match find_key(entries, segs[0]) {
                Some(i) => match entries[i].1 {
                    Json::Object(c) => c,
                    _ => seq![],
                },
                None => seq![],
            };
            match find_key(entries, segs[0]) {
                Some(i) => {
                    assert(keys_unique_on(entries[i].1, rest));
                },
                None => {},
            }
            assert(keys_unique_on(Json::Object(child), rest) && unique_keys(child));
            lemma_insert_path_unique(child, rest, value);
            let nv = Json::Object(insert_path(child, rest, value));
            lemma_map_insert(entries, segs[0], nv);
            let r = map_insert(entries, segs[0], nv);
            let i = find_key(r, segs[0])->0;
            assert(r[i].1 == nv);
            assert(keys_unique_on(r[i].1, rest));
        }
    }
}

/// Law: the override object that the variables give has its keys in order,
/// as the keys of a sorted map are.
pub proof fn law_overrides_keys_in_order(vars: Seq<(Seq<char>, Json)>, prefix: Seq<char>)
    ensures
        sorted_keys(env_entries(vars, prefix)),
    decreases vars.len(),
{
    if vars.len() > 0 {
        let root = env_entries(vars.drop_last(), prefix);
        let (name, value) = vars[vars.len() - 1];
        law_overrides_keys_in_order(vars.drop_last(), prefix);
        lemma_insert_path_sorted(
            root,
            key_segments(name.subrange(prefix.len() as int, name.len() as int)),
            value,
        );
    }
}

proof fn lemma_insert_path_sorted(entries: Seq<(Seq<char>, Json)>, segs: Seq<Seq<char>>, value: Json)
    requires
        sorted_keys(entries),
    ensures
        sorted_keys(insert_path(entries, segs, value)),
{
    if segs.len() == 1 {
        lemma_map_insert(entries, segs[0], value);
    } else if segs.len() > 1 {
        let child = match find_key(entries, segs[0]) {
            Some(i) => match entries[i].1 {
                Json::Object(c) => c,
                _ => seq![],
            },
            None => seq![],
        };
        lemma_map_insert(
            entries,
            segs[0],
            Json::Object(insert_path(child, segs.subrange(1, segs.len() as int), value)),
        );
    }
}

proof fn lemma_insert_path_well_ordered(entries: Seq<(Seq<char>, Json)>, segs: Seq<Seq<char>>, value: Json)
    requires
        well_ordered(Json::Object(entries)),
        well_ordered(value),
    ensures
        well_ordered(Json::Object(insert_path(entries, segs, value))),
    decreases segs.len(),
{
    if segs.len() == 1 {
        lemma_map_insert_well_ordered(entries, segs[0], value);
    } else if segs.len() > 1 {
        let rest = segs.subrange(1, segs.len() as int);
        let child = match find_key(entries, segs[0]) {
            Some(i) => match entries[i].1 {
                Json::Object(c) => c,
                _ => seq![],
            },
            None => seq![],
        };
        lemma_find_key(entries, segs[0]);
        lemma_entries_well_ordered(entries);
        match find_key(entries, segs[0]) {
            Some(i) => {
                assert(well_ordered(entries[i].1));
            },
            None => {},
        }
        assert(well_ordered(Json::Object(child)));
        lemma_insert_path_well_ordered(child, rest, value);
        lemma_map_insert_well_ordered(entries, segs[0], Json::Object(insert_path(child, rest, value)));
    }
}

/// Law: when the variables' values are well ordered, so is the override
/// object they give: every object in it has its keys in order.
pub proof fn law_overrides_well_ordered(vars: Seq<(Seq<char>, Json)>, prefix: Seq<char>)
    requires
        forall|i: int| 0 <= i < vars.len() ==> well_ordered(#[trigger] vars[i].1),
    ensures
        well_ordered(Json::Object(env_entries(vars, prefix))),
    decreases vars.len(),
{
    if vars.len() > 0 {
        let init = vars.drop_last();
        assert forall|i: int| 0 <= i < init.len() implies well_ordered(#[trigger] init[i].1) by {
            assert(init[i] == vars[i]);
        }
        law_overrides_well_ordered(init, prefix);
        let (name, value) = vars[vars.len() - 1];
        assert(well_ordered(vars[vars.len() - 1].1));
        lemma_insert_path_well_ordered(
            env_entries(init, prefix),
            key_segments(name.subrange(prefix.len() as int, name.len() as int)),
            value,
        );
    }
}

proof fn lemma_lookup_step(e: Seq<(Seq<char>, Json)>, q: Seq<Seq<char>>)
    requires
        q.len() > 0,
    ensures
        lookup_path(Json::Object(e), q) == match value_of(e, q[0]) {
            Some(x) => lookup_path(x, q.subrange(1, q.len() as int)),
            None => None,
        },
{
}

/// Law: placing a value at a path leaves every path that parts from it
/// alone. When `q` follows `segs` for its first `k` keys and then takes
/// another key, looking `q` up finds after the insertion exactly what it
/// found before: siblings on the way, at any depth, are kept.
pub proof fn law_insert_keeps_other_paths(
    entries: Seq<(Seq<char>, Json)>,
    segs: Seq<Seq<char>>,
    value: Json,
    q: Seq<Seq<char>>,
    k: int,
)
    requires
        0 <= k < segs.len(),
        k < q.len(),
        forall|j: int| 0 <= j < k ==> q[j] == segs[j],
        q[k] != segs[k],
    ensures
        lookup_path(Json::Object(insert_path(entries, segs, value)), q) == lookup_path(
            Json::Object(entries),
            q,
        ),
    decreases k,
{
    let r = insert_path(entries, segs, value);
    let qrest = q.subrange(1, q.len() as int);
    lemma_lookup_step(r, q);
    lemma_lookup_step(entries, q);
    if segs.len() == 1 {
        lemma_map_insert(entries, segs[0], value);
    } else {
        let rest = segs.subrange(1, segs.len() as int);
        let child = match find_key(entries, segs[0]) {
            Some(i) => match entries[i].1 {
                Json::Object(c) => c,
                _ => seq![],
            },
            None => seq![],
        };
        let inner = Json::Object(insert_path(child, rest, value));
        lemma_map_insert(entries, segs[0], inner);
        if k > 0 {
            assert(q[0] == segs[0]);
            assert forall|j: int| 0 <= j < k - 1 implies qrest[j] == rest[j] by {
                assert(q[j + 1] == segs[j + 1]);
            }
            law_insert_keeps_other_paths(child, rest, value, qrest, k - 1);
            lemma_find_key(r, segs[0]);
            lemma_lookup_step(child, qrest);
            lemma_find_key(entries, segs[0]);
            match value_of(entries, q[0]) {
                Some(x) => {
                    if !(x is Object) {
                        assert(lookup_path(x, qrest) == None::<Json>);
                        assert(value_of(child, qrest[0]) == None::<Json>);
                    }
                },
                None => {
                    assert(value_of(child, qrest[0]) == None::<Json>);
                },
            }
        }
    }
}

/// Law: an environment variable whose name carries the prefix and names a
/// non-empty path overrides, at that path, whatever the configuration held
/// there, when its value is not an object.
pub proof fn law_env_value_overrides(config: Json, name: Seq<char>, value: Json, prefix: Seq<char>)
    requires
        starts_with(name, prefix),
        key_segments(name.subrange(prefix.len() as int, name.len() as int)).len() >= 1,
        !(value is Object),
    ensures
        lookup_path(
            merge(config, Json::Object(env_entries(seq![(name, value)], prefix))),
            key_segments(name.subrange(prefix.len() as int, name.len() as int)),
        ) == Some(value),
{
    let vars = seq![(name, value)];
    let segs = key_segments(name.subrange(prefix.len() as int, name.len() as int));
    assert(vars.drop_last() =~= seq![]);
    let e: Seq<(Seq<char>, Json)> = seq![];
    assert(env_entries(vars.drop_last(), prefix) == e);
    assert(env_entries(vars, prefix) == insert_path(e, segs, value));
    law_insert_then_lookup(e, segs, value);
    lemma_insert_path_unique(e, segs, value);
    law_override_wins(config, Json::Object(insert_path(e, segs, value)), segs);
}

/// Law: of the variables that name the same path, the one that comes last wins.
pub proof fn law_last_variable_wins(
    vars: Seq<(Seq<char>, Json)>,
    name: Seq<char>,
    value: Json,
    prefix: Seq<char>,
)
    requires
        starts_with(name, prefix),
        key_segments(name.subrange(prefix.len() as int, name.len() as int)).len() >= 1,
    ensures
        lookup_path(
            Json::Object(env_entries(vars.push((name, value)), prefix)),
            key_segments(name.subrange(prefix.len() as int, name.len() as int)),
        ) == Some(value),
{
    assert(vars.push((name, value)).drop_last() =~= vars);
    law_insert_then_lookup(
        env_entries(vars, prefix),
        key_segments(name.subrange(prefix.len() as int, name.len() as int)),
        value,
    );
}

/// Law: variables whose names lack the prefix, or whose remaining names hold
/// no segment (such as the bare prefix, or the prefix followed by "__"),
/// change nothing.
pub proof fn law_ignored_variable(vars: Seq<(Seq<char>, Json)>, name: Seq<char>, value: Json, prefix: Seq<char>)
    requires
        !starts_with(name, prefix) || key_segments(
            name.subrange(prefix.len() as int, name.len() as int),
        ).len() == 0,
    ensures
        env_entries(vars.push((name, value)), prefix) == env_entries(vars, prefix),
{
    assert(vars.push((name, value)).drop_last() =~= vars);
}

/// Law: when no variable carries the prefix, an object configuration comes
/// back unchanged.
pub proof fn law_no_matching_variables(base: Seq<(Seq<char>, Json)>, vars: Seq<(Seq<char>, Json)>, prefix: Seq<char>)
    requires
        forall|i: int| 0 <= i < vars.len() ==> !starts_with(#[trigger] vars[i].0, prefix),
    ensures
        merge(Json::Object(base), Json::Object(env_entries(vars, prefix))) == Json::Object(base),
    decreases vars.len(),
{
    lemma_no_matching_entries(vars, prefix);
    assert(merge_entries(base, seq![]) == base);
}

proof fn lemma_no_matching_entries(vars: Seq<(Seq<char>, Json)>, prefix: Seq<char>)
    requires
        forall|i: int| 0 <= i < vars.len() ==> !starts_with(#[trigger] vars[i].0, prefix),
    ensures
        env_entries(vars, prefix) == Seq::<(Seq<char>, Json)>::empty(),
    decreases vars.len(),
{
    if vars.len() > 0 {
        assert(!starts_with(vars[vars.len() - 1].0, prefix));
        lemma_no_matching_entries(vars.drop_last(), prefix);
    }
}

} // verus!
