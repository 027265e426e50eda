use vstd::prelude::*;
use crate::text::chars_of;

verus! {

/// A JSON document as the library handles it. Numbers are kept in their
/// textual form; an object is a list of entries, which the library keeps
/// with distinct keys in key order (see `key_less`), as a sorted map does.
#[derive(Debug)]
pub enum JsonValue {
    Null,
    Bool(bool),
    Number(String),
    Str(String),
    Array(Vec<JsonValue>),
    Object(Vec<(String, JsonValue)>),
}

/// The mathematical model of a JSON document.
pub enum Json {
    Null,
    Bool(bool),
    Number(Seq<char>),
    Str(Seq<char>),
    Array(Seq<Json>),
    Object(Seq<(Seq<char>, Json)>),
}

impl JsonValue {
    pub open spec fn model(self) -> Json
        decreases self,
    {
        match self {
            JsonValue::Null => Json::Null,
            JsonValue::Bool(b) => Json::Bool(b),
            JsonValue::Number(n) => Json::Number(n@),
            JsonValue::Str(s) => Json::Str(s@),
            JsonValue::Array(items) => Json::Array(items_model(items@)),
            JsonValue::Object(entries) => Json::Object(entries_model(entries@)),
        }
    }
}

pub open spec fn items_model(items: Seq<JsonValue>) -> Seq<Json>
    decreases items,
{
    if items.len() == 0 {
        seq![]
    } else {
        seq![items[0].model()] + items_model(items.subrange(1, items.len() as int))
    }
}

pub open spec fn entries_model(entries: Seq<(String, JsonValue)>) -> Seq<(Seq<char>, Json)>
    decreases entries,
{
    if entries.len() == 0 {
        seq![]
    } else {
        seq![(entries[0].0@, entries[0].1.model())] + entries_model(
            entries.subrange(1, entries.len() as int),
        )
    }
}

} // verus!

verus! {

/// The index of the first entry whose key is `key`.
pub open spec fn find_key<V>(entries: Seq<(Seq<char>, V)>, key: Seq<char>) -> Option<int>
    decreases entries.len(),
{
    if entries.len() == 0 {
        None
    } else if entries[0].0 == key {
        Some(0)
    } else {
        match find_key(entries.subrange(1, entries.len() as int), key) {
            Some(i) => Some(i + 1),
            None => None,
        }
    }
}

pub proof fn lemma_find_key<V>(entries: Seq<(Seq<char>, V)>, key: Seq<char>)
    ensures
        match find_key(entries, key) {
            Some(i) => 0 <= i < entries.len() && entries[i].0 == key && forall|j: int|
                0 <= j < i ==> #[trigger] entries[j].0 != key,
            None => forall|j: int| 0 <= j < entries.len() ==> #[trigger] entries[j].0 != key,
        },
    decreases entries.len(),
{
    if entries.len() > 0 && entries[0].0 != key {
        let rest = entries.subrange(1, entries.len() as int);
        lemma_find_key(rest, key);
        assert forall|j: int| 1 <= j < entries.len() implies entries[j].0 == rest[j - 1].0 by {}
    }
}

/// `find_key` is pinned down by where the key first occurs.
pub proof fn lemma_find_key_at<V>(entries: Seq<(Seq<char>, V)>, key: Seq<char>, i: int)
    requires
        0 <= i < entries.len(),
        entries[i].0 == key,
        forall|j: int| 0 <= j < i ==> #[trigger] entries[j].0 != key,
    ensures
        find_key(entries, key) == Some(i),
{
    lemma_find_key(entries, key);
}

pub proof fn lemma_find_key_none<V>(entries: Seq<(Seq<char>, V)>, key: Seq<char>)
    requires
        forall|j: int| 0 <= j < entries.len() ==> #[trigger] entries[j].0 != key,
    ensures
        find_key(entries, key) == None::<int>,
{
    lemma_find_key(entries, key);
}

pub proof fn lemma_items_model(items: Seq<JsonValue>)
    ensures
        items_model(items).len() == items.len(),
        forall|i: int| 0 <= i < items.len() ==> #[trigger] items_model(items)[i] == items[i].model(),
    decreases items.len(),
{
    if items.len() > 0 {
        let rest = items.subrange(1, items.len() as int);
        lemma_items_model(rest);
        assert forall|i: int| 0 <= i < items.len() implies #[trigger] items_model(items)[i]
            == items[i].model() by {
            if i > 0 {
                assert(items[i] == rest[i - 1]);
            }
        }
    }
}

pub proof fn lemma_entries_model(entries: Seq<(String, JsonValue)>)
    ensures
        entries_model(entries).len() == entries.len(),
        forall|i: int|
            0 <= i < entries.len() ==> #[trigger] entries_model(entries)[i] == (
                entries[i].0@,
                entries[i].1.model(),
            ),
    decreases entries.len(),
{
    if entries.len() > 0 {
        let rest = entries.subrange(1, entries.len() as int);
        lemma_entries_model(rest);
        assert forall|i: int| 0 <= i < entries.len() implies #[trigger] entries_model(entries)[i]
            == (entries[i].0@, entries[i].1.model()) by {
            if i > 0 {
                assert(entries[i] == rest[i - 1]);
            }
        }
    }
}

/// `a` comes before `b` in the order of object keys: character by
/// character, by code point, a proper prefix first (the order of the keys of
/// a sorted map of strings).
pub open spec fn key_less(a: Seq<char>, b: Seq<char>) -> bool
    decreases a.len(),
{
    if b.len() == 0 {
        false
    } else if a.len() == 0 {
        true
    } else if a[0] != b[0] {
        (a[0] as int) < (b[0] as int)
    } else {
        key_less(a.drop_first(), b.drop_first())
    }
}

/// The keys of `entries` are in strictly increasing order.
pub open spec fn sorted_keys<V>(entries: Seq<(Seq<char>, V)>) -> bool {
    forall|i: int, j: int|
        0 <= i < j < entries.len() ==> key_less(#[trigger] entries[i].0, #[trigger] entries[j].0)
}

/// The position at which `key` goes into `entries`: before the first entry
/// whose key comes after it.
pub open spec fn insert_pos<V>(entries: Seq<(Seq<char>, V)>, key: Seq<char>) -> int
    decreases entries.len(),
{
    if entries.len() == 0 || key_less(key, entries[0].0) {
        0
    } else {
        1 + insert_pos(entries.subrange(1, entries.len() as int), key)
    }
}

/// The value that `entries` binds to `key`, if any.
pub open spec fn value_of<V>(entries: Seq<(Seq<char>, V)>, key: Seq<char>) -> Option<V> {
    match find_key(entries, key) {
        Some(i) => Some(entries[i].1),
        None => None,
    }
}

/// Of two distinct keys exactly one comes first.
pub proof fn lemma_key_less_total(a: Seq<char>, b: Seq<char>)
    ensures
        a != b ==> key_less(a, b) || key_less(b, a),
        !(key_less(a, b) && key_less(b, a)),
    decreases a.len(),
{
    if a.len() > 0 && b.len() > 0 && a[0] == b[0] {
        lemma_key_less_total(a.drop_first(), b.drop_first());
        if a.drop_first() == b.drop_first() {
            assert(a =~= seq![a[0]] + a.drop_first());
            assert(b =~= seq![b[0]] + b.drop_first());
        }
    } else if a.len() == 0 && b.len() == 0 {
        assert(a =~= b);
    } else if a.len() > 0 && b.len() > 0 {
        assert((a[0] as int) != (b[0] as int));
    }
}

pub proof fn lemma_key_less_transitive(a: Seq<char>, b: Seq<char>, c: Seq<char>)
    requires
        key_less(a, b),
        key_less(b, c),
    ensures
        key_less(a, c),
    decreases a.len(),
{
    if a.len() > 0 && a[0] == b[0] && b[0] == c[0] {
        lemma_key_less_transitive(a.drop_first(), b.drop_first(), c.drop_first());
    }
}

pub proof fn lemma_insert_pos<V>(entries: Seq<(Seq<char>, V)>, key: Seq<char>)
    ensures
        0 <= insert_pos(entries, key) <= entries.len(),
        forall|j: int| 0 <= j < insert_pos(entries, key) ==> !key_less(key, #[trigger] entries[j].0),
        insert_pos(entries, key) < entries.len() ==> key_less(key, entries[insert_pos(entries, key)].0),
    decreases entries.len(),
{
    if entries.len() > 0 && !key_less(key, entries[0].0) {
        let rest = entries.subrange(1, entries.len() as int);
        lemma_insert_pos(rest, key);
        assert forall|j: int| 0 <= j < insert_pos(entries, key) implies !key_less(
            key,
            #[trigger] entries[j].0,
        ) by {
            if j > 0 {
                assert(entries[j] == rest[j - 1]);
            }
        }
    }
}

/// The model of a document after an override document is merged into it:
/// objects merge key by key, any other override replaces the base.
pub open spec fn merge(base: Json, over: Json) -> Json
    decreases over,
{
    match over {
        Json::Object(o) => match base {
            Json::Object(b) => Json::Object(merge_entries(b, o)),
            _ => over,
        },
        _ => over,
    }
}

/// The entries `o` merged, in order, into the entries `b`: a key that `b`
/// holds has its value merged in place, a new key goes where the order of
/// keys puts it.
pub open spec fn merge_entries(b: Seq<(Seq<char>, Json)>, o: Seq<(Seq<char>, Json)>) -> Seq<
    (Seq<char>, Json),
>
    decreases o,
{
    if o.len() == 0 {
        b
    } else {
        let k = o[0].0;
        let b2 = match find_key(b, k) {
            Some(i) => b.update(i, (k, merge(b[i].1, o[0].1))),
            None => b.insert(insert_pos(b, k), (k, o[0].1)),
        };
        merge_entries(b2, o.subrange(1, o.len() as int))
    }
}

} // verus!

verus! {

/// The position of the first entry of `entries` whose key is `key`.
pub fn entry_index(entries: &Vec<(String, JsonValue)>, key: &String) -> (r: Option<usize>)
    ensures
        match r {
            Some(i) => find_key(entries_model(entries@), key@) == Some(i as int),
            None => find_key(entries_model(entries@), key@) == None::<int>,
        },
{
    proof {
        lemma_entries_model(entries@);
    }
    let n = entries.len();
    let mut i: usize = 0;
    while i < n
        invariant
            n == entries@.len(),
            0 <= i <= n,
            entries_model(entries@).len() == n,
            forall|j: int| 0 <= j < i ==> #[trigger] entries_model(entries@)[j].0 != key@,
        decreases n - i,
    {
        proof {
            lemma_entries_model(entries@);
        }
        if entries[i].0 == *key {
            proof {
                lemma_find_key_at(entries_model(entries@), key@, i as int);
            }
            return Some(i);
        }
        i = i + 1;
    }
    proof {
        lemma_find_key_none(entries_model(entries@), key@);
    }
    None
}

/// `entries` with its entry at `i` replaced by `e`, in the model.
pub proof fn lemma_entries_model_update(entries: Seq<(String, JsonValue)>, i: int, e: (String, JsonValue))
    requires
        0 <= i < entries.len(),
    ensures
        entries_model(entries.update(i, e)) == entries_model(entries).update(i, (e.0@, e.1.model())),
{
    lemma_entries_model(entries);
    lemma_entries_model(entries.update(i, e));
    assert(entries_model(entries.update(i, e)) =~= entries_model(entries).update(i, (e.0@, e.1.model())));
}

pub proof fn lemma_entries_model_drop_first(entries: Seq<(String, JsonValue)>)
    requires
        entries.len() > 0,
    ensures
        entries_model(entries.subrange(1, entries.len() as int)) == entries_model(entries).subrange(
            1,
            entries.len() as int,
        ),
{
    lemma_entries_model(entries);
    lemma_entries_model(entries.subrange(1, entries.len() as int));
    assert(entries_model(entries.subrange(1, entries.len() as int)) =~= entries_model(
        entries,
    ).subrange(1, entries.len() as int));
}

pub proof fn lemma_entries_model_insert(entries: Seq<(String, JsonValue)>, i: int, e: (String, JsonValue))
    requires
        0 <= i <= entries.len(),
    ensures
        entries_model(entries.insert(i, e)) == entries_model(entries).insert(i, (e.0@, e.1.model())),
{
    lemma_entries_model(entries);
    lemma_entries_model(entries.insert(i, e));
    entries.insert_ensures(i, e);
    entries_model(entries).insert_ensures(i, (e.0@, e.1.model()));
    assert(entries_model(entries.insert(i, e)) =~= entries_model(entries).insert(i, (e.0@, e.1.model())));
}

/// Whether the key `a` comes before the key `b` (see `key_less`).
pub fn key_precedes(a: &str, b: &str) -> (r: bool)
    ensures
        r == key_less(a@, b@),
{
    let x = chars_of(a);
    let y = chars_of(b);
    let mut i: usize = 0;
    proof {
        assert(x@.subrange(0, x@.len() as int) =~= x@);
        assert(y@.subrange(0, y@.len() as int) =~= y@);
    }
    while i < x.len() && i < y.len() && x[i] == y[i]
        invariant
            i <= x@.len(),
            i <= y@.len(),
            x@ == a@,
            y@ == b@,
            key_less(a@, b@) == key_less(
                x@.subrange(i as int, x@.len() as int),
                y@.subrange(i as int, y@.len() as int),
            ),
        decreases x@.len() - i,
    {
        proof {
            let s = x@.subrange(i as int, x@.len() as int);
            let t = y@.subrange(i as int, y@.len() as int);
            assert(s.drop_first() =~= x@.subrange(i + 1, x@.len() as int));
            assert(t.drop_first() =~= y@.subrange(i + 1, y@.len() as int));
        }
        i = i + 1;
    }
    if i == y.len() {
        false
    } else if i == x.len() {
        true
    } else {
        x[i] < y[i]
    }
}

/// The position at which `key` goes into `entries` (see `insert_pos`).
pub fn insert_position(entries: &Vec<(String, JsonValue)>, key: &String) -> (r: usize)
    ensures
        r as int == insert_pos(entries_model(entries@), key@),
        r <= entries@.len(),
{
    proof {
        lemma_entries_model(entries@);
    }
    let ghost e = entries_model(entries@);
    let n = entries.len();
    let mut i: usize = 0;
    proof {
        assert(e.subrange(0, n as int) =~= e);
    }
    while i < n
        invariant
            n == entries@.len(),
            i <= n,
            e == entries_model(entries@),
            e.len() == n,
            forall|j: int| 0 <= j < n ==> #[trigger] e[j] == (entries@[j].0@, entries@[j].1.model()),
            insert_pos(e, key@) == i + insert_pos(e.subrange(i as int, n as int), key@),
        decreases n - i,
    {
        let ghost rest = e.subrange(i as int, n as int);
        proof {
            assert(rest[0] == e[i as int]);
        }
        if key_precedes(key.as_str(), entries[i].0.as_str()) {
            return i;
        }
        proof {
            assert(rest.subrange(1, rest.len() as int) =~= e.subrange(i + 1, n as int));
        }
        i = i + 1;
    }
    i
}

/// Merges the override document `over` into `base`: objects merge key by key,
/// recursively; any other override value replaces what the base held.
#[verifier::loop_isolation(false)]
#[verifier::spinoff_prover]
pub fn merge_json(base: JsonValue, over: JsonValue) -> (r: JsonValue)
    ensures
        r.model() == merge(base.model(), over.model()),
    decreases over,
{
    match over {
        JsonValue::Object(o0) => match base {
            JsonValue::Object(b0) => {
                let mut b = b0;
                let mut o = o0;
                let ghost bm0 = entries_model(b0@);
                let ghost om0 = entries_model(o0@);
                let ghost n = o0@.len();
                let ghost mut k: int = 0;
                proof {
                    assert(o0@.subrange(0, n as int) =~= o0@);
                }
                while o.len() > 0
                    invariant
                        n == o0@.len(),
                        0 <= k <= n,
                        o@ == o0@.subrange(k, n as int),
                        merge_entries(bm0, om0) == merge_entries(
                            entries_model(b@),
                            entries_model(o@),
                        ),
                    decreases o@.len(),
                {
                    let ghost bm = entries_model(b@);
                    let ghost om = entries_model(o@);
                    let ghost o_before = o@;
                    assert(k < n);
                    proof {
                        lemma_entries_model(o@);
                        lemma_entries_model_drop_first(o@);
                    }
                    let (key, v) = o.remove(0);
                    proof {
                        assert(o@ =~= o_before.subrange(1, o_before.len() as int));
                        assert(v == o0@[k ].1);
                        assert(decreases_to!(o0@ => o0@[k]));
                        assert(decreases_to!(o0@[k] => o0@[k].1));
                        assert(decreases_to!(o0 => o0@));
                        assert(om[0] == (key@, v.model()));
                        assert(om.subrange(1, om.len() as int) == entries_model(o@));
                    }
                    match entry_index(&b, &key) {
                        Some(i) => {
                            let ghost b_before = b@;
                            proof {
                                lemma_entries_model(b@);
                                lemma_find_key(entries_model(b@), key@);
                                assert(find_key(bm, key@) == Some(i as int));
                                assert(bm[i as int].0 == key@);
                                assert(bm[i as int].0 == b@[i as int].0@);
                            }
                            let (bk, bv) = b.remove(i);
                            let merged = merge_json(bv, v);
                            b.insert(i, (bk, merged));
                            proof {
                                lemma_entries_model(b_before);
                                assert(b@ =~= b_before.update(i as int, (bk, merged)));
                                lemma_entries_model_update(b_before, i as int, (bk, merged));
                                assert(b_before[i as int] == (bk, bv));
                                assert(bk@ == key@);
                                assert(bm[i as int].1 == bv.model());
                                assert(entries_model(b@) == bm.update(
                                    i as int,
                                    (key@, merge(bm[i as int].1, om[0].1)),
                                ));
                                assert(merge_entries(bm, om) == merge_entries(
                                    entries_model(b@),
                                    entries_model(o@),
                                ));
                            }
                        },
                        None => {
                            let ghost b_before = b@;
                            let at = insert_position(&b, &key);
                            b.insert(at, (key, v));
                            proof {
                                lemma_entries_model_insert(b_before, at as int, (key, v));
                                assert(merge_entries(bm, om) == merge_entries(
                                    entries_model(b@),
                                    entries_model(o@),
                                ));
                            }
                        },
                    }
                    proof {
                        k = k + 1;
                        assert(o@ =~= o0@.subrange(k, n as int));
                    }
                }
                proof {
                    assert(entries_model(o@) =~= Seq::<(Seq<char>, Json)>::empty());
                }
                JsonValue::Object(b)
            },
            _ => JsonValue::Object(o0),
        },
        other => other,
    }
}

} // verus!

verus! {

/// `entries` with `key` bound to `value`: an existing entry is replaced
/// in place, a new key goes where the order of keys puts it.
pub open spec fn map_insert(entries: Seq<(Seq<char>, Json)>, key: Seq<char>, value: Json) -> Seq<
    (Seq<char>, Json),
> {
    match find_key(entries, key) {
        Some(i) => entries.update(i, (key, value)),
        None => entries.insert(insert_pos(entries, key), (key, value)),
    }
}

/// The value reached from `j` by following the object keys `path`.
pub open spec fn lookup_path(j: Json, path: Seq<Seq<char>>) -> Option<Json>
    decreases path.len(),
{
    if path.len() == 0 {
        Some(j)
    } else {
        match j {
            Json::Object(e) => match find_key(e, path[0]) {
                Some(i) => lookup_path(e[i].1, path.subrange(1, path.len() as int)),
                None => None,
            },
            _ => None,
        }
    }
}

/// The keys of `entries` are pairwise distinct.
pub open spec fn unique_keys<V>(entries: Seq<(Seq<char>, V)>) -> bool {
    forall|i: int, j: int|
        0 <= i < j < entries.len() ==> #[trigger] entries[i].0 != #[trigger] entries[j].0
}

pub proof fn lemma_map_insert(entries: Seq<(Seq<char>, Json)>, key: Seq<char>, value: Json)
    ensures
        find_key(map_insert(entries, key, value), key) matches Some(i) && map_insert(
            entries,
            key,
            value,
        )[i] == (key, value),
        forall|k: Seq<char>|
            k != key ==> #[trigger] value_of(map_insert(entries, key, value), k) == value_of(
                entries,
                k,
            ),
        unique_keys(entries) ==> unique_keys(map_insert(entries, key, value)),
        sorted_keys(entries) ==> sorted_keys(map_insert(entries, key, value)),
{
    let r = map_insert(entries, key, value);
    lemma_find_key(entries, key);
    match find_key(entries, key) {
        Some(i) => {
            assert forall|j: int| 0 <= j < r.len() implies #[trigger] r[j].0 == entries[j].0 by {}
            lemma_find_key_at(r, key, i);
            assert forall|k: Seq<char>| k != key implies #[trigger] value_of(r, k) == value_of(
                entries,
                k,
            ) by {
                lemma_find_key(entries, k);
                match find_key(entries, k) {
                    Some(m) => {
                        lemma_find_key_at(r, k, m);
                    },
                    None => {
                        lemma_find_key_none(r, k);
                    },
                }
            }
        },
        None => {
            let p = insert_pos(entries, key);
            lemma_insert_pos(entries, key);
            entries.insert_ensures(p, (key, value));
            lemma_find_key_at(r, key, p);
            assert forall|k: Seq<char>| k != key implies #[trigger] value_of(r, k) == value_of(
                entries,
                k,
            ) by {
                lemma_find_key(entries, k);
                match find_key(entries, k) {
                    Some(m) => {
                        if m < p {
                            lemma_find_key_at(r, k, m);
                        } else {
                            assert forall|j: int| 0 <= j < m + 1 implies #[trigger] r[j].0 != k by {
                                if j > p {
                                    assert(r[j] == entries[j - 1]);
                                }
                            }
                            lemma_find_key_at(r, k, m + 1);
                        }
                    },
                    None => {
                        assert forall|j: int| 0 <= j < r.len() implies #[trigger] r[j].0 != k by {
                            if j > p {
                                assert(r[j] == entries[j - 1]);
                            }
                        }
                        lemma_find_key_none(r, k);
                    },
                }
            }
            if unique_keys(entries) {
                assert forall|x: int, y: int| 0 <= x < y < r.len() implies #[trigger] r[x].0
                    != #[trigger] r[y].0 by {
                    if x > p {
                        assert(r[x] == entries[x - 1]);
                    }
                    if y > p {
                        assert(r[y] == entries[y - 1]);
                    }
                }
            }
            if sorted_keys(entries) {
                assert forall|x: int, y: int| 0 <= x < y < r.len() implies key_less(
                    #[trigger] r[x].0,
                    #[trigger] r[y].0,
                ) by {
                    if y < p {
                    } else if y == p {
                        lemma_key_less_total(entries[x].0, key);
                    } else if x < p {
                        assert(r[y] == entries[y - 1]);
                    } else if x == p {
                        assert(r[y] == entries[y - 1]);
                        if y - 1 > p {
                            lemma_key_less_transitive(key, entries[p].0, entries[y - 1].0);
                        }
                    } else {
                        assert(r[x] == entries[x - 1]);
                        assert(r[y] == entries[y - 1]);
                    }
                }
            }
        },
    }
}

} // verus!

verus! {

/// Every object met on the way along `path` from `j` has distinct keys.
pub open spec fn keys_unique_on(j: Json, path: Seq<Seq<char>>) -> bool
    decreases path.len(),
{
    path.len() > 0 ==> match j {
        Json::Object(e) => unique_keys(e) && match find_key(e, path[0]) {
            Some(i) => keys_unique_on(e[i].1, path.subrange(1, path.len() as int)),
            None => true,
        },
        _ => true,
    }
}

/// The binding that merging the value `over` for a key gives, given what the
/// base bound to that key.
pub open spec fn merged_binding(b: Seq<(Seq<char>, Json)>, key: Seq<char>, over: Json) -> Json {
    match value_of(b, key) {
        Some(v) => merge(v, over),
        None => over,
    }
}

/// Law: merging leaves alone what the override does not mention: a key that
/// the override object does not hold keeps the value the base gave it (or
/// stays absent).
pub proof fn law_untouched_keys_kept(b: Seq<(Seq<char>, Json)>, o: Seq<(Seq<char>, Json)>, k: Seq<char>)
    requires
        find_key(o, k) == None::<int>,
    ensures
        value_of(merge_entries(b, o), k) == value_of(b, k),
    decreases o.len(),
{
    if o.len() > 0 {
        let k0 = o[0].0;
        let rest = o.subrange(1, o.len() as int);
        lemma_find_key(o, k);
        assert(k0 != k);
        lemma_find_key_none(rest, k);
        let b2 = map_insert(b, k0, merged_binding(b, k0, o[0].1));
        assert(merge_entries(b, o) == merge_entries(b2, rest));
        lemma_map_insert(b, k0, merged_binding(b, k0, o[0].1));
        law_untouched_keys_kept(b2, rest, k);
    }
}

proof fn lemma_merge_entries_present(b: Seq<(Seq<char>, Json)>, o: Seq<(Seq<char>, Json)>, k: Seq<char>, i: int)
    requires
        unique_keys(o),
        find_key(o, k) == Some(i),
    ensures
        value_of(merge_entries(b, o), k) == Some(merged_binding(b, k, o[i].1)),
    decreases o.len(),
{
    lemma_find_key(o, k);
    let k0 = o[0].0;
    let rest = o.subrange(1, o.len() as int);
    let b2 = map_insert(b, k0, merged_binding(b, k0, o[0].1));
    assert(merge_entries(b, o) == merge_entries(b2, rest));
    lemma_map_insert(b, k0, merged_binding(b, k0, o[0].1));
    if k0 == k {
        assert(i == 0);
        assert forall|j: int| 0 <= j < rest.len() implies #[trigger] rest[j].0 != k by {
            assert(o[0].0 != o[j + 1].0);
        }
        lemma_find_key_none(rest, k);
        law_untouched_keys_kept(b2, rest, k);
    } else {
        lemma_find_key_at(rest, k, i - 1);
        assert(unique_keys(rest)) by {
            assert forall|x: int, y: int| 0 <= x < y < rest.len() implies #[trigger] rest[x].0
                != #[trigger] rest[y].0 by {
                assert(o[x + 1].0 != o[y + 1].0);
            }
        }
        lemma_merge_entries_present(b2, rest, k, i - 1);
        assert(merged_binding(b2, k, o[i].1) == merged_binding(b, k, o[i].1));
    }
}

/// Law: merging keeps the keys of an object in order: when the keys of the
/// base object are in order, so are those of the merged object.
pub proof fn law_merge_keeps_key_order(b: Seq<(Seq<char>, Json)>, o: Seq<(Seq<char>, Json)>)
    requires
        sorted_keys(b),
    ensures
        sorted_keys(merge_entries(b, o)),
    decreases o.len(),
{
    if o.len() > 0 {
        let k0 = o[0].0;
        let rest = o.subrange(1, o.len() as int);
        let b2 = map_insert(b, k0, merged_binding(b, k0, o[0].1));
        assert(merge_entries(b, o) == merge_entries(b2, rest));
        lemma_map_insert(b, k0, merged_binding(b, k0, o[0].1));
        law_merge_keeps_key_order(b2, rest);
    }
}

/// Law: where the override document holds a non-object value at some path,
/// the merged document holds that same value there: an override always wins
/// over what the base held.
pub proof fn law_override_wins(base: Json, over: Json, path: Seq<Seq<char>>)
    requires
        keys_unique_on(over, path),
        lookup_path(over, path) matches Some(v) && !(v is Object),
    ensures
        lookup_path(merge(base, over), path) == lookup_path(over, path),
    decreases path.len(),
{
    if path.len() > 0 {
        let rest = path.subrange(1, path.len() as int);
        match over {
            Json::Object(o) => {
                let i = find_key(o, path[0])->0;
                match base {
                    Json::Object(b) => {
                        lemma_merge_entries_present(b, o, path[0], i);
                        match value_of(b, path[0]) {
                            Some(v) => {
                                law_override_wins(v, o[i].1, rest);
                            },
                            None => {},
                        }
                    },
                    _ => {},
                }
            },
            _ => {},
        }
    }
}

} // verus!

verus! {

/// Every object inside `j`, at any depth, has its keys in order: the shape
/// that documents read through a sorted map have.
pub open spec fn well_ordered(j: Json) -> bool
    decreases j,
{
    match j {
        Json::Array(items) => items_well_ordered(items),
        Json::Object(entries) => sorted_keys(entries) && entries_well_ordered(entries),
        _ => true,
    }
}

pub open spec fn items_well_ordered(items: Seq<Json>) -> bool
    decreases items,
{
    items.len() > 0 ==> items_well_ordered(items.drop_last()) && well_ordered(items[items.len() - 1])
}

pub open spec fn entries_well_ordered(entries: Seq<(Seq<char>, Json)>) -> bool
    decreases entries,
{
    entries.len() > 0 ==> entries_well_ordered(entries.drop_last()) && well_ordered(
        entries[entries.len() - 1].1,
    )
}

pub proof fn lemma_items_well_ordered(items: Seq<Json>)
    ensures
        items_well_ordered(items) <==> forall|i: int|
            0 <= i < items.len() ==> well_ordered(#[trigger] items[i]),
    decreases items.len(),
{
    if items.len() > 0 {
        let init = items.drop_last();
        lemma_items_well_ordered(init);
        if forall|i: int| 0 <= i < items.len() ==> well_ordered(#[trigger] items[i]) {
            assert forall|i: int| 0 <= i < init.len() implies well_ordered(#[trigger] init[i]) by {
                assert(init[i] == items[i]);
            }
        }
        if items_well_ordered(items) {
            assert forall|i: int| 0 <= i < items.len() implies well_ordered(#[trigger] items[i]) by {
                if i < init.len() {
                    assert(init[i] == items[i]);
                }
            }
        }
    }
}

pub proof fn lemma_entries_well_ordered(entries: Seq<(Seq<char>, Json)>)
    ensures
        entries_well_ordered(entries) <==> forall|i: int|
            0 <= i < entries.len() ==> well_ordered(#[trigger] entries[i].1),
    decreases entries.len(),
{
    if entries.len() > 0 {
        let init = entries.drop_last();
        lemma_entries_well_ordered(init);
        if forall|i: int| 0 <= i < entries.len() ==> well_ordered(#[trigger] entries[i].1) {
            assert forall|i: int| 0 <= i < init.len() implies well_ordered(#[trigger] init[i].1) by {
                assert(init[i] == entries[i]);
            }
        }
        if entries_well_ordered(entries) {
            assert forall|i: int| 0 <= i < entries.len() implies well_ordered(
                #[trigger] entries[i].1,
            ) by {
                if i < init.len() {
                    assert(init[i] == entries[i]);
                }
            }
        }
    }
}

/// Binding a well-ordered value keeps an object well ordered.
pub proof fn lemma_map_insert_well_ordered(entries: Seq<(Seq<char>, Json)>, key: Seq<char>, value: Json)
    requires
        sorted_keys(entries),
        entries_well_ordered(entries),
        well_ordered(value),
    ensures
        well_ordered(Json::Object(map_insert(entries, key, value))),
{
    let r = map_insert(entries, key, value);
    lemma_map_insert(entries, key, value);
    lemma_entries_well_ordered(entries);
    lemma_entries_well_ordered(r);
    lemma_find_key(entries, key);
    match find_key(entries, key) {
        Some(i) => {
            assert forall|j: int| 0 <= j < r.len() implies well_ordered(#[trigger] r[j].1) by {
                if j != i {
                    assert(r[j] == entries[j]);
                }
            }
        },
        None => {
            let p = insert_pos(entries, key);
            lemma_insert_pos(entries, key);
            entries.insert_ensures(p, (key, value));
            assert forall|j: int| 0 <= j < r.len() implies well_ordered(#[trigger] r[j].1) by {
                if j < p {
                    assert(r[j] == entries[j]);
                } else if j > p {
                    assert(r[j] == entries[j - 1]);
                }
            }
        },
    }
}

/// Law: merging two well-ordered documents gives a well-ordered document:
/// every object of the result has its keys in order.
pub proof fn law_merge_well_ordered(base: Json, over: Json)
    requires
        well_ordered(base),
        well_ordered(over),
    ensures
        well_ordered(merge(base, over)),
    decreases over,
{
    match over {
        Json::Object(o) => match base {
            Json::Object(b) => {
                lemma_merge_entries_well_ordered(b, o);
            },
            _ => {},
        },
        _ => {},
    }
}

proof fn lemma_merge_entries_well_ordered(b: Seq<(Seq<char>, Json)>, o: Seq<(Seq<char>, Json)>)
    requires
        sorted_keys(b),
        entries_well_ordered(b),
        entries_well_ordered(o),
    ensures
        well_ordered(Json::Object(merge_entries(b, o))),
    decreases o,
{
    if o.len() == 0 {
    } else {
        let k0 = o[0].0;
        let rest = o.subrange(1, o.len() as int);
        let v = merged_binding(b, k0, o[0].1);
        lemma_entries_well_ordered(o);
        lemma_entries_well_ordered(b);
        lemma_entries_well_ordered(rest);
        assert forall|i: int| 0 <= i < rest.len() implies well_ordered(#[trigger] rest[i].1) by {
            assert(rest[i] == o[i + 1]);
        }
        assert(well_ordered(o[0].1));
        match value_of(b, k0) {
            Some(bv) => {
                lemma_find_key(b, k0);
                assert(well_ordered(bv));
                assert(decreases_to!(o => o[0]));
                law_merge_well_ordered(bv, o[0].1);
            },
            None => {},
        }
        let b2 = map_insert(b, k0, v);
        assert(merge_entries(b, o) == merge_entries(b2, rest));
        lemma_map_insert_well_ordered(b, k0, v);
        lemma_merge_entries_well_ordered(b2, rest);
    }
}

/// Keys in increasing order are distinct.
pub proof fn lemma_sorted_keys_unique<V>(entries: Seq<(Seq<char>, V)>)
    requires
        sorted_keys(entries),
    ensures
        unique_keys(entries),
{
    assert forall|i: int, j: int| 0 <= i < j < entries.len() implies #[trigger] entries[i].0
        != #[trigger] entries[j].0 by {
        lemma_key_less_total(entries[i].0, entries[j].0);
    }
}

/// Merging overrides into entries that already hold, for each of the
/// overrides' keys, a value that the override leaves as it is changes nothing.
proof fn lemma_merge_entries_fixed(r: Seq<(Seq<char>, Json)>, o: Seq<(Seq<char>, Json)>)
    requires
        forall|i: int|
            0 <= i < o.len() ==> (value_of(r, #[trigger] o[i].0) matches Some(x) && merge(x, o[i].1)
                == x),
    ensures
        merge_entries(r, o) == r,
    decreases o.len(),
{
    if o.len() > 0 {
        let k0 = o[0].0;
        let rest = o.subrange(1, o.len() as int);
        assert(value_of(r, o[0].0) matches Some(x) && merge(x, o[0].1) == x);
        lemma_find_key(r, k0);
        let j = find_key(r, k0)->0;
        assert(r.update(j, (k0, merge(r[j].1, o[0].1))) =~= r);
        assert forall|i: int| 0 <= i < rest.len() implies (value_of(r, #[trigger] rest[i].0) matches Some(
            x,
        ) && merge(x, rest[i].1) == x) by {
            assert(rest[i] == o[i + 1]);
        }
        lemma_merge_entries_fixed(r, rest);
    }
}

/// A well-ordered document merged into itself is itself.
proof fn lemma_merge_self(j: Json)
    requires
        well_ordered(j),
    ensures
        merge(j, j) == j,
    decreases j,
{
    if let Json::Object(e) = j {
        lemma_entries_well_ordered(e);
        lemma_sorted_keys_unique(e);
        assert forall|i: int| 0 <= i < e.len() implies (value_of(e, #[trigger] e[i].0) matches Some(
            x,
        ) && merge(x, e[i].1) == x) by {
            lemma_find_key(e, e[i].0);
            let m = find_key(e, e[i].0)->0;
            assert(m == i);
            lemma_merge_self(e[i].1);
        }
        lemma_merge_entries_fixed(e, e);
    }
}

/// Law: merging the same overrides twice is merging them once, when every
/// object of the override document has its keys in order (so that none
/// holds a key twice).
pub proof fn law_merge_idempotent(base: Json, over: Json)
    requires
        well_ordered(over),
    ensures
        merge(merge(base, over), over) == merge(base, over),
    decreases over,
{
    if let Json::Object(o) = over {
        match base {
            Json::Object(b) => {
                lemma_merge_entries_idempotent(b, o);
            },
            _ => {
                lemma_merge_self(over);
            },
        }
    }
}

proof fn lemma_merge_entries_idempotent(b: Seq<(Seq<char>, Json)>, o: Seq<(Seq<char>, Json)>)
    requires
        sorted_keys(o),
        entries_well_ordered(o),
    ensures
        merge_entries(merge_entries(b, o), o) == merge_entries(b, o),
    decreases o,
{
    let r = merge_entries(b, o);
    lemma_sorted_keys_unique(o);
    lemma_entries_well_ordered(o);
    assert forall|i: int| 0 <= i < o.len() implies (value_of(r, #[trigger] o[i].0) matches Some(x)
        && merge(x, o[i].1) == x) by {
        let k = o[i].0;
        lemma_find_key(o, k);
        let m = find_key(o, k)->0;
        assert(m == i);
        lemma_merge_entries_present(b, o, k, i);
        assert(decreases_to!(o => o[i]));
        match value_of(b, k) {
            Some(bv) => {
                law_merge_idempotent(bv, o[i].1);
            },
            None => {
                lemma_merge_self(o[i].1);
            },
        }
    }
    lemma_merge_entries_fixed(r, o);
}

} // verus!
