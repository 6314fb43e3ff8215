use vstd::prelude::*;

use crate::json::{
    lemma_wf_insert, lemma_wf_lookup, well_formed,
    empty_object, entries_view, find_entry, find_key, insert, insert_entry, lemma_find_key,
    lemma_find_key_at, lemma_insert, lemma_object_view, lookup, Json, JsonValue,
};
use crate::text::{lemma_split_on_len, split_on, split_str};

verus! {

/// The value reached from `j` by following `keys` through objects; a missing
/// key, a non-object on the way or a `null` at any step yields `None`.
pub open spec fn get_keys(j: Json, keys: Seq<Seq<char>>) -> Option<Json>
    decreases keys.len(),
{
    if keys.len() == 0 {
        Some(j)
    } else {
        match j {
            Json::Object(es) => match lookup(es, keys[0]) {
                Some(c) => if c is Null {
                    None
                } else {
                    get_keys(c, keys.drop_first())
                },
                None => None,
            },
            _ => None,
        }
    }
}

/// The value at the dot-separated `path` in `j` (e.g. `redis.hostname`).
pub open spec fn get_path(j: Json, path: Seq<char>) -> Option<Json> {
    get_keys(j, split_on(path, '.'))
}

/// `j` with `v` stored under `keys`: every intermediate member that is missing
/// or not an object becomes a fresh object. A `j` that is not an object is
/// left as it is.
pub open spec fn set_keys(j: Json, keys: Seq<Seq<char>>, v: Json) -> Json
    decreases keys.len(),
{
    match j {
        Json::Object(es) => if keys.len() == 0 {
            j
        } else if keys.len() == 1 {
            Json::Object(insert(es, keys[0], v))
        } else {
            let child = match lookup(es, keys[0]) {
                Some(c) => if c is Object {
                    c
                } else {
                    empty_object()
                },
                None => empty_object(),
            };
            Json::Object(insert(es, keys[0], set_keys(child, keys.drop_first(), v)))
        },
        _ => j,
    }
}

/// `j` with `v` stored at the dot-separated `path`.
pub open spec fn set_path(j: Json, path: Seq<char>, v: Json) -> Json {
    set_keys(j, split_on(path, '.'), v)
}

/// The member keyed `k` of `obj`, when `obj` is an object holding one.
pub fn member<'a>(obj: &'a JsonValue, k: &String) -> (r: Option<&'a JsonValue>)
    ensures
        match r {
            Some(x) => obj@ is Object && lookup(obj@->Object_0, k@) == Some(x@),
            None => !(obj@ is Object) || lookup(obj@->Object_0, k@) is None,
        },
{
    match obj {
        JsonValue::Object(es) => {
            proof {
                lemma_object_view(*es);
            }
            match find_entry(es, k) {
                Some(i) => Some(&es[i].1),
                None => None,
            }
        },
        _ => None,
    }
}

/// The value reached from `obj` through `keys`.
pub fn get_keys_exec<'a>(obj: &'a JsonValue, keys: &Vec<String>) -> (r: Option<&'a JsonValue>)
    ensures
        match r {
            Some(x) => get_keys(obj@, keys@.map_values(|k: String| k@)) == Some(x@),
            None => get_keys(obj@, keys@.map_values(|k: String| k@)) is None,
        },
{
    let ghost ks = keys@.map_values(|k: String| k@);
    let mut cur = obj;
    let mut i: usize = 0;
    assert(ks.skip(0) =~= ks);
    while i < keys.len()
        invariant
            i <= keys.len(),
            ks == keys@.map_values(|k: String| k@),
            get_keys(obj@, ks) == get_keys(cur@, ks.skip(i as int)),
        decreases keys.len() - i,
    {
        assert(ks.skip(i as int).drop_first() =~= ks.skip(i + 1));
        match member(cur, &keys[i]) {
            Some(c) => {
                match c {
                    JsonValue::Null => {
                        return None;
                    },
                    _ => {
                        cur = c;
                    },
                }
            },
            None => {
                return None;
            },
        }
        i += 1;
    }
    assert(ks.skip(i as int) =~= Seq::<Seq<char>>::empty());
    Some(cur)
}

/// The value at the dot-separated `path` in `obj`.
pub fn get_nested<'a>(obj: &'a JsonValue, path: &str) -> (r: Option<&'a JsonValue>)
    ensures
        match r {
            Some(x) => get_path(obj@, path@) == Some(x@),
            None => get_path(obj@, path@) is None,
        },
{
    let keys = split_str(path, '.');
    let ghost ks = keys@.map_values(|k: String| k@);
    assert(ks =~= split_on(path@, '.'));
    get_keys_exec(obj, &keys)
}

/// `obj` with `v` stored under `keys[i..]`.
fn set_keys_from(obj: JsonValue, keys: &Vec<String>, i: usize, v: JsonValue) -> (r: JsonValue)
    requires
        i <= keys.len(),
    ensures
        r@ == set_keys(obj@, keys@.map_values(|k: String| k@).skip(i as int), v@),
    decreases keys.len() - i,
{
    let ghost ks = keys@.map_values(|k: String| k@).skip(i as int);
    match obj {
        JsonValue::Object(mut es) => {
            proof {
                lemma_object_view(es);
            }
            let ghost ev = entries_view(es@);
            if i >= keys.len() {
                return JsonValue::Object(es);
            }
            let key = keys[i].clone();
            if i + 1 == keys.len() {
                insert_entry(&mut es, key, v);
                proof {
                    lemma_object_view(es);
                }
                return JsonValue::Object(es);
            }
            let child = match find_entry(&es, &key) {
                Some(idx) => {
                    let (_, c) = es.remove(idx);
                    es.insert(idx, (key.clone(), JsonValue::Null));
                    assert(entries_view(es@) =~= ev.update(idx as int, (key@, Json::Null)));
                    if c.is_object() {
                        c
                    } else {
                        JsonValue::empty_object()
                    }
                },
                None => JsonValue::empty_object(),
            };
            proof {
                lemma_find_key(ev, key@);
                assert(ks.drop_first() =~= keys@.map_values(|k: String| k@).skip(i + 1));
            }
            let new_child = set_keys_from(child, keys, i + 1, v);
            let ghost mid = entries_view(es@);
            insert_entry(&mut es, key, new_child);
            proof {
                lemma_object_view(es);
                lemma_find_key(ev, key@);
                if find_key(ev, key@) >= 0 {
                    let idx = find_key(ev, key@);
                    lemma_find_key_at(mid, key@, idx);
                    assert(insert(mid, key@, new_child@) =~= insert(ev, key@, new_child@));
                } else {
                    assert(mid == ev);
                }
            }
            JsonValue::Object(es)
        },
        _ => obj,
    }
}

/// Store `value` at the dot-separated `path` of `obj`.
pub fn set_nested(obj: &mut JsonValue, path: &str, value: JsonValue)
    ensures
        final(obj)@ == set_path(old(obj)@, path@, value@),
{
    let keys = split_str(path, '.');
    let ghost ks = keys@.map_values(|k: String| k@);
    assert(ks =~= split_on(path@, '.'));
    assert(ks.skip(0) =~= ks);
    let mut cur = JsonValue::Null;
    std::mem::swap(&mut cur, obj);
    let r = set_keys_from(cur, &keys, 0, value);
    *obj = r;
}

proof fn lemma_get_after_set(j: Json, keys: Seq<Seq<char>>, v: Json)
    requires
        j is Object,
        keys.len() > 0,
        !(v is Null),
    ensures
        set_keys(j, keys, v) is Object,
        get_keys(set_keys(j, keys, v), keys) == Some(v),
    decreases keys.len(),
{
    let es = j->Object_0;
    if keys.len() == 1 {
        lemma_insert(es, keys[0], v, keys[0]);
        assert(keys.drop_first().len() == 0);
        assert(get_keys(v, keys.drop_first()) == Some(v));
        let r = set_keys(j, keys, v);
        assert(lookup(r->Object_0, keys[0]) == Some(v));
    } else {
        let child = match lookup(es, keys[0]) {
            Some(c) => if c is Object {
                c
            } else {
                empty_object()
            },
            None => empty_object(),
        };
        lemma_get_after_set(child, keys.drop_first(), v);
        let x = set_keys(child, keys.drop_first(), v);
        lemma_insert(es, keys[0], x, keys[0]);
        let r = set_keys(j, keys, v);
        assert(r == Json::Object(insert(es, keys[0], x)));
        assert(lookup(r->Object_0, keys[0]) == Some(x));
        assert(!(x is Null));
    }
}

proof fn lemma_wf_get_keys(j: Json, keys: Seq<Seq<char>>)
    requires
        well_formed(j),
    ensures
        get_keys(j, keys) matches Some(x) ==> well_formed(x),
    decreases keys.len(),
{
    if keys.len() > 0 {
        if let Json::Object(es) = j {
            lemma_wf_lookup(es, keys[0]);
            if let Some(c) = lookup(es, keys[0]) {
                lemma_wf_get_keys(c, keys.drop_first());
            }
        }
    }
}

proof fn lemma_wf_set_keys(j: Json, keys: Seq<Seq<char>>, v: Json)
    requires
        well_formed(j),
        well_formed(v),
    ensures
        well_formed(set_keys(j, keys, v)),
    decreases keys.len(),
{
    if let Json::Object(es) = j {
        if keys.len() == 1 {
            lemma_wf_insert(es, keys[0], v);
        } else if keys.len() > 1 {
            lemma_wf_lookup(es, keys[0]);
            let child = match lookup(es, keys[0]) {
                Some(c) => if c is Object {
                    c
                } else {
                    empty_object()
                },
                None => empty_object(),
            };
            lemma_wf_set_keys(child, keys.drop_first(), v);
            lemma_wf_insert(es, keys[0], set_keys(child, keys.drop_first(), v));
        }
    }
}

/// What a path reads from a well-formed value is well-formed, and storing a
/// well-formed value keeps a value well-formed.
pub proof fn law_paths_keep_well_formed(j: Json, path: Seq<char>, v: Json)
    requires
        well_formed(j),
        well_formed(v),
    ensures
        get_path(j, path) matches Some(x) ==> well_formed(x),
        well_formed(set_path(j, path, v)),
{
    lemma_wf_get_keys(j, split_on(path, '.'));
    lemma_wf_set_keys(j, split_on(path, '.'), v);
}

/// Reading a path right after a non-null value was stored there, in an
/// object, gives that value back.
pub proof fn law_get_after_set(j: Json, path: Seq<char>, v: Json)
    requires
        j is Object,
        !(v is Null),
    ensures
        get_path(set_path(j, path, v), path) == Some(v),
{
    lemma_split_on_len(path, '.');
    lemma_get_after_set(j, split_on(path, '.'), v);
}

/// Storing along `keys` into an object changes only the member named by the
/// first key: every other member keeps its value. When more keys follow and
/// that member is an object, it becomes that object with the value stored
/// along the remaining keys (so its other members are kept as well).
pub proof fn law_set_keeps_other_members(
    j: Json,
    keys: Seq<Seq<char>>,
    v: Json,
    k: Seq<char>,
    c: Json,
)
    requires
        j is Object,
        keys.len() > 0,
    ensures
        set_keys(j, keys, v) is Object,
        k != keys[0] ==> lookup(set_keys(j, keys, v)->Object_0, k) == lookup(j->Object_0, k),
        keys.len() > 1 && lookup(j->Object_0, keys[0]) == Some(c) && c is Object ==> lookup(
            set_keys(j, keys, v)->Object_0,
            keys[0],
        ) == Some(set_keys(c, keys.drop_first(), v)),
{
    let es = j->Object_0;
    if keys.len() == 1 {
        lemma_insert(es, keys[0], v, k);
    } else {
        let child = match lookup(es, keys[0]) {
            Some(c) => if c is Object {
                c
            } else {
                empty_object()
            },
            None => empty_object(),
        };
        let x = set_keys(child, keys.drop_first(), v);
        lemma_insert(es, keys[0], x, k);
        lemma_insert(es, keys[0], x, keys[0]);
    }
}

/// Storing into a value that is not an object leaves it as it is.
pub proof fn law_set_on_non_object(j: Json, path: Seq<char>, v: Json)
    requires
        !(j is Object),
    ensures
        set_path(j, path, v) == j,
{
}

} // verus!
