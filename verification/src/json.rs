use vstd::prelude::*;

verus! {

/// A JSON document as the library holds it: what a parsed YAML or JSON config
/// becomes. Object members keep the order in which they were inserted; a key
/// occurs at most once in a well-formed object (see `well_formed`).
/// A number is held as its decimal text.
#[derive(Debug)]
pub enum JsonValue {
    Null,
    Bool(bool),
    Number(String),
    String(String),
    Array(Vec<JsonValue>),
    Object(Vec<(String, JsonValue)>),
}

/// The mathematical model of a `JsonValue`.
pub enum Json {
    Null,
    Bool(bool),
    Number(Seq<char>),
    String(Seq<char>),
    Array(Seq<Json>),
    Object(Seq<(Seq<char>, Json)>),
}

pub open spec fn model(v: JsonValue) -> Json
    decreases v,
{
    match v {
        JsonValue::Null => Json::Null,
        JsonValue::Bool(b) => Json::Bool(b),
        JsonValue::Number(s) => Json::Number(s@),
        JsonValue::String(s) => Json::String(s@),
        JsonValue::Array(a) => Json::Array(
            Seq::new(
                a.len() as nat,
                |i: int|
                    if 0 <= i < a.len() {
                        proof {
                            broadcast use vstd::std_specs::vec::axiom_vec_index_decreases;
                        }
                        model(a[i])
                    } else {
                        Json::Null
                    },
            ),
        ),
        JsonValue::Object(es) => Json::Object(
            Seq::new(
                es.len() as nat,
                |i: int|
                    if 0 <= i < es.len() {
                        proof {
                            broadcast use vstd::std_specs::vec::axiom_vec_index_decreases;
                        }
                        (es[i].0@, model(es[i].1))
                    } else {
                        (Seq::empty(), Json::Null)
                    },
            ),
        ),
    }
}

impl View for JsonValue {
    type V = Json;

    open spec fn view(&self) -> Json {
        model(*self)
    }
}

/// The models of a sequence of values.
pub open spec fn items_view(a: Seq<JsonValue>) -> Seq<Json> {
    Seq::new(a.len(), |i: int| a[i]@)
}

/// The models of a sequence of object members.
pub open spec fn entries_view(es: Seq<(String, JsonValue)>) -> Seq<(Seq<char>, Json)> {
    Seq::new(es.len(), |i: int| (es[i].0@, es[i].1@))
}

pub proof fn lemma_array_view(a: Vec<JsonValue>)
    ensures
        JsonValue::Array(a)@ == Json::Array(items_view(a@)),
{
    let m = model(JsonValue::Array(a));
    assert(m->Array_0 =~= items_view(a@));
}

pub proof fn lemma_object_view(es: Vec<(String, JsonValue)>)
    ensures
        JsonValue::Object(es)@ == Json::Object(entries_view(es@)),
{
    let m = model(JsonValue::Object(es));
    assert(m->Object_0 =~= entries_view(es@));
}

/// The empty object `{}`.
pub open spec fn empty_object() -> Json {
    Json::Object(Seq::empty())
}

/// Index of the first member of `es` whose key is `k`, or -1.
pub open spec fn find_key(es: Seq<(Seq<char>, Json)>, k: Seq<char>) -> int
    decreases es.len(),
{
    if es.len() == 0 {
        -1
    } else if es[0].0 == k {
        0
    } else {
        let r = find_key(es.drop_first(), k);
        if r < 0 {
            -1
        } else {
            r + 1
        }
    }
}

/// The value stored under `k` in the members `es`.
pub open spec fn lookup(es: Seq<(Seq<char>, Json)>, k: Seq<char>) -> Option<Json> {
    let i = find_key(es, k);
    if 0 <= i < es.len() {
        Some(es[i].1)
    } else {
        None
    }
}

/// The members `es` with `k` bound to `v`: an existing member keeps its place,
/// a new one is appended.
pub open spec fn insert(es: Seq<(Seq<char>, Json)>, k: Seq<char>, v: Json) -> Seq<(Seq<char>, Json)> {
    let i = find_key(es, k);
    if 0 <= i < es.len() {
        es.update(i, (k, v))
    } else {
        es.push((k, v))
    }
}

/// No key occurs twice among the members `es`.
pub open spec fn unique_keys(es: Seq<(Seq<char>, Json)>) -> bool {
    forall|i: int, j: int| 0 <= i < j < es.len() ==> es[i].0 != es[j].0
}

/// Every object inside `j` (`j` itself included) holds each key at most once,
/// as a `serde_json::Map` does.
pub open spec fn well_formed(j: Json) -> bool
    decreases j, 0int,
{
    match j {
        Json::Array(a) => items_well_formed(a, a.len() as int),
        Json::Object(es) => unique_keys(es) && members_well_formed(es, es.len() as int),
        _ => true,
    }
}

/// The first `n` items of `a` are well-formed.
pub open spec fn items_well_formed(a: Seq<Json>, n: int) -> bool
    decreases a, n,
{
    if n <= 0 || n > a.len() {
        true
    } else {
        items_well_formed(a, n - 1) && well_formed(a[n - 1])
    }
}

/// The values of the first `n` members of `es` are well-formed.
pub open spec fn members_well_formed(es: Seq<(Seq<char>, Json)>, n: int) -> bool
    decreases es, n,
{
    if n <= 0 || n > es.len() {
        true
    } else {
        members_well_formed(es, n - 1) && well_formed(es[n - 1].1)
    }
}

/// `items_well_formed` holds exactly when each of the items is well-formed.
pub proof fn lemma_items_well_formed(a: Seq<Json>, n: int)
    requires
        0 <= n <= a.len(),
    ensures
        items_well_formed(a, n) <==> forall|i: int| 0 <= i < n ==> #[trigger] well_formed(a[i]),
    decreases n,
{
    if n > 0 {
        lemma_items_well_formed(a, n - 1);
        if forall|i: int| 0 <= i < n ==> #[trigger] well_formed(a[i]) {
            assert(well_formed(a[n - 1]));
            assert(forall|i: int| 0 <= i < n - 1 ==> #[trigger] well_formed(a[i]));
        }
    }
}

/// `members_well_formed` holds exactly when each of the values is well-formed.
pub proof fn lemma_members_well_formed(es: Seq<(Seq<char>, Json)>, n: int)
    requires
        0 <= n <= es.len(),
    ensures
        members_well_formed(es, n) <==> forall|i: int|
            0 <= i < n ==> #[trigger] well_formed(es[i].1),
    decreases n,
{
    if n > 0 {
        lemma_members_well_formed(es, n - 1);
        if forall|i: int| 0 <= i < n ==> #[trigger] well_formed(es[i].1) {
            assert(well_formed(es[n - 1].1));
            assert(forall|i: int| 0 <= i < n - 1 ==> #[trigger] well_formed(es[i].1));
        }
    }
}

pub proof fn lemma_find_key(es: Seq<(Seq<char>, Json)>, k: Seq<char>)
    ensures
        -1 <= find_key(es, k) < es.len(),
        find_key(es, k) == -1 ==> forall|j: int| 0 <= j < es.len() ==> es[j].0 != k,
        find_key(es, k) >= 0 ==> es[find_key(es, k)].0 == k && forall|j: int|
            0 <= j < find_key(es, k) ==> es[j].0 != k,
    decreases es.len(),
{
    if es.len() > 0 && es[0].0 != k {
        lemma_find_key(es.drop_first(), k);
        assert forall|j: int| 0 < j < es.len() implies es[j].0 == es.drop_first()[j - 1].0 by {}
    }
}

/// `find_key` is characterised by the first matching position.
pub proof fn lemma_find_key_at(es: Seq<(Seq<char>, Json)>, k: Seq<char>, i: int)
    requires
        -1 <= i < es.len(),
        i >= 0 ==> es[i].0 == k,
        forall|j: int| 0 <= j < es.len() && (i < 0 || j < i) ==> es[j].0 != k,
    ensures
        find_key(es, k) == i,
{
    lemma_find_key(es, k);
}

pub proof fn lemma_insert(es: Seq<(Seq<char>, Json)>, k: Seq<char>, v: Json, k2: Seq<char>)
    ensures
        lookup(insert(es, k, v), k2) == if k2 == k {
            Some(v)
        } else {
            lookup(es, k2)
        },
        unique_keys(es) ==> unique_keys(insert(es, k, v)),
{
    lemma_find_key(es, k);
    lemma_find_key(es, k2);
    let r = insert(es, k, v);
    lemma_find_key(r, k2);
    let i = find_key(es, k);
    let i2 = find_key(es, k2);
    if k2 == k {
        lemma_find_key_at(r, k2, if i >= 0 { i } else { es.len() as int });
    } else {
        lemma_find_key_at(r, k2, i2);
    }
}

/// Storing a well-formed value under a key keeps an object well-formed.
pub proof fn lemma_wf_insert(es: Seq<(Seq<char>, Json)>, k: Seq<char>, v: Json)
    requires
        well_formed(Json::Object(es)),
        well_formed(v),
    ensures
        well_formed(Json::Object(insert(es, k, v))),
{
    lemma_insert(es, k, v, k);
    lemma_find_key(es, k);
    let r = insert(es, k, v);
    let f = find_key(es, k);
    lemma_members_well_formed(es, es.len() as int);
    lemma_members_well_formed(r, r.len() as int);
    assert forall|i: int| 0 <= i < r.len() implies #[trigger] well_formed(r[i].1) by {
        if i < es.len() && i != f {
            assert(r[i] == es[i]);
        }
    }
}

/// A member of a well-formed object is well-formed.
pub proof fn lemma_wf_lookup(es: Seq<(Seq<char>, Json)>, k: Seq<char>)
    requires
        well_formed(Json::Object(es)),
    ensures
        lookup(es, k) matches Some(v) ==> well_formed(v),
{
    lemma_find_key(es, k);
    lemma_members_well_formed(es, es.len() as int);
}

impl JsonValue {
    /// A copy of this value with the same model.
    pub fn deep_copy(&self) -> (r: JsonValue)
        ensures
            r@ == self@,
        decreases self,
    {
        match self {
            JsonValue::Null => JsonValue::Null,
            JsonValue::Bool(b) => JsonValue::Bool(*b),
            JsonValue::Number(s) => JsonValue::Number(s.clone()),
            JsonValue::String(s) => JsonValue::String(s.clone()),
            JsonValue::Array(a) => {
                let mut out: Vec<JsonValue> = Vec::new();
                let mut i: usize = 0;
                while i < a.len()
                    invariant
                        i <= a.len(),
                        out.len() == i,
                        forall|j: int| 0 <= j < i ==> out@[j]@ == a@[j]@,
                        *self == JsonValue::Array(*a),
                    decreases a.len() - i,
                {
                    proof {
                        vstd::std_specs::vec::axiom_vec_index_decreases(*a, i as int);
                        assert(*self == JsonValue::Array(*a));
                        assert(decreases_to!(*self => (*self)->Array_0));
                        assert(decreases_to!(*a => a[i as int]));
                        assert(decreases_to!(*self => a[i as int]));
                    }
                    let c = a[i].deep_copy();
                    out.push(c);
                    i += 1;
                }
                proof {
                    lemma_array_view(*a);
                    lemma_array_view(out);
                    assert(items_view(out@) =~= items_view(a@));
                }
                JsonValue::Array(out)
            },
            JsonValue::Object(es) => {
                let mut out: Vec<(String, JsonValue)> = Vec::new();
                let mut i: usize = 0;
                while i < es.len()
                    invariant
                        i <= es.len(),
                        out.len() == i,
                        forall|j: int| 0 <= j < i ==> out@[j].0@ == es@[j].0@ && out@[j].1@ == es@[j].1@,
                        *self == JsonValue::Object(*es),
                    decreases es.len() - i,
                {
                    proof {
                        vstd::std_specs::vec::axiom_vec_index_decreases(*es, i as int);
                        assert(*self == JsonValue::Object(*es));
                        assert(decreases_to!(*self => (*self)->Object_0));
                        assert(decreases_to!(*es => es[i as int]));
                        assert(decreases_to!(es[i as int] => es[i as int].1));
                        assert(decreases_to!(*self => es[i as int].1));
                    }
                    let c = es[i].1.deep_copy();
                    let k = es[i].0.clone();
                    out.push((k, c));
                    i += 1;
                }
                proof {
                    lemma_object_view(*es);
                    lemma_object_view(out);
                    assert(entries_view(out@) =~= entries_view(es@));
                }
                JsonValue::Object(out)
            },
        }
    }

    /// Whether this value is an object.
    pub fn is_object(&self) -> (r: bool)
        ensures
            r == (self@ is Object),
    {
        match self {
            JsonValue::Object(_) => true,
            _ => false,
        }
    }

    /// A fresh empty object.
    pub fn empty_object() -> (r: JsonValue)
        ensures
            r@ == empty_object(),
    {
        let es: Vec<(String, JsonValue)> = Vec::new();
        proof {
            lemma_object_view(es);
            assert(entries_view(es@) =~= Seq::empty());
        }
        JsonValue::Object(es)
    }
}

impl Clone for JsonValue {
    fn clone(&self) -> (r: Self)
        ensures
            r@ == self@,
    {
        self.deep_copy()
    }
}

/// Position of the first member of `es` keyed `k`.
pub fn find_entry(es: &Vec<(String, JsonValue)>, k: &String) -> (r: Option<usize>)
    ensures
        match r {
            Some(i) => i < es.len() && i as int == find_key(entries_view(es@), k@),
            None => find_key(entries_view(es@), k@) == -1,
        },
{
    let ghost ev = entries_view(es@);
    let mut i: usize = 0;
    while i < es.len()
        invariant
            i <= es.len(),
            ev == entries_view(es@),
            forall|j: int| 0 <= j < i ==> ev[j].0 != k@,
        decreases es.len() - i,
    {
        if es[i].0 == *k {
            proof {
                lemma_find_key_at(ev, k@, i as int);
            }
            return Some(i);
        }
        i += 1;
    }
    proof {
        lemma_find_key_at(ev, k@, -1);
    }
    None
}

/// Bind `k` to `v` among the members `es`.
pub fn insert_entry(es: &mut Vec<(String, JsonValue)>, k: String, v: JsonValue)
    ensures
        entries_view(final(es)@) == insert(entries_view(old(es)@), k@, v@),
{
    let ghost ev = entries_view(es@);
    match find_entry(es, &k) {
        Some(i) => {
            let _ = es.remove(i);
            es.insert(i, (k, v));
            proof {
                assert(entries_view(es@) =~= ev.update(i as int, (k@, v@)));
            }
        },
        None => {
            es.push((k, v));
            proof {
                assert(entries_view(es@) =~= ev.push((k@, v@)));
            }
        },
    }
}

} // verus!
