use vstd::prelude::*;

use crate::json::{
    empty_object, entries_view, find_entry, find_key, insert, insert_entry, lemma_find_key,
    lemma_find_key_at, lemma_insert, lemma_object_view, lemma_wf_insert, lemma_wf_lookup, lookup,
    unique_keys, well_formed, Json, JsonValue,
};

verus! {

/// `o` deep-merged over `b`: objects merge member by member (in the order of
/// `o`'s members), anything else in `o` replaces what `b` holds.
pub open spec fn deep_merge(b: Json, o: Json) -> Json
    decreases o, 0int,
{
    match b {
        Json::Object(bes) => match o {
            Json::Object(oes) => Json::Object(merge_members(bes, oes, oes.len() as int)),
            _ => o,
        },
        _ => o,
    }
}

/// The members `bes` after the first `n` members of `oes` have been merged in.
pub open spec fn merge_members(
    bes: Seq<(Seq<char>, Json)>,
    oes: Seq<(Seq<char>, Json)>,
    n: int,
) -> Seq<(Seq<char>, Json)>
    decreases oes, n,
{
    if n <= 0 || n > oes.len() {
        bes
    } else {
        let prev = merge_members(bes, oes, n - 1);
        let k = oes[n - 1].0;
        let v = oes[n - 1].1;
        match lookup(prev, k) {
            Some(bv) => if bv is Object && v is Object {
                insert(prev, k, deep_merge(bv, v))
            } else {
                insert(prev, k, v)
            },
            None => insert(prev, k, v),
        }
    }
}

/// What `ConfigMerger::merge` returns: `custom` deep-merged over `base`, or
/// `base` itself when there is no `custom`.
pub open spec fn merged(base: Json, custom: Option<Json>) -> Json {
    match custom {
        Some(c) => deep_merge(base, c),
        None => base,
    }
}

/// `o` deep-merged over `b`.
pub fn deep_merge_exec(b: JsonValue, o: &JsonValue) -> (r: JsonValue)
    ensures
        r@ == deep_merge(b@, o@),
    decreases o,
{
    match b {
        JsonValue::Object(mut bes) => match o {
            JsonValue::Object(oes) => {
                proof {
                    lemma_object_view(bes);
                    lemma_object_view(*oes);
                }
                let ghost bv0 = entries_view(bes@);
                let ghost ov = entries_view(oes@);
                let mut i: usize = 0;
                while i < oes.len()
                    invariant
                        i <= oes.len(),
                        ov == entries_view(oes@),
                        *o == JsonValue::Object(*oes),
                        entries_view(bes@) == merge_members(bv0, ov, i as int),
                    decreases oes.len() - i,
                {
                    let k = &oes[i].0;
                    let v = &oes[i].1;
                    let ghost prev = entries_view(bes@);
                    proof {
                        lemma_find_key(prev, k@);
                    }
                    match find_entry(&bes, k) {
                        Some(idx) => {
                            if bes[idx].1.is_object() && v.is_object() {
                                let (kk, bv) = bes.remove(idx);
                                proof {
                                    vstd::std_specs::vec::axiom_vec_index_decreases(*oes, i as int);
                                    assert(decreases_to!(*o => (*o)->Object_0));
                                    assert(decreases_to!(*o => v));
                                }
                                let m = deep_merge_exec(bv, v);
                                let ghost mv = m@;
                                bes.insert(idx, (kk, m));
                                proof {
                                    assert(entries_view(bes@) =~= prev.update(idx as int, (k@, mv)));
                                }
                            } else {
                                insert_entry(&mut bes, k.clone(), v.deep_copy());
                            }
                        },
                        None => {
                            insert_entry(&mut bes, k.clone(), v.deep_copy());
                        },
                    }
                    i += 1;
                }
                proof {
                    lemma_object_view(bes);
                }
                JsonValue::Object(bes)
            },
            _ => o.deep_copy(),
        },
        _ => o.deep_copy(),
    }
}

/// Zero-sized handle for the deep-merge operation.
pub struct ConfigMerger;

impl ConfigMerger {
    /// Deep-merge `custom` on top of `base` and return a new value: objects
    /// merge recursively, arrays and scalars of `custom` replace those of
    /// `base`, and `custom = None` gives a copy of `base`. Neither input
    /// changes.
    pub fn merge(base: &JsonValue, custom: Option<&JsonValue>) -> (r: JsonValue)
        ensures
            r@ == merged(
                base@,
                match custom {
                    Some(c) => Some(c@),
                    None => None,
                },
            ),
            well_formed(base@) && (custom matches Some(c) ==> well_formed(c@)) ==> well_formed(r@),
    {
        proof {
            if well_formed(base@) && (custom matches Some(c) ==> well_formed(c@)) {
                law_merge_keeps_well_formed(
                    base@,
                    match custom {
                        Some(c) => Some(c@),
                        None => None,
                    },
                );
            }
        }
        let b = base.deep_copy();
        match custom {
            Some(c) => deep_merge_exec(b, c),
            None => b,
        }
    }
}

/// What a merged object holds under a key, given what the base and the
/// override hold there.
pub open spec fn merged_value(b: Option<Json>, o: Option<Json>) -> Option<Json> {
    match o {
        None => b,
        Some(v) => match b {
            Some(bv) => if bv is Object && v is Object {
                Some(deep_merge(bv, v))
            } else {
                Some(v)
            },
            None => Some(v),
        },
    }
}

/// Looking up in a sequence of members with one more member at the end.
pub proof fn lemma_lookup_push(s: Seq<(Seq<char>, Json)>, e: (Seq<char>, Json), k: Seq<char>)
    ensures
        lookup(s.push(e), k) == match lookup(s, k) {
            Some(x) => Some(x),
            None => if e.0 == k {
                Some(e.1)
            } else {
                None
            },
        },
{
    lemma_find_key(s, k);
    let t = s.push(e);
    let i = find_key(s, k);
    if i >= 0 {
        lemma_find_key_at(t, k, i);
    } else if e.0 == k {
        lemma_find_key_at(t, k, s.len() as int);
    } else {
        lemma_find_key_at(t, k, -1);
    }
}

proof fn lemma_merge_prefix(
    bes: Seq<(Seq<char>, Json)>,
    oes: Seq<(Seq<char>, Json)>,
    n: int,
    k: Seq<char>,
)
    requires
        unique_keys(oes),
        0 <= n <= oes.len(),
    ensures
        lookup(merge_members(bes, oes, n), k) == merged_value(lookup(bes, k), lookup(oes.take(n), k)),
        unique_keys(bes) ==> unique_keys(merge_members(bes, oes, n)),
    decreases n,
{
    if n == 0 {
        assert(oes.take(0) =~= Seq::<(Seq<char>, Json)>::empty());
        lemma_find_key(oes.take(0), k);
    } else {
        let kn = oes[n - 1].0;
        let vn = oes[n - 1].1;
        lemma_merge_prefix(bes, oes, n - 1, k);
        lemma_merge_prefix(bes, oes, n - 1, kn);
        let prev = merge_members(bes, oes, n - 1);
        assert(oes.take(n) =~= oes.take(n - 1).push(oes[n - 1]));
        lemma_lookup_push(oes.take(n - 1), oes[n - 1], k);
        lemma_lookup_push(oes.take(n - 1), oes[n - 1], kn);
        lemma_find_key(oes.take(n - 1), kn);
        assert(lookup(oes.take(n - 1), kn) is None) by {
            let i = find_key(oes.take(n - 1), kn);
            if i >= 0 {
                assert(oes[i].0 == oes[n - 1].0);
            }
        }
        let x = match lookup(prev, kn) {
            Some(bv) => if bv is Object && vn is Object {
                deep_merge(bv, vn)
            } else {
                vn
            },
            None => vn,
        };
        assert(merge_members(bes, oes, n) == insert(prev, kn, x));
        lemma_insert(prev, kn, x, k);
    }
}

/// Merging over an object gives, under every key, the deep merge of what
/// both hold when both hold objects there, else what the override holds,
/// else what the base holds (for an override whose keys are distinct).
pub proof fn law_merge_lookup(b: Json, o: Json, k: Seq<char>)
    requires
        b is Object,
        o is Object,
        unique_keys(o->Object_0),
    ensures
        deep_merge(b, o) is Object,
        lookup(deep_merge(b, o)->Object_0, k) == merged_value(
            lookup(b->Object_0, k),
            lookup(o->Object_0, k),
        ),
        unique_keys(b->Object_0) ==> unique_keys(deep_merge(b, o)->Object_0),
{
    let oes = o->Object_0;
    lemma_merge_prefix(b->Object_0, oes, oes.len() as int, k);
    assert(oes.take(oes.len() as int) =~= oes);
}

/// Merging over an object, key by key: a key the override lacks keeps the
/// base's value; a key the override holds gets the override's value, unless
/// both hold objects there, which are merged in turn; no other key appears.
pub proof fn law_merge_per_key(b: Json, o: Json, k: Seq<char>, bv: Json, ov: Json)
    requires
        b is Object,
        o is Object,
        unique_keys(o->Object_0),
    ensures
        lookup(o->Object_0, k) is None ==> lookup(deep_merge(b, o)->Object_0, k) == lookup(
            b->Object_0,
            k,
        ),
        lookup(o->Object_0, k) == Some(ov) && !(lookup(b->Object_0, k) matches Some(x) && x is Object
            && ov is Object) ==> lookup(deep_merge(b, o)->Object_0, k) == Some(ov),
        lookup(o->Object_0, k) == Some(ov) && lookup(b->Object_0, k) == Some(bv) && bv is Object
            && ov is Object ==> lookup(deep_merge(b, o)->Object_0, k) == Some(deep_merge(bv, ov)),
{
    law_merge_lookup(b, o, k);
}

/// Merging nothing over a value gives the value back, and so does merging
/// `{}` over an object.
pub proof fn law_merge_none(b: Json)
    ensures
        merged(b, None) == b,
        b is Object ==> merged(b, Some(empty_object())) == b,
{
}

/// Merging an object over `{}` gives that object back (when its keys are
/// distinct).
pub proof fn law_merge_into_empty(o: Json)
    requires
        o is Object,
        unique_keys(o->Object_0),
    ensures
        merged(empty_object(), Some(o)) == o,
{
    let oes = o->Object_0;
    assert forall|n: int| 0 <= n <= oes.len() implies merge_members(
        Seq::empty(),
        oes,
        n,
    ) == oes.take(n) by {
        lemma_merge_empty_prefix(oes, n);
    }
    assert(oes.take(oes.len() as int) =~= oes);
}

proof fn lemma_merge_empty_prefix(oes: Seq<(Seq<char>, Json)>, n: int)
    requires
        unique_keys(oes),
        0 <= n <= oes.len(),
    ensures
        merge_members(Seq::empty(), oes, n) == oes.take(n),
    decreases n,
{
    if n == 0 {
        assert(oes.take(0) =~= Seq::<(Seq<char>, Json)>::empty());
    } else {
        lemma_merge_empty_prefix(oes, n - 1);
        let kn = oes[n - 1].0;
        let prev = oes.take(n - 1);
        lemma_find_key(prev, kn);
        assert(find_key(prev, kn) == -1) by {
            let i = find_key(prev, kn);
            if i >= 0 {
                assert(oes[i].0 == oes[n - 1].0);
            }
        }
        assert(oes.take(n) =~= prev.push(oes[n - 1]));
    }
}

proof fn lemma_wf_deep_merge(b: Json, o: Json)
    requires
        well_formed(b),
        well_formed(o),
    ensures
        well_formed(deep_merge(b, o)),
    decreases o, 0int,
{
    if let Json::Object(bes) = b {
        if let Json::Object(oes) = o {
            lemma_wf_merge_members(bes, oes, oes.len() as int);
        }
    }
}

proof fn lemma_wf_merge_members(bes: Seq<(Seq<char>, Json)>, oes: Seq<(Seq<char>, Json)>, n: int)
    requires
        well_formed(Json::Object(bes)),
        well_formed(Json::Object(oes)),
    ensures
        well_formed(Json::Object(merge_members(bes, oes, n))),
    decreases oes, n,
{
    if 0 < n <= oes.len() {
        lemma_wf_merge_members(bes, oes, n - 1);
        let prev = merge_members(bes, oes, n - 1);
        let k = oes[n - 1].0;
        let v = oes[n - 1].1;
        crate::json::lemma_members_well_formed(oes, oes.len() as int);
        assert(well_formed(v));
        lemma_wf_lookup(prev, k);
        match lookup(prev, k) {
            Some(bv) => if bv is Object && v is Object {
                lemma_wf_deep_merge(bv, v);
                lemma_wf_insert(prev, k, deep_merge(bv, v));
            } else {
                lemma_wf_insert(prev, k, v);
            },
            None => {
                lemma_wf_insert(prev, k, v);
            },
        }
    }
}

/// Merging well-formed values gives a well-formed value.
pub proof fn law_merge_keeps_well_formed(base: Json, custom: Option<Json>)
    requires
        well_formed(base),
        custom matches Some(c) ==> well_formed(c),
    ensures
        well_formed(merged(base, custom)),
{
    if let Some(c) = custom {
        lemma_wf_deep_merge(base, c);
    }
}

} // verus!
