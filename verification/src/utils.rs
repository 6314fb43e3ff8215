use vstd::prelude::*;

use crate::json::{
    empty_object, entries_view, insert, insert_entry, lemma_find_key, lemma_insert,
    lemma_items_well_formed, lemma_members_well_formed, lemma_object_view, lemma_wf_insert, lookup,
    unique_keys, well_formed, Json, JsonValue,
};
use crate::merger::lemma_lookup_push;
use crate::merger::{merged, ConfigMerger};
use crate::nested::{get_nested, get_path, law_paths_keep_well_formed, set_nested, set_path};
use crate::parser::{parse_spec, raw_well_formed, ConfigParser, NacosParser, RawConfig};
use crate::template::{
    chain_limit, law_render_keeps_well_formed, params_settle, params_settle_bounded, render_spec,
    TemplateEngine,
};
use crate::text::{chars_of, is_space, split_on, split_str, trim, trim_str};

verus! {

/// Default fields converted from comma-separated strings to arrays.
pub const DEFAULT_CONVERT_ARRAY_FIELDS: [&'static str; 1] = ["cors.whitelist"];

/// `v` when it is an object, else `{}`.
pub open spec fn object_or_empty(v: Option<Json>) -> Json {
    match v {
        Some(x) => if x is Object {
            x
        } else {
            empty_object()
        },
        None => empty_object(),
    }
}

/// The members `des` with the first `n` members of `ses` stored over them.
pub open spec fn extend_members(
    des: Seq<(Seq<char>, Json)>,
    ses: Seq<(Seq<char>, Json)>,
    n: int,
) -> Seq<(Seq<char>, Json)>
    decreases n,
{
    if n <= 0 || n > ses.len() {
        des
    } else {
        insert(extend_members(des, ses, n - 1), ses[n - 1].0, ses[n - 1].1)
    }
}

/// `dst` with the top-level members of `src` stored over it (when both are
/// objects; otherwise `dst` as it is).
pub open spec fn extend(dst: Json, src: Json) -> Json {
    match dst {
        Json::Object(des) => match src {
            Json::Object(ses) => Json::Object(extend_members(des, ses, ses.len() as int)),
            _ => dst,
        },
        _ => dst,
    }
}

/// The items that a comma-separated string becomes: each piece trimmed.
pub open spec fn split_items(s: Seq<char>) -> Seq<Json> {
    split_on(s, ',').map_values(|p: Seq<char>| Json::String(trim(p)))
}

/// `j` with the string at `path`, when it holds a comma, split into an array.
pub open spec fn convert_field(j: Json, path: Seq<char>) -> Json {
    match get_path(j, path) {
        Some(v) => match v {
            Json::String(s) => if s.contains(',') {
                set_path(j, path, Json::Array(split_items(s)))
            } else {
                j
            },
            _ => j,
        },
        None => j,
    }
}

/// `j` with every path of `paths` converted, in order.
pub open spec fn convert_fields(j: Json, paths: Seq<Seq<char>>) -> Json
    decreases paths.len(),
{
    if paths.len() == 0 {
        j
    } else {
        convert_fields(convert_field(j, paths[0]), paths.drop_first())
    }
}

/// The views of a slice of paths.
pub open spec fn paths_view(paths: Seq<&str>) -> Seq<Seq<char>> {
    paths.map_values(|p: &str| p@)
}

/// The paths in effect: the given ones, or the default list.
pub open spec fn effective_paths(fields: Option<&[&str]>) -> Seq<Seq<char>> {
    match fields {
        Some(f) => paths_view(f@),
        None => paths_view(DEFAULT_CONVERT_ARRAY_FIELDS@),
    }
}

/// The context that `process_configuration` renders against.
pub open spec fn processing_context(parsed: Json, external_vars: Option<Json>) -> Json {
    extend(object_or_empty(external_vars), parsed)
}

/// What `process_configuration` returns.
pub open spec fn process_spec(
    parsed: Json,
    external_vars: Option<Json>,
    paths: Seq<Seq<char>>,
) -> Json {
    convert_fields(render_spec(parsed, processing_context(parsed, external_vars)), paths)
}

/// The variables that a custom config is processed with: `base` over the
/// external variables.
pub open spec fn merge_context(base: Json, external_vars: Option<Json>) -> Json {
    extend(object_or_empty(external_vars), base)
}

/// No variables, or well-formed ones.
pub open spec fn vars_well_formed(v: Option<&JsonValue>) -> bool {
    match v {
        Some(x) => well_formed(x@),
        None => true,
    }
}

pub open spec fn opt_view(v: Option<&JsonValue>) -> Option<Json> {
    match v {
        Some(x) => Some(x@),
        None => None,
    }
}

/// `v` when it is an object, else `{}`.
fn object_or_empty_exec(v: Option<&JsonValue>) -> (r: JsonValue)
    ensures
        r@ == object_or_empty(opt_view(v)),
{
    match v {
        Some(x) => {
            if x.is_object() {
                x.deep_copy()
            } else {
                JsonValue::empty_object()
            }
        },
        None => JsonValue::empty_object(),
    }
}

/// Store the top-level members of `src` over `dst`.
pub(crate) fn shallow_extend(dst: JsonValue, src: &JsonValue) -> (r: JsonValue)
    ensures
        r@ == extend(dst@, src@),
{
    match dst {
        JsonValue::Object(mut des) => match src {
            JsonValue::Object(ses) => {
                proof {
                    lemma_object_view(des);
                    lemma_object_view(*ses);
                }
                let ghost d0 = entries_view(des@);
                let ghost sv = entries_view(ses@);
                let mut i: usize = 0;
                while i < ses.len()
                    invariant
                        i <= ses.len(),
                        sv == entries_view(ses@),
                        entries_view(des@) == extend_members(d0, sv, i as int),
                    decreases ses.len() - i,
                {
                    insert_entry(&mut des, ses[i].0.clone(), ses[i].1.deep_copy());
                    i += 1;
                }
                proof {
                    lemma_object_view(des);
                }
                JsonValue::Object(des)
            },
            _ => JsonValue::Object(des),
        },
        _ => dst,
    }
}

/// Whether `s` holds the character `c`.
fn has_char(s: &str, c: char) -> (r: bool)
    ensures
        r == s@.contains(c),
{
    let cs = chars_of(s);
    let mut i: usize = 0;
    while i < cs.len()
        invariant
            i <= cs.len(),
            cs@ == s@,
            forall|k: int| 0 <= k < i ==> s@[k] != c,
        decreases cs.len() - i,
    {
        if cs[i] == c {
            return true;
        }
        i += 1;
    }
    false
}

/// The trimmed comma-separated pieces of `s` as string values.
fn split_items_exec(s: &str) -> (r: JsonValue)
    ensures
        r@ == Json::Array(split_items(s@)),
{
    let pieces = split_str(s, ',');
    let mut out: Vec<JsonValue> = Vec::new();
    let mut i: usize = 0;
    while i < pieces.len()
        invariant
            i <= pieces.len(),
            pieces@.len() == split_on(s@, ',').len(),
            forall|k: int| 0 <= k < pieces@.len() ==> pieces@[k]@ == split_on(s@, ',')[k],
            out@.len() == i,
            forall|k: int| 0 <= k < i ==> out@[k]@ == Json::String(trim(split_on(s@, ',')[k])),
        decreases pieces.len() - i,
    {
        let t = trim_str(pieces[i].as_str());
        out.push(JsonValue::String(t));
        i += 1;
    }
    let r = JsonValue::Array(out);
    proof {
        crate::json::lemma_array_view(out);
        assert(crate::json::items_view(out@) =~= split_items(s@));
    }
    r
}

/// `config` with the string at `path` split into an array when it holds a comma.
fn convert_field_exec(config: JsonValue, path: &str) -> (r: JsonValue)
    ensures
        r@ == convert_field(config@, path@),
{
    let converted = match get_nested(&config, path) {
        Some(JsonValue::String(s)) => {
            if has_char(s.as_str(), ',') {
                Some(split_items_exec(s.as_str()))
            } else {
                None
            }
        },
        _ => None,
    };
    match converted {
        Some(arr) => {
            let mut result = config;
            set_nested(&mut result, path, arr);
            result
        },
        None => config,
    }
}

pub(crate) proof fn lemma_extend_prefix(
    des: Seq<(Seq<char>, Json)>,
    ses: Seq<(Seq<char>, Json)>,
    n: int,
    k: Seq<char>,
)
    requires
        unique_keys(ses),
        0 <= n <= ses.len(),
    ensures
        lookup(extend_members(des, ses, n), k) == match lookup(ses.take(n), k) {
            Some(v) => Some(v),
            None => lookup(des, k),
        },
    decreases n,
{
    if n == 0 {
        assert(ses.take(0) =~= Seq::<(Seq<char>, Json)>::empty());
        lemma_find_key(ses.take(0), k);
    } else {
        lemma_extend_prefix(des, ses, n - 1, k);
        assert(ses.take(n) =~= ses.take(n - 1).push(ses[n - 1]));
        lemma_lookup_push(ses.take(n - 1), ses[n - 1], k);
        lemma_insert(extend_members(des, ses, n - 1), ses[n - 1].0, ses[n - 1].1, k);
        if ses[n - 1].0 == k {
            lemma_find_key(ses.take(n - 1), k);
            let i = crate::json::find_key(ses.take(n - 1), k);
            if i >= 0 {
                assert(ses[i].0 == ses[n - 1].0);
            }
        }
    }
}

/// The context a config is processed with: the config's own top-level
/// members win over the external variables.
pub proof fn law_parsed_wins(parsed: Json, external_vars: Option<Json>, k: Seq<char>)
    requires
        parsed is Object,
        unique_keys(parsed->Object_0),
    ensures
        processing_context(parsed, external_vars) is Object,
        lookup(processing_context(parsed, external_vars)->Object_0, k) == match lookup(
            parsed->Object_0,
            k,
        ) {
            Some(v) => Some(v),
            None => lookup(object_or_empty(external_vars)->Object_0, k),
        },
{
    let ses = parsed->Object_0;
    lemma_extend_prefix(object_or_empty(external_vars)->Object_0, ses, ses.len() as int, k);
    assert(ses.take(ses.len() as int) =~= ses);
}

/// The variables a custom config is processed with: the base config's own
/// top-level members win over the external variables.
pub proof fn law_base_wins(base: Json, external_vars: Option<Json>, k: Seq<char>)
    requires
        base is Object,
        unique_keys(base->Object_0),
    ensures
        merge_context(base, external_vars) is Object,
        lookup(merge_context(base, external_vars)->Object_0, k) == match lookup(
            base->Object_0,
            k,
        ) {
            Some(v) => Some(v),
            None => lookup(object_or_empty(external_vars)->Object_0, k),
        },
{
    law_parsed_wins(base, external_vars, k);
}

proof fn lemma_wf_extend_members(des: Seq<(Seq<char>, Json)>, ses: Seq<(Seq<char>, Json)>, n: int)
    requires
        well_formed(Json::Object(des)),
        well_formed(Json::Object(ses)),
    ensures
        well_formed(Json::Object(extend_members(des, ses, n))),
    decreases n,
{
    if 0 < n <= ses.len() {
        lemma_wf_extend_members(des, ses, n - 1);
        lemma_members_well_formed(ses, ses.len() as int);
        assert(well_formed(ses[n - 1].1));
        lemma_wf_insert(extend_members(des, ses, n - 1), ses[n - 1].0, ses[n - 1].1);
    }
}

pub(crate) proof fn lemma_wf_extend(dst: Json, src: Json)
    requires
        well_formed(dst),
        well_formed(src),
    ensures
        well_formed(extend(dst, src)),
{
    if let Json::Object(des) = dst {
        if let Json::Object(ses) = src {
            lemma_wf_extend_members(des, ses, ses.len() as int);
        }
    }
}

proof fn lemma_wf_convert_fields(j: Json, paths: Seq<Seq<char>>)
    requires
        well_formed(j),
    ensures
        well_formed(convert_fields(j, paths)),
    decreases paths.len(),
{
    if paths.len() > 0 {
        let path = paths[0];
        if let Some(Json::String(s)) = get_path(j, path) {
            let items = split_items(s);
            lemma_items_well_formed(items, items.len() as int);
            assert(well_formed(Json::Array(items)));
            law_paths_keep_well_formed(j, path, Json::Array(items));
        }
        lemma_wf_convert_fields(convert_field(j, path), paths.drop_first());
    }
}

/// A key found after extending was in `dst` or is the key of a member of `src`.
pub(crate) proof fn lemma_extend_keys(des: Seq<(Seq<char>, Json)>, ses: Seq<(Seq<char>, Json)>, n: int, k: Seq<char>)
    requires
        0 <= n <= ses.len(),
        lookup(extend_members(des, ses, n), k) is Some,
    ensures
        lookup(des, k) is Some || lookup(ses, k) is Some,
    decreases n,
{
    if n > 0 {
        let prev = extend_members(des, ses, n - 1);
        lemma_insert(prev, ses[n - 1].0, ses[n - 1].1, k);
        lemma_find_key(ses, k);
        if ses[n - 1].0 != k {
            lemma_extend_keys(des, ses, n - 1, k);
        }
    }
}

/// The items a comma-separated string becomes: one per comma-separated
/// piece, in order, each a string that is its piece with only the leading
/// and trailing white space removed (white space inside is kept).
pub proof fn law_split_items_trimmed(s: Seq<char>)
    ensures
        split_items(s).len() == split_on(s, ',').len(),
        forall|i: int|
            0 <= i < split_on(s, ',').len() ==> {
                let p = split_on(s, ',')[i];
                &&& #[trigger] split_items(s)[i] is String
                &&& exists|a: int, b: int|
                    {
                        &&& 0 <= a <= b <= p.len()
                        &&& split_items(s)[i]->String_0 == #[trigger] p.subrange(a, b)
                        &&& forall|m: int| 0 <= m < a ==> is_space(#[trigger] p[m])
                        &&& forall|m: int| b <= m < p.len() ==> is_space(#[trigger] p[m])
                        &&& a < b ==> !is_space(p[a]) && !is_space(p[b - 1])
                    }
            },
{
    assert forall|i: int| 0 <= i < split_on(s, ',').len() implies {
        let p = split_on(s, ',')[i];
        &&& #[trigger] split_items(s)[i] is String
        &&& exists|a: int, b: int|
            {
                &&& 0 <= a <= b <= p.len()
                &&& split_items(s)[i]->String_0 == #[trigger] p.subrange(a, b)
                &&& forall|m: int| 0 <= m < a ==> is_space(#[trigger] p[m])
                &&& forall|m: int| b <= m < p.len() ==> is_space(#[trigger] p[m])
                &&& a < b ==> !is_space(p[a]) && !is_space(p[b - 1])
            }
    } by {
        let p = split_on(s, ',')[i];
        let ab = crate::text::lemma_trim_bounds(p);
        assert(split_items(s)[i] == Json::String(trim(p)));
        assert(split_items(s)[i]->String_0 == p.subrange(ab.0, ab.1));
    }
}

/// Conversion changes nothing when the field is missing, is not a string, or
/// is a string without a comma.
pub proof fn law_convert_field_keeps_others(j: Json, path: Seq<char>)
    ensures
        !(get_path(j, path) matches Some(Json::String(s)) && s.contains(',')) ==> convert_field(
            j,
            path,
        ) == j,
{
}

/// After conversion, a field that held a string with a comma holds the
/// trimmed comma-separated pieces of that string.
pub proof fn law_convert_field_reads_back(j: Json, path: Seq<char>, s: Seq<char>)
    requires
        get_path(j, path) == Some(Json::String(s)),
        s.contains(','),
    ensures
        get_path(convert_field(j, path), path) == Some(Json::Array(split_items(s))),
{
    crate::text::lemma_split_on_len(path, '.');
    assert(j is Object);
    crate::nested::law_get_after_set(j, path, Json::Array(split_items(s)));
}

/// Processing a well-formed config with well-formed external variables gives
/// a well-formed config.
pub proof fn law_process_keeps_well_formed(
    parsed: Json,
    external_vars: Option<Json>,
    paths: Seq<Seq<char>>,
)
    requires
        well_formed(parsed),
        external_vars matches Some(e) ==> well_formed(e),
    ensures
        well_formed(processing_context(parsed, external_vars)),
        well_formed(process_spec(parsed, external_vars, paths)),
{
    let ctx = processing_context(parsed, external_vars);
    lemma_wf_extend(object_or_empty(external_vars), parsed);
    law_render_keeps_well_formed(parsed, ctx);
    lemma_wf_convert_fields(render_spec(parsed, ctx), paths);
}

/// Zero-sized handle for the high-level config processing operations.
pub struct NacosConfigUtils;

impl NacosConfigUtils {
    /// Parse a config, render `${VAR}` templates against `external_vars` and
    /// the parsed config itself (the parsed config wins), then convert
    /// comma-separated fields to arrays. `external_vars = None` means `{}`;
    /// `convert_array_fields = None` means `DEFAULT_CONVERT_ARRAY_FIELDS`.
    pub fn process_configuration(
        raw_config: RawConfig,
        fmt: NacosParser,
        external_vars: Option<&JsonValue>,
        convert_array_fields: Option<&[&str]>,
    ) -> (r: JsonValue)
        requires
            params_settle(
                parse_spec(raw_config, fmt),
                processing_context(parse_spec(raw_config, fmt), opt_view(external_vars)),
            ),
        ensures
            r@ == process_spec(
                parse_spec(raw_config, fmt),
                opt_view(external_vars),
                effective_paths(convert_array_fields),
            ),
            raw_well_formed(raw_config) && vars_well_formed(external_vars) ==> well_formed(r@),
    {
        let ghost raw_wf = raw_well_formed(raw_config);
        let parsed = ConfigParser::parse(raw_config, fmt);
        proof {
            if raw_wf && vars_well_formed(external_vars) {
                law_process_keeps_well_formed(
                    parsed@,
                    opt_view(external_vars),
                    effective_paths(convert_array_fields),
                );
            }
        }
        let context = shallow_extend(object_or_empty_exec(external_vars), &parsed);
        let rendered = TemplateEngine::render(&parsed, &context);
        match convert_array_fields {
            Some(f) => Self::convert_string_fields_to_arrays(rendered, f),
            None => {
                let d = DEFAULT_CONVERT_ARRAY_FIELDS;
                Self::convert_string_fields_to_arrays(rendered, d.as_slice())
            },
        }
    }

    /// `process_configuration` for any input: `None` when some template
    /// parameter does not resolve to rest within `chain_limit()` rounds (a
    /// chain that repeats a value is found out early).
    pub fn process_configuration_checked(
        raw_config: RawConfig,
        fmt: NacosParser,
        external_vars: Option<&JsonValue>,
        convert_array_fields: Option<&[&str]>,
    ) -> (r: Option<JsonValue>)
        ensures
            r is Some <==> params_settle_bounded(parse_spec(raw_config, fmt), processing_context(parse_spec(raw_config, fmt), opt_view(external_vars))),
            r matches Some(x) ==> x@ == process_spec(
                parse_spec(raw_config, fmt),
                opt_view(external_vars),
                effective_paths(convert_array_fields),
            ),
            r matches Some(x) ==> (raw_well_formed(raw_config) && vars_well_formed(external_vars)
                ==> well_formed(x@)),
    {
        let ghost raw_wf = raw_well_formed(raw_config);
        let parsed = ConfigParser::parse(raw_config, fmt);
        let context = shallow_extend(object_or_empty_exec(external_vars), &parsed);
        if !TemplateEngine::params_settle_within_exec(&parsed, &context) {
            return None;
        }
        proof {
            crate::template::lemma_settle_within_settles(parsed@, context@, chain_limit());
            assert(raw_wf ==> raw_well_formed(RawConfig::Value(parsed)));
        }
        Some(Self::process_configuration(RawConfig::Value(parsed), NacosParser::Json, external_vars, convert_array_fields))
    }

    /// Process a custom config (which may refer to the variables of
    /// `base_config`) and deep-merge it on top of `base_config`.
    pub fn process_and_merge_custom_config(
        base_config: &JsonValue,
        custom_config: RawConfig,
        fmt: NacosParser,
        external_vars: Option<&JsonValue>,
        convert_array_fields: Option<&[&str]>,
    ) -> (r: JsonValue)
        requires
            params_settle(
                parse_spec(custom_config, fmt),
                processing_context(
                    parse_spec(custom_config, fmt),
                    Some(merge_context(base_config@, opt_view(external_vars))),
                ),
            ),
        ensures
            r@ == merged(
                base_config@,
                Some(
                    process_spec(
                        parse_spec(custom_config, fmt),
                        Some(merge_context(base_config@, opt_view(external_vars))),
                        effective_paths(convert_array_fields),
                    ),
                ),
            ),
            raw_well_formed(custom_config) && well_formed(base_config@) && vars_well_formed(
                external_vars,
            ) ==> well_formed(r@),
    {
        let merged_vars = shallow_extend(object_or_empty_exec(external_vars), base_config);
        proof {
            if well_formed(base_config@) && vars_well_formed(external_vars) {
                lemma_wf_extend(object_or_empty(opt_view(external_vars)), base_config@);
            }
        }
        let processed = Self::process_configuration(
            custom_config,
            fmt,
            Some(&merged_vars),
            convert_array_fields,
        );
        ConfigMerger::merge(base_config, Some(&processed))
    }

    /// `process_and_merge_custom_config` for any input: `None` when some
    /// template parameter of the custom config does not resolve to rest within
    /// `chain_limit()` rounds (a chain that repeats a value is found out
    /// early).
    pub fn process_and_merge_custom_config_checked(
        base_config: &JsonValue,
        custom_config: RawConfig,
        fmt: NacosParser,
        external_vars: Option<&JsonValue>,
        convert_array_fields: Option<&[&str]>,
    ) -> (r: Option<JsonValue>)
        ensures
            r is Some <==> params_settle_bounded(parse_spec(custom_config, fmt), processing_context(
                    parse_spec(custom_config, fmt),
                    Some(merge_context(base_config@, opt_view(external_vars))),
                )),
            r matches Some(x) ==> x@ == merged(
                base_config@,
                Some(
                    process_spec(
                        parse_spec(custom_config, fmt),
                        Some(merge_context(base_config@, opt_view(external_vars))),
                        effective_paths(convert_array_fields),
                    ),
                ),
            ),
            r matches Some(x) ==> (raw_well_formed(custom_config) && well_formed(base_config@)
                && vars_well_formed(external_vars) ==> well_formed(x@)),
    {
        let ghost raw_wf = raw_well_formed(custom_config);
        let parsed = ConfigParser::parse(custom_config, fmt);
        let merged_vars = shallow_extend(object_or_empty_exec(external_vars), base_config);
        let context = shallow_extend(merged_vars.deep_copy(), &parsed);
        if !TemplateEngine::params_settle_within_exec(&parsed, &context) {
            return None;
        }
        proof {
            crate::template::lemma_settle_within_settles(parsed@, context@, chain_limit());
            assert(raw_wf ==> raw_well_formed(RawConfig::Value(parsed)));
        }
        Some(
            Self::process_and_merge_custom_config(
                base_config,
                RawConfig::Value(parsed),
                NacosParser::Json,
                external_vars,
                convert_array_fields,
            ),
        )
    }

    /// Deep-merge `custom` on top of `base` (as `ConfigMerger::merge` does).
    pub fn merge_configurations(base: &JsonValue, custom: Option<&JsonValue>) -> (r: JsonValue)
        ensures
            r@ == merged(base@, opt_view(custom)),
            well_formed(base@) && vars_well_formed(custom) ==> well_formed(r@),
    {
        ConfigMerger::merge(base, custom)
    }

    /// Whether `text` contains a `${...}` placeholder.
    pub fn contains_template(text: &str) -> (r: bool)
        ensures
            r == crate::template::has_placeholder(text@),
    {
        TemplateEngine::contains_template(text)
    }

    /// For each dot-path, if the value there is a string holding a comma,
    /// split it into an array of trimmed strings. Returns the new value.
    pub fn convert_string_fields_to_arrays(config: JsonValue, field_paths: &[&str]) -> (r: JsonValue)
        ensures
            r@ == convert_fields(config@, paths_view(field_paths@)),
            well_formed(config@) ==> well_formed(r@),
    {
        proof {
            if well_formed(config@) {
                lemma_wf_convert_fields(config@, paths_view(field_paths@));
            }
        }
        let ghost ps = paths_view(field_paths@);
        let ghost c0 = config@;
        let mut result = config;
        let mut i: usize = 0;
        assert(ps.skip(0) =~= ps);
        while i < field_paths.len()
            invariant
                i <= field_paths.len(),
                ps == paths_view(field_paths@),
                convert_fields(result@, ps.skip(i as int)) == convert_fields(c0, ps),
            decreases field_paths.len() - i,
        {
            assert(ps.skip(i as int)[0] == field_paths@[i as int]@);
            assert(ps.skip(i as int).drop_first() =~= ps.skip(i + 1));
            result = convert_field_exec(result, field_paths[i]);
            i += 1;
        }
        assert(ps.skip(i as int) =~= Seq::<Seq<char>>::empty());
        result
    }

    /// The value at a dot-path (an owned copy).
    pub fn get_nested_property(obj: &JsonValue, path: &str) -> (r: Option<JsonValue>)
        ensures
            match r {
                Some(x) => get_path(obj@, path@) == Some(x@),
                None => get_path(obj@, path@) is None,
            },
            r matches Some(x) ==> (well_formed(obj@) ==> well_formed(x@)),
    {
        proof {
            if well_formed(obj@) {
                law_paths_keep_well_formed(obj@, path@, obj@);
            }
        }
        match get_nested(obj, path) {
            Some(v) => Some(v.deep_copy()),
            None => None,
        }
    }

    /// Store a value at a dot-path, creating intermediate objects.
    pub fn set_nested_property(obj: &mut JsonValue, path: &str, value: JsonValue)
        ensures
            final(obj)@ == set_path(old(obj)@, path@, value@),
            well_formed(old(obj)@) && well_formed(value@) ==> well_formed(final(obj)@),
    {
        proof {
            if well_formed(old(obj)@) && well_formed(value@) {
                law_paths_keep_well_formed(old(obj)@, path@, value@);
            }
        }
        set_nested(obj, path, value);
    }
}

} // verus!
