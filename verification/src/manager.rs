use vstd::prelude::*;

use crate::error::ConfigError;
use crate::json::{
    empty_object, insert, insert_entry, lemma_object_view, lemma_wf_insert, lookup, unique_keys,
    well_formed, Json, JsonValue,
};
use crate::merger::merged;
use crate::parser::{parse_text_spec, ConfigParser, NacosParser, RawConfig};
use crate::template::params_settle_bounded;
use crate::text::{ends_with, owned, str_ends_with, strs};
use crate::utils::{
    effective_paths, extend, lemma_wf_extend, merge_context, process_spec, processing_context,
    NacosConfigUtils,
};

verus! {

/// Connection parameters for a Nacos server.
#[derive(Clone, Debug)]
pub struct NacosConnection {
    pub server_addr: String,
    pub namespace: String,
    pub username: String,
    pub password: String,
    /// Transport for config fetch. `true` = gRPC (Nacos 2.x default);
    /// `false` = HTTP over `server_addr`.
    pub use_grpc: bool,
}

impl Default for NacosConnection {
    fn default() -> (r: Self)
        ensures
            r.server_addr@.len() == 0,
            r.namespace@.len() == 0,
            r.username@.len() == 0,
            r.password@.len() == 0,
            r.use_grpc,
    {
        NacosConnection {
            server_addr: String::new(),
            namespace: String::new(),
            username: String::new(),
            password: String::new(),
            use_grpc: true,
        }
    }
}

/// A reference to one config entry (`data_id` within a `group`).
#[derive(Clone, Debug)]
pub struct ConfigRef {
    pub data_id: String,
    pub group: String,
}

impl ConfigRef {
    pub fn new(data_id: &str, group: &str) -> (r: Self)
        ensures
            r.data_id@ == data_id@,
            r.group@ == group@,
    {
        ConfigRef { data_id: owned(data_id), group: owned(group) }
    }
}

/// Result of a config fetch. `raw` is populated only when `debug` is asked for.
#[derive(Debug)]
pub struct NacosConfigResult {
    pub config: JsonValue,
    pub raw: Option<JsonValue>,
}

/// The format of a config entry, by its data id: `.json` means JSON,
/// anything else YAML.
pub fn determine_format(data_id: &str) -> (r: NacosParser)
    ensures
        r == if ends_with(data_id@, ".json"@) {
            NacosParser::Json
        } else {
            NacosParser::Yaml
        },
{
    if str_ends_with(data_id, ".json") {
        NacosParser::Json
    } else {
        NacosParser::Yaml
    }
}

/// An override config is fetched when one is given with a non-empty data id.
pub fn needs_override(override_config: Option<&ConfigRef>) -> (r: bool)
    ensures
        r == match override_config {
            Some(c) => c.data_id@.len() > 0,
            None => false,
        },
{
    match override_config {
        Some(c) => !c.data_id.as_str().is_empty(),
        None => false,
    }
}

/// No value, or a well-formed one.
pub open spec fn opt_well_formed(v: Option<JsonValue>) -> bool {
    match v {
        Some(x) => well_formed(x@),
        None => true,
    }
}

pub open spec fn opt_json(v: Option<JsonValue>) -> Option<Json> {
    match v {
        Some(x) => Some(x@),
        None => None,
    }
}

/// The variable context of the fetched base configs: each parsed as YAML
/// and stored, top-level member by member, over the ones before (the last
/// wins).
pub open spec fn base_variables(contents: Seq<Seq<char>>, n: int) -> Json
    decreases n,
{
    if n <= 0 || n > contents.len() {
        empty_object()
    } else {
        extend(base_variables(contents, n - 1), parse_text_spec(contents[n - 1], NacosParser::Yaml))
    }
}

/// The config that gets processed: the last fetched one, parsed as YAML.
pub open spec fn last_config(contents: Seq<Seq<char>>) -> Json {
    parse_text_spec(
        if contents.len() > 0 {
            contents.last()
        } else {
            Seq::empty()
        },
        NacosParser::Yaml,
    )
}

/// The variables with `DEPLOY_ENV` set to the namespace.
pub open spec fn deployment_variables(vars: Json, namespace: Seq<char>) -> Json {
    match vars {
        Json::Object(es) => Json::Object(insert(es, "DEPLOY_ENV"@, Json::String(namespace))),
        _ => vars,
    }
}

proof fn lemma_base_variables_object(contents: Seq<Seq<char>>, n: int)
    ensures
        base_variables(contents, n) is Object,
    decreases n,
{
    if n > 0 && n <= contents.len() {
        lemma_base_variables_object(contents, n - 1);
    }
}

/// The variables a fetched config is rendered with hold `DEPLOY_ENV`, bound
/// to the namespace.
pub proof fn law_deploy_env(contents: Seq<Seq<char>>, namespace: Seq<char>)
    ensures
        deployment_variables(base_variables(contents, contents.len() as int), namespace) is Object,
        lookup(
            deployment_variables(base_variables(contents, contents.len() as int), namespace)->Object_0,
            "DEPLOY_ENV"@,
        ) == Some(Json::String(namespace)),
{
    lemma_base_variables_object(contents, contents.len() as int);
    let es = base_variables(contents, contents.len() as int)->Object_0;
    crate::json::lemma_insert(es, "DEPLOY_ENV"@, Json::String(namespace), "DEPLOY_ENV"@);
}

/// The processed config and the variables it was rendered with.
/// `j` is an object with a member keyed `k`.
pub open spec fn holds_key(j: Json, k: Seq<char>) -> bool {
    j is Object && lookup(j->Object_0, k) is Some
}

/// The raw variables of the fetched base configs hold a key only when one of
/// those configs, parsed as YAML, holds it at its top level: `DEPLOY_ENV`,
/// for one, is there only when a base config sets it.
pub proof fn law_raw_keys_from_bases(contents: Seq<Seq<char>>, k: Seq<char>)
    ensures
        base_variables(contents, contents.len() as int) is Object,
        holds_key(base_variables(contents, contents.len() as int), k) ==> exists|i: int|
            0 <= i < contents.len() && #[trigger] holds_key(
                parse_text_spec(contents[i], NacosParser::Yaml),
                k,
            ),
{
    lemma_raw_keys(contents, contents.len() as int, k);
}

/// The raw variables map each key to its value in the last fetched base
/// config that holds it (the last one wins): when the config at `j` holds
/// `k` and none after it does, the raw variables hold that config's value
/// for `k` (each config holding each key once, as a parsed document does).
pub proof fn law_raw_last_wins(contents: Seq<Seq<char>>, k: Seq<char>, j: int)
    requires
        0 <= j < contents.len(),
        forall|i: int|
            0 <= i < contents.len() ==> unique_keys(
                (#[trigger] parse_text_spec(contents[i], NacosParser::Yaml))->Object_0,
            ),
        holds_key(parse_text_spec(contents[j], NacosParser::Yaml), k),
        forall|i: int|
            j < i < contents.len() ==> !holds_key(
                #[trigger] parse_text_spec(contents[i], NacosParser::Yaml),
                k,
            ),
    ensures
        lookup(base_variables(contents, contents.len() as int)->Object_0, k) == lookup(
            parse_text_spec(contents[j], NacosParser::Yaml)->Object_0,
            k,
        ),
{
    lemma_last_wins(contents, k, j, contents.len() as int);
}

proof fn lemma_last_wins(contents: Seq<Seq<char>>, k: Seq<char>, j: int, n: int)
    requires
        0 <= j < n <= contents.len(),
        forall|i: int|
            0 <= i < contents.len() ==> unique_keys(
                (#[trigger] parse_text_spec(contents[i], NacosParser::Yaml))->Object_0,
            ),
        holds_key(parse_text_spec(contents[j], NacosParser::Yaml), k),
        forall|i: int|
            j < i < contents.len() ==> !holds_key(
                #[trigger] parse_text_spec(contents[i], NacosParser::Yaml),
                k,
            ),
    ensures
        lookup(base_variables(contents, n)->Object_0, k) == lookup(
            parse_text_spec(contents[j], NacosParser::Yaml)->Object_0,
            k,
        ),
    decreases n,
{
    lemma_base_variables_object(contents, n - 1);
    let prev = base_variables(contents, n - 1);
    let p = parse_text_spec(contents[n - 1], NacosParser::Yaml);
    assert(p is Object);
    let ses = p->Object_0;
    assert(unique_keys(ses));
    crate::utils::lemma_extend_prefix(prev->Object_0, ses, ses.len() as int, k);
    assert(ses.take(ses.len() as int) =~= ses);
    if n - 1 > j {
        assert(!holds_key(p, k));
        lemma_last_wins(contents, k, j, n - 1);
    }
}

proof fn lemma_raw_keys(contents: Seq<Seq<char>>, n: int, k: Seq<char>)
    requires
        0 <= n <= contents.len(),
    ensures
        base_variables(contents, n) is Object,
        holds_key(base_variables(contents, n), k) ==> exists|i: int|
            0 <= i < n && #[trigger] holds_key(parse_text_spec(contents[i], NacosParser::Yaml), k),
    decreases n,
{
    lemma_base_variables_object(contents, n);
    if n > 0 {
        lemma_raw_keys(contents, n - 1, k);
        let prev = base_variables(contents, n - 1);
        let p = parse_text_spec(contents[n - 1], NacosParser::Yaml);
        assert(p is Object);
        if holds_key(base_variables(contents, n), k) {
            let ses = p->Object_0;
            crate::utils::lemma_extend_keys(prev->Object_0, ses, ses.len() as int, k);
            if lookup(ses, k) is Some {
                assert(holds_key(parse_text_spec(contents[n - 1], NacosParser::Yaml), k));
            } else {
                let i = choose|i: int|
                    0 <= i < n - 1 && #[trigger] holds_key(
                        parse_text_spec(contents[i], NacosParser::Yaml),
                        k,
                    );
                assert(holds_key(parse_text_spec(contents[i], NacosParser::Yaml), k));
            }
        }
    }
}

pub struct BaseStage {
    pub config: JsonValue,
    pub external_vars: JsonValue,
}

/// The model of a `ManagerCache`: the cached config and the raw variables.
pub struct CacheView {
    pub config: Option<Json>,
    pub raw: Option<Json>,
}

/// What happens to a config manager's cache.
pub enum CacheEvent {
    /// Base configs with these contents were fetched for this namespace.
    Bases(Seq<Seq<char>>, Seq<char>),
    /// A fetch finished with this config.
    Finish(Json),
    /// A change event brought this content.
    Change(Seq<char>),
    /// The cache was cleared.
    Clear,
    /// The cache was read (`cached`, `raw_config`, `result`).
    Read,
}

/// The cache after one event.
pub open spec fn cache_step(s: CacheView, e: CacheEvent) -> CacheView {
    match e {
        CacheEvent::Bases(contents, _) => CacheView {
            config: s.config,
            raw: Some(base_variables(contents, contents.len() as int)),
        },
        CacheEvent::Finish(c) => CacheView { config: Some(c), raw: s.raw },
        CacheEvent::Change(content) => CacheView {
            config: match s.config {
                Some(c) => if c is Object {
                    Some(extend(c, parse_text_spec(content, NacosParser::Yaml)))
                } else {
                    Some(c)
                },
                None => None,
            },
            raw: s.raw,
        },
        CacheEvent::Clear => CacheView { config: None, raw: None },
        CacheEvent::Read => s,
    }
}

/// The cache after a sequence of events.
pub open spec fn cache_run(s: CacheView, es: Seq<CacheEvent>) -> CacheView
    decreases es.len(),
{
    if es.len() == 0 {
        s
    } else {
        cache_run(cache_step(s, es[0]), es.drop_first())
    }
}

/// Once a fetch has finished with `c`, the cache answers `c` (so a manager
/// returns it without fetching, whatever configs it is asked for) through
/// any reads and recorded base configs, until it is cleared or a change
/// event comes; clearing empties it.
pub proof fn law_cache_answers_until_cleared(s: CacheView, c: Json, es: Seq<CacheEvent>)
    requires
        forall|i: int| 0 <= i < es.len() ==> (#[trigger] es[i] is Read || es[i] is Bases),
    ensures
        cache_run(cache_step(s, CacheEvent::Finish(c)), es).config == Some(c),
        cache_step(s, CacheEvent::Clear).config is None,
        cache_step(s, CacheEvent::Clear).raw is None,
    decreases es.len(),
{
    if es.len() > 0 {
        let s1 = cache_step(cache_step(s, CacheEvent::Finish(c)), es[0]);
        assert(es[0] is Read || es[0] is Bases);
        assert(s1.config == Some(c));
        assert forall|i: int| 0 <= i < es.drop_first().len() implies (
        #[trigger] es.drop_first()[i] is Read || es.drop_first()[i] is Bases) by {
            assert(es.drop_first()[i] == es[i + 1]);
        }
        law_cache_answers_until_cleared(s1, c, es.drop_first());
        assert(cache_step(s1, CacheEvent::Finish(c)) == s1);
    }
}

/// The cache of a config manager: the processed config of the first
/// successful fetch, and the merged raw variables of the last fetch.
pub struct ManagerCache {
    pub config: Option<JsonValue>,
    pub raw: Option<JsonValue>,
}

impl View for ManagerCache {
    type V = CacheView;

    open spec fn view(&self) -> CacheView {
        CacheView { config: opt_json(self.config), raw: opt_json(self.raw) }
    }
}

impl ManagerCache {
    /// Both cached values, where present, are well-formed.
    pub open spec fn well_formed(&self) -> bool {
        opt_well_formed(self.config) && opt_well_formed(self.raw)
    }

    pub fn new() -> (r: Self)
        ensures
            r.config is None,
            r.raw is None,
            r.well_formed(),
            r@ == (CacheView { config: None, raw: None }),
    {
        ManagerCache { config: None, raw: None }
    }

    /// The cached processed config: what a fetch answers while there is
    /// one; `None` means a fetch is needed.
    pub fn cached(&self) -> (r: Option<JsonValue>)
        ensures
            opt_json(r) == opt_json(self.config),
    {
        match &self.config {
            Some(c) => Some(c.deep_copy()),
            None => None,
        }
    }

    /// The merged raw variables of the last fetch.
    pub fn raw_config(&self) -> (r: Option<JsonValue>)
        ensures
            opt_json(r) == opt_json(self.raw),
    {
        match &self.raw {
            Some(c) => Some(c.deep_copy()),
            None => None,
        }
    }

    /// Forget both the processed config and the raw variables.
    pub fn clear(&mut self)
        ensures
            final(self).config is None,
            final(self).raw is None,
            final(self).well_formed(),
            final(self)@ == cache_step(old(self)@, CacheEvent::Clear),
    {
        self.config = None;
        self.raw = None;
    }

    /// Process the fetched base configs: record their merged variables as
    /// the raw config, then render the last one against those variables and
    /// `DEPLOY_ENV = namespace`. `UnresolvedTemplate` when a template chain
    /// does not come to rest within `chain_limit()` rounds (one that comes
    /// back to a value it held before never does).
    pub fn process_bases(&mut self, contents: &Vec<String>, namespace: &str) -> (r: Result<
        BaseStage,
        ConfigError,
    >)
        ensures
            final(self)@ == cache_step(old(self)@, CacheEvent::Bases(strs(contents@), namespace@)),
            opt_json(final(self).config) == opt_json(old(self).config),
            opt_json(final(self).raw) == Some(
                base_variables(strs(contents@), contents@.len() as int),
            ),
            ({
                let vars = deployment_variables(
                    base_variables(strs(contents@), contents@.len() as int),
                    namespace@,
                );
                let last = last_config(strs(contents@));
                &&& r is Ok <==> params_settle_bounded(last, processing_context(last, Some(vars)))
                &&& r matches Ok(st) ==> st.external_vars@ == vars && st.config@ == process_spec(
                    last,
                    Some(vars),
                    effective_paths(None),
                )
                &&& r matches Err(e) ==> e is UnresolvedTemplate
            }),
            old(self).well_formed() ==> final(self).well_formed(),
            r matches Ok(st) ==> well_formed(st.config@) && well_formed(st.external_vars@),
    {
        let ghost cs = strs(contents@);
        let mut all_data = JsonValue::empty_object();
        let mut i: usize = 0;
        while i < contents.len()
            invariant
                i <= contents.len(),
                cs == strs(contents@),
                all_data@ == base_variables(cs, i as int),
                well_formed(all_data@),
            decreases contents.len() - i,
        {
            let parsed = ConfigParser::parse(RawConfig::text(contents[i].as_str()), NacosParser::Yaml);
            proof {
                lemma_wf_extend(all_data@, parsed@);
            }
            all_data = crate::utils::shallow_extend(all_data, &parsed);
            i += 1;
        }
        let last_text = if contents.len() > 0 {
            contents[contents.len() - 1].clone()
        } else {
            String::new()
        };
        let last = ConfigParser::parse(RawConfig::Str(last_text), NacosParser::Yaml);
        self.raw = Some(all_data.deep_copy());
        let external_vars = match all_data {
            JsonValue::Object(mut es) => {
                proof {
                    lemma_object_view(es);
                }
                let ghost before = crate::json::entries_view(es@);
                let deploy_env = JsonValue::String(owned(namespace));
                proof {
                    lemma_wf_insert(before, "DEPLOY_ENV"@, deploy_env@);
                }
                insert_entry(&mut es, owned("DEPLOY_ENV"), deploy_env);
                proof {
                    lemma_object_view(es);
                }
                JsonValue::Object(es)
            },
            other => other,
        };
        match NacosConfigUtils::process_configuration_checked(
            RawConfig::Value(last),
            NacosParser::Json,
            Some(&external_vars),
            None,
        ) {
            Some(config) => Ok(BaseStage { config, external_vars }),
            None => Err(ConfigError::UnresolvedTemplate),
        }
    }

    /// Finish a fetch: merge the fetched override config (given as its data
    /// id and content) over the processed config when there is one, cache the
    /// result and return it.
    pub fn finish(&mut self, stage: BaseStage, override_config: Option<(&str, &str)>) -> (r: Result<
        JsonValue,
        ConfigError,
    >)
        ensures
            opt_json(final(self).raw) == opt_json(old(self).raw),
            match override_config {
                None => r matches Ok(c) && c@ == stage.config@ && opt_json(final(self).config)
                    == Some(stage.config@),
                Some((id, content)) => {
                    let fmt = if ends_with(id@, ".json"@) {
                        NacosParser::Json
                    } else {
                        NacosParser::Yaml
                    };
                    let custom = parse_text_spec(content@, fmt);
                    let ctx = merge_context(stage.config@, Some(stage.external_vars@));
                    &&& r is Ok <==> params_settle_bounded(custom, processing_context(custom, Some(ctx)))
                    &&& r matches Ok(c) ==> c@ == merged(
                        stage.config@,
                        Some(process_spec(custom, Some(ctx), effective_paths(None))),
                    ) && opt_json(final(self).config) == Some(c@)
                    &&& r matches Err(e) ==> e is UnresolvedTemplate && opt_json(
                        final(self).config,
                    ) == opt_json(old(self).config)
                },
            },
            old(self).well_formed() && well_formed(stage.config@) && well_formed(
                stage.external_vars@,
            ) ==> final(self).well_formed() && (r matches Ok(c) ==> well_formed(c@)),
            r matches Ok(c) ==> final(self)@ == cache_step(old(self)@, CacheEvent::Finish(c@)),
            r is Err ==> final(self)@ == old(self)@,
    {
        let config = match override_config {
            None => stage.config,
            Some((id, content)) => {
                let fmt = determine_format(id);
                match NacosConfigUtils::process_and_merge_custom_config_checked(
                    &stage.config,
                    RawConfig::text(content),
                    fmt,
                    Some(&stage.external_vars),
                    None,
                ) {
                    Some(c) => c,
                    None => {
                        return Err(ConfigError::UnresolvedTemplate);
                    },
                }
            },
        };
        self.config = Some(config.deep_copy());
        Ok(config)
    }

    /// The default change listener: the new content, parsed as YAML, is
    /// stored top-level member by member over the cached config (when that
    /// is an object).
    pub fn apply_change(&mut self, content: &str)
        ensures
            final(self)@ == cache_step(old(self)@, CacheEvent::Change(content@)),
            old(self).well_formed() ==> final(self).well_formed(),
            opt_json(final(self).raw) == opt_json(old(self).raw),
            opt_json(final(self).config) == match opt_json(old(self).config) {
                Some(c) => if c is Object {
                    Some(extend(c, parse_text_spec(content@, NacosParser::Yaml)))
                } else {
                    Some(c)
                },
                None => None,
            },
    {
        let parsed = ConfigParser::parse(RawConfig::text(content), NacosParser::Yaml);
        let current = self.config.take();
        match current {
            Some(c) => {
                proof {
                    if well_formed(c@) {
                        lemma_wf_extend(c@, parsed@);
                    }
                }
                if c.is_object() {
                    self.config = Some(crate::utils::shallow_extend(c, &parsed));
                } else {
                    self.config = Some(c);
                }
            },
            None => {},
        }
    }

    /// The result of a fetch: the config, with the raw variables when
    /// `debug` is set.
    pub fn result(&self, config: JsonValue, debug: bool) -> (r: NacosConfigResult)
        ensures
            r.config@ == config@,
            opt_json(r.raw) == if debug {
                opt_json(self.raw)
            } else {
                None
            },
    {
        let raw = if debug {
            self.raw_config()
        } else {
            None
        };
        NacosConfigResult { config, raw }
    }
}

} // verus!
