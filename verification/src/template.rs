use vstd::prelude::*;

use crate::codec::{json_text, json_to_text};
use crate::json::{
    empty_object, entries_view, items_view, lemma_array_view, lemma_items_well_formed,
    lemma_members_well_formed, lemma_object_view, unique_keys, well_formed, Json, JsonValue,
};
use crate::nested::{get_nested, get_path, law_paths_keep_well_formed, set_nested, set_path};
use crate::text::{owned, sort_unique, sorted_names, strs};

verus! {

/// The placeholder pattern: `${`, one or more characters other than `}`, then `}`.
pub const TEMPLATE_PATTERN: &'static str = r"\$\{([^}]+)\}";

/// Maximum number of resolution passes (cycle protection).
pub const MAX_RENDER_DEPTH: usize = 5;

/// Index of the first `}` in `t` at or after `k`, or `t.len()`.
pub open spec fn brace_close(t: Seq<char>, k: int) -> int
    decreases t.len() - k,
{
    if k < 0 || k >= t.len() {
        t.len() as int
    } else if t[k] == '}' {
        k
    } else {
        brace_close(t, k + 1)
    }
}

/// A placeholder starts at `i`: `${`, then at least one character that is not
/// `}`, then `}`.
pub open spec fn placeholder_at(t: Seq<char>, i: int) -> bool {
    &&& 0 <= i
    &&& i + 2 <= t.len()
    &&& t[i] == '$'
    &&& t[i + 1] == '{'
    &&& i + 2 < brace_close(t, i + 2) < t.len()
}

/// Start of the leftmost placeholder at or after `i`, or `t.len()`.
pub open spec fn next_placeholder(t: Seq<char>, i: int) -> int
    decreases t.len() - i,
{
    if i < 0 || i >= t.len() {
        t.len() as int
    } else if placeholder_at(t, i) {
        i
    } else {
        next_placeholder(t, i + 1)
    }
}

/// `t` holds at least one placeholder.
pub open spec fn has_placeholder(t: Seq<char>) -> bool {
    next_placeholder(t, 0) < t.len()
}

pub proof fn lemma_brace_close(t: Seq<char>, k: int)
    requires
        0 <= k <= t.len(),
    ensures
        k <= brace_close(t, k) <= t.len(),
        brace_close(t, k) < t.len() ==> t[brace_close(t, k)] == '}',
        forall|m: int| k <= m < brace_close(t, k) ==> t[m] != '}',
    decreases t.len() - k,
{
    if k < t.len() && t[k] != '}' {
        lemma_brace_close(t, k + 1);
    }
}

pub proof fn lemma_next_placeholder(t: Seq<char>, i: int)
    requires
        0 <= i <= t.len(),
    ensures
        i <= next_placeholder(t, i) <= t.len(),
        next_placeholder(t, i) < t.len() ==> placeholder_at(t, next_placeholder(t, i)),
        forall|m: int| i <= m < next_placeholder(t, i) ==> !placeholder_at(t, m),
    decreases t.len() - i,
{
    if i < t.len() && !placeholder_at(t, i) {
        lemma_next_placeholder(t, i + 1);
    }
}

/// The text between placeholders, as `Regex::split` yields it for
/// `TEMPLATE_PATTERN`: one more piece than there are placeholders.
pub open spec fn placeholder_pieces(t: Seq<char>) -> Seq<Seq<char>>
    decreases t.len(),
{
    let p = next_placeholder(t, 0);
    if p < t.len() {
        proof {
            lemma_next_placeholder(t, 0);
        }
        let j = brace_close(t, p + 2);
        seq![t.subrange(0, p)] + placeholder_pieces(t.subrange(j + 1, t.len() as int))
    } else {
        seq![t]
    }
}

/// The names inside the placeholders of `t`, left to right, as the first
/// capture group of `TEMPLATE_PATTERN` yields them.
pub open spec fn placeholder_names(t: Seq<char>) -> Seq<Seq<char>>
    decreases t.len(),
{
    let p = next_placeholder(t, 0);
    if p < t.len() {
        proof {
            lemma_next_placeholder(t, 0);
        }
        let j = brace_close(t, p + 2);
        seq![t.subrange(p + 2, j)] + placeholder_names(t.subrange(j + 1, t.len() as int))
    } else {
        Seq::empty()
    }
}

pub proof fn lemma_pieces_names_len(t: Seq<char>)
    ensures
        placeholder_pieces(t).len() == placeholder_names(t).len() + 1,
    decreases t.len(),
{
    let p = next_placeholder(t, 0);
    lemma_next_placeholder(t, 0);
    if p < t.len() {
        let j = brace_close(t, p + 2);
        lemma_pieces_names_len(t.subrange(j + 1, t.len() as int));
    }
}

/// Calls `regex::Regex::is_match` for `TEMPLATE_PATTERN` (after
/// `Regex::new`). Claimed: true exactly when the text holds a placeholder.
#[verifier::external_body]
fn pattern_is_match(pattern: &str, text: &str) -> (r: bool)
    requires
        pattern@ == TEMPLATE_PATTERN@,
    ensures
        r == has_placeholder(text@),
{
    regex::Regex::new(pattern).unwrap().is_match(text)
}

/// Calls `regex::Regex::split` for `TEMPLATE_PATTERN` (after `Regex::new`).
/// Claimed: the pieces between the leftmost-first, non-overlapping matches.
#[verifier::external_body]
fn pattern_split(pattern: &str, text: &str) -> (r: Vec<String>)
    requires
        pattern@ == TEMPLATE_PATTERN@,
    ensures
        r@.len() == placeholder_pieces(text@).len(),
        forall|i: int| 0 <= i < r@.len() ==> r@[i]@ == placeholder_pieces(text@)[i],
{
    let re = regex::Regex::new(pattern).unwrap();
    re.split(text).map(|p| p.to_string()).collect()
}

/// Calls `regex::Regex::captures_iter` for `TEMPLATE_PATTERN` (after
/// `Regex::new`). Claimed: the first capture group of each leftmost-first,
/// non-overlapping match, in order.
#[verifier::external_body]
fn pattern_names(pattern: &str, text: &str) -> (r: Vec<String>)
    requires
        pattern@ == TEMPLATE_PATTERN@,
    ensures
        r@.len() == placeholder_names(text@).len(),
        forall|i: int| 0 <= i < r@.len() ==> r@[i]@ == placeholder_names(text@)[i],
{
    let re = regex::Regex::new(pattern).unwrap();
    re.captures_iter(text).map(|c| c[1].to_string()).collect()
}

/// The text of a value when it is substituted for a placeholder; `None` for
/// `null`, which leaves the placeholder untouched.
pub open spec fn value_text(v: Json) -> Option<Seq<char>> {
    match v {
        Json::Null => None,
        Json::String(s) => Some(s),
        Json::Bool(b) => Some(
            if b {
                seq!['t', 'r', 'u', 'e']
            } else {
                seq!['f', 'a', 'l', 's', 'e']
            },
        ),
        Json::Number(t) => Some(t),
        _ => Some(json_text(v)),
    }
}

/// The placeholder `${name}` itself.
pub open spec fn placeholder_text(name: Seq<char>) -> Seq<char> {
    seq!['$', '{'] + name + seq!['}']
}

/// What replaces `${name}` in one pass against `ctx`.
pub open spec fn replacement(name: Seq<char>, ctx: Json) -> Seq<char> {
    match get_path(ctx, name) {
        Some(v) => match value_text(v) {
            Some(s) => s,
            None => placeholder_text(name),
        },
        None => placeholder_text(name),
    }
}

/// One pass: every placeholder of `t` replaced, left to right.
pub open spec fn substitute(t: Seq<char>, ctx: Json) -> Seq<char>
    decreases t.len(),
{
    let p = next_placeholder(t, 0);
    if p < t.len() {
        proof {
            lemma_next_placeholder(t, 0);
        }
        let j = brace_close(t, p + 2);
        t.subrange(0, p) + replacement(t.subrange(p + 2, j), ctx) + substitute(
            t.subrange(j + 1, t.len() as int),
            ctx,
        )
    } else {
        t
    }
}

/// At most `n` passes, stopping at the first pass that changes nothing.
pub open spec fn render_passes(t: Seq<char>, ctx: Json, n: nat) -> Seq<char>
    decreases n,
{
    if n == 0 {
        t
    } else {
        let t2 = substitute(t, ctx);
        if t2 == t {
            t
        } else {
            render_passes(t2, ctx, (n - 1) as nat)
        }
    }
}

/// What `TemplateEngine::render_text` returns.
pub open spec fn render_text_spec(t: Seq<char>, ctx: Json) -> Seq<char> {
    render_passes(t, ctx, MAX_RENDER_DEPTH as nat)
}

/// Pieces and replaced names stitched together: `ps[0] + r(ns[0]) + ps[1] + ...`
/// up to the `n`-th name.
pub open spec fn stitched(ps: Seq<Seq<char>>, ns: Seq<Seq<char>>, ctx: Json, n: int) -> Seq<char>
    decreases n,
{
    if n <= 0 {
        ps[0]
    } else {
        stitched(ps, ns, ctx, n - 1) + replacement(ns[n - 1], ctx) + ps[n]
    }
}

proof fn lemma_stitched_cons(
    a: Seq<char>,
    b: Seq<char>,
    ps: Seq<Seq<char>>,
    ns: Seq<Seq<char>>,
    ctx: Json,
    m: int,
)
    requires
        0 <= m,
        m < ps.len(),
        m <= ns.len(),
    ensures
        stitched(seq![a] + ps, seq![b] + ns, ctx, m + 1) == a + replacement(b, ctx) + stitched(
            ps,
            ns,
            ctx,
            m,
        ),
    decreases m,
{
    let ps2 = seq![a] + ps;
    let ns2 = seq![b] + ns;
    if m == 0 {
        assert(ps2[0] == a);
        assert(ps2[1] == ps[0]);
        assert(ns2[0] == b);
        assert(stitched(ps2, ns2, ctx, 0) == a);
        assert(stitched(ps, ns, ctx, 0) == ps[0]);
    } else {
        lemma_stitched_cons(a, b, ps, ns, ctx, m - 1);
        assert(ps2[m + 1] == ps[m]);
        assert(ns2[m] == ns[m - 1]);
        let x = stitched(ps, ns, ctx, m - 1);
        assert(stitched(ps2, ns2, ctx, m + 1) == stitched(ps2, ns2, ctx, m) + replacement(
            ns2[m],
            ctx,
        ) + ps2[m + 1]);
        assert(stitched(ps, ns, ctx, m) == x + replacement(ns[m - 1], ctx) + ps[m]);
        assert(a + replacement(b, ctx) + x + replacement(ns[m - 1], ctx) + ps[m] =~= a
            + replacement(b, ctx) + (x + replacement(ns[m - 1], ctx) + ps[m]));
    }
}

proof fn lemma_substitute_stitched(t: Seq<char>, ctx: Json)
    ensures
        placeholder_pieces(t).len() == placeholder_names(t).len() + 1,
        substitute(t, ctx) == stitched(
            placeholder_pieces(t),
            placeholder_names(t),
            ctx,
            placeholder_names(t).len() as int,
        ),
    decreases t.len(),
{
    lemma_pieces_names_len(t);
    let p = next_placeholder(t, 0);
    lemma_next_placeholder(t, 0);
    if p < t.len() {
        let j = brace_close(t, p + 2);
        let rest = t.subrange(j + 1, t.len() as int);
        lemma_substitute_stitched(rest, ctx);
        lemma_stitched_cons(
            t.subrange(0, p),
            t.subrange(p + 2, j),
            placeholder_pieces(rest),
            placeholder_names(rest),
            ctx,
            placeholder_names(rest).len() as int,
        );
    }
}

/// The text of `v` for substitution.
fn value_to_string(v: &JsonValue) -> (r: Option<String>)
    ensures
        match r {
            Some(s) => value_text(v@) == Some(s@),
            None => value_text(v@) is None,
        },
{
    match v {
        JsonValue::Null => None,
        JsonValue::String(s) => Some(s.clone()),
        JsonValue::Bool(b) => {
            if *b {
                proof {
                    reveal_strlit("true");
                }
                let r = owned("true");
                assert(r@ =~= seq!['t', 'r', 'u', 'e']);
                Some(r)
            } else {
                proof {
                    reveal_strlit("false");
                }
                let r = owned("false");
                assert(r@ =~= seq!['f', 'a', 'l', 's', 'e']);
                Some(r)
            }
        },
        JsonValue::Number(t) => Some(t.clone()),
        _ => Some(json_to_text(v)),
    }
}

/// What replaces `${name}` against `ctx`.
fn replacement_of(name: &String, ctx: &JsonValue) -> (r: String)
    ensures
        r@ == replacement(name@, ctx@),
{
    let found = match get_nested(ctx, name.as_str()) {
        Some(v) => value_to_string(v),
        None => None,
    };
    match found {
        Some(s) => s,
        None => {
            proof {
                reveal_strlit("${");
                reveal_strlit("}");
            }
            let mut s = owned("${");
            s.append(name.as_str());
            s.append("}");
            assert(s@ =~= placeholder_text(name@));
            s
        },
    }
}

/// One pass of substitution over `text`.
fn substitute_once(text: &str, ctx: &JsonValue) -> (r: String)
    ensures
        r@ == substitute(text@, ctx@),
{
    let pieces = pattern_split(TEMPLATE_PATTERN, text);
    let names = pattern_names(TEMPLATE_PATTERN, text);
    let ghost ps = placeholder_pieces(text@);
    let ghost ns = placeholder_names(text@);
    proof {
        lemma_substitute_stitched(text@, ctx@);
    }
    let mut out = pieces[0].clone();
    let mut i: usize = 0;
    while i < names.len()
        invariant
            i <= names.len(),
            names@.len() == ns.len(),
            pieces@.len() == ps.len(),
            ps.len() == ns.len() + 1,
            forall|k: int| 0 <= k < pieces@.len() ==> pieces@[k]@ == ps[k],
            forall|k: int| 0 <= k < names@.len() ==> names@[k]@ == ns[k],
            out@ == stitched(ps, ns, ctx@, i as int),
        decreases names.len() - i,
    {
        let r = replacement_of(&names[i], ctx);
        out.append(r.as_str());
        out.append(pieces[i + 1].as_str());
        i += 1;
    }
    out
}

/// The placeholder names in the strings of `j` (array items and object
/// values included), in traversal order.
pub open spec fn param_list(j: Json) -> Seq<Seq<char>>
    decreases j, 0int,
{
    match j {
        Json::String(s) => placeholder_names(s),
        Json::Array(a) => param_items(a, a.len() as int),
        Json::Object(es) => param_members(es, es.len() as int),
        _ => Seq::empty(),
    }
}

pub open spec fn param_items(a: Seq<Json>, n: int) -> Seq<Seq<char>>
    decreases a, n,
{
    if n <= 0 || n > a.len() {
        Seq::empty()
    } else {
        param_items(a, n - 1) + param_list(a[n - 1])
    }
}

pub open spec fn param_members(es: Seq<(Seq<char>, Json)>, n: int) -> Seq<Seq<char>>
    decreases es, n,
{
    if n <= 0 || n > es.len() {
        Seq::empty()
    } else {
        param_members(es, n - 1) + param_list(es[n - 1].1)
    }
}

/// The distinct placeholder names of `j` in ascending order.
pub open spec fn sorted_params(j: Json) -> Seq<Seq<char>> {
    sorted_names(param_list(j).to_set())
}

/// One round of chain resolution: a string that still holds a placeholder is
/// rendered against `ctx`; `None` when that changes nothing or the value is
/// not such a string.
pub open spec fn chain_step(v: Json, ctx: Json) -> Option<Json> {
    match v {
        Json::String(s) => if has_placeholder(s) && render_text_spec(s, ctx) != s {
            Some(Json::String(render_text_spec(s, ctx)))
        } else {
            None
        },
        _ => None,
    }
}

/// `v` after `n` rounds of chain resolution (rounds that change nothing stop it).
pub open spec fn chain_after(v: Json, ctx: Json, n: nat) -> Json
    decreases n,
{
    if n == 0 {
        v
    } else {
        let p = chain_after(v, ctx, (n - 1) as nat);
        match chain_step(p, ctx) {
            Some(w) => w,
            None => p,
        }
    }
}

/// The chain from `v` has come to rest within `n` rounds.
pub open spec fn settled_within(v: Json, ctx: Json, n: nat) -> bool {
    chain_step(chain_after(v, ctx, n), ctx) is None
}

/// The chain from `v` comes to rest.
pub open spec fn settles(v: Json, ctx: Json) -> bool {
    exists|n: nat| settled_within(v, ctx, n)
}

/// Where the chain from `v` comes to rest.
pub open spec fn resolved(v: Json, ctx: Json) -> Json {
    chain_after(v, ctx, choose|n: nat| settled_within(v, ctx, n))
}

pub proof fn lemma_settled_stable(v: Json, ctx: Json, n: nat, m: nat)
    requires
        settled_within(v, ctx, n),
        n <= m,
    ensures
        chain_after(v, ctx, m) == chain_after(v, ctx, n),
        settled_within(v, ctx, m),
    decreases m,
{
    if m > n {
        lemma_settled_stable(v, ctx, n, (m - 1) as nat);
    }
}

/// The value of `ctx` at `p`, or `null`.
pub open spec fn ctx_value(ctx: Json, p: Seq<char>) -> Json {
    match get_path(ctx, p) {
        Some(x) => x,
        None => Json::Null,
    }
}

/// Every parameter of `config` resolves to rest against `ctx`.
pub open spec fn params_settle(config: Json, ctx: Json) -> bool {
    forall|i: int|
        0 <= i < sorted_params(config).len() ==> settles(
            #[trigger] ctx_value(ctx, sorted_params(config)[i]),
            ctx,
        )
}

/// Every parameter of `config` resolves to rest against `ctx` within `n` rounds.
pub open spec fn params_settle_within(config: Json, ctx: Json, n: nat) -> bool {
    forall|i: int|
        0 <= i < sorted_params(config).len() ==> settled_within(
            #[trigger] ctx_value(ctx, sorted_params(config)[i]),
            ctx,
            n,
        )
}

/// The rounds of chain resolution that the checked functions follow a chain
/// for, when it neither comes to rest nor repeats a value: a machine limit,
/// `2 * (usize::MAX / 2)`.
pub open spec fn chain_limit() -> nat {
    (2 * (usize::MAX / 2)) as nat
}

/// Every parameter of `config` resolves to rest against `ctx` within
/// `chain_limit()` rounds.
pub open spec fn params_settle_bounded(config: Json, ctx: Json) -> bool {
    params_settle_within(config, ctx, chain_limit())
}

/// The context that rendering starts from.
pub open spec fn base_context(ctx: Json) -> Json {
    if ctx is Object {
        ctx
    } else {
        empty_object()
    }
}

/// `acc` with each parameter of `ps` set, in order, to its resolved value.
pub open spec fn enrich(acc: Json, ctx: Json, ps: Seq<Seq<char>>) -> Json
    decreases ps.len(),
{
    if ps.len() == 0 {
        acc
    } else {
        enrich(set_path(acc, ps[0], resolved(ctx_value(ctx, ps[0]), ctx)), ctx, ps.drop_first())
    }
}

/// `s` is a single placeholder and nothing else.
pub open spec fn whole_placeholder(s: Seq<char>) -> bool {
    placeholder_pieces(s) == seq![Seq::<char>::empty(), Seq::<char>::empty()]
}

/// A string rendered at `depth`: a whole placeholder that names an array or
/// object is replaced by that container, itself rendered, while `depth` is
/// below `MAX_RENDER_DEPTH`; anything else is rendered as text.
pub open spec fn render_node(v: Json, ctx: Json, depth: int) -> Json
    decreases MAX_RENDER_DEPTH as int - depth, v, 0int,
{
    match v {
        Json::String(s) => if 0 <= depth < MAX_RENDER_DEPTH && whole_placeholder(s) {
            match get_path(ctx, placeholder_names(s)[0]) {
                Some(c) => if c is Array || c is Object {
                    render_node(c, ctx, depth + 1)
                } else {
                    Json::String(render_text_spec(s, ctx))
                },
                None => Json::String(render_text_spec(s, ctx)),
            }
        } else {
            Json::String(render_text_spec(s, ctx))
        },
        Json::Array(a) => Json::Array(render_items(a, ctx, depth, a.len() as int)),
        Json::Object(es) => Json::Object(render_members(es, ctx, depth, es.len() as int)),
        _ => v,
    }
}

/// The first `n` items of an array rendered: strings as text, objects as
/// nodes, anything else (nested arrays included) kept.
pub open spec fn render_items(a: Seq<Json>, ctx: Json, depth: int, n: int) -> Seq<Json>
    decreases MAX_RENDER_DEPTH as int - depth, a, n,
{
    if n <= 0 || n > a.len() {
        Seq::empty()
    } else {
        render_items(a, ctx, depth, n - 1).push(
            match a[n - 1] {
                Json::String(s) => Json::String(render_text_spec(s, ctx)),
                Json::Object(_) => render_node(a[n - 1], ctx, depth),
                _ => a[n - 1],
            },
        )
    }
}

/// The first `n` members of an object with their values rendered.
pub open spec fn render_members(es: Seq<(Seq<char>, Json)>, ctx: Json, depth: int, n: int) -> Seq<
    (Seq<char>, Json),
>
    decreases MAX_RENDER_DEPTH as int - depth, es, n,
{
    if n <= 0 || n > es.len() {
        Seq::empty()
    } else {
        render_members(es, ctx, depth, n - 1).push((es[n - 1].0, render_node(es[n - 1].1, ctx, depth)))
    }
}

/// What `TemplateEngine::render` returns.
pub open spec fn render_spec(config: Json, ctx: Json) -> Json {
    render_node(config, enrich(base_context(ctx), ctx, sorted_params(config)), 0)
}

/// Append the placeholder names of `v` to `out`, in traversal order.
fn collect_params(v: &JsonValue, out: &mut Vec<String>)
    ensures
        strs(final(out)@) == strs(old(out)@) + param_list(v@),
    decreases v,
{
    let ghost start = strs(out@);
    match v {
        JsonValue::String(s) => {
            let names = pattern_names(TEMPLATE_PATTERN, s.as_str());
            let mut i: usize = 0;
            while i < names.len()
                invariant
                    i <= names.len(),
                    names@.len() == placeholder_names(s@).len(),
                    forall|k: int| 0 <= k < names@.len() ==> names@[k]@ == placeholder_names(s@)[k],
                    strs(out@) == start + placeholder_names(s@).take(i as int),
                decreases names.len() - i,
            {
                let ghost before = strs(out@);
                out.push(names[i].clone());
                assert(strs(out@) =~= before.push(names@[i as int]@));
                assert(placeholder_names(s@).take(i + 1) =~= placeholder_names(s@).take(i as int).push(
                    names@[i as int]@,
                ));
                i += 1;
            }
            assert(placeholder_names(s@).take(i as int) =~= placeholder_names(s@));
        },
        JsonValue::Array(a) => {
            proof {
                lemma_array_view(*a);
            }
            let ghost items = items_view(a@);
            let mut i: usize = 0;
            while i < a.len()
                invariant
                    i <= a.len(),
                    items == items_view(a@),
                    *v == JsonValue::Array(*a),
                    strs(out@) == start + param_items(items, i as int),
                decreases a.len() - i,
            {
                proof {
                    vstd::std_specs::vec::axiom_vec_index_decreases(*a, i as int);
                    assert(decreases_to!(*v => (*v)->Array_0));
                }
                collect_params(&a[i], out);
                i += 1;
            }
        },
        JsonValue::Object(es) => {
            proof {
                lemma_object_view(*es);
            }
            let ghost members = entries_view(es@);
            let mut i: usize = 0;
            while i < es.len()
                invariant
                    i <= es.len(),
                    members == entries_view(es@),
                    *v == JsonValue::Object(*es),
                    strs(out@) == start + param_members(members, i as int),
                decreases es.len() - i,
            {
                proof {
                    vstd::std_specs::vec::axiom_vec_index_decreases(*es, i as int);
                    assert(decreases_to!(*v => (*v)->Object_0));
                    assert(decreases_to!(es[i as int] => es[i as int].1));
                }
                collect_params(&es[i].1, out);
                i += 1;
            }
        },
        _ => {
            assert(start + Seq::<Seq<char>>::empty() =~= start);
        },
    }
}

/// One round of chain resolution on `v`.
fn chain_step_exec(v: &JsonValue, ctx: &JsonValue) -> (r: Option<String>)
    ensures
        match r {
            Some(t) => chain_step(v@, ctx@) == Some(Json::String(t@)),
            None => chain_step(v@, ctx@) is None,
        },
{
    match v {
        JsonValue::String(s) => {
            if TemplateEngine::is_text_only(v) {
                None
            } else {
                let new = TemplateEngine::render_text(s.as_str(), ctx);
                if new == *s {
                    None
                } else {
                    Some(new)
                }
            }
        },
        _ => None,
    }
}

/// `v` resolved through its chain of templates against `ctx`.
fn resolve_value(v: JsonValue, ctx: &JsonValue) -> (r: JsonValue)
    requires
        settles(v@, ctx@),
    ensures
        r@ == resolved(v@, ctx@),
{
    let ghost v0 = v@;
    let ghost n0 = choose|n: nat| settled_within(v0, ctx@, n);
    assert(resolved(v0, ctx@) == chain_after(v0, ctx@, n0));
    let mut val = v;
    let ghost mut i: nat = 0;
    loop
        invariant
            val@ == chain_after(v0, ctx@, i),
            settled_within(v0, ctx@, n0),
            resolved(v0, ctx@) == chain_after(v0, ctx@, n0),
            v0 == v@,
            i <= n0,
        decreases n0 - i,
    {
        match chain_step_exec(&val, ctx) {
            Some(t) => {
                val = JsonValue::String(t);
                proof {
                    i = i + 1;
                }
            },
            None => {
                proof {
                    lemma_settled_stable(v0, ctx@, i, n0);
                }
                return val;
            },
        }
    }
}

proof fn lemma_chain_shift(v: Json, ctx: Json, a: nat, b: nat)
    ensures
        chain_after(v, ctx, a + b) == chain_after(chain_after(v, ctx, a), ctx, b),
    decreases b,
{
    if b > 0 {
        lemma_chain_shift(v, ctx, a, (b - 1) as nat);
        assert((a + b - 1) as nat == a + (b - 1) as nat);
    }
}

proof fn lemma_chain_period(v: Json, ctx: Json, n: nat, k: nat)
    requires
        chain_after(v, ctx, n) == chain_after(v, ctx, 2 * n),
    ensures
        chain_after(v, ctx, n + k * n) == chain_after(v, ctx, n),
    decreases k,
{
    let j = (k - 1) as nat;
    if k > 0 {
        lemma_chain_period(v, ctx, n, j);
        let a: nat = n + j * n;
        assert(n + k * n == a + n) by (nonlinear_arith)
            requires
                k > 0,
                j == k - 1,
                a == n + j * n,
        ;
        lemma_chain_shift(v, ctx, a, n);
        lemma_chain_shift(v, ctx, n, n);
        assert(chain_after(v, ctx, a + n) == chain_after(chain_after(v, ctx, n), ctx, n));
        assert(chain_after(v, ctx, n + n) == chain_after(v, ctx, 2 * n));
    } else {
        assert(k * n == 0) by (nonlinear_arith)
            requires
                k == 0,
        ;
    }
}

/// A chain that comes back to a value that does not rest never comes to rest.
proof fn lemma_repeat_never_settles(v: Json, ctx: Json, n: nat)
    requires
        n >= 1,
        chain_after(v, ctx, n) == chain_after(v, ctx, 2 * n),
        !settled_within(v, ctx, n),
    ensures
        !settles(v, ctx),
{
    if settles(v, ctx) {
        let m = choose|m: nat| settled_within(v, ctx, m);
        assert(m * n >= m) by (nonlinear_arith)
            requires
                n >= 1,
        ;
        let big = n + m * n;
        lemma_settled_stable(v, ctx, m, big);
        lemma_chain_period(v, ctx, n, m);
    }
}

/// Whether the chain from `v` comes to rest within `chain_limit()` rounds.
/// A chain that comes back to a value it held before is found out as soon
/// as a second cursor, moving twice as fast, meets the first.
fn chain_settles_exec(v: &JsonValue, ctx: &JsonValue) -> (r: bool)
    ensures
        r == settled_within(v@, ctx@, chain_limit()),
{
    let ghost v0 = v@;
    let ghost c = ctx@;
    let half: usize = usize::MAX / 2;
    let mut slow = v.deep_copy();
    let mut fast = v.deep_copy();
    let mut i: usize = 0;
    loop
        invariant
            half == usize::MAX / 2,
            i < half,
            v0 == v@,
            c == ctx@,
            slow@ == chain_after(v0, c, i as nat),
            fast@ == chain_after(v0, c, (2 * i) as nat),
        decreases half - i,
    {
        match chain_step_exec(&fast, ctx) {
            None => {
                proof {
                    lemma_settled_stable(v0, c, (2 * i) as nat, chain_limit());
                }
                return true;
            },
            Some(t) => {
                fast = JsonValue::String(t);
            },
        }
        match chain_step_exec(&fast, ctx) {
            None => {
                proof {
                    lemma_settled_stable(v0, c, (2 * i + 1) as nat, chain_limit());
                }
                return true;
            },
            Some(t) => {
                fast = JsonValue::String(t);
            },
        }
        assert(fast@ == chain_after(v0, c, (2 * i + 2) as nat));
        match chain_step_exec(&slow, ctx) {
            None => {
                proof {
                    lemma_settled_stable(v0, c, i as nat, (2 * i + 1) as nat);
                    assert(false);
                }
                return true;
            },
            Some(t) => {
                slow = JsonValue::String(t);
            },
        }
        i += 1;
        assert(slow@ == chain_after(v0, c, i as nat));
        let same = match &slow {
            JsonValue::String(a) => match &fast {
                JsonValue::String(b) => {
                    let eq = *a == *b;
                    eq
                },
                _ => false,
            },
            _ => false,
        };
        if same {
            proof {
                if settled_within(v0, c, i as nat) {
                    lemma_settled_stable(v0, c, i as nat, (2 * i - 1) as nat);
                }
                assert(slow@ == fast@);
                assert(chain_after(v0, c, i as nat) == chain_after(v0, c, 2 * (i as nat)));
                lemma_repeat_never_settles(v0, c, i as nat);
            }
            return false;
        }
        if i == half {
            assert(chain_limit() == (2 * i) as nat);
            return chain_step_exec(&fast, ctx).is_none();
        }
    }
}

/// The name of `s` when `s` is a single placeholder and nothing else.
fn whole_placeholder_name(s: &String) -> (r: Option<String>)
    ensures
        match r {
            Some(n) => whole_placeholder(s@) && n@ == placeholder_names(s@)[0],
            None => !whole_placeholder(s@),
        },
{
    let pieces = pattern_split(TEMPLATE_PATTERN, s.as_str());
    let names = pattern_names(TEMPLATE_PATTERN, s.as_str());
    proof {
        lemma_pieces_names_len(s@);
    }
    if pieces.len() == 2 && pieces[0].as_str().is_empty() && pieces[1].as_str().is_empty() {
        proof {
            assert(pieces@[0]@ =~= Seq::<char>::empty());
            assert(pieces@[1]@ =~= Seq::<char>::empty());
            assert(placeholder_pieces(s@) =~= seq![Seq::<char>::empty(), Seq::<char>::empty()]);
        }
        Some(names[0].clone())
    } else {
        proof {
            if whole_placeholder(s@) {
                assert(pieces@[0]@ == Seq::<char>::empty());
                assert(pieces@[1]@ == Seq::<char>::empty());
            }
        }
        None
    }
}

/// `v` rendered at `depth` against the (enriched) context `ctx`.
fn render_node_exec(v: &JsonValue, ctx: &JsonValue, depth: usize) -> (r: JsonValue)
    requires
        depth <= MAX_RENDER_DEPTH,
    ensures
        r@ == render_node(v@, ctx@, depth as int),
    decreases MAX_RENDER_DEPTH - depth, v,
{
    match v {
        JsonValue::String(s) => {
            if depth < MAX_RENDER_DEPTH {
                match whole_placeholder_name(s) {
                    Some(name) => {
                        match get_nested(ctx, name.as_str()) {
                            Some(c) => {
                                match c {
                                    JsonValue::Array(_) | JsonValue::Object(_) => {
                                        return render_node_exec(c, ctx, depth + 1);
                                    },
                                    _ => {},
                                }
                            },
                            None => {},
                        }
                    },
                    None => {},
                }
            }
            JsonValue::String(TemplateEngine::render_text(s.as_str(), ctx))
        },
        JsonValue::Array(a) => {
            proof {
                lemma_array_view(*a);
            }
            let ghost items = items_view(a@);
            let mut out: Vec<JsonValue> = Vec::new();
            let mut i: usize = 0;
            while i < a.len()
                invariant
                    i <= a.len(),
                    depth <= MAX_RENDER_DEPTH,
                    items == items_view(a@),
                    *v == JsonValue::Array(*a),
                    items_view(out@) == render_items(items, ctx@, depth as int, i as int),
                decreases a.len() - i,
            {
                let item = &a[i];
                let x = match item {
                    JsonValue::String(s) => JsonValue::String(TemplateEngine::render_text(s.as_str(), ctx)),
                    JsonValue::Object(_) => {
                        proof {
                            vstd::std_specs::vec::axiom_vec_index_decreases(*a, i as int);
                            assert(decreases_to!(*v => (*v)->Array_0));
                        }
                        render_node_exec(item, ctx, depth)
                    },
                    _ => item.deep_copy(),
                };
                let ghost before = items_view(out@);
                out.push(x);
                assert(items_view(out@) =~= before.push(x@));
                i += 1;
            }
            proof {
                lemma_array_view(out);
            }
            JsonValue::Array(out)
        },
        JsonValue::Object(es) => {
            proof {
                lemma_object_view(*es);
            }
            let ghost members = entries_view(es@);
            let mut out: Vec<(String, JsonValue)> = Vec::new();
            let mut i: usize = 0;
            while i < es.len()
                invariant
                    i <= es.len(),
                    depth <= MAX_RENDER_DEPTH,
                    members == entries_view(es@),
                    *v == JsonValue::Object(*es),
                    entries_view(out@) == render_members(members, ctx@, depth as int, i as int),
                decreases es.len() - i,
            {
                proof {
                    vstd::std_specs::vec::axiom_vec_index_decreases(*es, i as int);
                    assert(decreases_to!(*v => (*v)->Object_0));
                    assert(decreases_to!(es[i as int] => es[i as int].1));
                }
                let x = render_node_exec(&es[i].1, ctx, depth);
                let k = es[i].0.clone();
                let ghost before = entries_view(out@);
                out.push((k, x));
                assert(entries_view(out@) =~= before.push((k@, x@)));
                i += 1;
            }
            proof {
                lemma_object_view(out);
            }
            JsonValue::Object(out)
        },
        _ => v.deep_copy(),
    }
}

/// The distinct placeholder names of `config`, ascending.
fn sorted_params_exec(config: &JsonValue) -> (r: Vec<String>)
    ensures
        strs(r@) == sorted_params(config@),
{
    let mut names: Vec<String> = Vec::new();
    assert(strs(names@) =~= Seq::<Seq<char>>::empty());
    collect_params(config, &mut names);
    assert(strs(names@) =~= param_list(config@));
    sort_unique(&names)
}

pub proof fn lemma_settle_within_settles(config: Json, ctx: Json, n: nat)
    requires
        params_settle_within(config, ctx, n),
    ensures
        params_settle(config, ctx),
{
    assert forall|i: int| 0 <= i < sorted_params(config).len() implies settles(
        #[trigger] ctx_value(ctx, sorted_params(config)[i]),
        ctx,
    ) by {
        assert(settled_within(ctx_value(ctx, sorted_params(config)[i]), ctx, n));
    }
}

/// A text without placeholders is rendered as it is.
pub proof fn law_plain_text_unchanged(t: Seq<char>, ctx: Json)
    requires
        !has_placeholder(t),
    ensures
        render_text_spec(t, ctx) == t,
{
    assert(substitute(t, ctx) == t);
    assert(render_passes(t, ctx, MAX_RENDER_DEPTH as nat) == t);
}

proof fn lemma_brace_close_at(t: Seq<char>, k: int, j: int)
    requires
        0 <= k <= j < t.len(),
        t[j] == '}',
        forall|m: int| k <= m < j ==> t[m] != '}',
    ensures
        brace_close(t, k) == j,
    decreases j - k,
{
    if k < j {
        lemma_brace_close_at(t, k + 1, j);
    }
}

proof fn lemma_no_dollar(t: Seq<char>)
    requires
        !t.contains('$'),
    ensures
        !has_placeholder(t),
{
    lemma_next_placeholder(t, 0);
    let p = next_placeholder(t, 0);
    if p < t.len() {
        assert(t[p] == '$');
    }
}

/// A text that is one placeholder `${name}` (a non-empty name without `}`)
/// becomes, in one pass, the text of the value that `ctx` holds at `name`
/// when that is a boolean, a string (the empty string included) or a
/// number: `true` or `false`, the string itself, or the number's text. After
/// all passes the same holds for a boolean, and for a string or number
/// text that holds no placeholder itself.
pub proof fn law_scalar_substituted(name: Seq<char>, ctx: Json)
    requires
        name.len() > 0,
        !name.contains('}'),
    ensures
        get_path(ctx, name) matches Some(Json::Bool(b)) ==> substitute(placeholder_text(name), ctx)
            == (if b {
            "true"@
        } else {
            "false"@
        }) && render_text_spec(placeholder_text(name), ctx) == (if b {
            "true"@
        } else {
            "false"@
        }),
        get_path(ctx, name) matches Some(Json::String(x)) ==> substitute(
            placeholder_text(name),
            ctx,
        ) == x && (!has_placeholder(x) ==> render_text_spec(placeholder_text(name), ctx) == x),
        get_path(ctx, name) matches Some(Json::Number(x)) ==> substitute(
            placeholder_text(name),
            ctx,
        ) == x && (!has_placeholder(x) ==> render_text_spec(placeholder_text(name), ctx) == x),
{
    let t = placeholder_text(name);
    let j: int = name.len() as int + 2;
    assert(t[j] == '}');
    assert forall|m: int| 2 <= m < j implies t[m] != '}' by {
        assert(t[m] == name[m - 2]);
    }
    lemma_brace_close_at(t, 2, j);
    assert(placeholder_at(t, 0));
    assert(next_placeholder(t, 0) == 0);
    assert(t.subrange(2, j) =~= name);
    assert(t.subrange(0, 0) =~= Seq::<char>::empty());
    let rest = t.subrange(j + 1, t.len() as int);
    assert(rest =~= Seq::<char>::empty());
    assert(substitute(rest, ctx) == rest);
    let r = replacement(name, ctx);
    assert(substitute(t, ctx) =~= r);
    reveal_strlit("true");
    reveal_strlit("false");
    if let Some(v) = get_path(ctx, name) {
        match v {
            Json::Bool(b) => {
                let lit = if b {
                    "true"@
                } else {
                    "false"@
                };
                assert(r == lit);
                assert(!lit.contains('$')) by {
                    if lit.contains('$') {
                        let m = choose|m: int| 0 <= m < lit.len() && lit[m] == '$';
                    }
                }
                lemma_no_dollar(lit);
                assert(r != t) by {
                    assert(t[0] == '$');
                    if r == t {
                        assert(lit[0] == '$');
                    }
                }
                assert(substitute(lit, ctx) == lit);
                assert(render_passes(lit, ctx, 4) == lit);
                assert(render_passes(t, ctx, 5) == lit);
            },
            Json::String(x) => {
                assert(value_text(v) == Some(x));
                assert(r == x);
                if !has_placeholder(x) {
                    assert(substitute(x, ctx) == x);
                    assert(render_passes(x, ctx, 4) == x);
                    assert(render_passes(t, ctx, 5) == x);
                }
            },
            Json::Number(x) => {
                assert(r == x);
                if !has_placeholder(x) {
                    assert(substitute(x, ctx) == x);
                    assert(render_passes(x, ctx, 4) == x);
                    assert(render_passes(t, ctx, 5) == x);
                }
            },
            _ => {},
        }
    }
}

/// `ctx` gives nothing to substitute for `${name}`: no value, or `null`.
pub open spec fn undefined_in(name: Seq<char>, ctx: Json) -> bool {
    match get_path(ctx, name) {
        Some(v) => v is Null,
        None => true,
    }
}

proof fn lemma_substitute_undefined(t: Seq<char>, ctx: Json)
    requires
        forall|i: int|
            0 <= i < placeholder_names(t).len() ==> undefined_in(
                #[trigger] placeholder_names(t)[i],
                ctx,
            ),
    ensures
        substitute(t, ctx) == t,
    decreases t.len(),
{
    let p = next_placeholder(t, 0);
    lemma_next_placeholder(t, 0);
    if p < t.len() {
        let j = brace_close(t, p + 2);
        lemma_brace_close(t, p + 2);
        let rest = t.subrange(j + 1, t.len() as int);
        let name = t.subrange(p + 2, j);
        let ns = placeholder_names(t);
        assert(ns == seq![name] + placeholder_names(rest));
        assert(undefined_in(ns[0], ctx));
        assert forall|i: int| 0 <= i < placeholder_names(rest).len() implies undefined_in(
            #[trigger] placeholder_names(rest)[i],
            ctx,
        ) by {
            assert(placeholder_names(rest)[i] == ns[i + 1]);
        }
        lemma_substitute_undefined(rest, ctx);
        assert(replacement(name, ctx) == placeholder_text(name));
        assert(t.subrange(0, p) + placeholder_text(name) + rest =~= t);
    }
}

/// Placeholders that the context does not define (no value, or `null`) are
/// kept as they are: such a text is rendered unchanged. Against `{}` every
/// text is.
pub proof fn law_undefined_kept(t: Seq<char>, ctx: Json)
    requires
        forall|i: int|
            0 <= i < placeholder_names(t).len() ==> undefined_in(
                #[trigger] placeholder_names(t)[i],
                ctx,
            ),
    ensures
        render_text_spec(t, ctx) == t,
        render_text_spec(t, empty_object()) == t,
{
    lemma_substitute_undefined(t, ctx);
    assert(render_passes(t, ctx, MAX_RENDER_DEPTH as nat) == t);
    assert forall|i: int| 0 <= i < placeholder_names(t).len() implies undefined_in(
        #[trigger] placeholder_names(t)[i],
        empty_object(),
    ) by {
        crate::text::lemma_split_on_len(placeholder_names(t)[i], '.');
    }
    lemma_substitute_undefined(t, empty_object());
    assert(render_passes(t, empty_object(), MAX_RENDER_DEPTH as nat) == t);
}

proof fn lemma_render_members_keys(es: Seq<(Seq<char>, Json)>, ctx: Json, depth: int, n: int)
    requires
        0 <= n <= es.len(),
    ensures
        render_members(es, ctx, depth, n).len() == n,
        forall|i: int| 0 <= i < n ==> #[trigger] render_members(es, ctx, depth, n)[i].0 == es[i].0,
    decreases n,
{
    if n > 0 {
        lemma_render_members_keys(es, ctx, depth, n - 1);
    }
}

proof fn lemma_render_members_values(es: Seq<(Seq<char>, Json)>, ctx: Json, depth: int, n: int)
    requires
        0 <= n <= es.len(),
    ensures
        render_members(es, ctx, depth, n).len() == n,
        forall|i: int|
            0 <= i < n ==> #[trigger] render_members(es, ctx, depth, n)[i].1 == render_node(
                es[i].1,
                ctx,
                depth,
            ),
    decreases n,
{
    if n > 0 {
        lemma_render_members_values(es, ctx, depth, n - 1);
        let r = render_members(es, ctx, depth, n);
        assert forall|i: int| 0 <= i < n implies #[trigger] r[i].1 == render_node(es[i].1, ctx, depth) by {
            if i < n - 1 {
                assert(r[i] == render_members(es, ctx, depth, n - 1)[i]);
            }
        }
    }
}

proof fn lemma_render_items_shape(a: Seq<Json>, ctx: Json, depth: int, n: int)
    requires
        0 <= n <= a.len(),
    ensures
        render_items(a, ctx, depth, n).len() == n,
        forall|i: int|
            0 <= i < n ==> {
                let x = #[trigger] render_items(a, ctx, depth, n)[i];
                &&& a[i] is String ==> x is String
                &&& a[i] is Object ==> x == render_node(a[i], ctx, depth) && x is Object
                &&& !(a[i] is String) && !(a[i] is Object) ==> x == a[i]
            },
    decreases n,
{
    if n > 0 {
        lemma_render_items_shape(a, ctx, depth, n - 1);
        let r = render_items(a, ctx, depth, n);
        assert forall|i: int| 0 <= i < n implies {
            let x = #[trigger] r[i];
            &&& a[i] is String ==> x is String
            &&& a[i] is Object ==> x == render_node(a[i], ctx, depth) && x is Object
            &&& !(a[i] is String) && !(a[i] is Object) ==> x == a[i]
        } by {
            if i < n - 1 {
                assert(r[i] == render_items(a, ctx, depth, n - 1)[i]);
            }
        }
    }
}

/// Rendering keeps the shape of a config: an object keeps its keys, in
/// order, each value rendered in turn; an array keeps its length, its
/// strings stay strings, its objects are rendered as objects, and its other
/// items (nested arrays included) are kept as they are; numbers, booleans
/// and `null` are kept as they are.
pub proof fn law_render_keeps_shape(v: Json, ctx: Json, depth: int)
    ensures
        v is Object ==> render_node(v, ctx, depth) is Object && render_node(v, ctx, depth)->Object_0.len()
            == v->Object_0.len() && forall|i: int|
            0 <= i < v->Object_0.len() ==> #[trigger] render_node(v, ctx, depth)->Object_0[i].0
                == v->Object_0[i].0 && render_node(v, ctx, depth)->Object_0[i].1 == render_node(
                v->Object_0[i].1,
                ctx,
                depth,
            ),
        v is Array ==> render_node(v, ctx, depth) is Array && render_node(v, ctx, depth)->Array_0.len()
            == v->Array_0.len() && forall|i: int|
            0 <= i < v->Array_0.len() ==> {
                let x = #[trigger] render_node(v, ctx, depth)->Array_0[i];
                let y = v->Array_0[i];
                &&& y is String ==> x is String
                &&& y is Object ==> x is Object && x == render_node(y, ctx, depth)
                &&& !(y is String) && !(y is Object) ==> x == y
            },
        (v is Number || v is Bool || v is Null) ==> render_node(v, ctx, depth) == v,
{
    if v is Object {
        let es = v->Object_0;
        lemma_render_members_keys(es, ctx, depth, es.len() as int);
        lemma_render_members_values(es, ctx, depth, es.len() as int);
    }
    if v is Array {
        let a = v->Array_0;
        lemma_render_items_shape(a, ctx, depth, a.len() as int);
    }
}

/// `r` has the shape that rendering gives `v`: objects keep their keys in
/// order and arrays their length, level by level; numbers, booleans and
/// `null` are kept; a string without placeholders is kept, and one with
/// placeholders becomes a string, or (a whole placeholder) the array or
/// object it names.
pub open spec fn rendered_shape(v: Json, r: Json) -> bool
    decreases v, 1int,
{
    match v {
        Json::String(s) => (r is String || r is Array || r is Object) && (!has_placeholder(s) ==> r
            == v),
        Json::Array(a) => r is Array && r->Array_0.len() == a.len() && items_shape(
            a,
            r->Array_0,
            a.len() as int,
        ),
        Json::Object(es) => r is Object && r->Object_0.len() == es.len() && members_shape(
            es,
            r->Object_0,
            es.len() as int,
        ),
        _ => r == v,
    }
}

/// The shape that rendering gives an array item: a string stays a string
/// (kept when it has no placeholder), an object has its rendered shape,
/// anything else (nested arrays included) is kept.
pub open spec fn item_shape(v: Json, r: Json) -> bool
    decreases v, 2int,
{
    match v {
        Json::String(s) => r is String && (!has_placeholder(s) ==> r == v),
        Json::Object(_) => rendered_shape(v, r),
        _ => r == v,
    }
}

pub open spec fn items_shape(a: Seq<Json>, ra: Seq<Json>, n: int) -> bool
    decreases a, n,
{
    if n <= 0 || n > a.len() {
        true
    } else {
        items_shape(a, ra, n - 1) && item_shape(a[n - 1], ra[n - 1])
    }
}

pub open spec fn members_shape(
    es: Seq<(Seq<char>, Json)>,
    rs: Seq<(Seq<char>, Json)>,
    n: int,
) -> bool
    decreases es, n,
{
    if n <= 0 || n > es.len() {
        true
    } else {
        members_shape(es, rs, n - 1) && rs[n - 1].0 == es[n - 1].0 && rendered_shape(
            es[n - 1].1,
            rs[n - 1].1,
        )
    }
}

proof fn lemma_no_placeholder_names(s: Seq<char>)
    requires
        !has_placeholder(s),
    ensures
        placeholder_names(s).len() == 0,
{
}

proof fn lemma_render_items_index(a: Seq<Json>, ctx: Json, depth: int, n: int)
    requires
        0 <= n <= a.len(),
    ensures
        render_items(a, ctx, depth, n).len() == n,
        forall|i: int|
            0 <= i < n ==> #[trigger] render_items(a, ctx, depth, n)[i] == match a[i] {
                Json::String(s) => Json::String(render_text_spec(s, ctx)),
                Json::Object(_) => render_node(a[i], ctx, depth),
                _ => a[i],
            },
    decreases n,
{
    if n > 0 {
        lemma_render_items_index(a, ctx, depth, n - 1);
        let r = render_items(a, ctx, depth, n);
        assert forall|i: int| 0 <= i < n - 1 implies #[trigger] r[i] == render_items(
            a,
            ctx,
            depth,
            n - 1,
        )[i] by {}
    }
}

proof fn lemma_shape_node(v: Json, ctx: Json, depth: int)
    ensures
        rendered_shape(v, render_node(v, ctx, depth)),
    decreases v, 1int,
{
    match v {
        Json::String(s) => {
            if !has_placeholder(s) {
                lemma_no_placeholder_names(s);
                lemma_plain_string(s, ctx);
            } else if 0 <= depth < MAX_RENDER_DEPTH && whole_placeholder(s) {
                if let Some(c) = get_path(ctx, placeholder_names(s)[0]) {
                    if c is Array || c is Object {
                        let x = render_node(c, ctx, depth + 1);
                        assert(x is Array || x is Object);
                    }
                }
            }
        },
        Json::Array(a) => {
            let r = render_items(a, ctx, depth, a.len() as int);
            lemma_render_items_index(a, ctx, depth, a.len() as int);
            lemma_shape_items(a, r, ctx, depth, a.len() as int);
        },
        Json::Object(es) => {
            let r = render_members(es, ctx, depth, es.len() as int);
            lemma_render_members_keys(es, ctx, depth, es.len() as int);
            lemma_render_members_values(es, ctx, depth, es.len() as int);
            lemma_shape_members(es, r, ctx, depth, es.len() as int);
        },
        _ => {},
    }
}

proof fn lemma_shape_items(a: Seq<Json>, r: Seq<Json>, ctx: Json, depth: int, n: int)
    requires
        0 <= n <= a.len(),
        r.len() == a.len(),
        forall|i: int|
            0 <= i < a.len() ==> #[trigger] r[i] == match a[i] {
                Json::String(s) => Json::String(render_text_spec(s, ctx)),
                Json::Object(_) => render_node(a[i], ctx, depth),
                _ => a[i],
            },
    ensures
        items_shape(a, r, n),
    decreases a, n,
{
    if n > 0 {
        lemma_shape_items(a, r, ctx, depth, n - 1);
        let x = a[n - 1];
        assert(r[n - 1] == match x {
            Json::String(s) => Json::String(render_text_spec(s, ctx)),
            Json::Object(_) => render_node(x, ctx, depth),
            _ => x,
        });
        match x {
            Json::String(s) => {
                if !has_placeholder(s) {
                    lemma_no_placeholder_names(s);
                    lemma_plain_string(s, ctx);
                }
                assert(item_shape(x, r[n - 1]));
            },
            Json::Object(_) => {
                lemma_shape_node(x, ctx, depth);
                assert(item_shape(x, r[n - 1]));
            },
            _ => {
                assert(item_shape(x, r[n - 1]));
            },
        }
    }
}

proof fn lemma_shape_members(
    es: Seq<(Seq<char>, Json)>,
    r: Seq<(Seq<char>, Json)>,
    ctx: Json,
    depth: int,
    n: int,
)
    requires
        0 <= n <= es.len(),
        r.len() == es.len(),
        forall|i: int| 0 <= i < es.len() ==> #[trigger] r[i].0 == es[i].0,
        forall|i: int| 0 <= i < es.len() ==> #[trigger] r[i].1 == render_node(es[i].1, ctx, depth),
    ensures
        members_shape(es, r, n),
    decreases es, n,
{
    if n > 0 {
        lemma_shape_members(es, r, ctx, depth, n - 1);
        assert(r[n - 1].0 == es[n - 1].0);
        assert(r[n - 1].1 == render_node(es[n - 1].1, ctx, depth));
        lemma_shape_node(es[n - 1].1, ctx, depth);
    }
}

/// Rendering keeps the shape of a config at every level (`rendered_shape`):
/// the same keys in the same order, the same array lengths, numbers,
/// booleans and `null` kept, strings in nested arrays kept, and only
/// strings holding placeholders changed (to strings, or to the array or
/// object a whole placeholder names).
pub proof fn law_render_keeps_shape_at_every_level(config: Json, ctx: Json)
    ensures
        rendered_shape(config, render_spec(config, ctx)),
{
    lemma_shape_node(config, enrich(base_context(ctx), ctx, sorted_params(config)), 0);
}

proof fn lemma_wf_render_node(v: Json, ctx: Json, depth: int)
    requires
        well_formed(v),
        well_formed(ctx),
    ensures
        well_formed(render_node(v, ctx, depth)),
    decreases MAX_RENDER_DEPTH as int - depth, v, 0int,
{
    match v {
        Json::String(s) => {
            if 0 <= depth < MAX_RENDER_DEPTH && whole_placeholder(s) {
                law_paths_keep_well_formed(ctx, placeholder_names(s)[0], ctx);
                if let Some(c) = get_path(ctx, placeholder_names(s)[0]) {
                    if c is Array || c is Object {
                        lemma_wf_render_node(c, ctx, depth + 1);
                    }
                }
            }
        },
        Json::Array(a) => {
            lemma_items_well_formed(a, a.len() as int);
            lemma_wf_render_items(a, ctx, depth, a.len() as int);
            let r = render_items(a, ctx, depth, a.len() as int);
            lemma_items_well_formed(r, r.len() as int);
        },
        Json::Object(es) => {
            lemma_members_well_formed(es, es.len() as int);
            lemma_wf_render_members(es, ctx, depth, es.len() as int);
            lemma_render_members_keys(es, ctx, depth, es.len() as int);
            let r = render_members(es, ctx, depth, es.len() as int);
            lemma_members_well_formed(r, r.len() as int);
            assert(unique_keys(r)) by {
                assert forall|i: int, j: int| 0 <= i < j < r.len() implies r[i].0 != r[j].0 by {
                    assert(r[i].0 == es[i].0);
                    assert(r[j].0 == es[j].0);
                }
            }
        },
        _ => {},
    }
}

proof fn lemma_wf_render_items(a: Seq<Json>, ctx: Json, depth: int, n: int)
    requires
        forall|i: int| 0 <= i < a.len() ==> #[trigger] well_formed(a[i]),
        well_formed(ctx),
        0 <= n <= a.len(),
    ensures
        render_items(a, ctx, depth, n).len() == n,
        forall|i: int| 0 <= i < n ==> #[trigger] well_formed(render_items(a, ctx, depth, n)[i]),
    decreases MAX_RENDER_DEPTH as int - depth, a, n,
{
    if n > 0 {
        lemma_wf_render_items(a, ctx, depth, n - 1);
        if a[n - 1] is Object {
            lemma_wf_render_node(a[n - 1], ctx, depth);
        }
        let r = render_items(a, ctx, depth, n);
        assert forall|i: int| 0 <= i < n implies #[trigger] well_formed(r[i]) by {
            if i < n - 1 {
                assert(r[i] == render_items(a, ctx, depth, n - 1)[i]);
            }
        }
    }
}

proof fn lemma_wf_render_members(es: Seq<(Seq<char>, Json)>, ctx: Json, depth: int, n: int)
    requires
        forall|i: int| 0 <= i < es.len() ==> #[trigger] well_formed(es[i].1),
        well_formed(ctx),
        0 <= n <= es.len(),
    ensures
        render_members(es, ctx, depth, n).len() == n,
        forall|i: int|
            0 <= i < n ==> #[trigger] well_formed(render_members(es, ctx, depth, n)[i].1),
    decreases MAX_RENDER_DEPTH as int - depth, es, n,
{
    if n > 0 {
        lemma_wf_render_members(es, ctx, depth, n - 1);
        lemma_wf_render_node(es[n - 1].1, ctx, depth);
        let r = render_members(es, ctx, depth, n);
        assert forall|i: int| 0 <= i < n implies #[trigger] well_formed(r[i].1) by {
            if i < n - 1 {
                assert(r[i] == render_members(es, ctx, depth, n - 1)[i]);
            }
        }
    }
}

proof fn lemma_wf_chain_after(v: Json, ctx: Json, n: nat)
    requires
        well_formed(v),
    ensures
        well_formed(chain_after(v, ctx, n)),
    decreases n,
{
    if n > 0 {
        lemma_wf_chain_after(v, ctx, (n - 1) as nat);
    }
}

proof fn lemma_wf_enrich(acc: Json, ctx: Json, ps: Seq<Seq<char>>)
    requires
        well_formed(acc),
        well_formed(ctx),
    ensures
        well_formed(enrich(acc, ctx, ps)),
    decreases ps.len(),
{
    if ps.len() > 0 {
        let p = ps[0];
        law_paths_keep_well_formed(ctx, p, ctx);
        let v = ctx_value(ctx, p);
        lemma_wf_chain_after(v, ctx, choose|n: nat| settled_within(v, ctx, n));
        law_paths_keep_well_formed(acc, p, resolved(v, ctx));
        lemma_wf_enrich(set_path(acc, p, resolved(v, ctx)), ctx, ps.drop_first());
    }
}

/// Rendering a well-formed config against a well-formed context gives a
/// well-formed config.
pub proof fn law_render_keeps_well_formed(config: Json, ctx: Json)
    requires
        well_formed(config),
        well_formed(ctx),
    ensures
        well_formed(render_spec(config, ctx)),
{
    let base = base_context(ctx);
    lemma_wf_enrich(base, ctx, sorted_params(config));
    lemma_wf_render_node(config, enrich(base, ctx, sorted_params(config)), 0);
}

proof fn lemma_param_items_empty(a: Seq<Json>, n: int)
    requires
        0 <= n <= a.len(),
        param_items(a, n).len() == 0,
    ensures
        forall|i: int| 0 <= i < n ==> (#[trigger] param_list(a[i])).len() == 0,
    decreases n,
{
    if n > 0 {
        lemma_param_items_empty(a, n - 1);
    }
}

proof fn lemma_param_members_empty(es: Seq<(Seq<char>, Json)>, n: int)
    requires
        0 <= n <= es.len(),
        param_members(es, n).len() == 0,
    ensures
        forall|i: int| 0 <= i < n ==> (#[trigger] param_list(es[i].1)).len() == 0,
    decreases n,
{
    if n > 0 {
        lemma_param_members_empty(es, n - 1);
    }
}

proof fn lemma_plain_string(s: Seq<char>, ctx: Json)
    requires
        placeholder_names(s).len() == 0,
    ensures
        !has_placeholder(s),
        !whole_placeholder(s),
        render_text_spec(s, ctx) == s,
{
    lemma_pieces_names_len(s);
    law_plain_text_unchanged(s, ctx);
}

proof fn lemma_render_plain(v: Json, ctx: Json, depth: int)
    requires
        param_list(v).len() == 0,
    ensures
        render_node(v, ctx, depth) == v,
    decreases MAX_RENDER_DEPTH as int - depth, v, 0int,
{
    match v {
        Json::String(s) => {
            lemma_plain_string(s, ctx);
        },
        Json::Array(a) => {
            lemma_param_items_empty(a, a.len() as int);
            lemma_render_plain_items(a, ctx, depth, a.len() as int);
            assert(a.take(a.len() as int) =~= a);
        },
        Json::Object(es) => {
            lemma_param_members_empty(es, es.len() as int);
            lemma_render_plain_members(es, ctx, depth, es.len() as int);
            assert(es.take(es.len() as int) =~= es);
        },
        _ => {},
    }
}

proof fn lemma_render_plain_items(a: Seq<Json>, ctx: Json, depth: int, n: int)
    requires
        0 <= n <= a.len(),
        forall|i: int| 0 <= i < a.len() ==> (#[trigger] param_list(a[i])).len() == 0,
    ensures
        render_items(a, ctx, depth, n) == a.take(n),
    decreases MAX_RENDER_DEPTH as int - depth, a, n,
{
    if n > 0 {
        lemma_render_plain_items(a, ctx, depth, n - 1);
        assert(param_list(a[n - 1]).len() == 0);
        match a[n - 1] {
            Json::String(s) => {
                lemma_plain_string(s, ctx);
            },
            Json::Object(_) => {
                lemma_render_plain(a[n - 1], ctx, depth);
            },
            _ => {},
        }
        assert(a.take(n) =~= a.take(n - 1).push(a[n - 1]));
    } else {
        assert(a.take(0) =~= Seq::<Json>::empty());
    }
}

proof fn lemma_render_plain_members(es: Seq<(Seq<char>, Json)>, ctx: Json, depth: int, n: int)
    requires
        0 <= n <= es.len(),
        forall|i: int| 0 <= i < es.len() ==> (#[trigger] param_list(es[i].1)).len() == 0,
    ensures
        render_members(es, ctx, depth, n) == es.take(n),
    decreases MAX_RENDER_DEPTH as int - depth, es, n,
{
    if n > 0 {
        lemma_render_plain_members(es, ctx, depth, n - 1);
        assert(param_list(es[n - 1].1).len() == 0);
        lemma_render_plain(es[n - 1].1, ctx, depth);
        assert(es.take(n) =~= es.take(n - 1).push(es[n - 1]));
    } else {
        assert(es.take(0) =~= Seq::<(Seq<char>, Json)>::empty());
    }
}

/// A config without placeholders is rendered as it is, whatever the context.
pub proof fn law_render_plain_config(config: Json, ctx: Json)
    requires
        param_list(config).len() == 0,
    ensures
        render_spec(config, ctx) == config,
{
    lemma_render_plain(config, enrich(base_context(ctx), ctx, sorted_params(config)), 0);
}

/// Zero-sized handle for the `${VAR}` template engine.
pub struct TemplateEngine;

impl TemplateEngine {
    /// Whether `text` contains at least one `${...}` placeholder.
    pub fn contains_template(text: &str) -> (r: bool)
        ensures
            r == has_placeholder(text@),
    {
        pattern_is_match(TEMPLATE_PATTERN, text)
    }

    /// Whether a value is plain text: non-strings are text-only; strings are
    /// text-only when they hold no placeholder.
    pub fn is_text_only(value: &JsonValue) -> (r: bool)
        ensures
            r == match value@ {
                Json::String(s) => !has_placeholder(s),
                _ => true,
            },
    {
        match value {
            JsonValue::String(s) => !pattern_is_match(TEMPLATE_PATTERN, s.as_str()),
            _ => true,
        }
    }

    /// Render every string in `config` against `context`. The parameters that
    /// `config` refers to are first resolved against `context` into an
    /// enriched context (in ascending order of their names); a string that is
    /// exactly one placeholder naming an array or object becomes that
    /// container, rendered in turn. `config` is not changed.
    pub fn render(config: &JsonValue, context: &JsonValue) -> (r: JsonValue)
        requires
            params_settle(config@, context@),
        ensures
            r@ == render_spec(config@, context@),
            well_formed(config@) && well_formed(context@) ==> well_formed(r@),
    {
        proof {
            if well_formed(config@) && well_formed(context@) {
                law_render_keeps_well_formed(config@, context@);
            }
        }
        let params = sorted_params_exec(config);
        let ghost ps = sorted_params(config@);
        let mut enriched = if context.is_object() {
            context.deep_copy()
        } else {
            JsonValue::empty_object()
        };
        let ghost target = enrich(base_context(context@), context@, ps);
        assert(ps.skip(0) =~= ps);
        let mut i: usize = 0;
        while i < params.len()
            invariant
                i <= params.len(),
                strs(params@) == ps,
                params_settle(config@, context@),
                ps == sorted_params(config@),
                enrich(enriched@, context@, ps.skip(i as int)) == target,
            decreases params.len() - i,
        {
            let p = &params[i];
            assert(ps[i as int] == p@);
            let val = match get_nested(context, p.as_str()) {
                Some(x) => x.deep_copy(),
                None => JsonValue::Null,
            };
            assert(val@ == ctx_value(context@, ps[i as int]));
            let val = resolve_value(val, context);
            set_nested(&mut enriched, p.as_str(), val);
            assert(ps.skip(i as int).drop_first() =~= ps.skip(i + 1));
            i += 1;
        }
        assert(ps.skip(i as int) =~= Seq::<Seq<char>>::empty());
        render_node_exec(config, &enriched, 0)
    }

    /// `render`, for any input: `None` when some parameter's chain does not
    /// come to rest within `chain_limit()` rounds (where `render`
    /// would keep resolving).
    pub fn render_checked(config: &JsonValue, context: &JsonValue) -> (r: Option<JsonValue>)
        ensures
            r is Some <==> params_settle_bounded(config@, context@),
            r matches Some(x) ==> x@ == render_spec(config@, context@),
            r matches Some(x) ==> (well_formed(config@) && well_formed(context@) ==> well_formed(
                x@,
            )),
    {
        if Self::params_settle_within_exec(config, context) {
            proof {
                lemma_settle_within_settles(config@, context@, chain_limit());
            }
            Some(Self::render(config, context))
        } else {
            None
        }
    }

    /// Whether every parameter of `config` resolves to rest against `context`
    /// within `chain_limit()` rounds.
    pub fn params_settle_within_exec(config: &JsonValue, context: &JsonValue) -> (r: bool)
        ensures
            r == params_settle_bounded(config@, context@),
    {
        let params = sorted_params_exec(config);
        let ghost ps = sorted_params(config@);
        let mut i: usize = 0;
        while i < params.len()
            invariant
                i <= params.len(),
                strs(params@) == ps,
                ps == sorted_params(config@),
                forall|k: int|
                    0 <= k < i ==> settled_within(
                        #[trigger] ctx_value(context@, ps[k]),
                        context@,
                        chain_limit(),
                    ),
            decreases params.len() - i,
        {
            let p = &params[i];
            assert(ps[i as int] == p@);
            let val = match get_nested(context, p.as_str()) {
                Some(x) => x.deep_copy(),
                None => JsonValue::Null,
            };
            assert(val@ == ctx_value(context@, ps[i as int]));
            if !chain_settles_exec(&val, context) {
                assert(!settled_within(ctx_value(context@, ps[i as int]), context@, chain_limit()));
                return false;
            }
            i += 1;
        }
        true
    }

    /// Render a single string, resolving `${VAR}` (dot-notation included)
    /// against `context`, up to `MAX_RENDER_DEPTH` passes. Undefined variables
    /// are kept.
    pub fn render_text(text: &str, context: &JsonValue) -> (r: String)
        ensures
            r@ == render_text_spec(text@, context@),
    {
        let mut current = owned(text);
        let mut n: usize = 0;
        while n < MAX_RENDER_DEPTH
            invariant
                n <= MAX_RENDER_DEPTH,
                render_text_spec(text@, context@) == render_passes(
                    current@,
                    context@,
                    (MAX_RENDER_DEPTH - n) as nat,
                ),
            decreases MAX_RENDER_DEPTH - n,
        {
            let next = substitute_once(current.as_str(), context);
            if next == current {
                return current;
            }
            current = next;
            n += 1;
        }
        current
    }
}

} // verus!
