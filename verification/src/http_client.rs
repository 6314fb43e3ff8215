use vstd::prelude::*;
use vstd::utf8::encode_utf8;

use crate::codec::{json_document, json_from_str};
use crate::error::ConfigError;
use crate::json::{lookup, Json, JsonValue};
use crate::nested::member;
use crate::text::{ascii_chars, ascii_to_string, owned};

verus! {

/// Bytes that percent-encoding leaves alone: RFC 3986 unreserved
/// (`A-Za-z0-9-._~`).
pub open spec fn unreserved(b: u8) -> bool {
    (0x41 <= b <= 0x5a) || (0x61 <= b <= 0x7a) || (0x30 <= b <= 0x39) || b == 0x2d || b == 0x2e
        || b == 0x5f || b == 0x7e
}

/// Upper-case hex digit of `n < 16`.
pub open spec fn hex_digit(n: u8) -> u8 {
    if n < 10 {
        (0x30 + n) as u8
    } else {
        (0x41 + n - 10) as u8
    }
}

/// The encoding of one byte.
pub open spec fn encode_byte(b: u8) -> Seq<u8> {
    if unreserved(b) {
        seq![b]
    } else {
        seq![0x25u8, hex_digit(b / 16), hex_digit(b % 16)]
    }
}

/// Percent-encoding of a byte string.
pub open spec fn percent_encode(bytes: Seq<u8>) -> Seq<u8>
    decreases bytes.len(),
{
    if bytes.len() == 0 {
        Seq::empty()
    } else {
        percent_encode(bytes.drop_last()) + encode_byte(bytes.last())
    }
}

/// The percent-encoded form of the UTF-8 bytes of `s`.
pub open spec fn encoded(s: Seq<char>) -> Seq<char> {
    ascii_chars(percent_encode(encode_utf8(s)))
}

proof fn lemma_encode_ascii(bytes: Seq<u8>)
    ensures
        forall|i: int| 0 <= i < percent_encode(bytes).len() ==> percent_encode(bytes)[i] < 0x80,
    decreases bytes.len(),
{
    if bytes.len() > 0 {
        lemma_encode_ascii(bytes.drop_last());
        let p = percent_encode(bytes.drop_last());
        let b = bytes.last();
        let e = encode_byte(b);
        assert(b / 16 < 16 && b % 16 < 16);
        assert(forall|k: int| 0 <= k < e.len() ==> e[k] < 0x80);
        assert forall|i: int| 0 <= i < percent_encode(bytes).len() implies percent_encode(bytes)[i]
            < 0x80 by {
            if i >= p.len() {
                assert(percent_encode(bytes)[i] == e[i - p.len()]);
            }
        }
    }
}

fn hex_digit_exec(n: u8) -> (r: u8)
    requires
        n < 16,
    ensures
        r == hex_digit(n),
{
    if n < 10 {
        0x30 + n
    } else {
        0x41 + n - 10
    }
}

/// Percent-encode `s`: bytes outside RFC 3986 unreserved are written `%XX`.
pub fn encode_component(s: &str) -> (r: String)
    ensures
        r@ == encoded(s@),
{
    let bytes = s.as_bytes();
    let ghost bs = bytes@;
    let mut out: Vec<u8> = Vec::new();
    let mut i: usize = 0;
    assert(bs.take(0) =~= Seq::<u8>::empty());
    while i < bytes.len()
        invariant
            i <= bytes@.len(),
            bs == bytes@,
            out@ == percent_encode(bs.take(i as int)),
        decreases bytes@.len() - i,
    {
        let b = bytes[i];
        assert(bs.take(i + 1).drop_last() =~= bs.take(i as int));
        assert(bs.take(i + 1).last() == b);
        if (0x41 <= b && b <= 0x5a) || (0x61 <= b && b <= 0x7a) || (0x30 <= b && b <= 0x39) || b
            == 0x2d || b == 0x2e || b == 0x5f || b == 0x7e {
            out.push(b);
        } else {
            out.push(0x25);
            out.push(hex_digit_exec(b / 16));
            out.push(hex_digit_exec(b % 16));
        }
        assert(out@ =~= percent_encode(bs.take(i as int)) + encode_byte(b));
        i += 1;
    }
    assert(bs.take(i as int) =~= bs);
    assert(bs == encode_utf8(s@));
    proof {
        lemma_encode_ascii(bs);
    }
    ascii_to_string(out)
}

/// `c` is an RFC 3986 unreserved character (`A-Za-z0-9-._~`).
pub open spec fn unreserved_char(c: char) -> bool {
    ('A' <= c <= 'Z') || ('a' <= c <= 'z') || ('0' <= c <= '9') || c == '-' || c == '.' || c == '_'
        || c == '~'
}

proof fn lemma_encode_unreserved_bytes(bytes: Seq<u8>)
    requires
        forall|i: int| 0 <= i < bytes.len() ==> unreserved(#[trigger] bytes[i]),
    ensures
        percent_encode(bytes) == bytes,
    decreases bytes.len(),
{
    if bytes.len() > 0 {
        lemma_encode_unreserved_bytes(bytes.drop_last());
        assert(unreserved(bytes[bytes.len() - 1]));
        assert(bytes.drop_last().push(bytes.last()) =~= bytes);
    }
}

/// Percent-encoding leaves a text of unreserved characters as it is.
pub proof fn law_encode_keeps_unreserved(s: Seq<char>)
    requires
        forall|i: int| 0 <= i < s.len() ==> unreserved_char(#[trigger] s[i]),
    ensures
        encoded(s) == s,
{
    assert(vstd::utf8::is_ascii_chars(s));
    vstd::utf8::is_ascii_chars_encode_utf8(s);
    let bs = encode_utf8(s);
    assert forall|i: int| 0 <= i < bs.len() implies unreserved(#[trigger] bs[i]) by {
        assert(s[i] as u8 == bs[i]);
        assert(unreserved_char(s[i]));
    }
    lemma_encode_unreserved_bytes(bs);
    assert forall|i: int| 0 <= i < s.len() implies ascii_chars(bs)[i] == s[i] by {
        assert(s[i] as u8 == bs[i]);
        assert(unreserved_char(s[i]));
    }
    assert(ascii_chars(bs) =~= s);
}

proof fn lemma_encode_safe_bytes(bytes: Seq<u8>)
    ensures
        forall|i: int|
            0 <= i < percent_encode(bytes).len() ==> unreserved(#[trigger] percent_encode(bytes)[i])
                || percent_encode(bytes)[i] == 0x25,
    decreases bytes.len(),
{
    if bytes.len() > 0 {
        lemma_encode_safe_bytes(bytes.drop_last());
        let p = percent_encode(bytes.drop_last());
        let b = bytes.last();
        let e = encode_byte(b);
        assert(b / 16 < 16 && b % 16 < 16);
        assert(forall|k: int| 0 <= k < e.len() ==> unreserved(#[trigger] e[k]) || e[k] == 0x25);
        assert forall|i: int| 0 <= i < percent_encode(bytes).len() implies unreserved(
            #[trigger] percent_encode(bytes)[i],
        ) || percent_encode(bytes)[i] == 0x25 by {
            if i >= p.len() {
                assert(percent_encode(bytes)[i] == e[i - p.len()]);
            } else {
                assert(percent_encode(bytes)[i] == p[i]);
            }
        }
    }
}

/// Percent-encoding writes only unreserved characters and `%`: every other
/// byte is escaped.
pub proof fn law_encoded_is_url_safe(s: Seq<char>)
    ensures
        forall|i: int|
            0 <= i < encoded(s).len() ==> unreserved_char(#[trigger] encoded(s)[i])
                || encoded(s)[i] == '%',
{
    let bs = percent_encode(encode_utf8(s));
    lemma_encode_safe_bytes(encode_utf8(s));
    assert forall|i: int| 0 <= i < encoded(s).len() implies unreserved_char(
        #[trigger] encoded(s)[i],
    ) || encoded(s)[i] == '%' by {
        assert(encoded(s)[i] == bs[i] as char);
        assert(unreserved(bs[i]) || bs[i] == 0x25);
    }
}

/// The value of an upper-case hex digit.
pub open spec fn hex_value(d: u8) -> int {
    if 0x30 <= d <= 0x39 {
        d - 0x30
    } else if 0x41 <= d <= 0x46 {
        d - 0x41 + 10
    } else {
        0
    }
}

/// Percent-decoding: `%XX` gives the byte `XX`, any other byte stands for
/// itself.
pub open spec fn percent_decode(e: Seq<u8>) -> Seq<u8>
    decreases e.len(),
{
    if e.len() == 0 {
        Seq::empty()
    } else if e[0] == 0x25 && e.len() >= 3 {
        seq![(hex_value(e[1]) * 16 + hex_value(e[2])) as u8] + percent_decode(
            e.subrange(3, e.len() as int),
        )
    } else {
        seq![e[0]] + percent_decode(e.subrange(1, e.len() as int))
    }
}

/// The number of bytes of `bs` that are not unreserved.
pub open spec fn reserved_count(bs: Seq<u8>) -> nat
    decreases bs.len(),
{
    if bs.len() == 0 {
        0
    } else {
        reserved_count(bs.drop_last()) + if unreserved(bs.last()) {
            0nat
        } else {
            1nat
        }
    }
}

proof fn lemma_encode_append(a: Seq<u8>, b: Seq<u8>)
    ensures
        percent_encode(a + b) == percent_encode(a) + percent_encode(b),
    decreases b.len(),
{
    if b.len() == 0 {
        assert(a + b =~= a);
        assert(percent_encode(a) + percent_encode(b) =~= percent_encode(a));
    } else {
        lemma_encode_append(a, b.drop_last());
        assert((a + b).drop_last() =~= a + b.drop_last());
        assert((a + b).last() == b.last());
        assert(percent_encode(a) + percent_encode(b.drop_last()) + encode_byte(b.last())
            =~= percent_encode(a) + (percent_encode(b.drop_last()) + encode_byte(b.last())));
    }
}

proof fn lemma_encode_front(bs: Seq<u8>)
    requires
        bs.len() > 0,
    ensures
        percent_encode(bs) == encode_byte(bs[0]) + percent_encode(bs.drop_first()),
{
    lemma_encode_append(seq![bs[0]], bs.drop_first());
    assert(seq![bs[0]] + bs.drop_first() =~= bs);
    let one = seq![bs[0]];
    assert(one.drop_last() =~= Seq::<u8>::empty());
    assert(one.last() == bs[0]);
    assert(percent_encode(one.drop_last()) == Seq::<u8>::empty());
    assert(percent_encode(one) == percent_encode(one.drop_last()) + encode_byte(one.last()));
    assert(percent_encode(one) =~= encode_byte(bs[0]));
}

proof fn lemma_hex_value(n: u8)
    requires
        n < 16,
    ensures
        hex_value(hex_digit(n)) == n,
{
}

proof fn lemma_decode_encoded(bs: Seq<u8>)
    ensures
        percent_decode(percent_encode(bs)) == bs,
    decreases bs.len(),
{
    if bs.len() > 0 {
        let b = bs[0];
        let rest = percent_encode(bs.drop_first());
        lemma_encode_front(bs);
        lemma_decode_encoded(bs.drop_first());
        let e = encode_byte(b) + rest;
        if unreserved(b) {
            assert(e.subrange(1, e.len() as int) =~= rest);
        } else {
            assert(e.subrange(3, e.len() as int) =~= rest);
            lemma_hex_value(b / 16);
            lemma_hex_value(b % 16);
            assert((b / 16) * 16 + b % 16 == b) by (nonlinear_arith);
            assert(e[1] == hex_digit(b / 16));
            assert(e[2] == hex_digit(b % 16));
        }
        assert(seq![b] + bs.drop_first() =~= bs);
    }
}

proof fn lemma_encode_len(bs: Seq<u8>)
    ensures
        reserved_count(bs) <= bs.len(),
        percent_encode(bs).len() == (bs.len() - reserved_count(bs)) + 3 * reserved_count(bs),
    decreases bs.len(),
{
    if bs.len() > 0 {
        lemma_encode_len(bs.drop_last());
    }
}

/// Percent-decoding the encoding of a byte string gives the bytes back, and
/// the encoding is one character per unreserved byte and three per other
/// byte. `encoded(s)` is the encoding of the UTF-8 bytes of `s`.
pub proof fn law_percent_encoding_round_trip(bs: Seq<u8>)
    ensures
        percent_decode(percent_encode(bs)) == bs,
        reserved_count(bs) <= bs.len(),
        percent_encode(bs).len() == (bs.len() - reserved_count(bs)) + 3 * reserved_count(bs),
{
    lemma_decode_encoded(bs);
    lemma_encode_len(bs);
}

/// The URL that fetches one config entry: an empty `tenant` (the public
/// namespace) and a missing token leave their parameters out.
pub open spec fn config_url(
    server_addr: Seq<char>,
    data_id: Seq<char>,
    group: Seq<char>,
    tenant: Seq<char>,
    token: Option<Seq<char>>,
) -> Seq<char> {
    "http://"@ + server_addr + "/nacos/v1/cs/configs?group="@ + encoded(group) + "&dataId="@
        + encoded(data_id) + (if tenant.len() > 0 {
        "&tenant="@ + encoded(tenant)
    } else {
        Seq::empty()
    }) + match token {
        Some(t) => "&accessToken="@ + encoded(t),
        None => Seq::empty(),
    }
}

/// The parts of the config URL are independent: a token only appends
/// `&accessToken=` and its encoding, whatever the tenant; a non-empty tenant
/// only appends `&tenant=` and its encoding, whatever the token; an empty
/// tenant and no token leave just the group and data id.
pub proof fn law_config_url_parts(
    server_addr: Seq<char>,
    data_id: Seq<char>,
    group: Seq<char>,
    tenant: Seq<char>,
    token: Seq<char>,
)
    ensures
        config_url(server_addr, data_id, group, tenant, Some(token)) == config_url(
            server_addr,
            data_id,
            group,
            tenant,
            None,
        ) + "&accessToken="@ + encoded(token),
        tenant.len() > 0 ==> config_url(server_addr, data_id, group, tenant, None) == config_url(
            server_addr,
            data_id,
            group,
            Seq::empty(),
            None,
        ) + "&tenant="@ + encoded(tenant),
        config_url(server_addr, data_id, group, Seq::empty(), None) == "http://"@ + server_addr
            + "/nacos/v1/cs/configs?group="@ + encoded(group) + "&dataId="@ + encoded(data_id),
{
    let base = "http://"@ + server_addr + "/nacos/v1/cs/configs?group="@ + encoded(group)
        + "&dataId="@ + encoded(data_id);
    let tp: Seq<char> = if tenant.len() > 0 {
        "&tenant="@ + encoded(tenant)
    } else {
        Seq::empty()
    };
    assert(config_url(server_addr, data_id, group, tenant, None) =~= base + tp);
    assert(config_url(server_addr, data_id, group, Seq::empty(), None) =~= base);
    assert(config_url(server_addr, data_id, group, tenant, Some(token)) =~= base + tp + (
    "&accessToken="@ + encoded(token)));
    assert(base + tp + ("&accessToken="@ + encoded(token)) =~= base + tp + "&accessToken="@
        + encoded(token));
    if tenant.len() > 0 {
        assert(base + ("&tenant="@ + encoded(tenant)) =~= base + "&tenant="@ + encoded(tenant));
    }
}

/// Build the URL that fetches one config entry.
pub fn build_config_url(
    server_addr: &str,
    data_id: &str,
    group: &str,
    tenant: &str,
    token: Option<&str>,
) -> (r: String)
    ensures
        r@ == config_url(
            server_addr@,
            data_id@,
            group@,
            tenant@,
            match token {
                Some(t) => Some(t@),
                None => None,
            },
        ),
{
    let mut url = owned("http://");
    url.append(server_addr);
    url.append("/nacos/v1/cs/configs?group=");
    url.append(encode_component(group).as_str());
    url.append("&dataId=");
    url.append(encode_component(data_id).as_str());
    let ghost before_tenant = url@;
    if !tenant.is_empty() {
        url.append("&tenant=");
        url.append(encode_component(tenant).as_str());
    }
    let ghost before_token = url@;
    match token {
        Some(t) => {
            url.append("&accessToken=");
            url.append(encode_component(t).as_str());
        },
        None => {},
    }
    proof {
        let tp: Seq<char> = if tenant@.len() > 0 {
            "&tenant="@ + encoded(tenant@)
        } else {
            Seq::empty()
        };
        let kp: Seq<char> = match token {
            Some(t) => "&accessToken="@ + encoded(t@),
            None => Seq::empty(),
        };
        assert(before_token =~= before_tenant + tp);
        assert(url@ =~= before_token + kp);
    }
    url
}

/// The URL of the login endpoint.
pub fn login_url(server_addr: &str) -> (r: String)
    ensures
        r@ == "http://"@ + server_addr@ + "/nacos/v1/auth/login"@,
{
    let mut url = owned("http://");
    url.append(server_addr);
    url.append("/nacos/v1/auth/login");
    url
}

/// The form body of the login request.
pub fn login_body(username: &str, password: &str) -> (r: String)
    ensures
        r@ == "username="@ + encoded(username@) + "&password="@ + encoded(password@),
{
    let mut body = owned("username=");
    body.append(encode_component(username).as_str());
    body.append("&password=");
    body.append(encode_component(password).as_str());
    body
}

/// Whether both a username and a password are configured; only then is a
/// token requested before fetching.
pub fn needs_auth(username: &str, password: &str) -> (r: bool)
    ensures
        r == (username@.len() > 0 && password@.len() > 0),
{
    !username.is_empty() && !password.is_empty()
}

/// The token in a login response: the string member `accessToken` of the
/// JSON object it holds.
pub open spec fn login_token(body: Seq<char>) -> Option<Seq<char>> {
    match json_document(body) {
        Some(d) => match d {
            Json::Object(es) => match lookup(es, "accessToken"@) {
                Some(t) => match t {
                    Json::String(s) => Some(s),
                    _ => None,
                },
                None => None,
            },
            _ => None,
        },
        None => None,
    }
}

/// Take the `accessToken` out of a login response body.
pub fn parse_login_token(body: &str) -> (r: Result<String, ConfigError>)
    ensures
        match r {
            Ok(t) => login_token(body@) == Some(t@),
            Err(ConfigError::Json(_)) => json_document(body@) is None,
            Err(ConfigError::Nacos(m)) => json_document(body@) is Some && login_token(body@) is None
                && m@ == "login response has no accessToken"@,
            Err(_) => false,
        },
{
    match json_from_str(body) {
        Err(e) => Err(ConfigError::Json(e)),
        Ok(v) => {
            let key = owned("accessToken");
            match member(&v, &key) {
                Some(JsonValue::String(t)) => Ok(t.clone()),
                _ => Err(ConfigError::Nacos(owned("login response has no accessToken"))),
            }
        },
    }
}

/// The outcome of a login request: the token, or the error reported.
pub fn login_outcome(success: bool, status: &str, body: &str) -> (r: Result<String, ConfigError>)
    ensures
        !success ==> (r matches Err(ConfigError::Nacos(m)) && m@ == "nacos login failed: HTTP "@
            + status@),
        success ==> match r {
            Ok(t) => login_token(body@) == Some(t@),
            Err(ConfigError::Json(_)) => json_document(body@) is None,
            Err(ConfigError::Nacos(m)) => json_document(body@) is Some && login_token(body@) is None
                && m@ == "login response has no accessToken"@,
            Err(_) => false,
        },
{
    if !success {
        let mut m = owned("nacos login failed: HTTP ");
        m.append(status);
        return Err(ConfigError::Nacos(m));
    }
    parse_login_token(body)
}

/// The outcome of a config request: the body, or the error reported.
pub fn config_outcome(
    success: bool,
    status: &str,
    data_id: &str,
    group: &str,
    body: String,
) -> (r: Result<String, ConfigError>)
    ensures
        success ==> (r matches Ok(b) && b@ == body@),
        !success ==> (r matches Err(ConfigError::Nacos(m)) && m@ == "get config failed: HTTP "@
            + status@ + " ("@ + data_id@ + "/"@ + group@ + ")"@),
{
    if success {
        return Ok(body);
    }
    let mut m = owned("get config failed: HTTP ");
    m.append(status);
    m.append(" (");
    m.append(data_id);
    m.append("/");
    m.append(group);
    m.append(")");
    Err(ConfigError::Nacos(m))
}

/// What to do about the access token before a fetch.
pub enum TokenStep {
    /// No credentials are configured: send no token.
    NoAuth,
    /// Send the token obtained earlier.
    Reuse(String),
    /// Log in first.
    Login,
}

/// The model of a `TokenStep`.
pub enum TokenPlan {
    NoAuth,
    Reuse(Seq<char>),
    Login,
}

pub open spec fn plan_of(s: TokenStep) -> TokenPlan {
    match s {
        TokenStep::NoAuth => TokenPlan::NoAuth,
        TokenStep::Reuse(t) => TokenPlan::Reuse(t@),
        TokenStep::Login => TokenPlan::Login,
    }
}

/// The step taken with the kept token `token`: no token without both
/// credentials; else the kept one, or a login when none is kept.
pub open spec fn token_plan(token: Option<Seq<char>>, username: Seq<char>, password: Seq<char>) -> TokenPlan {
    if !(username.len() > 0 && password.len() > 0) {
        TokenPlan::NoAuth
    } else {
        match token {
            Some(t) => TokenPlan::Reuse(t),
            None => TokenPlan::Login,
        }
    }
}

/// The token kept after a login that gave `obtained` (`None`: it failed).
pub open spec fn token_after(token: Option<Seq<char>>, obtained: Option<Seq<char>>) -> Option<Seq<char>> {
    match obtained {
        Some(t) => Some(t),
        None => token,
    }
}

/// The access token a transport keeps between fetches.
pub struct TokenCache {
    pub token: Option<String>,
}

impl TokenCache {
    pub open spec fn token_view(&self) -> Option<Seq<char>> {
        match self.token {
            Some(t) => Some(t@),
            None => None,
        }
    }

    /// No token yet.
    pub fn new() -> (r: Self)
        ensures
            r.token_view() is None,
    {
        TokenCache { token: None }
    }

    /// What to do before a fetch with these credentials.
    pub fn next_step(&self, username: &str, password: &str) -> (r: TokenStep)
        ensures
            plan_of(r) == token_plan(self.token_view(), username@, password@),
    {
        if !needs_auth(username, password) {
            return TokenStep::NoAuth;
        }
        match &self.token {
            Some(t) => TokenStep::Reuse(t.clone()),
            None => TokenStep::Login,
        }
    }

    /// Keep the token of a successful login; a failed one keeps nothing.
    /// The outcome is handed back.
    pub fn record(&mut self, outcome: Result<String, ConfigError>) -> (r: Result<String, ConfigError>)
        ensures
            r == outcome,
            final(self).token_view() == token_after(
                old(self).token_view(),
                match outcome {
                    Ok(t) => Some(t@),
                    Err(_) => None,
                },
            ),
    {
        match outcome {
            Ok(t) => {
                self.token = Some(t.clone());
                Ok(t)
            },
            Err(e) => Err(e),
        }
    }
}

/// With both credentials, a token obtained by a login is sent on every later
/// fetch without another login, and after a failed first login the next
/// fetch logs in again; without both credentials no token is ever sent.
pub proof fn law_token_reused(
    token: Option<Seq<char>>,
    username: Seq<char>,
    password: Seq<char>,
    t: Seq<char>,
)
    ensures
        username.len() > 0 && password.len() > 0 ==> token_plan(
            token_after(token, Some(t)),
            username,
            password,
        ) == TokenPlan::Reuse(t),
        username.len() > 0 && password.len() > 0 ==> token_plan(
            token_after(None, None),
            username,
            password,
        ) == TokenPlan::Login,
        !(username.len() > 0 && password.len() > 0) ==> token_plan(token, username, password)
            == TokenPlan::NoAuth,
{
}

} // verus!
