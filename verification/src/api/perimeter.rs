//! Who is let in: the key, the source address and the browser origin of a
//! request.
use crate::api::auth::{opt_view, ApiKeys, AuthError, Identity};
use crate::api::ip_allowlist::{covered, IpAddress, IpAllowlist};
use crate::api::origin::AllowedOrigins;
use crate::text;
use vstd::prelude::*;
use vstd::slice::slice_subrange;

verus! {

/// The largest request body, in bytes: enough for an image or an audio clip in
/// base64.
pub const MAX_BODY_BYTES: usize = 67_108_864;

/// The challenge that goes with a refusal for want of a key.
pub const CHALLENGE: &'static str = "Bearer realm=\"eullm\"";

/// What the perimeter reads of a request. A header that is not text counts as
/// absent.
#[derive(Debug)]
pub struct Incoming {
    pub method: String,
    pub source: IpAddress,
    pub authorization: Option<String>,
    pub api_key: Option<String>,
    pub query: Option<String>,
    pub origin: Option<String>,
}

/// A refusal as it is answered.
#[derive(Debug, PartialEq, Eq)]
pub struct Refusal {
    pub status: u16,
    pub message: String,
    /// The message is the body itself, not the `error` of a JSON object.
    pub plain: bool,
    /// Send the challenge.
    pub challenge: bool,
    /// Seconds after which to try again.
    pub retry_after_s: Option<u64>,
}

pub open spec fn string_view(s: Option<String>) -> Option<Seq<char>> {
    match s {
        Some(t) => Some(t@),
        None => None,
    }
}

/// The token of an `Authorization` header: what follows the scheme, where that
/// is `bearer` in whatever case.
pub open spec fn bearer(header: Seq<char>) -> Option<Seq<char>> {
    let t = text::trimmed(header);
    let p = text::index_of(t, ' ');
    if p < t.len() && text::lowered(t.take(p)) == "bearer"@ {
        Some(text::trimmed(t.skip(p + 1)))
    } else {
        None
    }
}

/// The value of the first `api_key=` among the parameters of a query.
pub open spec fn query_key(params: Seq<Seq<char>>) -> Option<Seq<char>>
    decreases params.len(),
{
    if params.len() == 0 {
        None
    } else {
        let p = text::index_of(params[0], '=');
        if p < params[0].len() && params[0].take(p) == "api_key"@ {
            Some(params[0].skip(p + 1))
        } else {
            query_key(params.skip(1))
        }
    }
}

/// The token that a request carries: in `Authorization: Bearer`, else in
/// `X-Api-Key`, else, where a query may carry one, in `api_key`.
pub open spec fn token(
    authorization: Option<Seq<char>>,
    api_key: Option<Seq<char>>,
    query: Option<Seq<char>>,
    allow_query_token: bool,
) -> Option<Seq<char>> {
    if authorization matches Some(h) && bearer(h) is Some {
        bearer(authorization->Some_0)
    } else if api_key is Some {
        Some(text::trimmed(api_key->Some_0))
    } else if allow_query_token && query is Some {
        query_key(text::pieces(query->Some_0, '&'))
    } else {
        None
    }
}

fn bearer_token(header: &str) -> (r: Option<String>)
    ensures
        string_view(r) == bearer(header@),
{
    let c: Vec<char> = text::to_chars(header);
    let t: &[char] = text::trim(&c);
    let p: usize = text::position(t, ' ');
    if p >= t.len() {
        return None;
    }
    let scheme: &[char] = slice_subrange(t, 0, p);
    let rest: &[char] = slice_subrange(t, p + 1, t.len());
    assert(scheme@ =~= t@.take(p as int));
    assert(rest@ =~= t@.skip(p + 1));
    let want: Vec<char> = text::to_chars("bearer");
    if text::same_chars(&text::lower_chars(scheme), &want) {
        Some(text::from_chars(text::trim(rest)))
    } else {
        None
    }
}

fn query_token(query: &str) -> (r: Option<String>)
    ensures
        string_view(r) == query_key(text::pieces(query@, '&')),
{
    let c: Vec<char> = text::to_chars(query);
    let params: Vec<Vec<char>> = text::split(&c, '&');
    let key: Vec<char> = text::to_chars("api_key");
    let ghost all = text::rows(params@);
    let mut i: usize = 0;
    assert(all.skip(0) =~= all);
    while i < params.len()
        invariant
            i <= params@.len(),
            all == text::rows(params@),
            all == text::pieces(query@, '&'),
            key@ == "api_key"@,
            query_key(all) == query_key(all.skip(i as int)),
        decreases params.len() - i,
    {
        let param: &Vec<char> = &params[i];
        assert(all.skip(i as int)[0] == param@);
        let p: usize = text::position(param, '=');
        if p < param.len() {
            let name: &[char] = slice_subrange(param, 0, p);
            assert(name@ =~= param@.take(p as int));
            if text::same_chars(name, &key) {
                let value: &[char] = slice_subrange(param, p + 1, param.len());
                assert(value@ =~= param@.skip(p + 1));
                return Some(text::from_chars(value));
            }
        }
        assert(all.skip(i as int).skip(1) =~= all.skip(i + 1));
        i = i + 1;
    }
    None
}

/// Pulls the token out of a request. `allow_query_token` holds on the chat UI's
/// listener alone: a browser cannot set a header on its first navigation, and
/// a token in a URL ends up in logs, so no other listener takes one.
pub fn extract_token(req: &Incoming, allow_query_token: bool) -> (r: Option<String>)
    ensures
        string_view(r) == token(
            string_view(req.authorization),
            string_view(req.api_key),
            string_view(req.query),
            allow_query_token,
        ),
{
    match &req.authorization {
        Some(h) => {
            let t: Option<String> = bearer_token(h.as_str());
            if t.is_some() {
                return t;
            }
        },
        None => {},
    }
    match &req.api_key {
        Some(k) => {
            let c: Vec<char> = text::to_chars(k.as_str());
            return Some(text::from_chars(text::trim(&c)));
        },
        None => {},
    }
    if allow_query_token {
        match &req.query {
            Some(q) => query_token(q.as_str()),
            None => None,
        }
    } else {
        None
    }
}

pub open spec fn rate_text(key_id: Seq<char>, seconds: nat) -> Seq<char> {
    "rate limit exceeded for key '"@ + key_id + "' — retry in "@ + text::decimal(seconds) + "s"@
}

impl Refusal {
    /// A refusal for want of a usable key.
    pub open spec fn is_for(self, e: AuthError) -> bool {
        match e {
            AuthError::Missing => {
                &&& self.status == 401
                &&& self.message@
                    == "missing API key — send it as `Authorization: Bearer <key>` or `X-Api-Key: <key>`"@
                &&& !self.plain
                &&& self.challenge
                &&& self.retry_after_s is None
            },
            AuthError::Invalid => {
                &&& self.status == 401
                &&& self.message@ == "invalid API key"@
                &&& !self.plain
                &&& self.challenge
                &&& self.retry_after_s is None
            },
            AuthError::RateLimited { key_id, retry_after_s } => {
                &&& self.status == 429
                &&& self.message@ == rate_text(key_id@, retry_after_s as nat)
                &&& !self.plain
                &&& !self.challenge
                &&& self.retry_after_s == Some(retry_after_s)
            },
        }
    }

    /// A refusal for the address that a request came from.
    pub open spec fn is_for_source(self) -> bool {
        &&& self.status == 403
        &&& self.message@ == "source IP not in the configured allowlist"@
        &&& self.plain
        &&& !self.challenge
        &&& self.retry_after_s is None
    }

    /// A refusal for the page that a request came from.
    pub open spec fn is_for_origin(self) -> bool {
        &&& self.status == 403
        &&& self.message@
            == "request origin is not allowed — set EULLM_ALLOWED_ORIGINS if this frontend should be permitted"@
        &&& !self.plain
        &&& !self.challenge
        &&& self.retry_after_s is None
    }

    fn with(status: u16, message: &str, plain: bool, challenge: bool) -> (r: Self)
        ensures
            r.status == status,
            r.message@ == message@,
            r.plain == plain,
            r.challenge == challenge,
            r.retry_after_s is None,
    {
        Refusal {
            status,
            message: text::copy_text(message),
            plain,
            challenge,
            retry_after_s: None,
        }
    }
}

/// The answer to a request whose key does not let it in.
pub fn refuse_auth(e: &AuthError) -> (r: Refusal)
    ensures
        r.is_for(*e),
{
    match e {
        AuthError::Missing => Refusal::with(
            401,
            "missing API key — send it as `Authorization: Bearer <key>` or `X-Api-Key: <key>`",
            false,
            true,
        ),
        AuthError::Invalid => Refusal::with(401, "invalid API key", false, true),
        AuthError::RateLimited { key_id, retry_after_s } => {
            let mut m: String = text::copy_text("rate limit exceeded for key '");
            m.append(key_id.as_str());
            m.append("' — retry in ");
            let s: String = text::decimal_text(*retry_after_s);
            m.append(s.as_str());
            m.append("s");
            Refusal {
                status: 429,
                message: m,
                plain: false,
                challenge: false,
                retry_after_s: Some(*retry_after_s),
            }
        },
    }
}

/// A source address is let in where the allowlist covers it, and for whoever
/// presented a valid key: behind an address translation every client arrives
/// from the same address.
pub open spec fn source_ok(authenticated: bool, ips: IpAllowlist, source: IpAddress) -> bool {
    authenticated || covered(ips.nets@, source)
}

/// Checks the source address of a request.
pub fn enforce_ip_allowlist(who: &Identity, ips: &IpAllowlist, source: IpAddress) -> (r: Option<
    Refusal,
>)
    requires
        ips.wf(),
    ensures
        match r {
            None => source_ok(who.key_id is Some, *ips, source),
            Some(f) => !source_ok(who.key_id is Some, *ips, source) && f.is_for_source(),
        },
{
    if who.is_authenticated() || ips.is_allowed(source) {
        None
    } else {
        Some(Refusal::with(403, "source IP not in the configured allowlist", true, false))
    }
}

/// A method that changes nothing.
pub open spec fn safe_method(method: Seq<char>) -> bool {
    method == "GET"@ || method == "HEAD"@ || method == "OPTIONS"@
}

/// A request with side effects comes from a page that may send it, or from no
/// page at all.
pub open spec fn origin_ok(
    origins: AllowedOrigins,
    method: Seq<char>,
    origin: Option<Seq<char>>,
) -> bool {
    safe_method(method) || (origin matches Some(o) ==> origins.allows(o))
}

/// Checks the browser origin of a request. A page that cannot read the answer
/// can still cause the effect, so this does not rest on CORS.
pub fn enforce_origin(origins: &AllowedOrigins, method: &str, origin: Option<&str>) -> (r: Option<
    Refusal,
>)
    ensures
        match r {
            None => origin_ok(*origins, method@, opt_view(origin)),
            Some(f) => !origin_ok(*origins, method@, opt_view(origin)) && f.is_for_origin(),
        },
{
    if text::same_text(method, "GET") || text::same_text(method, "HEAD") || text::same_text(
        method,
        "OPTIONS",
    ) {
        return None;
    }
    match origin {
        Some(o) => if origins.is_allowed(o) {
            None
        } else {
            Some(
                Refusal::with(
                    403,
                    "request origin is not allowed — set EULLM_ALLOWED_ORIGINS if this frontend should be permitted",
                    false,
                    false,
                ),
            )
        },
        None => None,
    }
}

/// How a request is ruled on once its key was: the address counts only without
/// a key, and the origin only for a request with side effects.
pub open spec fn ruled(
    key: Result<Identity, AuthError>,
    ips: IpAllowlist,
    origins: AllowedOrigins,
    req: Incoming,
    r: Result<Identity, Refusal>,
) -> bool {
    match key {
        Err(e) => r matches Err(f) && f.is_for(e),
        Ok(who) => if !source_ok(who.key_id is Some, ips, req.source) {
            r matches Err(f) && f.is_for_source()
        } else if !origin_ok(origins, req.method@, string_view(req.origin)) {
            r matches Err(f) && f.is_for_origin()
        } else {
            r == Ok::<Identity, Refusal>(who)
        },
    }
}

/// Rules on a request: the key first, which is charged against its quota, then
/// the source address, then the origin.
pub fn rule_on(
    keys: &mut ApiKeys,
    ips: &IpAllowlist,
    origins: &AllowedOrigins,
    req: &Incoming,
    allow_query_token: bool,
    now: u64,
) -> (r: Result<Identity, Refusal>)
    requires
        old(keys).wf(),
        ips.wf(),
    ensures
        final(keys).wf(),
        exists|key: Result<Identity, AuthError>|
            old(keys).authenticates(
                token(
                    string_view(req.authorization),
                    string_view(req.api_key),
                    string_view(req.query),
                    allow_query_token,
                ),
                now,
                *final(keys),
                key,
            ) && #[trigger] ruled(key, *ips, *origins, *req, r),
{
    let presented: Option<String> = extract_token(req, allow_query_token);
    let shown: Option<&str> = match &presented {
        Some(t) => Some(t.as_str()),
        None => None,
    };
    let key: Result<Identity, AuthError> = keys.authenticate(shown, now);
    let ghost said = key;
    let who: Identity = match key {
        Ok(who) => who,
        Err(e) => {
            let f: Refusal = refuse_auth(&e);
            let r: Result<Identity, Refusal> = Err(f);
            assert(ruled(said, *ips, *origins, *req, r));
            return r;
        },
    };
    match enforce_ip_allowlist(&who, ips, req.source) {
        Some(f) => {
            let r: Result<Identity, Refusal> = Err(f);
            assert(ruled(said, *ips, *origins, *req, r));
            return r;
        },
        None => {},
    }
    let page: Option<&str> = match &req.origin {
        Some(o) => Some(o.as_str()),
        None => None,
    };
    match enforce_origin(origins, req.method.as_str(), page) {
        Some(f) => {
            let r: Result<Identity, Refusal> = Err(f);
            assert(ruled(said, *ips, *origins, *req, r));
            return r;
        },
        None => {},
    }
    let r: Result<Identity, Refusal> = Ok(who);
    assert(ruled(said, *ips, *origins, *req, r));
    r
}

/// A refused key is answered as such whatever the address and the origin: no
/// allowlist lets a request in that keys keep out.
pub proof fn law_a_refused_key_is_never_let_in(
    e: AuthError,
    ips: IpAllowlist,
    origins: AllowedOrigins,
    req: Incoming,
    r: Result<Identity, Refusal>,
)
    requires
        ruled(Err(e), ips, origins, req, r),
    ensures
        r matches Err(f) && (f.status == 401 || f.status == 429),
{
}

/// A valid key admits a request from any address.
pub proof fn law_a_key_admits_from_anywhere(
    who: Identity,
    ips: IpAllowlist,
    origins: AllowedOrigins,
    req: Incoming,
    r: Result<Identity, Refusal>,
)
    requires
        who.key_id is Some,
        ruled(Ok(who), ips, origins, req, r),
    ensures
        origin_ok(origins, req.method@, string_view(req.origin)) <==> r == Ok::<Identity, Refusal>(
            who,
        ),
        r matches Err(f) ==> f.is_for_origin(),
{
}

/// Nothing with a foreign origin and side effects gets past, key or no key.
pub proof fn law_a_foreign_page_causes_no_effect(
    key: Result<Identity, AuthError>,
    ips: IpAllowlist,
    origins: AllowedOrigins,
    req: Incoming,
    r: Result<Identity, Refusal>,
)
    requires
        ruled(key, ips, origins, req, r),
        !safe_method(req.method@),
        req.origin matches Some(o) && !origins.allows(o@),
    ensures
        r is Err,
{
}

/// Whether `EULLM_ALLOW_MODEL_PATHS` switches on paths as model names.
pub open spec fn switched_on(value: Option<Seq<char>>) -> bool {
    match value {
        Some(v) => {
            let w = text::lowered(text::trimmed(v));
            w == "1"@ || w == "true"@ || w == "yes"@ || w == "on"@
        },
        None => false,
    }
}

pub fn allow_model_paths(value: Option<&str>) -> (r: bool)
    ensures
        r == switched_on(opt_view(value)),
{
    match value {
        Some(v) => {
            let c: Vec<char> = text::to_chars(v);
            let low: Vec<char> = text::lower_chars(text::trim(&c));
            let w: String = text::from_chars(&low);
            text::same_text(w.as_str(), "1") || text::same_text(w.as_str(), "true")
                || text::same_text(w.as_str(), "yes") || text::same_text(w.as_str(), "on")
        },
        None => false,
    }
}

/// The port of the chat UI: none where it would collide with the API's.
pub fn ui_listener(ui_port: Option<u16>, api_port: u16) -> (r: Option<u16>)
    ensures
        r == (match ui_port {
            Some(p) if p != api_port => Some(p),
            _ => None::<u16>,
        }),
{
    match ui_port {
        Some(p) => if p == api_port {
            None
        } else {
            Some(p)
        },
        None => None,
    }
}

pub open spec fn auth_failure_text(e: Seq<char>) -> Seq<char> {
    e
        + "\n  Expected id:secret[:rpm=N] entries, comma-separated. Refusing to start: serving without the authentication you configured would be worse than not starting."@
}

/// Why a server whose configured keys cannot be read does not start.
pub fn auth_failure(e: &str) -> (r: String)
    ensures
        r@ == auth_failure_text(e@),
{
    let mut m: String = text::copy_text(e);
    m.append(
        "\n  Expected id:secret[:rpm=N] entries, comma-separated. Refusing to start: serving without the authentication you configured would be worse than not starting.",
    );
    m
}

pub open spec fn audit_failure_text(e: Seq<char>) -> Seq<char> {
    "EULLM_AUDIT_DIR is set but the audit trail is not writable: "@ + e
        + "\n  Point it at a writable, persistent path (in Docker, one backed by a mounted volume), or unset it to fall back to ~/.eullm/audit."@
}

pub open spec fn audit_warning_text(path: Seq<char>, e: Seq<char>) -> Seq<char> {
    "Audit trail disabled: "@ + path + " is not writable ("@ + e
        + "). Inference will work, but no audit records will be kept. Set EULLM_AUDIT_DIR to a writable path to enable it."@
}

/// What an audit trail that cannot be written means at startup: where its place
/// was configured the server does not start, and elsewhere it warns and serves.
pub fn audit_unwritable(configured: bool, path: &str, e: &str) -> (r: Result<String, String>)
    ensures
        match r {
            Ok(w) => !configured && w@ == audit_warning_text(path@, e@),
            Err(m) => configured && m@ == audit_failure_text(e@),
        },
{
    if configured {
        let mut m: String = text::copy_text(
            "EULLM_AUDIT_DIR is set but the audit trail is not writable: ",
        );
        m.append(e);
        m.append(
            "\n  Point it at a writable, persistent path (in Docker, one backed by a mounted volume), or unset it to fall back to ~/.eullm/audit.",
        );
        Err(m)
    } else {
        let mut m: String = text::copy_text("Audit trail disabled: ");
        m.append(path);
        m.append(" is not writable (");
        m.append(e);
        m.append(
            "). Inference will work, but no audit records will be kept. Set EULLM_AUDIT_DIR to a writable path to enable it.",
        );
        Ok(m)
    }
}

/// A request gets in exactly where its key lets it in, it has a key or comes from
/// an address on the list, and it has no side effects, no origin, or an allowed
/// one.
pub proof fn law_a_request_gets_in_past_all_three(
    key: Result<Identity, AuthError>,
    ips: IpAllowlist,
    origins: AllowedOrigins,
    req: Incoming,
    r: Result<Identity, Refusal>,
)
    requires
        ruled(key, ips, origins, req, r),
    ensures
        r is Ok <==> key is Ok && (key->Ok_0.key_id is Some || exists|i: int|
            0 <= i < ips.nets@.len() && (#[trigger] ips.nets@[i]).covers(req.source)) && (
        req.method@ == "GET"@ || req.method@ == "HEAD"@ || req.method@ == "OPTIONS"@ || req.origin
            is None || origins.allows(req.origin->0@)),
        r matches Ok(who) ==> key == Ok::<Identity, AuthError>(who),
{
}

/// A refusal says why: 401 and a challenge without a valid key, 429 and when to
/// come back over the quota, 403 for the address or the origin.
pub proof fn law_a_refusal_says_why(
    key: Result<Identity, AuthError>,
    ips: IpAllowlist,
    origins: AllowedOrigins,
    req: Incoming,
    r: Result<Identity, Refusal>,
)
    requires
        ruled(key, ips, origins, req, r),
        r is Err,
    ensures
        key matches Err(AuthError::Missing) ==> r->Err_0.status == 401 && r->Err_0.challenge,
        key matches Err(AuthError::Invalid) ==> r->Err_0.status == 401 && r->Err_0.challenge,
        key matches Err(AuthError::RateLimited { retry_after_s, .. }) ==> r->Err_0.status == 429
            && r->Err_0.retry_after_s == Some(retry_after_s),
        key is Ok ==> r->Err_0.status == 403 && !r->Err_0.challenge,
{
}

/// The token of an `Authorization` header follows the word "bearer", in whatever
/// case, and a blank.
pub proof fn law_a_bearer_token_follows_its_scheme(scheme: Seq<char>, token: Seq<char>)
    requires
        text::lowered(scheme) == "bearer"@,
        0 < token.len(),
        text::trimmed(token) == token,
        !text::white(token[token.len() - 1]),
    ensures
        bearer(scheme + seq![' '] + token) == Some(token),
{
    reveal_strlit("bearer");
    let low = "bearer"@;
    let s = scheme + seq![' '] + token;
    assert(text::lowered(scheme).len() == scheme.len());
    assert(low.len() == 6);
    assert forall|i: int| 0 <= i < 6 implies scheme[i] != ' ' && !text::white(scheme[i]) by {
        assert(text::lowered(scheme)[i] == low[i]);
        assert(text::lower(scheme[i]) == low[i]);
    }
    assert(s[0] == scheme[0]);
    assert(s.last() == token[token.len() - 1]);
    assert(text::trimmed_start(s) == s);
    assert(text::trimmed_end(s) == s);
    assert forall|i: int| 0 <= i < 6 implies s[i] != ' ' by {
        assert(s[i] == scheme[i]);
    }
    text::lemma_index_of_is(s, ' ', 6);
    assert(s.take(6) =~= scheme);
    assert(s.skip(7) =~= token);
}

/// Where a token is taken from: the `Authorization` header where it is a bearer's,
/// else `X-Api-Key`, and a query only where one may carry it.
pub proof fn law_a_header_wins_over_a_query(
    authorization: Option<Seq<char>>,
    api_key: Option<Seq<char>>,
    query: Option<Seq<char>>,
    allow: bool,
)
    ensures
        ({
            let t = token(authorization, api_key, query, allow);
            let b = match authorization {
                Some(h) => bearer(h),
                None => None,
            };
            &&& b is Some ==> t == b
            &&& b is None && api_key is Some ==> t == Some(text::trimmed(api_key->0))
            &&& b is None && api_key is None && !allow ==> t is None
            &&& b is None && api_key is None && query is None ==> t is None
        }),
{
}

/// The key of a query is the value of its first `api_key`.
pub proof fn law_the_first_api_key_of_a_query_counts(front: Seq<char>, key: Seq<char>)
    requires
        forall|i: int| 0 <= i < key.len() ==> #[trigger] key[i] != '&',
        forall|i: int| 0 <= i < front.len() ==> #[trigger] front[i] != '&' && front[i] != '=',
    ensures
        token(None, None, Some("api_key="@ + key), true) == Some(key),
        token(None, None, Some(front + seq!['&'] + ("api_key="@ + key)), true) == Some(key),
{
    reveal_strlit("api_key=");
    reveal_strlit("api_key");
    let p = "api_key="@ + key;
    assert forall|i: int| 0 <= i < p.len() implies p[i] != '&' by {
        if i >= 8 {
            assert(p[i] == key[i - 8]);
        }
    }
    text::law_a_piece_ends_at_its_separator(p, '&', Seq::empty());
    text::law_a_piece_ends_at_its_separator(front, '&', p);
    text::lemma_index_of_is(p, '=', 7);
    assert(p.take(7) =~= "api_key"@);
    assert(p.skip(8) =~= key);
    let one = seq![p];
    assert(query_key(one) == Some(key));
    let two = seq![front] + seq![p];
    text::lemma_index_of_is(front, '=', front.len() as int);
    assert(two.skip(1) =~= one);
    assert(two[0] == front);
}

/// Paths are switched on by a clear word, in any case and with blanks around it,
/// and by nothing else.
pub proof fn law_paths_are_switched_on_by_a_word(v: Seq<char>)
    ensures
        ({
            let w = text::lowered(text::trimmed(v));
            switched_on(Some(v)) <==> w == "1"@ || w == "true"@ || w == "yes"@ || w == "on"@
        }),
        !switched_on(None),
{
}

} // verus!
