//! The admission pipeline: what is checked, in which order, before a request
//! reaches the work behind it.

use crate::clock::MonotonicClock;
use crate::idempotency::{record_step, IdempotencyStore};
use crate::limiter::{allow_step, GatewayRateLimiter, RATE_LIMIT_WINDOW_SECS};
use crate::pairing::{
    authenticates, code_text, is_pairing_code, pair_step, GuardState, PairOutcome, PairingGuard,
};
use crate::signature::{webhook_secret_hash, webhook_secret_matches};
use crate::text::{
    from_chars, slice_chars, starts_with, starts_with_chars, strip_both, to_chars, trim, trim_chars,
    lemma_leading_unique, lemma_trailing_unique,
};
use vstd::prelude::*;

verus! {

/// Largest request body on the core routes, in bytes.
pub const MAX_BODY_SIZE: usize = 65_536;

/// Largest request body on the media upload route, in bytes.
pub const MAX_MEDIA_UPLOAD_BODY_SIZE: usize = 1_073_741_824;

/// Deadline of a request on the core routes, in seconds.
pub const REQUEST_TIMEOUT_SECS: u64 = 30;

/// Deadline of a media upload, in seconds.
pub const MEDIA_UPLOAD_TIMEOUT_SECS: u64 = 1_800;

/// The body of a webhook request.
#[derive(Debug)]
pub struct WebhookBody {
    pub message: String,
}

/// The query of a WhatsApp webhook handshake.
#[derive(Debug)]
pub struct WhatsAppVerifyQuery {
    pub mode: Option<String>,
    pub verify_token: Option<String>,
    pub challenge: Option<String>,
}

/// The query of a WATI webhook handshake.
#[derive(Debug)]
pub struct WatiVerifyQuery {
    pub challenge: Option<String>,
}

/// The token of an `Authorization` header: what follows `Bearer `, or
/// nothing.
pub open spec fn bearer_of(authorization: Seq<char>) -> Seq<char> {
    if starts_with(authorization, "Bearer "@) {
        authorization.skip("Bearer "@.len() as int)
    } else {
        Seq::empty()
    }
}

pub fn bearer_token(authorization: &str) -> (r: String)
    ensures
        r@ == bearer_of(authorization@),
{
    let chars = to_chars(authorization);
    let prefix = to_chars("Bearer ");
    if starts_with_chars(&chars, &prefix) {
        let tail = slice_chars(&chars, prefix.len(), chars.len());
        assert(tail@ == chars@.skip(prefix.len() as int));
        from_chars(&tail)
    } else {
        String::new()
    }
}

/// A header value as it counts: trimmed, and absent where nothing is left.
pub open spec fn present(value: Option<Seq<char>>) -> Option<Seq<char>> {
    match value {
        Some(v) => if trim(v).len() > 0 {
            Some(trim(v))
        } else {
            None
        },
        None => None,
    }
}

/// The view of an optional string.
pub open spec fn text_of(value: Option<String>) -> Option<Seq<char>> {
    match value {
        Some(v) => Some(v@),
        None => None,
    }
}

pub fn present_value(value: &Option<String>) -> (r: Option<String>)
    ensures
        text_of(r) == present(text_of(*value)),
{
    match value {
        Some(v) => {
            let t = trim_chars(&to_chars(v.as_str()));
            if t.len() > 0 {
                Some(from_chars(&t))
            } else {
                None
            }
        },
        None => None,
    }
}

/// How a webhook request fares.
#[derive(Debug, Clone, Copy, PartialEq, Eq, Structural)]
pub enum Admission {
    /// Too many requests from this client.
    RateLimited,
    /// Pairing is required and the bearer token is missing or unknown.
    Unauthorized,
    /// A webhook secret is configured and the request does not carry it.
    BadSecret,
    /// The body is not the expected JSON.
    BadBody,
    /// The idempotency key was seen before; there is nothing more to do.
    Duplicate,
    /// The request goes on to the assistant.
    Accepted,
}

/// The checks in their order: rate limit, bearer token, webhook secret,
/// body, idempotency.  The first that fails decides.
pub open spec fn verdict(
    allowed: bool,
    authenticated: bool,
    secret_ok: bool,
    body_ok: bool,
    fresh: bool,
) -> Admission {
    if !allowed {
        Admission::RateLimited
    } else if !authenticated {
        Admission::Unauthorized
    } else if !secret_ok {
        Admission::BadSecret
    } else if !body_ok {
        Admission::BadBody
    } else if !fresh {
        Admission::Duplicate
    } else {
        Admission::Accepted
    }
}

/// The HTTP status that goes with each outcome.
pub open spec fn admission_status(admission: Admission) -> u16 {
    match admission {
        Admission::RateLimited => 429u16,
        Admission::Unauthorized => 401u16,
        Admission::BadSecret => 401u16,
        Admission::BadBody => 400u16,
        Admission::Duplicate => 200u16,
        Admission::Accepted => 200u16,
    }
}

pub fn status_code(admission: Admission) -> (r: u16)
    ensures
        r == admission_status(admission),
{
    match admission {
        Admission::RateLimited => 429,
        Admission::Unauthorized => 401,
        Admission::BadSecret => 401,
        Admission::BadBody => 400,
        Admission::Duplicate => 200,
        Admission::Accepted => 200,
    }
}

/// Seconds a rate-limited client is told to wait: the length of the window.
pub fn rate_limit_retry_after() -> (r: u64)
    ensures
        r == RATE_LIMIT_WINDOW_SECS,
{
    RATE_LIMIT_WINDOW_SECS
}

/// What of a webhook request the admission pipeline looks at.  `body_ok`
/// tells whether the body parsed.
#[derive(Debug)]
pub struct WebhookRequest {
    pub client_key: String,
    pub authorization: Option<String>,
    pub webhook_secret: Option<String>,
    pub idempotency_key: Option<String>,
    pub body_ok: bool,
}

/// Whether a request may pass the webhook secret check: no secret is
/// configured, or the trimmed header hashes to the stored hash.
pub open spec fn secret_accepted(stored_hash: Option<Seq<char>>, header: Option<Seq<char>>) -> bool {
    match stored_hash {
        None => true,
        Some(stored) => match present(header) {
            Some(value) => webhook_secret_hash(value) == stored,
            None => false,
        },
    }
}

/// The state behind the admission pipeline.
pub struct AdmissionControl {
    pub limiter: GatewayRateLimiter,
    pub pairing: PairingGuard,
    pub idempotency: IdempotencyStore,
    pub webhook_secret_hash: Option<String>,
    pub clock: MonotonicClock,
}

/// How a pairing request fares.
#[derive(Debug)]
pub enum PairResponse {
    /// Too many pairing requests; retry after this many seconds.
    RateLimited(u64),
    /// The code matched; here is the token.
    Paired(String),
    /// The code did not match.
    BadCode,
    /// Too many wrong codes; retry after this many seconds.
    LockedOut(u64),
}

impl PairResponse {
    /// The HTTP status that goes with the outcome.
    pub fn status_code(&self) -> (r: u16)
        ensures
            r == match *self {
                PairResponse::RateLimited(_) => 429u16,
                PairResponse::Paired(_) => 200u16,
                PairResponse::BadCode => 403u16,
                PairResponse::LockedOut(_) => 429u16,
            },
    {
        match self {
            PairResponse::RateLimited(_) => 429,
            PairResponse::Paired(_) => 200,
            PairResponse::BadCode => 403,
            PairResponse::LockedOut(_) => 429,
        }
    }
}

/// How a request for a new pairing code fares.
#[derive(Debug)]
pub enum NewCodeResponse {
    /// The bearer token is missing or unknown.
    Unauthorized,
    /// Pairing is switched off.
    PairingDisabled,
    /// Here is the new code.
    Code(String),
}

impl NewCodeResponse {
    pub fn status_code(&self) -> (r: u16)
        ensures
            r == match *self {
                NewCodeResponse::Unauthorized => 401u16,
                NewCodeResponse::PairingDisabled => 400u16,
                NewCodeResponse::Code(_) => 200u16,
            },
    {
        match self {
            NewCodeResponse::Unauthorized => 401,
            NewCodeResponse::PairingDisabled => 400,
            NewCodeResponse::Code(_) => 200,
        }
    }
}

/// What one run of the webhook pipeline at `now` does: the request is
/// counted by the webhook limiter; the idempotency key, if one is present, is
/// recorded exactly when the rate limit, the bearer token, the secret and the
/// body were all in order; nothing else changes; and the outcome is the
/// verdict of the checks in their order.
pub open spec fn webhook_admitted(
    before: AdmissionControl,
    after: AdmissionControl,
    request: WebhookRequest,
    now: u64,
    outcome: Admission,
) -> bool {
    let limited = allow_step(
        before.limiter.webhook().config(),
        before.limiter.webhook().state(),
        request.client_key@,
        now,
    );
    let authenticated = authenticates(
        before.pairing.state(),
        bearer_of(
            match request.authorization {
                Some(a) => a@,
                None => Seq::empty(),
            },
        ),
    );
    let secret_ok = secret_accepted(
        text_of(before.webhook_secret_hash),
        text_of(request.webhook_secret),
    );
    let reached = limited.1 && authenticated && secret_ok && request.body_ok;
    let key = present(text_of(request.idempotency_key));
    let recorded = record_step(
        before.idempotency.config(),
        before.idempotency.entries(),
        key.unwrap_or(Seq::empty()),
        now,
    );
    &&& after.pairing == before.pairing
    &&& after.webhook_secret_hash == before.webhook_secret_hash
    &&& after.limiter.pair() == before.limiter.pair()
    &&& after.limiter.webhook().config() == before.limiter.webhook().config()
    &&& after.limiter.webhook().state() == limited.0
    &&& after.idempotency.config() == before.idempotency.config()
    &&& after.idempotency.entries() == if reached && key.is_some() {
        recorded.0
    } else {
        before.idempotency.entries()
    }
    &&& outcome == verdict(
        limited.1,
        authenticated,
        secret_ok,
        request.body_ok,
        key.is_none() || recorded.1,
    )
}

/// What one pairing request at `now` does: the request is counted by the
/// pairing limiter; if it is allowed, the guard makes its attempt with
/// `token`; nothing else changes.
pub open spec fn pairing_handled(
    before: AdmissionControl,
    after: AdmissionControl,
    client_key: Seq<char>,
    code: Seq<char>,
    now: u64,
    token: Seq<char>,
    outcome: PairResponse,
) -> bool {
    let limited = allow_step(
        before.limiter.pair().config(),
        before.limiter.pair().state(),
        client_key,
        now,
    );
    let paired = pair_step(before.pairing.state(), code, client_key, now, token);
    &&& after.idempotency == before.idempotency
    &&& after.webhook_secret_hash == before.webhook_secret_hash
    &&& after.limiter.webhook() == before.limiter.webhook()
    &&& after.limiter.pair().config() == before.limiter.pair().config()
    &&& after.limiter.pair().state() == limited.0
    &&& after.pairing.state() == if limited.1 {
        paired.0
    } else {
        before.pairing.state()
    }
    &&& match outcome {
        PairResponse::RateLimited(secs) => !limited.1 && secs == RATE_LIMIT_WINDOW_SECS,
        PairResponse::Paired(t) => limited.1 && paired.1 == PairOutcome::Paired(t@),
        PairResponse::BadCode => limited.1 && paired.1 == PairOutcome::Refused,
        PairResponse::LockedOut(secs) => limited.1 && paired.1 == PairOutcome::LockedOut(
            secs as int,
        ) && secs >= 1,
    }
}

/// What one request for a new pairing code does, where `drawn` is the code
/// that was drawn.  A caller that is not authenticated is refused, and so is
/// one that asks while pairing is off; neither changes anything.  Otherwise
/// `drawn`, which is six decimal digits, replaces the code of the guard and
/// is handed out; the tokens, the failure records and everything else stay.
pub open spec fn new_code_handled(
    before: AdmissionControl,
    after: AdmissionControl,
    authorization: Option<String>,
    drawn: Seq<char>,
    outcome: NewCodeResponse,
) -> bool {
    let authenticated = authenticates(
        before.pairing.state(),
        bearer_of(
            match authorization {
                Some(a) => a@,
                None => Seq::empty(),
            },
        ),
    );
    &&& after.limiter == before.limiter
    &&& after.idempotency == before.idempotency
    &&& after.webhook_secret_hash == before.webhook_secret_hash
    &&& match outcome {
        NewCodeResponse::Unauthorized => !authenticated && after.pairing.state()
            == before.pairing.state(),
        NewCodeResponse::PairingDisabled => authenticated && !before.pairing.state().require_pairing
            && after.pairing.state() == before.pairing.state(),
        NewCodeResponse::Code(c) => {
            &&& authenticated
            &&& before.pairing.state().require_pairing
            &&& c@ == drawn
            &&& is_pairing_code(drawn)
            &&& after.pairing.state() == (GuardState {
                require_pairing: true,
                code: Some(drawn),
                tokens: before.pairing.state().tokens,
                failures: before.pairing.state().failures,
            })
        },
    }
}

impl AdmissionControl {
    pub open spec fn wf(&self) -> bool {
        self.limiter.wf() && self.idempotency.wf()
    }

    pub fn new(
        limiter: GatewayRateLimiter,
        pairing: PairingGuard,
        idempotency: IdempotencyStore,
        webhook_secret_hash: Option<String>,
    ) -> (r: Self)
        requires
            limiter.wf(),
            idempotency.wf(),
        ensures
            r.wf(),
            r.limiter == limiter,
            r.pairing == pairing,
            r.idempotency == idempotency,
            r.webhook_secret_hash == webhook_secret_hash,
    {
        AdmissionControl { limiter, pairing, idempotency, webhook_secret_hash, clock: MonotonicClock::new() }
    }

    /// Milliseconds on the pipeline's clock.
    pub fn now(&self) -> u64 {
        self.clock.now_ms()
    }

    /// Whether a request with this `Authorization` header is authenticated:
    /// always where pairing is off, else by its bearer token.
    pub fn is_authorized(&self, authorization: &Option<String>) -> (r: bool)
        ensures
            r == authenticates(
                self.pairing.state(),
                bearer_of(
                    match *authorization {
                        Some(a) => a@,
                        None => Seq::empty(),
                    },
                ),
            ),
    {
        if !self.pairing.require_pairing() {
            return true;
        }
        let token = match authorization {
            Some(a) => bearer_token(a.as_str()),
            None => {
                proof {
                    reveal_strlit("Bearer ");
                }
                String::new()
            },
        };
        self.pairing.is_authenticated(token.as_str())
    }

    fn secret_ok(&self, header: &Option<String>) -> (r: bool)
        ensures
            r == secret_accepted(text_of(self.webhook_secret_hash), text_of(*header)),
    {
        match &self.webhook_secret_hash {
            None => true,
            Some(stored) => match present_value(header) {
                Some(value) => webhook_secret_matches(stored.as_str(), value.as_str()),
                None => false,
            },
        }
    }

    /// Runs a webhook request through the pipeline at time `now`.  The
    /// request is counted against its client first; the idempotency key is
    /// recorded only if every earlier check passed.
    pub fn admit_webhook_at(&mut self, request: &WebhookRequest, now: u64) -> (r: Admission)
        requires
            old(self).wf(),
        ensures
            final(self).wf(),
            webhook_admitted(*old(self), *final(self), *request, now, r),
    {
        if !self.limiter.allow_webhook_at(request.client_key.as_str(), now) {
            return Admission::RateLimited;
        }
        if !self.is_authorized(&request.authorization) {
            return Admission::Unauthorized;
        }
        if !self.secret_ok(&request.webhook_secret) {
            return Admission::BadSecret;
        }
        if !request.body_ok {
            return Admission::BadBody;
        }
        match present_value(&request.idempotency_key) {
            Some(key) => {
                if self.idempotency.record_if_new_at(key.as_str(), now) {
                    Admission::Accepted
                } else {
                    Admission::Duplicate
                }
            },
            None => Admission::Accepted,
        }
    }

    /// Runs a webhook request through the pipeline now: the outcome is that
    /// of `admit_webhook_at` for some reading of the clock.
    pub fn admit_webhook(&mut self, request: &WebhookRequest) -> (r: Admission)
        requires
            old(self).wf(),
        ensures
            final(self).wf(),
            exists|now: u64| #[trigger] webhook_admitted(*old(self), *final(self), *request, now, r),
    {
        let now = self.now();
        self.admit_webhook_at(request, now)
    }

    /// Handles a pairing request at time `now`, with `token` as the token to
    /// hand out if the code matches.  The request is counted against its
    /// client first; a rate-limited request never reaches the guard.
    pub fn pair_at(&mut self, client_key: &str, code: &str, now: u64, token: String) -> (r:
        PairResponse)
        requires
            old(self).wf(),
        ensures
            final(self).wf(),
            pairing_handled(*old(self), *final(self), client_key@, code@, now, token@, r),
    {
        proof {
            crate::pairing::lemma_lockout_is_positive(
                self.pairing.state().failures,
                client_key@,
                now,
            );
        }
        if !self.limiter.allow_pair_at(client_key, now) {
            return PairResponse::RateLimited(RATE_LIMIT_WINDOW_SECS);
        }
        match self.pairing.try_pair_at(code, client_key, now, token) {
            Ok(Some(t)) => PairResponse::Paired(t),
            Ok(None) => PairResponse::BadCode,
            Err(secs) => PairResponse::LockedOut(secs),
        }
    }

    /// Handles a pairing request now, with a fresh random token: the outcome
    /// is that of `pair_at` for some reading of the clock and some token of
    /// 64 hex digits.
    pub fn pair(&mut self, client_key: &str, code: &str) -> (r: PairResponse)
        requires
            old(self).wf(),
        ensures
            final(self).wf(),
            exists|now: u64, token: Seq<char>| #[trigger]
                pairing_handled(*old(self), *final(self), client_key@, code@, now, token, r)
                    && crate::pairing::is_bearer_token(token),
            r matches PairResponse::Paired(t) ==> authenticates(final(self).pairing.state(), t@),
    {
        let now = self.now();
        let token = crate::pairing::mint_token();
        let ghost before = self.pairing.state();
        let ghost tok = token@;
        let r = self.pair_at(client_key, code, now, token);
        proof {
            assert(pairing_handled(*old(self), *self, client_key@, code@, now, tok, r));
            if r is Paired {
                crate::pairing::lemma_paired_token_authenticates(
                    before,
                    code@,
                    client_key@,
                    now,
                    tok,
                );
            }
        }
        r
    }

    /// Handles a request for a new pairing code, drawn at random: the
    /// caller must be authenticated and pairing must be on.  The new code is
    /// six decimal digits; apart from the code, nothing of the guard changes.
    pub fn new_code(&mut self, authorization: &Option<String>) -> (r: NewCodeResponse)
        ensures
            exists|seed: Seq<u8>|
                #[trigger] new_code_handled(*old(self), *final(self), *authorization, code_text(seed), r),
    {
        if !self.is_authorized(authorization) {
            proof {
                assert(new_code_handled(
                    *old(self),
                    *self,
                    *authorization,
                    code_text(Seq::<u8>::empty()),
                    NewCodeResponse::Unauthorized,
                ));
            }
            return NewCodeResponse::Unauthorized;
        }
        match self.pairing.regenerate_pairing_code() {
            Some(code) => {
                proof {
                    let seed = choose|seed: Seq<u8>| code@ == #[trigger] code_text(seed);
                    assert(new_code_handled(
                        *old(self),
                        *self,
                        *authorization,
                        code_text(seed),
                        NewCodeResponse::Code(code),
                    ));
                }
                NewCodeResponse::Code(code)
            },
            None => {
                proof {
                    assert(new_code_handled(
                        *old(self),
                        *self,
                        *authorization,
                        code_text(Seq::<u8>::empty()),
                        NewCodeResponse::PairingDisabled,
                    ));
                }
                NewCodeResponse::PairingDisabled
            },
        }
    }

    /// Handles a request for a new pairing code, drawn from `seed`: the
    /// caller must be authenticated and pairing must be on.
    pub fn new_code_from(&mut self, authorization: &Option<String>, seed: &Vec<u8>) -> (r:
        NewCodeResponse)
        requires
            seed.len() >= 6,
        ensures
            new_code_handled(*old(self), *final(self), *authorization, code_text(seed@), r),
    {
        if !self.is_authorized(authorization) {
            return NewCodeResponse::Unauthorized;
        }
        match self.pairing.regenerate_pairing_code_from(seed) {
            Some(code) => NewCodeResponse::Code(code),
            None => NewCodeResponse::PairingDisabled,
        }
    }
}

/// How a webhook handshake fares.
#[derive(Debug)]
pub enum Handshake {
    /// The channel is not configured.
    NotConfigured,
    /// The handshake is accepted; the challenge is echoed.
    Echo(String),
    /// The handshake lacks a challenge.
    MissingChallenge,
    /// The mode or the token is wrong.
    Forbidden,
}

impl Handshake {
    pub fn status_code(&self) -> (r: u16)
        ensures
            r == match *self {
                Handshake::NotConfigured => 404u16,
                Handshake::Echo(_) => 200u16,
                Handshake::MissingChallenge => 400u16,
                Handshake::Forbidden => 403u16,
            },
    {
        match self {
            Handshake::NotConfigured => 404,
            Handshake::Echo(_) => 200,
            Handshake::MissingChallenge => 400,
            Handshake::Forbidden => 403,
        }
    }
}

/// Whether a handshake query subscribes with the configured token.
pub open spec fn subscribes(query: WhatsAppVerifyQuery, token: Seq<char>) -> bool {
    &&& query.mode matches Some(m)
    &&& m@ == "subscribe"@
    &&& query.verify_token matches Some(t)
    &&& t@ == token
}

/// Answers a WhatsApp webhook handshake: the challenge is echoed to a query
/// that subscribes with the configured verify token.
pub fn whatsapp_handshake(configured_token: Option<&str>, query: WhatsAppVerifyQuery) -> (r:
    Handshake)
    ensures
        match r {
            Handshake::NotConfigured => configured_token.is_none(),
            Handshake::Echo(c) => configured_token matches Some(t) && subscribes(query, t@)
                && query.challenge == Some(c),
            Handshake::MissingChallenge => configured_token matches Some(t) && subscribes(query, t@)
                && query.challenge.is_none(),
            Handshake::Forbidden => configured_token matches Some(t) && !subscribes(query, t@),
        },
{
    let token = match configured_token {
        Some(t) => t,
        None => {
            return Handshake::NotConfigured;
        },
    };
    let token_matches = match &query.verify_token {
        Some(t) => crate::signature::constant_time_eq(t.as_str(), token),
        None => false,
    };
    let mode_matches = match &query.mode {
        Some(m) => crate::text::str_eq(m.as_str(), "subscribe"),
        None => false,
    };
    if mode_matches && token_matches {
        match query.challenge {
            Some(c) => Handshake::Echo(c),
            None => Handshake::MissingChallenge,
        }
    } else {
        Handshake::Forbidden
    }
}

/// Answers a WATI webhook handshake: the challenge is echoed.
pub fn wati_handshake(configured: bool, query: WatiVerifyQuery) -> (r: Handshake)
    ensures
        match r {
            Handshake::NotConfigured => !configured,
            Handshake::Echo(c) => configured && query.challenge == Some(c),
            Handshake::MissingChallenge => configured && query.challenge.is_none(),
            Handshake::Forbidden => false,
        },
{
    if !configured {
        return Handshake::NotConfigured;
    }
    match query.challenge {
        Some(c) => Handshake::Echo(c),
        None => Handshake::MissingChallenge,
    }
}

/// The client key when nothing else is known.
pub open spec fn unknown_client() -> Seq<char> {
    "unknown"@
}

/// The first address in a list of parse results.
pub open spec fn first_address(parsed: Seq<Option<String>>) -> Option<Seq<char>>
    decreases parsed.len(),
{
    if parsed.len() == 0 {
        None
    } else {
        match parsed[0] {
            Some(ip) => Some(ip@),
            None => first_address(parsed.drop_first()),
        }
    }
}

/// The key a client is rate-limited and locked out under.  Forwarded
/// addresses count only where proxies are trusted: then the first address
/// that parsed out of `X-Forwarded-For` is taken, else the one of
/// `X-Real-IP`.  Otherwise, and where neither gives an address, the key is
/// the peer's address, or `unknown` without one.
pub open spec fn client_key_of(
    peer: Option<Seq<char>>,
    forwarded_for: Seq<Option<String>>,
    real_ip: Option<Seq<char>>,
    trust_forwarded_headers: bool,
) -> Seq<char> {
    let direct = match peer {
        Some(ip) => ip,
        None => unknown_client(),
    };
    if !trust_forwarded_headers {
        direct
    } else {
        match first_address(forwarded_for) {
            Some(ip) => ip,
            None => match real_ip {
                Some(ip) => ip,
                None => direct,
            },
        }
    }
}

/// Derives the client key from the peer address and the addresses that were
/// parsed out of the forwarding headers: one entry per candidate of
/// `X-Forwarded-For`, in order, `None` where it is no address.
pub fn client_key_from_request(
    peer: Option<&str>,
    forwarded_for: &Vec<Option<String>>,
    real_ip: Option<&str>,
    trust_forwarded_headers: bool,
) -> (r: String)
    ensures
        r@ == client_key_of(
            match peer {
                Some(p) => Some(p@),
                None => None,
            },
            forwarded_for@,
            match real_ip {
                Some(p) => Some(p@),
                None => None,
            },
            trust_forwarded_headers,
        ),
{
    if trust_forwarded_headers {
        let mut i: usize = 0;
        assert(forwarded_for@.skip(0) =~= forwarded_for@);
        while i < forwarded_for.len()
            invariant
                i <= forwarded_for.len(),
                trust_forwarded_headers,
                first_address(forwarded_for@) == first_address(forwarded_for@.skip(i as int)),
            decreases forwarded_for.len() - i,
        {
            proof {
                assert(forwarded_for@.skip(i as int)[0] == forwarded_for@[i as int]);
                assert(forwarded_for@.skip(i as int).drop_first() =~= forwarded_for@.skip(i + 1));
            }
            match &forwarded_for[i] {
                Some(ip) => {
                    assert(first_address(forwarded_for@.skip(i as int)) == Some(ip@));
                    return ip.clone();
                },
                None => {
                    assert(first_address(forwarded_for@.skip(i as int)) == first_address(
                        forwarded_for@.skip(i + 1),
                    ));
                },
            }
            i = i + 1;
        }
        match real_ip {
            Some(ip) => {
                return ip.to_owned();
            },
            None => {},
        }
    }
    match peer {
        Some(ip) => ip.to_owned(),
        None => "unknown".to_owned(),
    }
}

pub open spec fn is_quote(c: char) -> bool {
    c == '"'
}

/// A forwarded-address candidate as it is handed to the address parser:
/// trimmed, without surrounding double quotes, trimmed again.
pub open spec fn cleaned_candidate(value: Seq<char>) -> Seq<char> {
    trim(strip_both(trim(value), |c: char| is_quote(c)))
}

fn char_is_quote(c: char) -> (r: bool)
    ensures
        r == is_quote(c),
{
    c == '"'
}

pub fn clean_address_candidate(value: &str) -> (r: String)
    ensures
        r@ == cleaned_candidate(value@),
{
    let t = trim_chars(&to_chars(value));
    let ghost p = |c: char| is_quote(c);
    let mut a: usize = 0;
    while a < t.len() && char_is_quote(t[a])
        invariant
            a <= t.len(),
            forall|c: char| p(c) == is_quote(c),
            forall|i: int| 0 <= i < a ==> p(#[trigger] t@[i]),
        decreases t.len() - a,
    {
        a = a + 1;
    }
    proof {
        lemma_leading_unique(t@, p, a as int);
    }
    let ghost rest = t@.skip(a as int);
    let mut b: usize = t.len();
    while b > a && char_is_quote(t[b - 1])
        invariant
            a <= b <= t.len(),
            rest == t@.skip(a as int),
            forall|c: char| p(c) == is_quote(c),
            forall|i: int| b - a <= i < rest.len() ==> p(#[trigger] rest[i]),
        decreases b,
    {
        b = b - 1;
    }
    proof {
        lemma_trailing_unique(rest, p, t.len() - b);
        assert(rest.take(rest.len() - (t.len() - b)) == t@.subrange(a as int, b as int));
    }
    let inner = slice_chars(&t, a, b);
    from_chars(&trim_chars(&inner))
}

/// The kinds of failure a request can end in.
#[derive(Debug, Clone, Copy, PartialEq, Eq, Structural)]
pub enum ErrorKind {
    /// A missing or invalid bearer token, webhook secret or signature.
    ClientAuth,
    /// Malformed JSON, an empty required field, a bad path.
    ClientRequest,
    /// Too many requests.
    RateLimited,
    /// A request body over the cap of its route.
    PayloadTooLarge,
    /// A request that missed its deadline.
    Timeout,
    /// The document store failed.
    Upstream,
    /// The model provider failed, or something unexpected happened.
    Internal,
}

/// The HTTP status a failure of each kind is answered with.
pub open spec fn kind_status(kind: ErrorKind) -> u16 {
    match kind {
        ErrorKind::ClientAuth => 401u16,
        ErrorKind::ClientRequest => 400u16,
        ErrorKind::RateLimited => 429u16,
        ErrorKind::PayloadTooLarge => 413u16,
        ErrorKind::Timeout => 408u16,
        ErrorKind::Upstream => 502u16,
        ErrorKind::Internal => 500u16,
    }
}

impl ErrorKind {
    pub fn http_status(&self) -> (r: u16)
        ensures
            r == kind_status(*self),
            400 <= r < 600,
    {
        match self {
            ErrorKind::ClientAuth => 401,
            ErrorKind::ClientRequest => 400,
            ErrorKind::RateLimited => 429,
            ErrorKind::PayloadTooLarge => 413,
            ErrorKind::Timeout => 408,
            ErrorKind::Upstream => 502,
            ErrorKind::Internal => 500,
        }
    }
}

impl Admission {
    /// The kind of failure that an outcome is, if it is one.
    pub fn error_kind(&self) -> (r: Option<ErrorKind>)
        ensures
            r == match *self {
                Admission::RateLimited => Some(ErrorKind::RateLimited),
                Admission::Unauthorized => Some(ErrorKind::ClientAuth),
                Admission::BadSecret => Some(ErrorKind::ClientAuth),
                Admission::BadBody => Some(ErrorKind::ClientRequest),
                Admission::Duplicate => None::<ErrorKind>,
                Admission::Accepted => None::<ErrorKind>,
            },
            r matches Some(kind) ==> kind_status(kind) == admission_status(*self),
    {
        match self {
            Admission::RateLimited => Some(ErrorKind::RateLimited),
            Admission::Unauthorized => Some(ErrorKind::ClientAuth),
            Admission::BadSecret => Some(ErrorKind::ClientAuth),
            Admission::BadBody => Some(ErrorKind::ClientRequest),
            Admission::Duplicate => None,
            Admission::Accepted => None,
        }
    }
}

/// The page size of a listing: the requested one, or `default`, brought
/// into `1..=max`.
pub fn clamp_limit(requested: Option<usize>, default: usize, max: usize) -> (r: usize)
    requires
        max >= 1,
    ensures
        1 <= r <= max,
        r == ({
            let wanted = match requested {
                Some(n) => n,
                None => default,
            };
            if wanted < 1 {
                1
            } else if wanted > max {
                max
            } else {
                wanted
            }
        }),
{
    let wanted = match requested {
        Some(n) => n,
        None => default,
    };
    if wanted < 1 {
        1
    } else if wanted > max {
        max
    } else {
        wanted
    }
}

/// Whether a host name binds beyond the local machine: it is none of the
/// loopback names.
pub open spec fn is_public_host(host: Seq<char>) -> bool {
    !(host == "127.0.0.1"@ || host == "localhost"@ || host == "::1"@ || host == "[::1]"@ || host
        == "0:0:0:0:0:0:0:1"@)
}

pub fn is_public_bind(host: &str) -> (r: bool)
    ensures
        r == is_public_host(host@),
{
    !(crate::text::str_eq(host, "127.0.0.1") || crate::text::str_eq(host, "localhost")
        || crate::text::str_eq(host, "::1") || crate::text::str_eq(host, "[::1]")
        || crate::text::str_eq(host, "0:0:0:0:0:0:0:1"))
}

pub open spec fn is_bracket(c: char) -> bool {
    c == '[' || c == ']'
}

/// An address candidate without the square brackets around it.
pub open spec fn unbracketed(value: Seq<char>) -> Seq<char> {
    strip_both(value, |c: char| is_bracket(c))
}

fn char_is_bracket(c: char) -> (r: bool)
    ensures
        r == is_bracket(c),
{
    c == '[' || c == ']'
}

pub fn strip_brackets(value: &str) -> (r: String)
    ensures
        r@ == unbracketed(value@),
{
    let t = to_chars(value);
    let ghost p = |c: char| is_bracket(c);
    let mut a: usize = 0;
    while a < t.len() && char_is_bracket(t[a])
        invariant
            a <= t.len(),
            forall|c: char| p(c) == is_bracket(c),
            forall|i: int| 0 <= i < a ==> p(#[trigger] t@[i]),
        decreases t.len() - a,
    {
        a = a + 1;
    }
    proof {
        lemma_leading_unique(t@, p, a as int);
    }
    let ghost rest = t@.skip(a as int);
    let mut b: usize = t.len();
    while b > a && char_is_bracket(t[b - 1])
        invariant
            a <= b <= t.len(),
            rest == t@.skip(a as int),
            forall|c: char| p(c) == is_bracket(c),
            forall|i: int| b - a <= i < rest.len() ==> p(#[trigger] rest[i]),
        decreases b,
    {
        b = b - 1;
    }
    proof {
        lemma_trailing_unique(rest, p, t.len() - b);
        assert(rest.take(rest.len() - (t.len() - b)) == t@.subrange(a as int, b as int));
    }
    from_chars(&slice_chars(&t, a, b))
}

/// Whether the gateway must refuse to start: it would listen on a public
/// address with neither a tunnel nor an explicit opt-in.
pub fn refuses_public_bind(public_bind: bool, tunnel_configured: bool, allow_public_bind: bool) -> (r:
    bool)
    ensures
        r == (public_bind && !tunnel_configured && !allow_public_bind),
{
    public_bind && !tunnel_configured && !allow_public_bind
}

} // verus!
