//! Pairing: a one-time code is exchanged for a bearer token, and repeated
//! wrong codes lock a client out for a while.

use crate::clock::{clock_origin, elapsed_millis};
use crate::digest::{
    fresh_random_bytes, fresh_uuid_bytes, hex_encode, hex_encode_bytes, is_lower_hex_digit,
    lemma_hex_digit_value,
};
use crate::limiter::lemma_filter_push;
use crate::signature::constant_time_eq;
use crate::text::{
    from_chars, is_ascii_digit, lemma_padded_decimal, padded_decimal, pow10, push_padded_decimal,
};
use std::time::Instant;
use vstd::prelude::*;

verus! {

/// Wrong codes after which a client is locked out.
pub const MAX_PAIR_ATTEMPTS: u32 = 5;

/// How long failures are remembered and a lockout lasts, in milliseconds.
pub const PAIR_LOCKOUT_MS: u64 = 300_000;

/// The failed attempts of one client: how many, and since when.  Once the
/// count reaches the limit, `since` is the time the lockout began.
pub struct Failure {
    pub key: Seq<char>,
    pub count: u32,
    pub since: u64,
}

/// What a guard holds.
pub struct GuardState {
    pub require_pairing: bool,
    pub code: Option<Seq<char>>,
    pub tokens: Seq<Seq<char>>,
    pub failures: Seq<Failure>,
}

/// Time passed since `at`; zero where `at` lies ahead of `now`.
pub open spec fn elapsed(at: u64, now: u64) -> int {
    if now >= at {
        now - at
    } else {
        0
    }
}

/// The failure records that are still inside the lockout window.
pub open spec fn live_failures(failures: Seq<Failure>, now: u64) -> Seq<Failure> {
    failures.filter(|f: Failure| elapsed(f.since, now) < PAIR_LOCKOUT_MS)
}

/// Whether `i` is the first record of `key`.
pub open spec fn is_record_of(failures: Seq<Failure>, key: Seq<char>, i: int) -> bool {
    &&& 0 <= i < failures.len()
    &&& failures[i].key == key
    &&& forall|j: int| 0 <= j < i ==> (#[trigger] failures[j]).key != key
}

pub open spec fn has_record(failures: Seq<Failure>, key: Seq<char>) -> bool {
    exists|i: int| is_record_of(failures, key, i)
}

pub open spec fn record_index(failures: Seq<Failure>, key: Seq<char>) -> int {
    choose|i: int| is_record_of(failures, key, i)
}

pub proof fn lemma_record_index(failures: Seq<Failure>, key: Seq<char>, i: int)
    requires
        is_record_of(failures, key, i),
    ensures
        has_record(failures, key),
        record_index(failures, key) == i,
{
    let k = record_index(failures, key);
    assert(is_record_of(failures, key, k));
    if k < i {
        assert(failures[k].key != key);
    } else if i < k {
        assert(failures[i].key != key);
    }
}

/// Seconds until a lockout that began at `since` is over, rounded up.
pub open spec fn lockout_remaining_secs(since: u64, now: u64) -> int {
    (PAIR_LOCKOUT_MS - elapsed(since, now) + 999) / 1000
}

/// The lockout of `key` at `now`: the seconds left, if it is locked out.
pub open spec fn lockout(failures: Seq<Failure>, key: Seq<char>, now: u64) -> Option<int> {
    let live = live_failures(failures, now);
    if has_record(live, key) && live[record_index(live, key)].count >= MAX_PAIR_ATTEMPTS {
        Some(lockout_remaining_secs(live[record_index(live, key)].since, now))
    } else {
        None
    }
}

/// The records after one more failure of `key` at `now`: its count goes up,
/// and on reaching the limit the lockout begins now.
pub open spec fn with_failure(live: Seq<Failure>, key: Seq<char>, now: u64) -> Seq<Failure> {
    if has_record(live, key) {
        let i = record_index(live, key);
        let count = (live[i].count + 1) as u32;
        live.update(
            i,
            Failure {
                key,
                count,
                since: if count >= MAX_PAIR_ATTEMPTS {
                    now
                } else {
                    live[i].since
                },
            },
        )
    } else {
        live.push(Failure { key, count: 1, since: now })
    }
}

/// The records without those of `key`.
pub open spec fn without_key(live: Seq<Failure>, key: Seq<char>) -> Seq<Failure> {
    live.filter(|f: Failure| f.key != key)
}

/// The tokens with `token` added, unless it is there already.
pub open spec fn with_token(tokens: Seq<Seq<char>>, token: Seq<char>) -> Seq<Seq<char>> {
    if tokens.contains(token) {
        tokens
    } else {
        tokens.push(token)
    }
}

/// The outcome of a pairing attempt.
pub enum PairOutcome {
    /// The code matched; the token is now valid.
    Paired(Seq<char>),
    /// The code did not match.
    Refused,
    /// The client is locked out for this many seconds.
    LockedOut(int),
}

/// One pairing attempt by `client` at `now`, where `token` is the token to
/// hand out on success.  A locked-out client is turned away before the code
/// is looked at; a matching code is used up; a wrong code counts against the
/// client.
pub open spec fn pair_step(
    st: GuardState,
    code: Seq<char>,
    client: Seq<char>,
    now: u64,
    token: Seq<char>,
) -> (GuardState, PairOutcome) {
    let live = live_failures(st.failures, now);
    match lockout(st.failures, client, now) {
        Some(secs) => (
            GuardState {
                require_pairing: st.require_pairing,
                code: st.code,
                tokens: st.tokens,
                failures: live,
            },
            PairOutcome::LockedOut(secs),
        ),
        None => if st.code == Some(code) {
            (
                GuardState {
                    require_pairing: st.require_pairing,
                    code: None,
                    tokens: with_token(st.tokens, token),
                    failures: without_key(live, client),
                },
                PairOutcome::Paired(token),
            )
        } else {
            (
                GuardState {
                    require_pairing: st.require_pairing,
                    code: st.code,
                    tokens: st.tokens,
                    failures: with_failure(live, client, now),
                },
                PairOutcome::Refused,
            )
        },
    }
}

/// Whether `token` passes: always where pairing is off, else exactly the
/// tokens that were handed out or loaded.
pub open spec fn authenticates(st: GuardState, token: Seq<char>) -> bool {
    !st.require_pairing || st.tokens.contains(token)
}

/// A lockout always reports at least one second and never more than the
/// whole lockout.
pub proof fn lemma_lockout_is_positive(failures: Seq<Failure>, key: Seq<char>, now: u64)
    ensures
        match lockout(failures, key, now) {
            Some(secs) => 1 <= secs <= 300,
            None => true,
        },
{
    let live = live_failures(failures, now);
    if has_record(live, key) {
        let i = record_index(live, key);
        assert(is_record_of(live, key, i));
        live_failures_are_live(failures, now, i);
    }
}

proof fn live_failures_are_live(failures: Seq<Failure>, now: u64, i: int)
    requires
        0 <= i < live_failures(failures, now).len(),
    ensures
        elapsed(live_failures(failures, now)[i].since, now) < PAIR_LOCKOUT_MS,
{
    failures.lemma_filter_pred(|f: Failure| elapsed(f.since, now) < PAIR_LOCKOUT_MS, i);
}

/// A token handed out by a successful attempt authenticates afterwards.
pub proof fn lemma_paired_token_authenticates(
    st: GuardState,
    code: Seq<char>,
    client: Seq<char>,
    now: u64,
    token: Seq<char>,
)
    requires
        pair_step(st, code, client, now, token).1 == PairOutcome::Paired(token),
    ensures
        authenticates(pair_step(st, code, client, now, token).0, token),
        pair_step(st, code, client, now, token).0.code.is_none(),
        forall|t: Seq<char>|
            authenticates(st, t) ==> authenticates(pair_step(st, code, client, now, token).0, t),
{
    let after = with_token(st.tokens, token);
    if !st.tokens.contains(token) {
        assert(after[st.tokens.len() as int] == token);
    }
    assert forall|t: Seq<char>| st.tokens.contains(t) implies after.contains(t) by {
        let i = choose|i: int| 0 <= i < st.tokens.len() && st.tokens[i] == t;
        assert(after[i] == t);
    }
}

/// The number that a string of bytes denotes, most significant byte first.
pub open spec fn bytes_value(bytes: Seq<u8>) -> nat
    decreases bytes.len(),
{
    if bytes.len() == 0 {
        0
    } else {
        bytes_value(bytes.drop_last()) * 256 + bytes.last() as nat
    }
}

/// The pairing code drawn from random bytes: the number in the first six
/// bytes, reduced to six decimal digits.
pub open spec fn code_text(bytes: Seq<u8>) -> Seq<char> {
    padded_decimal(bytes_value(bytes.take(6)) % 1_000_000, 6)
}

/// The shape of a pairing code: six decimal digits.
pub open spec fn is_pairing_code(code: Seq<char>) -> bool {
    code.len() == 6 && forall|i: int| 0 <= i < 6 ==> is_ascii_digit(#[trigger] code[i])
}

/// Whatever the bytes, the code drawn from them is six decimal digits.
pub proof fn lemma_code_text_is_six_digits(bytes: Seq<u8>)
    ensures
        is_pairing_code(code_text(bytes)),
{
    reveal_with_fuel(pow10, 7);
    assert(pow10(6) == 1_000_000);
    lemma_padded_decimal(bytes_value(bytes.take(6)) % 1_000_000, 6);
}

/// 256 to the power `n`.
pub open spec fn pow256(n: nat) -> nat
    decreases n,
{
    if n == 0 {
        1
    } else {
        256 * pow256((n - 1) as nat)
    }
}

proof fn lemma_pow256_small(i: nat)
    requires
        i <= 6,
    ensures
        1 <= pow256(i) <= 0x1_0000_0000_0000,
{
    reveal_with_fuel(pow256, 8);
}

/// Makes a pairing code out of at least six random bytes.
pub fn pairing_code_from(bytes: &Vec<u8>) -> (r: String)
    requires
        bytes.len() >= 6,
    ensures
        r@ == code_text(bytes@),
        is_pairing_code(r@),
{
    proof {
        lemma_code_text_is_six_digits(bytes@);
    }
    let mut acc: u64 = 0;
    let mut i: usize = 0;
    let ghost six = bytes@.take(6);
    assert(six.take(0) =~= Seq::<u8>::empty());
    while i < 6
        invariant
            i <= 6,
            bytes.len() >= 6,
            six == bytes@.take(6),
            acc == bytes_value(six.take(i as int)),
            acc < pow256(i as nat),
        decreases 6 - i,
    {
        proof {
            assert(six.take(i + 1).drop_last() =~= six.take(i as int));
            assert(six.take(i + 1).last() == bytes@[i as int]);
            lemma_pow256_small(i as nat);
        }
        acc = acc * 256 + bytes[i] as u64;
        i = i + 1;
    }
    assert(six.take(6) =~= six);
    let mut out: Vec<char> = Vec::new();
    push_padded_decimal(&mut out, acc % 1_000_000, 6);
    from_chars(&out)
}

/// The failed attempts of one client.
pub struct FailureRecord {
    key: String,
    count: u32,
    since: u64,
}

impl View for FailureRecord {
    type V = Failure;

    closed spec fn view(&self) -> Failure {
        Failure { key: self.key@, count: self.count, since: self.since }
    }
}

pub open spec fn failures_of(records: Seq<FailureRecord>) -> Seq<Failure> {
    records.map_values(|r: FailureRecord| r@)
}

pub open spec fn texts_of(strings: Seq<String>) -> Seq<Seq<char>> {
    strings.map_values(|s: String| s@)
}

fn is_live(since: u64, now: u64) -> (r: bool)
    ensures
        r == (elapsed(since, now) < PAIR_LOCKOUT_MS),
{
    if now >= since {
        now - since < PAIR_LOCKOUT_MS
    } else {
        true
    }
}

fn keep_live(records: &Vec<FailureRecord>, now: u64) -> (out: Vec<FailureRecord>)
    ensures
        failures_of(out@) == live_failures(failures_of(records@), now),
{
    let ghost all = failures_of(records@);
    let ghost p = |f: Failure| elapsed(f.since, now) < PAIR_LOCKOUT_MS;
    let mut out: Vec<FailureRecord> = Vec::new();
    let mut i: usize = 0;
    proof {
        reveal(Seq::filter);
        assert(all.take(0) =~= Seq::<Failure>::empty());
        assert(failures_of(out@) =~= Seq::<Failure>::empty());
    }
    while i < records.len()
        invariant
            i <= records.len(),
            p == (|f: Failure| elapsed(f.since, now) < PAIR_LOCKOUT_MS),
            all == failures_of(records@),
            failures_of(out@) == all.take(i as int).filter(p),
        decreases records.len() - i,
    {
        let record = &records[i];
        proof {
            assert(all[i as int] == record@);
            lemma_filter_push(all.take(i as int), record@, p);
            assert(all.take(i + 1) =~= all.take(i as int).push(record@));
        }
        if is_live(record.since, now) {
            let ghost prev = out@;
            out.push(
                FailureRecord { key: record.key.clone(), count: record.count, since: record.since },
            );
            proof {
                assert(failures_of(out@) =~= failures_of(prev).push(record@));
            }
        }
        i = i + 1;
    }
    proof {
        assert(all.take(records.len() as int) =~= all);
    }
    out
}

fn drop_key(records: &Vec<FailureRecord>, key: &String) -> (out: Vec<FailureRecord>)
    ensures
        failures_of(out@) == without_key(failures_of(records@), key@),
{
    let ghost all = failures_of(records@);
    let ghost p = |f: Failure| f.key != key@;
    let mut out: Vec<FailureRecord> = Vec::new();
    let mut i: usize = 0;
    proof {
        reveal(Seq::filter);
        assert(all.take(0) =~= Seq::<Failure>::empty());
        assert(failures_of(out@) =~= Seq::<Failure>::empty());
    }
    while i < records.len()
        invariant
            i <= records.len(),
            p == (|f: Failure| f.key != key@),
            all == failures_of(records@),
            failures_of(out@) == all.take(i as int).filter(p),
        decreases records.len() - i,
    {
        let record = &records[i];
        proof {
            assert(all[i as int] == record@);
            lemma_filter_push(all.take(i as int), record@, p);
            assert(all.take(i + 1) =~= all.take(i as int).push(record@));
        }
        if record.key != *key {
            let ghost prev = out@;
            out.push(
                FailureRecord { key: record.key.clone(), count: record.count, since: record.since },
            );
            proof {
                assert(failures_of(out@) =~= failures_of(prev).push(record@));
            }
        }
        i = i + 1;
    }
    proof {
        assert(all.take(records.len() as int) =~= all);
    }
    out
}

fn find_record(records: &Vec<FailureRecord>, key: &String) -> (r: Option<usize>)
    ensures
        match r {
            Some(i) => i < records.len() && has_record(failures_of(records@), key@) && record_index(
                failures_of(records@),
                key@,
            ) == i,
            None => !has_record(failures_of(records@), key@),
        },
{
    let mut i: usize = 0;
    while i < records.len()
        invariant
            i <= records.len(),
            forall|j: int| 0 <= j < i ==> (#[trigger] failures_of(records@)[j]).key != key@,
        decreases records.len() - i,
    {
        if records[i].key == *key {
            proof {
                assert(failures_of(records@)[i as int].key == key@);
                lemma_record_index(failures_of(records@), key@, i as int);
            }
            return Some(i);
        }
        proof {
            assert(failures_of(records@)[i as int].key != key@);
        }
        i = i + 1;
    }
    proof {
        if has_record(failures_of(records@), key@) {
            let k = record_index(failures_of(records@), key@);
            assert(failures_of(records@)[k].key == key@);
        }
    }
    None
}

/// What a pairing attempt returns: the token, a refusal, or the seconds to
/// wait.
pub open spec fn outcome_of(r: Result<Option<String>, u64>) -> PairOutcome {
    match r {
        Ok(Some(token)) => PairOutcome::Paired(token@),
        Ok(None) => PairOutcome::Refused,
        Err(secs) => PairOutcome::LockedOut(secs as int),
    }
}

/// Guards the gateway: holds the one-time pairing code, the bearer tokens
/// that were handed out, and the failed attempts of each client.
pub struct PairingGuard {
    require_pairing: bool,
    code: Option<String>,
    tokens: Vec<String>,
    failures: Vec<FailureRecord>,
    origin: Instant,
}

impl PairingGuard {
    pub closed spec fn state(&self) -> GuardState {
        GuardState {
            require_pairing: self.require_pairing,
            code: match self.code {
                Some(c) => Some(c@),
                None => None,
            },
            tokens: texts_of(self.tokens@),
            failures: failures_of(self.failures@),
        }
    }

    /// A guard with the given tokens.  Where pairing is required and no token
    /// exists yet, a pairing code is drawn from `seed`; otherwise there is
    /// none.
    pub fn with_seed(require_pairing: bool, existing_tokens: &Vec<String>, seed: &Vec<u8>) -> (r:
        Self)
        requires
            seed.len() >= 6,
        ensures
            r.state().require_pairing == require_pairing,
            r.state().tokens == texts_of(existing_tokens@),
            r.state().failures == Seq::<Failure>::empty(),
            r.state().code == if require_pairing && existing_tokens@.len() == 0 {
                Some(code_text(seed@))
            } else {
                None
            },
    {
        let mut tokens: Vec<String> = Vec::new();
        let mut i: usize = 0;
        while i < existing_tokens.len()
            invariant
                i <= existing_tokens.len(),
                texts_of(tokens@) == texts_of(existing_tokens@).take(i as int),
            decreases existing_tokens.len() - i,
        {
            let ghost prev = tokens@;
            tokens.push(existing_tokens[i].clone());
            proof {
                assert(texts_of(tokens@) =~= texts_of(prev).push(existing_tokens@[i as int]@));
                assert(texts_of(existing_tokens@).take(i + 1) =~= texts_of(existing_tokens@).take(
                    i as int,
                ).push(existing_tokens@[i as int]@));
            }
            i = i + 1;
        }
        proof {
            assert(texts_of(existing_tokens@).take(existing_tokens.len() as int) =~= texts_of(
                existing_tokens@,
            ));
        }
        let code = if require_pairing && existing_tokens.len() == 0 {
            Some(pairing_code_from(seed))
        } else {
            None
        };
        let r = PairingGuard {
            require_pairing,
            code,
            tokens,
            failures: Vec::new(),
            origin: clock_origin(),
        };
        proof {
            assert(failures_of(r.failures@) =~= Seq::<Failure>::empty());
        }
        r
    }

    /// A guard with the given tokens and, where pairing is required and no
    /// token exists yet, a fresh random pairing code.
    pub fn new(require_pairing: bool, existing_tokens: &Vec<String>) -> (r: Self)
        ensures
            r.state().require_pairing == require_pairing,
            r.state().tokens == texts_of(existing_tokens@),
            r.state().failures == Seq::<Failure>::empty(),
            r.state().code.is_some() == (require_pairing && existing_tokens@.len() == 0),
            r.state().code.is_some() ==> exists|seed: Seq<u8>|
                r.state().code == Some(#[trigger] code_text(seed)),
            r.state().code matches Some(c) ==> is_pairing_code(c),
    {
        let seed = fresh_uuid_bytes();
        proof {
            lemma_code_text_is_six_digits(seed@);
        }
        PairingGuard::with_seed(require_pairing, existing_tokens, &seed)
    }

    pub fn require_pairing(&self) -> (r: bool)
        ensures
            r == self.state().require_pairing,
    {
        self.require_pairing
    }

    /// Whether any token has been handed out or loaded.
    pub fn is_paired(&self) -> (r: bool)
        ensures
            r == (self.state().tokens.len() > 0),
    {
        self.tokens.len() > 0
    }

    /// The one-time code that is waiting to be used, if any.
    pub fn pairing_code(&self) -> (r: Option<String>)
        ensures
            match r {
                Some(c) => self.state().code == Some(c@),
                None => self.state().code.is_none(),
            },
    {
        match &self.code {
            Some(c) => Some(c.clone()),
            None => None,
        }
    }

    /// Replaces the pairing code by the one drawn from `seed`.  Returns
    /// nothing, and changes nothing, where pairing is off.
    pub fn regenerate_pairing_code_from(&mut self, seed: &Vec<u8>) -> (r: Option<String>)
        requires
            seed.len() >= 6,
        ensures
            match r {
                Some(c) => old(self).state().require_pairing && c@ == code_text(seed@)
                    && is_pairing_code(c@) && final(self).state() == (GuardState {
                    require_pairing: true,
                    code: Some(c@),
                    tokens: old(self).state().tokens,
                    failures: old(self).state().failures,
                }),
                None => !old(self).state().require_pairing && final(self).state() == old(
                    self,
                ).state(),
            },
    {
        if !self.require_pairing {
            return None;
        }
        let code = pairing_code_from(seed);
        self.code = Some(code.clone());
        Some(code)
    }

    /// Replaces the pairing code by a fresh random one: six decimal digits,
    /// drawn from the bytes of a random identifier.  Returns nothing, and
    /// changes nothing, where pairing is off.
    pub fn regenerate_pairing_code(&mut self) -> (r: Option<String>)
        ensures
            match r {
                Some(c) => old(self).state().require_pairing && final(self).state() == (GuardState {
                    require_pairing: true,
                    code: Some(c@),
                    tokens: old(self).state().tokens,
                    failures: old(self).state().failures,
                }),
                None => !old(self).state().require_pairing && final(self).state() == old(
                    self,
                ).state(),
            },
            r matches Some(c) ==> is_pairing_code(c@) && exists|seed: Seq<u8>|
                c@ == #[trigger] code_text(seed),
    {
        let seed = fresh_uuid_bytes();
        self.regenerate_pairing_code_from(&seed)
    }

    /// Whether `token` authenticates a request.  Every stored token is
    /// compared in full, whichever matches.
    pub fn is_authenticated(&self, token: &str) -> (r: bool)
        ensures
            r == authenticates(self.state(), token@),
    {
        if !self.require_pairing {
            return true;
        }
        self.is_authenticated_strict(token)
    }

    /// The tokens, for saving.
    pub fn tokens(&self) -> (r: Vec<String>)
        ensures
            texts_of(r@) == self.state().tokens,
    {
        let mut out: Vec<String> = Vec::new();
        let mut i: usize = 0;
        while i < self.tokens.len()
            invariant
                i <= self.tokens.len(),
                texts_of(out@) == texts_of(self.tokens@).take(i as int),
            decreases self.tokens.len() - i,
        {
            let ghost prev = out@;
            out.push(self.tokens[i].clone());
            proof {
                assert(texts_of(out@) =~= texts_of(prev).push(self.tokens@[i as int]@));
                assert(texts_of(self.tokens@).take(i + 1) =~= texts_of(self.tokens@).take(
                    i as int,
                ).push(self.tokens@[i as int]@));
            }
            i = i + 1;
        }
        proof {
            assert(texts_of(self.tokens@).take(self.tokens.len() as int) =~= texts_of(self.tokens@));
        }
        out
    }

    /// One pairing attempt at time `now`, in milliseconds on the guard's
    /// clock, with `token` as the token to hand out if the code matches.
    pub fn try_pair_at(&mut self, code: &str, client_key: &str, now: u64, token: String) -> (r:
        Result<Option<String>, u64>)
        ensures
            (final(self).state(), outcome_of(r)) == pair_step(
                old(self).state(),
                code@,
                client_key@,
                now,
                token@,
            ),
            r matches Err(secs) ==> 1 <= secs <= 300,
    {
        let client = client_key.to_owned();
        self.failures = keep_live(&self.failures, now);
        let ghost live = failures_of(self.failures@);
        let found = find_record(&self.failures, &client);
        proof {
            lemma_lockout_is_positive(old(self).state().failures, client_key@, now);
        }
        match found {
            Some(i) => {
                assert(live[i as int] == self.failures@[i as int]@);
                if self.failures[i].count >= MAX_PAIR_ATTEMPTS {
                    let since = self.failures[i].since;
                    let waited: u64 = if now >= since {
                        now - since
                    } else {
                        0
                    };
                    proof {
                        live_failures_are_live(old(self).state().failures, now, i as int);
                    }
                    let secs: u64 = (PAIR_LOCKOUT_MS - waited + 999) / 1000;
                    return Err(secs);
                }
            },
            None => {},
        }
        let matches = match &self.code {
            Some(expected) => constant_time_eq(expected.as_str(), code),
            None => false,
        };
        if matches {
            self.code = None;
            self.failures = drop_key(&self.failures, &client);
            if !self.is_authenticated_strict(token.as_str()) {
                let ghost prev = self.tokens@;
                self.tokens.push(token.clone());
                proof {
                    assert(texts_of(self.tokens@) =~= texts_of(prev).push(token@));
                }
            }
            return Ok(Some(token));
        }
        match found {
            Some(i) => {
                let ghost before = failures_of(self.failures@);
                let old_record = self.failures.remove(i);
                let count: u32 = old_record.count + 1;
                let since = if count >= MAX_PAIR_ATTEMPTS {
                    now
                } else {
                    old_record.since
                };
                self.failures.insert(i, FailureRecord { key: client, count, since });
                proof {
                    assert(failures_of(self.failures@) =~= before.update(
                        i as int,
                        Failure { key: client_key@, count, since },
                    ));
                }
            },
            None => {
                let ghost before = failures_of(self.failures@);
                self.failures.push(FailureRecord { key: client, count: 1, since: now });
                proof {
                    assert(failures_of(self.failures@) =~= before.push(
                        Failure { key: client_key@, count: 1, since: now },
                    ));
                }
            },
        }
        Ok(None)
    }

    /// Whether `token` is among the stored tokens, pairing required or not.
    fn is_authenticated_strict(&self, token: &str) -> (r: bool)
        ensures
            r == self.state().tokens.contains(token@),
    {
        let mut found = false;
        let mut i: usize = 0;
        while i < self.tokens.len()
            invariant
                i <= self.tokens.len(),
                found == exists|j: int| 0 <= j < i && #[trigger] texts_of(self.tokens@)[j] == token@,
            decreases self.tokens.len() - i,
        {
            let same = constant_time_eq(self.tokens[i].as_str(), token);
            proof {
                assert(texts_of(self.tokens@)[i as int] == self.tokens@[i as int]@);
            }
            if same {
                found = true;
            }
            i = i + 1;
        }
        proof {
            let ts = texts_of(self.tokens@);
            if found {
                let j = choose|j: int| 0 <= j < ts.len() && #[trigger] ts[j] == token@;
                assert(ts.contains(token@));
            }
        }
        found
    }

    /// One pairing attempt now.  The time is read from the guard's clock and
    /// the token is freshly minted, so the outcome is that of `try_pair_at`
    /// for some reading and some token of 64 hex digits.
    pub fn try_pair(&mut self, code: &str, client_key: &str) -> (r: Result<Option<String>, u64>)
        ensures
            exists|now: u64, token: Seq<char>|
                (final(self).state(), outcome_of(r)) == #[trigger] pair_step(
                    old(self).state(),
                    code@,
                    client_key@,
                    now,
                    token,
                ) && is_bearer_token(token),
            r matches Err(secs) ==> 1 <= secs <= 300,
            r matches Ok(Some(t)) ==> is_bearer_token(t@) && authenticates(final(self).state(), t@),
    {
        let now = elapsed_millis(&self.origin);
        let token = mint_token();
        let ghost t = token@;
        let r = self.try_pair_at(code, client_key, now, token);
        proof {
            assert((self.state(), outcome_of(r)) == pair_step(
                old(self).state(),
                code@,
                client_key@,
                now,
                t,
            ));
            if outcome_of(r) == PairOutcome::Paired(t) {
                lemma_paired_token_authenticates(old(self).state(), code@, client_key@, now, t);
            }
        }
        r
    }
}

/// The shape of a bearer token: 64 lower-case hex digits.
pub open spec fn is_bearer_token(token: Seq<char>) -> bool {
    token.len() == 64 && forall|i: int| 0 <= i < 64 ==> is_lower_hex_digit(#[trigger] token[i])
}

/// A fresh bearer token: 32 bytes from the random generator, in hex.
pub fn mint_token() -> (r: String)
    ensures
        is_bearer_token(r@),
        exists|bytes: Seq<u8>| bytes.len() == 32 && r@ == #[trigger] hex_encode(bytes),
{
    let bytes = fresh_random_bytes();
    let r = hex_encode_bytes(bytes.as_slice());
    proof {
        assert forall|i: int| 0 <= i < 64 implies is_lower_hex_digit(#[trigger] r@[i]) by {
            lemma_hex_digit_value(bytes@[i / 2] as int / 16);
            lemma_hex_digit_value(bytes@[i / 2] as int % 16);
        }
    }
    r
}

} // verus!
