//! Sliding-window rate limiting with a bounded number of tracked keys.

use crate::clock::{clock_origin, elapsed_millis};
use std::time::Instant;
use vstd::prelude::*;

verus! {

/// How long a limiter waits between sweeps of stale entries, in milliseconds.
pub const SWEEP_INTERVAL_MS: u64 = 300_000;

/// Window of the gateway's limiters, in seconds.
pub const RATE_LIMIT_WINDOW_SECS: u64 = 60;

/// Key capacity used where none is configured.
pub const RATE_LIMIT_MAX_KEYS_DEFAULT: usize = 10_000;

/// Capacity actually used for a configured key limit: zero selects the
/// fallback, and the result is never zero.
pub open spec fn spec_normalize_max_keys(configured: usize, fallback: usize) -> usize {
    if configured != 0 {
        configured
    } else if fallback == 0 {
        1
    } else {
        fallback
    }
}

pub fn normalize_max_keys(configured: usize, fallback: usize) -> (r: usize)
    ensures
        r == spec_normalize_max_keys(configured, fallback),
        r >= 1,
{
    if configured == 0 {
        if fallback == 0 {
            1
        } else {
            fallback
        }
    } else {
        configured
    }
}

/// The requests remembered for one key, oldest first.
pub struct Track {
    pub key: Seq<char>,
    pub stamps: Seq<u64>,
}

/// What a limiter remembers: its tracked keys in the order they were first
/// seen, and the time of the last sweep.
pub struct WindowState {
    pub tracks: Seq<Track>,
    pub last_sweep: u64,
}

/// The fixed parameters of a limiter.
pub struct WindowConfig {
    pub limit: u32,
    pub window_ms: u64,
    pub max_keys: usize,
}

/// The timestamps that are still inside the window: those after `cutoff`.
pub open spec fn recent(stamps: Seq<u64>, cutoff: int) -> Seq<u64> {
    stamps.filter(|t: u64| t as int > cutoff)
}

/// A track restricted to its recent timestamps.
pub open spec fn refresh(track: Track, cutoff: int) -> Track {
    Track { key: track.key, stamps: recent(track.stamps, cutoff) }
}

/// The sweep: every track keeps its recent timestamps, and tracks left
/// without any are dropped.
pub open spec fn prune(tracks: Seq<Track>, cutoff: int) -> Seq<Track> {
    tracks.map_values(|t: Track| refresh(t, cutoff)).filter(|t: Track| t.stamps.len() > 0)
}

pub open spec fn has_key(tracks: Seq<Track>, key: Seq<char>) -> bool {
    exists|i: int| 0 <= i < tracks.len() && (#[trigger] tracks[i]).key == key
}

pub open spec fn index_of(tracks: Seq<Track>, key: Seq<char>) -> int {
    choose|i: int| 0 <= i < tracks.len() && (#[trigger] tracks[i]).key == key
}

pub open spec fn distinct_keys(tracks: Seq<Track>) -> bool {
    forall|i: int, j: int|
        0 <= i < j < tracks.len() ==> (#[trigger] tracks[i]).key != (#[trigger] tracks[j]).key
}

/// The most recent request of a track, or `cutoff` for a track without any.
pub open spec fn latest(track: Track, cutoff: int) -> int {
    if track.stamps.len() > 0 {
        track.stamps.last() as int
    } else {
        cutoff
    }
}

/// Whether `i` is the track to evict: its most recent request is the oldest
/// of all, and among equals it is the one tracked longest.
pub open spec fn is_eviction_choice(tracks: Seq<Track>, cutoff: int, i: int) -> bool {
    &&& 0 <= i < tracks.len()
    &&& forall|j: int| 0 <= j < tracks.len() ==> latest(tracks[i], cutoff) <= latest(#[trigger] tracks[j], cutoff)
    &&& forall|j: int| 0 <= j < i ==> latest(tracks[i], cutoff) < latest(#[trigger] tracks[j], cutoff)
}

pub open spec fn eviction_index(tracks: Seq<Track>, cutoff: int) -> int {
    choose|i: int| is_eviction_choice(tracks, cutoff, i)
}

pub proof fn lemma_eviction_choice_unique(tracks: Seq<Track>, cutoff: int, i: int)
    requires
        is_eviction_choice(tracks, cutoff, i),
    ensures
        eviction_index(tracks, cutoff) == i,
{
    let k = eviction_index(tracks, cutoff);
    assert(is_eviction_choice(tracks, cutoff, k));
    if k < i {
        assert(latest(tracks[i], cutoff) < latest(tracks[k], cutoff));
        assert(latest(tracks[k], cutoff) <= latest(tracks[i], cutoff));
    } else if i < k {
        assert(latest(tracks[k], cutoff) < latest(tracks[i], cutoff));
        assert(latest(tracks[i], cutoff) <= latest(tracks[k], cutoff));
    }
}

/// The periodic sweep, due once the last one is at least five minutes old.
pub open spec fn sweep_if_due(cfg: WindowConfig, st: WindowState, now: u64) -> WindowState {
    if now as int - st.last_sweep as int >= SWEEP_INTERVAL_MS as int {
        WindowState { tracks: prune(st.tracks, now as int - cfg.window_ms as int), last_sweep: now }
    } else {
        st
    }
}

/// Making room for a key that is not tracked while the limiter is full:
/// sweep, and if that frees nothing, evict.
pub open spec fn make_room(cfg: WindowConfig, st: WindowState, key: Seq<char>, now: u64) -> WindowState {
    let cutoff = now as int - cfg.window_ms as int;
    if !has_key(st.tracks, key) && st.tracks.len() >= cfg.max_keys {
        let swept = prune(st.tracks, cutoff);
        WindowState {
            tracks: if swept.len() >= cfg.max_keys {
                swept.remove(eviction_index(swept, cutoff))
            } else {
                swept
            },
            last_sweep: now,
        }
    } else {
        st
    }
}

/// Counting the request against its key: the key's stale timestamps go, and
/// the request is let through and recorded unless `limit` recent ones remain.
pub open spec fn count_request(cfg: WindowConfig, st: WindowState, key: Seq<char>, now: u64) -> (
    WindowState,
    bool,
) {
    let cutoff = now as int - cfg.window_ms as int;
    if has_key(st.tracks, key) {
        let i = index_of(st.tracks, key);
        let kept = recent(st.tracks[i].stamps, cutoff);
        if kept.len() >= cfg.limit {
            (
                WindowState {
                    tracks: st.tracks.update(i, Track { key, stamps: kept }),
                    last_sweep: st.last_sweep,
                },
                false,
            )
        } else {
            (
                WindowState {
                    tracks: st.tracks.update(i, Track { key, stamps: kept.push(now) }),
                    last_sweep: st.last_sweep,
                },
                true,
            )
        }
    } else {
        (
            WindowState {
                tracks: st.tracks.push(Track { key, stamps: seq![now] }),
                last_sweep: st.last_sweep,
            },
            true,
        )
    }
}

/// One decision of the limiter at time `now`: the state it leaves and
/// whether the request is allowed.  A limit of zero switches the limiter off.
pub open spec fn allow_step(cfg: WindowConfig, st: WindowState, key: Seq<char>, now: u64) -> (
    WindowState,
    bool,
) {
    if cfg.limit == 0 {
        (st, true)
    } else {
        count_request(cfg, make_room(cfg, sweep_if_due(cfg, st, now), key, now), key, now)
    }
}

/// A state a limiter can be in: no key is tracked twice and the capacity is
/// respected.
pub open spec fn well_formed(cfg: WindowConfig, st: WindowState) -> bool {
    &&& cfg.max_keys >= 1
    &&& st.tracks.len() <= cfg.max_keys
    &&& distinct_keys(st.tracks)
}

/// Filtering a sequence that ends in `x` handles `x` last.
pub proof fn lemma_filter_push<A>(s: Seq<A>, x: A, p: spec_fn(A) -> bool)
    ensures
        s.push(x).filter(p) == if p(x) {
            s.filter(p).push(x)
        } else {
            s.filter(p)
        },
{
    reveal(Seq::filter);
    assert(s.push(x).drop_last() =~= s);
}

/// Sweeping a sequence that ends in `t` handles `t` last.
pub proof fn lemma_prune_push(tracks: Seq<Track>, t: Track, cutoff: int)
    ensures
        prune(tracks.push(t), cutoff) == if recent(t.stamps, cutoff).len() > 0 {
            prune(tracks, cutoff).push(refresh(t, cutoff))
        } else {
            prune(tracks, cutoff)
        },
        prune(Seq::<Track>::empty(), cutoff) == Seq::<Track>::empty(),
{
    let f = |t: Track| refresh(t, cutoff);
    let p = |t: Track| t.stamps.len() > 0;
    assert(tracks.push(t).map_values(f) =~= tracks.map_values(f).push(f(t)));
    lemma_filter_push(tracks.map_values(f), f(t), p);
    reveal(Seq::filter);
    assert(Seq::<Track>::empty().map_values(f) =~= Seq::<Track>::empty());
}

/// What a sweep keeps: a key survives exactly when it has a recent
/// timestamp, it keeps exactly its recent timestamps, and the survivors stay
/// in order.
pub proof fn lemma_prune(tracks: Seq<Track>, cutoff: int)
    requires
        distinct_keys(tracks),
    ensures
        distinct_keys(prune(tracks, cutoff)),
        prune(tracks, cutoff).len() <= tracks.len(),
        forall|j: int|
            0 <= j < prune(tracks, cutoff).len() ==> (#[trigger] prune(tracks, cutoff)[j]).stamps.len() > 0,
        forall|key: Seq<char>|
            has_key(prune(tracks, cutoff), key) <==> has_key(tracks, key) && recent(
                stamps_of(tracks, key),
                cutoff,
            ).len() > 0,
        forall|key: Seq<char>|
            has_key(prune(tracks, cutoff), key) ==> stamps_of(prune(tracks, cutoff), key) == recent(
                stamps_of(tracks, key),
                cutoff,
            ),
    decreases tracks.len(),
{
    let out = prune(tracks, cutoff);
    if tracks.len() == 0 {
        lemma_prune_push(tracks, Track { key: seq![], stamps: seq![] }, cutoff);
        assert(tracks =~= Seq::<Track>::empty());
    } else {
        let head = tracks.drop_last();
        let t = tracks.last();
        assert(tracks =~= head.push(t));
        lemma_prune(head, cutoff);
        lemma_prune_push(head, t, cutoff);
        let ph = prune(head, cutoff);
        let keep = recent(t.stamps, cutoff).len() > 0;
        assert(!has_key(head, t.key)) by {
            if has_key(head, t.key) {
                let i = index_of(head, t.key);
                assert(tracks[i].key == tracks[tracks.len() - 1].key);
            }
        }
        assert(!has_key(ph, t.key));
        assert(distinct_keys(out)) by {
            assert forall|i: int, j: int| 0 <= i < j < out.len() implies (#[trigger] out[i]).key != (
            #[trigger] out[j]).key by {
                if j == ph.len() {
                    assert(has_key(ph, ph[i].key));
                }
            }
        }
        assert forall|key: Seq<char>|
            (has_key(out, key) <==> has_key(tracks, key) && recent(stamps_of(tracks, key), cutoff).len()
                > 0) && (has_key(out, key) ==> stamps_of(out, key) == recent(
                stamps_of(tracks, key),
                cutoff,
            )) by {
            lemma_stamps_of_push(head, t, key);
            if keep {
                lemma_stamps_of_push(ph, refresh(t, cutoff), key);
            }
        }
    }
}

/// The timestamps remembered for `key`; none where the key is not tracked.
pub open spec fn stamps_of(tracks: Seq<Track>, key: Seq<char>) -> Seq<u64> {
    if has_key(tracks, key) {
        tracks[index_of(tracks, key)].stamps
    } else {
        Seq::empty()
    }
}

/// Looking a key up after one more track was appended.
pub proof fn lemma_stamps_of_push(tracks: Seq<Track>, t: Track, key: Seq<char>)
    requires
        distinct_keys(tracks),
        !has_key(tracks, t.key),
    ensures
        distinct_keys(tracks.push(t)),
        has_key(tracks.push(t), key) <==> has_key(tracks, key) || key == t.key,
        stamps_of(tracks.push(t), key) == if key == t.key {
            t.stamps
        } else {
            stamps_of(tracks, key)
        },
{
    let all = tracks.push(t);
    assert(distinct_keys(all)) by {
        assert forall|i: int, j: int| 0 <= i < j < all.len() implies (#[trigger] all[i]).key != (
        #[trigger] all[j]).key by {
            if j == tracks.len() {
                assert(has_key(tracks, tracks[i].key));
            }
        }
    }
    if has_key(tracks, key) {
        let i = index_of(tracks, key);
        assert(all[i].key == key);
        lemma_index_of(all, key, i);
    }
    if key == t.key {
        assert(all[tracks.len() as int].key == key);
        lemma_index_of(all, key, tracks.len() as int);
    }
    if has_key(all, key) {
        let i = index_of(all, key);
        if i < tracks.len() {
            assert(tracks[i].key == key);
        }
    }
}

/// In a sequence without repeated keys, the index of a key is unique.
pub proof fn lemma_index_of(tracks: Seq<Track>, key: Seq<char>, i: int)
    requires
        distinct_keys(tracks),
        0 <= i < tracks.len(),
        tracks[i].key == key,
    ensures
        has_key(tracks, key),
        index_of(tracks, key) == i,
        stamps_of(tracks, key) == tracks[i].stamps,
{
    let k = index_of(tracks, key);
    if k < i {
        assert(tracks[k].key != tracks[i].key);
    } else if i < k {
        assert(tracks[i].key != tracks[k].key);
    }
}

/// Whether a request at `t` is still inside the window that ends at `now`.
fn is_recent(t: u64, now: u64, window_ms: u64) -> (r: bool)
    ensures
        r == (t as int > now as int - window_ms as int),
{
    now < window_ms || t > now - window_ms
}

fn recent_stamps(stamps: &Vec<u64>, now: u64, window_ms: u64) -> (out: Vec<u64>)
    ensures
        out@ == recent(stamps@, now as int - window_ms as int),
{
    let ghost cutoff = now as int - window_ms as int;
    let ghost p = |t: u64| t as int > cutoff;
    let mut out: Vec<u64> = Vec::new();
    let mut i: usize = 0;
    proof {
        reveal(Seq::filter);
        assert(stamps@.take(0) =~= Seq::<u64>::empty());
    }
    while i < stamps.len()
        invariant
            i <= stamps.len(),
            cutoff == now as int - window_ms as int,
            p == (|t: u64| t as int > cutoff),
            out@ == stamps@.take(i as int).filter(p),
        decreases stamps.len() - i,
    {
        let t = stamps[i];
        proof {
            lemma_filter_push(stamps@.take(i as int), t, p);
            assert(stamps@.take(i + 1) =~= stamps@.take(i as int).push(t));
        }
        if is_recent(t, now, window_ms) {
            out.push(t);
        }
        i = i + 1;
    }
    proof {
        assert(stamps@.take(stamps.len() as int) =~= stamps@);
    }
    out
}

/// The requests remembered for one key.
pub struct KeyWindow {
    key: String,
    stamps: Vec<u64>,
}

impl View for KeyWindow {
    type V = Track;

    closed spec fn view(&self) -> Track {
        Track { key: self.key@, stamps: self.stamps@ }
    }
}

/// The tracks that a vector of entries stands for.
pub open spec fn tracks_of(entries: Seq<KeyWindow>) -> Seq<Track> {
    entries.map_values(|e: KeyWindow| e@)
}

fn prune_entries(entries: &Vec<KeyWindow>, now: u64, window_ms: u64) -> (out: Vec<KeyWindow>)
    ensures
        tracks_of(out@) == prune(tracks_of(entries@), now as int - window_ms as int),
{
    let ghost cutoff = now as int - window_ms as int;
    let ghost all = tracks_of(entries@);
    let mut out: Vec<KeyWindow> = Vec::new();
    let mut i: usize = 0;
    proof {
        lemma_prune_push(all.take(0), Track { key: seq![], stamps: seq![] }, cutoff);
        assert(all.take(0) =~= Seq::<Track>::empty());
        assert(tracks_of(out@) =~= Seq::<Track>::empty());
    }
    while i < entries.len()
        invariant
            i <= entries.len(),
            cutoff == now as int - window_ms as int,
            all == tracks_of(entries@),
            tracks_of(out@) == prune(all.take(i as int), cutoff),
        decreases entries.len() - i,
    {
        let entry = &entries[i];
        let kept = recent_stamps(&entry.stamps, now, window_ms);
        proof {
            assert(all[i as int] == entry@);
            lemma_prune_push(all.take(i as int), entry@, cutoff);
            assert(all.take(i + 1) =~= all.take(i as int).push(entry@));
        }
        if kept.len() > 0 {
            let ghost prev = out@;
            out.push(KeyWindow { key: entry.key.clone(), stamps: kept });
            proof {
                assert(tracks_of(out@) =~= tracks_of(prev).push(refresh(entry@, cutoff)));
            }
        }
        i = i + 1;
    }
    proof {
        assert(all.take(entries.len() as int) =~= all);
    }
    out
}

fn find_entry(entries: &Vec<KeyWindow>, key: &String) -> (r: Option<usize>)
    requires
        distinct_keys(tracks_of(entries@)),
    ensures
        match r {
            Some(i) => i < entries.len() && has_key(tracks_of(entries@), key@) && index_of(
                tracks_of(entries@),
                key@,
            ) == i,
            None => !has_key(tracks_of(entries@), key@),
        },
{
    let mut i: usize = 0;
    while i < entries.len()
        invariant
            i <= entries.len(),
            distinct_keys(tracks_of(entries@)),
            forall|j: int| 0 <= j < i ==> (#[trigger] tracks_of(entries@)[j]).key != key@,
        decreases entries.len() - i,
    {
        if entries[i].key == *key {
            proof {
                assert(tracks_of(entries@)[i as int].key == key@);
                lemma_index_of(tracks_of(entries@), key@, i as int);
            }
            return Some(i);
        }
        proof {
            assert(tracks_of(entries@)[i as int].key != key@);
        }
        i = i + 1;
    }
    None
}

/// The most recent request of an entry, if it has one.
fn newest(entry: &KeyWindow) -> (r: Option<u64>)
    ensures
        match r {
            Some(t) => entry@.stamps.len() > 0 && t == entry@.stamps.last(),
            None => entry@.stamps.len() == 0,
        },
{
    if entry.stamps.len() == 0 {
        None
    } else {
        Some(entry.stamps[entry.stamps.len() - 1])
    }
}

/// Index of the entry to evict from a sweep's result, all of whose entries
/// hold a request.
fn eviction_choice(entries: &Vec<KeyWindow>, Ghost(cutoff): Ghost<int>) -> (r: usize)
    requires
        entries.len() > 0,
        forall|j: int| 0 <= j < entries.len() ==> (#[trigger] tracks_of(entries@)[j]).stamps.len() > 0,
    ensures
        r < entries.len(),
        r == eviction_index(tracks_of(entries@), cutoff),
{
    let ghost tracks = tracks_of(entries@);
    let mut best: usize = 0;
    let mut best_at: u64 = match newest(&entries[0]) {
        Some(t) => t,
        None => 0,
    };
    assert(tracks[0].stamps.len() > 0);
    let mut i: usize = 1;
    while i < entries.len()
        invariant
            1 <= i <= entries.len(),
            best < i,
            tracks == tracks_of(entries@),
            forall|j: int| 0 <= j < entries.len() ==> (#[trigger] tracks[j]).stamps.len() > 0,
            best_at as int == latest(tracks[best as int], cutoff),
            forall|j: int| 0 <= j < i ==> best_at as int <= latest(#[trigger] tracks[j], cutoff),
            forall|j: int| 0 <= j < best ==> (best_at as int) < latest(#[trigger] tracks[j], cutoff),
        decreases entries.len() - i,
    {
        assert(tracks[i as int].stamps.len() > 0);
        match newest(&entries[i]) {
            Some(t) => {
                if t < best_at {
                    best = i;
                    best_at = t;
                }
            },
            None => {},
        }
        i = i + 1;
    }
    proof {
        lemma_eviction_choice_unique(tracks, cutoff, best as int);
    }
    best
}

/// A sliding-window limiter: at most `limit` requests per key inside any
/// window, with at most `max_keys` keys remembered.
///
/// The keys are kept in a vector, in the order they were first seen: the
/// sweep and the eviction walk every entry, and the order settles which of
/// two equally old keys is evicted.
pub struct SlidingWindowRateLimiter {
    limit_per_window: u32,
    window_ms: u64,
    max_keys: usize,
    entries: Vec<KeyWindow>,
    last_sweep: u64,
    origin: Instant,
}

impl SlidingWindowRateLimiter {
    pub closed spec fn config(&self) -> WindowConfig {
        WindowConfig {
            limit: self.limit_per_window,
            window_ms: self.window_ms,
            max_keys: self.max_keys,
        }
    }

    pub closed spec fn state(&self) -> WindowState {
        WindowState { tracks: tracks_of(self.entries@), last_sweep: self.last_sweep }
    }

    pub open spec fn wf(&self) -> bool {
        well_formed(self.config(), self.state())
    }

    /// A limiter that remembers nothing yet.  A capacity of zero is raised to
    /// one.
    pub fn new(limit_per_window: u32, window_ms: u64, max_keys: usize) -> (r: Self)
        ensures
            r.wf(),
            r.config() == (WindowConfig {
                limit: limit_per_window,
                window_ms,
                max_keys: if max_keys == 0 {
                    1
                } else {
                    max_keys
                },
            }),
            r.state() == (WindowState { tracks: Seq::empty(), last_sweep: 0 }),
    {
        let r = SlidingWindowRateLimiter {
            limit_per_window,
            window_ms,
            max_keys: if max_keys == 0 {
                1
            } else {
                max_keys
            },
            entries: Vec::new(),
            last_sweep: 0,
            origin: clock_origin(),
        };
        proof {
            assert(tracks_of(r.entries@) =~= Seq::<Track>::empty());
        }
        r
    }

    /// Number of keys currently tracked.
    pub fn len(&self) -> (n: usize)
        ensures
            n == self.state().tracks.len(),
    {
        self.entries.len()
    }

    /// Whether `key` is currently tracked.
    pub fn contains_key(&self, key: &str) -> (r: bool)
        requires
            self.wf(),
        ensures
            r == has_key(self.state().tracks, key@),
    {
        let owned = key.to_owned();
        find_entry(&self.entries, &owned).is_some()
    }

    /// Decides one request at time `now`, in milliseconds on the limiter's
    /// clock.
    pub fn allow_at(&mut self, key: &str, now: u64) -> (r: bool)
        requires
            old(self).wf(),
        ensures
            final(self).wf(),
            final(self).config() == old(self).config(),
            (final(self).state(), r) == allow_step(old(self).config(), old(self).state(), key@, now),
    {
        if self.limit_per_window == 0 {
            return true;
        }
        let ghost cfg = self.config();
        let ghost cutoff = now as int - self.window_ms as int;
        let owned = key.to_owned();

        if now >= self.last_sweep && now - self.last_sweep >= SWEEP_INTERVAL_MS {
            proof {
                lemma_prune(tracks_of(self.entries@), cutoff);
            }
            self.entries = prune_entries(&self.entries, now, self.window_ms);
            self.last_sweep = now;
        }
        assert(self.state() == sweep_if_due(cfg, old(self).state(), now));
        assert(self.wf());
        let ghost swept_state = self.state();

        let found = find_entry(&self.entries, &owned);
        if found.is_none() && self.entries.len() >= self.max_keys {
            proof {
                lemma_prune(tracks_of(self.entries@), cutoff);
            }
            self.entries = prune_entries(&self.entries, now, self.window_ms);
            self.last_sweep = now;
            if self.entries.len() >= self.max_keys {
                let victim = eviction_choice(&self.entries, Ghost(cutoff));
                let ghost before = tracks_of(self.entries@);
                self.entries.remove(victim);
                proof {
                    assert(tracks_of(self.entries@) =~= before.remove(victim as int));
                    lemma_remove_keeps_order(before, victim as int);
                }
            }
        }
        assert(self.state() == make_room(cfg, swept_state, key@, now));
        assert(distinct_keys(self.state().tracks));
        let ghost room_state = self.state();

        match find_entry(&self.entries, &owned) {
            Some(i) => {
                let ghost before = tracks_of(self.entries@);
                let entry = self.entries.remove(i);
                let mut kept = recent_stamps(&entry.stamps, now, self.window_ms);
                let allowed = kept.len() < self.limit_per_window as usize;
                if allowed {
                    kept.push(now);
                }
                self.entries.insert(i, KeyWindow { key: entry.key, stamps: kept });
                proof {
                    assert(tracks_of(self.entries@) =~= before.update(
                        i as int,
                        Track { key: key@, stamps: kept@ },
                    ));
                    lemma_update_keeps_keys(before, i as int, kept@);
                }
                allowed
            },
            None => {
                let ghost before = tracks_of(self.entries@);
                let mut stamps: Vec<u64> = Vec::new();
                stamps.push(now);
                self.entries.push(KeyWindow { key: owned, stamps });
                proof {
                    assert(stamps@ =~= seq![now]);
                    assert(tracks_of(self.entries@) =~= before.push(
                        Track { key: key@, stamps: seq![now] },
                    ));
                    lemma_stamps_of_push(before, Track { key: key@, stamps: seq![now] }, key@);
                }
                true
            },
        }
    }

    /// Decides one request now.  The time is read from the limiter's own
    /// monotonic clock, so the outcome is that of `allow_at` for some reading.
    pub fn allow(&mut self, key: &str) -> (r: bool)
        requires
            old(self).wf(),
        ensures
            final(self).wf(),
            final(self).config() == old(self).config(),
            exists|now: u64|
                (final(self).state(), r) == #[trigger] allow_step(
                    old(self).config(),
                    old(self).state(),
                    key@,
                    now,
                ),
    {
        let now = elapsed_millis(&self.origin);
        self.allow_at(key, now)
    }
}

/// Removing one track leaves the others distinct.
pub proof fn lemma_remove_keeps_order(tracks: Seq<Track>, i: int)
    requires
        distinct_keys(tracks),
        0 <= i < tracks.len(),
    ensures
        distinct_keys(tracks.remove(i)),
        tracks.remove(i).len() == tracks.len() - 1,
        !has_key(tracks.remove(i), tracks[i].key),
        forall|key: Seq<char>|
            key != tracks[i].key ==> (has_key(tracks.remove(i), key) <==> has_key(tracks, key)),
        forall|key: Seq<char>|
            key != tracks[i].key ==> stamps_of(tracks.remove(i), key) == stamps_of(tracks, key),
{
    let out = tracks.remove(i);
    tracks.remove_ensures(i);
    assert forall|a: int, b: int| 0 <= a < b < out.len() implies (#[trigger] out[a]).key != (
    #[trigger] out[b]).key by {
        let a0 = if a < i { a } else { a + 1 };
        let b0 = if b < i { b } else { b + 1 };
        assert(out[a] == tracks[a0] && out[b] == tracks[b0]);
    }
    if has_key(out, tracks[i].key) {
        let a = index_of(out, tracks[i].key);
        let a0 = if a < i { a } else { a + 1 };
        assert(out[a] == tracks[a0]);
        if a0 < i {
            assert(tracks[a0].key != tracks[i].key);
        } else {
            assert(tracks[i].key != tracks[a0].key);
        }
    }
    assert forall|key: Seq<char>| key != tracks[i].key implies (has_key(out, key) <==> has_key(
        tracks,
        key,
    )) && stamps_of(out, key) == stamps_of(tracks, key) by {
        if has_key(tracks, key) {
            let k = index_of(tracks, key);
            let k1 = if k < i { k } else { k - 1 };
            assert(out[k1] == tracks[k]);
            lemma_index_of(out, key, k1);
        }
        if has_key(out, key) {
            let a = index_of(out, key);
            let a0 = if a < i { a } else { a + 1 };
            assert(out[a] == tracks[a0]);
            lemma_index_of(tracks, key, a0);
        }
    }
}

/// Replacing the timestamps of one track changes nothing else.
pub proof fn lemma_update_keeps_keys(tracks: Seq<Track>, i: int, stamps: Seq<u64>)
    requires
        distinct_keys(tracks),
        0 <= i < tracks.len(),
    ensures
        distinct_keys(tracks.update(i, Track { key: tracks[i].key, stamps })),
        forall|key: Seq<char>|
            has_key(tracks.update(i, Track { key: tracks[i].key, stamps }), key) <==> has_key(
                tracks,
                key,
            ),
        forall|key: Seq<char>|
            stamps_of(tracks.update(i, Track { key: tracks[i].key, stamps }), key) == if key
                == tracks[i].key {
                stamps
            } else {
                stamps_of(tracks, key)
            },
{
    let out = tracks.update(i, Track { key: tracks[i].key, stamps });
    assert forall|a: int, b: int| 0 <= a < b < out.len() implies (#[trigger] out[a]).key != (
    #[trigger] out[b]).key by {
        assert(out[a].key == tracks[a].key && out[b].key == tracks[b].key);
    }
    assert forall|key: Seq<char>|
        (has_key(out, key) <==> has_key(tracks, key)) && stamps_of(out, key) == if key
            == tracks[i].key {
            stamps
        } else {
            stamps_of(tracks, key)
        } by {
        if has_key(tracks, key) {
            let k = index_of(tracks, key);
            assert(out[k].key == key);
            lemma_index_of(out, key, k);
        }
        if has_key(out, key) {
            let k = index_of(out, key);
            assert(tracks[k].key == key);
            lemma_index_of(tracks, key, k);
        }
    }
}

/// Filtering with a later cutoff makes an earlier filtering redundant.
pub proof fn lemma_recent_twice(stamps: Seq<u64>, earlier: int, later: int)
    requires
        earlier <= later,
    ensures
        recent(recent(stamps, earlier), later) == recent(stamps, later),
        recent(stamps, later).len() <= recent(stamps, earlier).len(),
    decreases stamps.len(),
{
    reveal(Seq::filter);
    if stamps.len() > 0 {
        let head = stamps.drop_last();
        let t = stamps.last();
        assert(stamps =~= head.push(t));
        lemma_recent_twice(head, earlier, later);
        lemma_filter_push(head, t, |t: u64| t as int > earlier);
        lemma_filter_push(head, t, |t: u64| t as int > later);
        if t as int > earlier {
            lemma_filter_push(recent(head, earlier), t, |t: u64| t as int > later);
        }
    }
}

/// Timestamps that are all recent are all kept.
pub proof fn lemma_recent_all(stamps: Seq<u64>, cutoff: int)
    requires
        forall|i: int| 0 <= i < stamps.len() ==> (#[trigger] stamps[i]) as int > cutoff,
    ensures
        recent(stamps, cutoff) == stamps,
    decreases stamps.len(),
{
    reveal(Seq::filter);
    if stamps.len() > 0 {
        let head = stamps.drop_last();
        let t = stamps.last();
        assert(stamps =~= head.push(t));
        lemma_recent_all(head, cutoff);
        lemma_filter_push(head, t, |t: u64| t as int > cutoff);
    }
}

/// `after` is `before`, possibly with its stale timestamps dropped.
pub open spec fn same_or_recent(after: Seq<u64>, before: Seq<u64>, cutoff: int) -> bool {
    after == before || after == recent(before, cutoff)
}

/// What the periodic sweep does to a well-formed state.
pub proof fn lemma_sweep_if_due(cfg: WindowConfig, st: WindowState, now: u64)
    requires
        well_formed(cfg, st),
    ensures
        well_formed(cfg, sweep_if_due(cfg, st, now)),
        sweep_if_due(cfg, st, now).tracks.len() <= st.tracks.len(),
        forall|key: Seq<char>| #[trigger]
            has_key(sweep_if_due(cfg, st, now).tracks, key) ==> has_key(st.tracks, key),
        forall|key: Seq<char>|
            same_or_recent(
                #[trigger] stamps_of(sweep_if_due(cfg, st, now).tracks, key),
                stamps_of(st.tracks, key),
                now as int - cfg.window_ms as int,
            ),
        forall|key: Seq<char>|
            has_key(st.tracks, key) && !has_key(sweep_if_due(cfg, st, now).tracks, key)
                ==> sweep_if_due(cfg, st, now).tracks.len() < st.tracks.len(),
{
    let cutoff = now as int - cfg.window_ms as int;
    let out = sweep_if_due(cfg, st, now);
    if out.tracks != st.tracks {
        lemma_prune(st.tracks, cutoff);
        assert forall|key: Seq<char>|
            same_or_recent(#[trigger] stamps_of(out.tracks, key), stamps_of(st.tracks, key), cutoff) by {
            if !has_key(out.tracks, key) {
                if !has_key(st.tracks, key) {
                    reveal(Seq::filter);
                    assert(recent(Seq::<u64>::empty(), cutoff) =~= Seq::<u64>::empty());
                } else {
                    assert(recent(stamps_of(st.tracks, key), cutoff).len() == 0);
                    assert(recent(stamps_of(st.tracks, key), cutoff) =~= Seq::<u64>::empty());
                }
            }
        }
        assert forall|key: Seq<char>|
            has_key(st.tracks, key) && !has_key(out.tracks, key) implies out.tracks.len()
            < st.tracks.len() by {
            lemma_prune_drops(st.tracks, cutoff, key);
        }
    }
}

/// A sweep that loses a key returns fewer tracks than it was given.
pub proof fn lemma_prune_drops(tracks: Seq<Track>, cutoff: int, key: Seq<char>)
    requires
        distinct_keys(tracks),
        has_key(tracks, key),
        !has_key(prune(tracks, cutoff), key),
    ensures
        prune(tracks, cutoff).len() < tracks.len(),
    decreases tracks.len(),
{
    let head = tracks.drop_last();
    let t = tracks.last();
    assert(tracks =~= head.push(t));
    lemma_prune_push(head, t, cutoff);
    lemma_prune(head, cutoff);
    lemma_prune(tracks, cutoff);
    if t.key == key {
        lemma_index_of(tracks, key, tracks.len() - 1);
    } else {
        let i = index_of(tracks, key);
        assert(head[i].key == key);
        lemma_index_of(head, key, i);
        lemma_index_of(tracks, key, i);
        if recent(t.stamps, cutoff).len() > 0 {
            if has_key(prune(head, cutoff), key) {
                assert(!has_key(prune(head, cutoff), t.key)) by {
                    if has_key(prune(head, cutoff), t.key) {
                        let j = index_of(head, t.key);
                        assert(tracks[j].key == tracks[tracks.len() - 1].key);
                    }
                }
                lemma_stamps_of_push(prune(head, cutoff), refresh(t, cutoff), key);
            }
        }
        lemma_prune_drops(head, cutoff, key);
    }
}

/// What making room does to a well-formed state.
pub proof fn lemma_make_room(cfg: WindowConfig, st: WindowState, key: Seq<char>, now: u64)
    requires
        well_formed(cfg, st),
    ensures
        well_formed(cfg, make_room(cfg, st, key, now)),
        has_key(make_room(cfg, st, key, now).tracks, key) <==> has_key(st.tracks, key),
        stamps_of(make_room(cfg, st, key, now).tracks, key) == stamps_of(st.tracks, key),
        !has_key(st.tracks, key) ==> make_room(cfg, st, key, now).tracks.len() < cfg.max_keys,
        has_key(st.tracks, key) || st.tracks.len() < cfg.max_keys ==> make_room(cfg, st, key, now)
            == st,
        forall|other: Seq<char>| #[trigger]
            has_key(make_room(cfg, st, key, now).tracks, other) ==> has_key(st.tracks, other),
        forall|other: Seq<char>|
            has_key(make_room(cfg, st, key, now).tracks, other) ==> same_or_recent(
                #[trigger] stamps_of(make_room(cfg, st, key, now).tracks, other),
                stamps_of(st.tracks, other),
                now as int - cfg.window_ms as int,
            ),
{
    let cutoff = now as int - cfg.window_ms as int;
    let out = make_room(cfg, st, key, now);
    if !has_key(st.tracks, key) && st.tracks.len() >= cfg.max_keys {
        let swept = prune(st.tracks, cutoff);
        lemma_prune(st.tracks, cutoff);
        if swept.len() >= cfg.max_keys {
            let i = eviction_index(swept, cutoff);
            lemma_eviction_exists(swept, cutoff);
            lemma_remove_keeps_order(swept, i);
            assert forall|other: Seq<char>| #[trigger]
                has_key(out.tracks, other) implies has_key(st.tracks, other) && same_or_recent(
                stamps_of(out.tracks, other),
                stamps_of(st.tracks, other),
                cutoff,
            ) by {
                if other == swept[i].key {
                    assert(!has_key(out.tracks, other));
                }
            }
        }
    }
}

/// A non-empty sequence of tracks has an eviction choice.
pub proof fn lemma_eviction_exists(tracks: Seq<Track>, cutoff: int)
    requires
        tracks.len() > 0,
    ensures
        is_eviction_choice(tracks, cutoff, eviction_index(tracks, cutoff)),
    decreases tracks.len(),
{
    if tracks.len() == 1 {
        assert(is_eviction_choice(tracks, cutoff, 0));
    } else {
        let head = tracks.drop_last();
        lemma_eviction_exists(head, cutoff);
        let k = eviction_index(head, cutoff);
        if latest(tracks.last(), cutoff) < latest(head[k], cutoff) {
            let n = tracks.len() - 1;
            assert forall|j: int| 0 <= j < tracks.len() implies latest(tracks[n], cutoff) <= latest(
                #[trigger] tracks[j],
                cutoff,
            ) by {
                if j < n {
                    assert(tracks[j] == head[j]);
                }
            }
            assert forall|j: int| 0 <= j < n implies latest(tracks[n], cutoff) < latest(
                #[trigger] tracks[j],
                cutoff,
            ) by {
                assert(tracks[j] == head[j]);
            }
            assert(is_eviction_choice(tracks, cutoff, n));
        } else {
            assert forall|j: int| 0 <= j < tracks.len() implies latest(tracks[k], cutoff) <= latest(
                #[trigger] tracks[j],
                cutoff,
            ) by {
                if j < tracks.len() - 1 {
                    assert(tracks[j] == head[j]);
                }
            }
            assert forall|j: int| 0 <= j < k implies latest(tracks[k], cutoff) < latest(
                #[trigger] tracks[j],
                cutoff,
            ) by {
                assert(tracks[j] == head[j]);
            }
            assert(is_eviction_choice(tracks, cutoff, k));
        }
    }
}

/// One decision, seen from the keys: the state stays well formed; the
/// decision depends on nothing but the requests of the same key that are
/// still inside the window; an allowed request is recorded after them; and
/// other keys lose at most stale requests, or their place under pressure.
pub proof fn lemma_allow_step(cfg: WindowConfig, st: WindowState, key: Seq<char>, now: u64)
    requires
        well_formed(cfg, st),
    ensures
        well_formed(cfg, allow_step(cfg, st, key, now).0),
        cfg.limit > 0 ==> allow_step(cfg, st, key, now).1 == (recent(
            stamps_of(st.tracks, key),
            now as int - cfg.window_ms as int,
        ).len() < cfg.limit),
        cfg.limit > 0 ==> has_key(allow_step(cfg, st, key, now).0.tracks, key),
        cfg.limit > 0 ==> stamps_of(allow_step(cfg, st, key, now).0.tracks, key) == if allow_step(
            cfg,
            st,
            key,
            now,
        ).1 {
            recent(stamps_of(st.tracks, key), now as int - cfg.window_ms as int).push(now)
        } else {
            recent(stamps_of(st.tracks, key), now as int - cfg.window_ms as int)
        },
        forall|other: Seq<char>|
            other != key && #[trigger] has_key(allow_step(cfg, st, key, now).0.tracks, other)
                ==> has_key(st.tracks, other) && same_or_recent(
                stamps_of(allow_step(cfg, st, key, now).0.tracks, other),
                stamps_of(st.tracks, other),
                now as int - cfg.window_ms as int,
            ),
        forall|other: Seq<char>|
            other != key && (has_key(st.tracks, key) || st.tracks.len() < cfg.max_keys)
                ==> same_or_recent(
                #[trigger] stamps_of(allow_step(cfg, st, key, now).0.tracks, other),
                stamps_of(st.tracks, other),
                now as int - cfg.window_ms as int,
            ),
{
    let cutoff = now as int - cfg.window_ms as int;
    if cfg.limit > 0 {
        let st1 = sweep_if_due(cfg, st, now);
        let st2 = make_room(cfg, st1, key, now);
        let (post, r) = count_request(cfg, st2, key, now);
        lemma_sweep_if_due(cfg, st, now);
        lemma_make_room(cfg, st1, key, now);
        let own = recent(stamps_of(st.tracks, key), cutoff);
        assert(recent(stamps_of(st2.tracks, key), cutoff) == own) by {
            assert(same_or_recent(stamps_of(st1.tracks, key), stamps_of(st.tracks, key), cutoff));
            lemma_recent_twice(stamps_of(st.tracks, key), cutoff, cutoff);
        }
        if has_key(st2.tracks, key) {
            let i = index_of(st2.tracks, key);
            lemma_index_of(st2.tracks, key, i);
            lemma_update_keeps_keys(st2.tracks, i, if r { own.push(now) } else { own });
        } else {
            reveal(Seq::filter);
            assert(stamps_of(st2.tracks, key) =~= Seq::<u64>::empty());
            assert(own =~= Seq::<u64>::empty());
            assert(own.push(now) =~= seq![now]);
            lemma_stamps_of_push(st2.tracks, Track { key, stamps: seq![now] }, key);
            assert forall|other: Seq<char>| other != key implies (has_key(post.tracks, other)
                <==> has_key(st2.tracks, other)) && stamps_of(post.tracks, other) == stamps_of(
                st2.tracks,
                other,
            ) by {
                lemma_stamps_of_push(st2.tracks, Track { key, stamps: seq![now] }, other);
            }
        }
        assert forall|other: Seq<char>|
            other != key && #[trigger] has_key(post.tracks, other) implies has_key(
            st.tracks,
            other,
        ) && same_or_recent(stamps_of(post.tracks, other), stamps_of(st.tracks, other), cutoff) by {
            assert(has_key(st2.tracks, other));
            assert(has_key(st1.tracks, other));
            assert(same_or_recent(stamps_of(st2.tracks, other), stamps_of(st1.tracks, other), cutoff));
            assert(same_or_recent(stamps_of(st1.tracks, other), stamps_of(st.tracks, other), cutoff));
            lemma_recent_twice(stamps_of(st.tracks, other), cutoff, cutoff);
        }
        assert forall|other: Seq<char>|
            other != key && (has_key(st.tracks, key) || st.tracks.len() < cfg.max_keys)
                implies same_or_recent(
            #[trigger] stamps_of(post.tracks, other),
            stamps_of(st.tracks, other),
            cutoff,
        ) by {
            assert(has_key(st1.tracks, key) || st1.tracks.len() < cfg.max_keys);
            assert(st2 == st1);
            assert(stamps_of(post.tracks, other) == stamps_of(st1.tracks, other));
            assert(same_or_recent(stamps_of(st1.tracks, other), stamps_of(st.tracks, other), cutoff));
        }
    } else {
        assert forall|other: Seq<char>|
            same_or_recent(#[trigger] stamps_of(st.tracks, other), stamps_of(st.tracks, other), cutoff) by {}
    }
}

/// The limiter's answers to a run of requests for one key at the given
/// times, and the state the run leaves.
pub open spec fn replay(cfg: WindowConfig, st: WindowState, key: Seq<char>, times: Seq<u64>) -> (
    WindowState,
    Seq<bool>,
)
    decreases times.len(),
{
    if times.len() == 0 {
        (st, Seq::empty())
    } else {
        let (mid, answers) = replay(cfg, st, key, times.drop_last());
        let (end, answer) = allow_step(cfg, mid, key, times.last());
        (end, answers.push(answer))
    }
}

/// Times of which none has left the window when a later one arrives.
pub open spec fn within_one_window(times: Seq<u64>, window_ms: u64) -> bool {
    forall|i: int, j: int|
        0 <= i <= j < times.len() ==> (#[trigger] times[i]) as int > (#[trigger] times[j]) as int
            - window_ms as int
}

/// With a limit above zero, of the requests that one key makes inside one
/// window, starting untracked, exactly the first `limit` are allowed: request
/// number `n`, counted from one, is refused if and only if `n > limit`.
pub proof fn lemma_nth_request_in_window(
    cfg: WindowConfig,
    st: WindowState,
    key: Seq<char>,
    times: Seq<u64>,
)
    requires
        well_formed(cfg, st),
        cfg.limit > 0,
        !has_key(st.tracks, key),
        within_one_window(times, cfg.window_ms),
    ensures
        replay(cfg, st, key, times).1.len() == times.len(),
        forall|n: int|
            0 <= n < times.len() ==> (#[trigger] replay(cfg, st, key, times).1[n]) == (n
                < cfg.limit),
        well_formed(cfg, replay(cfg, st, key, times).0),
        stamps_of(replay(cfg, st, key, times).0.tracks, key) == times.take(
            if times.len() <= cfg.limit {
                times.len() as int
            } else {
                cfg.limit as int
            },
        ),
    decreases times.len(),
{
    if times.len() == 0 {
        assert(times.take(0) =~= Seq::<u64>::empty());
    } else {
        let head = times.drop_last();
        let now = times.last();
        let m = head.len() as int;
        assert forall|i: int, j: int| 0 <= i <= j < head.len() implies (#[trigger] head[i]) as int
            > (#[trigger] head[j]) as int - cfg.window_ms as int by {
            assert(head[i] == times[i] && head[j] == times[j]);
        }
        lemma_nth_request_in_window(cfg, st, key, head);
        let (mid, answers) = replay(cfg, st, key, head);
        let cutoff = now as int - cfg.window_ms as int;
        let held = stamps_of(mid.tracks, key);
        assert forall|i: int| 0 <= i < held.len() implies (#[trigger] held[i]) as int > cutoff by {
            assert(held[i] == times[i]);
            assert(times[i] as int > times[m] as int - cfg.window_ms as int);
        }
        lemma_recent_all(held, cutoff);
        lemma_allow_step(cfg, mid, key, now);
        let (end, answer) = allow_step(cfg, mid, key, now);
        assert(answer == (m < cfg.limit));
        if answer {
            assert(held.push(now) =~= times.take(m + 1));
        } else {
            assert(held =~= times.take(cfg.limit as int));
        }
        assert forall|n: int| 0 <= n < times.len() implies (#[trigger] answers.push(answer)[n]) == (
        n < cfg.limit) by {
            if n < m {
                assert(answers.push(answer)[n] == answers[n]);
            }
        }
    }
}

/// A request for one key does not change what a later request for another
/// key is answered, as long as the first did not have to make room: the
/// answer for a key rests on that key's own requests.
pub proof fn lemma_keys_are_independent(
    cfg: WindowConfig,
    st: WindowState,
    key: Seq<char>,
    other: Seq<char>,
    now: u64,
    later: u64,
)
    requires
        well_formed(cfg, st),
        key != other,
        now <= later,
        has_key(st.tracks, other) || st.tracks.len() < cfg.max_keys,
    ensures
        allow_step(cfg, allow_step(cfg, st, other, now).0, key, later).1 == allow_step(
            cfg,
            st,
            key,
            later,
        ).1,
{
    if cfg.limit > 0 {
        let w = cfg.window_ms as int;
        lemma_allow_step(cfg, st, other, now);
        let mid = allow_step(cfg, st, other, now).0;
        assert(same_or_recent(stamps_of(mid.tracks, key), stamps_of(st.tracks, key), now as int - w));
        lemma_recent_twice(stamps_of(st.tracks, key), now as int - w, later as int - w);
        lemma_allow_step(cfg, mid, key, later);
        lemma_allow_step(cfg, st, key, later);
    }
}

/// A limit of zero switches the limiter off: every request is allowed and
/// nothing is remembered.
pub proof fn lemma_zero_limit_allows(cfg: WindowConfig, st: WindowState, key: Seq<char>, now: u64)
    requires
        cfg.limit == 0,
    ensures
        allow_step(cfg, st, key, now) == (st, true),
{
}

/// The two limiters of the gateway, one for pairing and one for webhooks,
/// sharing a window of a minute and a key capacity.
pub struct GatewayRateLimiter {
    pair: SlidingWindowRateLimiter,
    webhook: SlidingWindowRateLimiter,
}

impl GatewayRateLimiter {
    pub closed spec fn pair(&self) -> SlidingWindowRateLimiter {
        self.pair
    }

    pub closed spec fn webhook(&self) -> SlidingWindowRateLimiter {
        self.webhook
    }

    pub open spec fn wf(&self) -> bool {
        self.pair().wf() && self.webhook().wf()
    }

    pub fn new(pair_per_minute: u32, webhook_per_minute: u32, max_keys: usize) -> (r: Self)
        ensures
            r.wf(),
            r.pair().config() == (WindowConfig {
                limit: pair_per_minute,
                window_ms: 60_000,
                max_keys: if max_keys == 0 {
                    1
                } else {
                    max_keys
                },
            }),
            r.webhook().config() == (WindowConfig {
                limit: webhook_per_minute,
                window_ms: 60_000,
                max_keys: if max_keys == 0 {
                    1
                } else {
                    max_keys
                },
            }),
            r.pair().state() == (WindowState { tracks: Seq::empty(), last_sweep: 0 }),
            r.webhook().state() == (WindowState { tracks: Seq::empty(), last_sweep: 0 }),
    {
        let window_ms: u64 = RATE_LIMIT_WINDOW_SECS * 1000;
        GatewayRateLimiter {
            pair: SlidingWindowRateLimiter::new(pair_per_minute, window_ms, max_keys),
            webhook: SlidingWindowRateLimiter::new(webhook_per_minute, window_ms, max_keys),
        }
    }

    /// Decides a pairing request at time `now`; the webhook limiter is not
    /// touched.
    pub fn allow_pair_at(&mut self, key: &str, now: u64) -> (r: bool)
        requires
            old(self).wf(),
        ensures
            final(self).wf(),
            final(self).webhook() == old(self).webhook(),
            final(self).pair().config() == old(self).pair().config(),
            (final(self).pair().state(), r) == allow_step(
                old(self).pair().config(),
                old(self).pair().state(),
                key@,
                now,
            ),
    {
        self.pair.allow_at(key, now)
    }

    /// Decides a webhook request at time `now`; the pairing limiter is not
    /// touched.
    pub fn allow_webhook_at(&mut self, key: &str, now: u64) -> (r: bool)
        requires
            old(self).wf(),
        ensures
            final(self).wf(),
            final(self).pair() == old(self).pair(),
            final(self).webhook().config() == old(self).webhook().config(),
            (final(self).webhook().state(), r) == allow_step(
                old(self).webhook().config(),
                old(self).webhook().state(),
                key@,
                now,
            ),
    {
        self.webhook.allow_at(key, now)
    }

    /// Decides a pairing request now.
    pub fn allow_pair(&mut self, key: &str) -> (r: bool)
        requires
            old(self).wf(),
        ensures
            final(self).wf(),
            final(self).webhook() == old(self).webhook(),
            final(self).pair().config() == old(self).pair().config(),
            exists|now: u64|
                (final(self).pair().state(), r) == #[trigger] allow_step(
                    old(self).pair().config(),
                    old(self).pair().state(),
                    key@,
                    now,
                ),
    {
        self.pair.allow(key)
    }

    /// Decides a webhook request now.
    pub fn allow_webhook(&mut self, key: &str) -> (r: bool)
        requires
            old(self).wf(),
        ensures
            final(self).wf(),
            final(self).pair() == old(self).pair(),
            final(self).webhook().config() == old(self).webhook().config(),
            exists|now: u64|
                (final(self).webhook().state(), r) == #[trigger] allow_step(
                    old(self).webhook().config(),
                    old(self).webhook().state(),
                    key@,
                    now,
                ),
    {
        self.webhook.allow(key)
    }
}

} // verus!
