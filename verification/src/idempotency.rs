//! Memory of idempotency keys with a time to live and a bounded size.

use crate::clock::{clock_origin, elapsed_millis};
use crate::limiter::lemma_filter_push;
use std::time::Instant;
use vstd::prelude::*;

verus! {

/// Key capacity used where none is configured.
pub const IDEMPOTENCY_MAX_KEYS_DEFAULT: usize = 10_000;

/// One remembered key and the time it was recorded.
pub struct Seen {
    pub key: Seq<char>,
    pub at: u64,
}

/// The fixed parameters of a store.
pub struct StoreConfig {
    pub ttl_ms: u64,
    pub max_keys: usize,
}

/// Time passed since `at`; zero where `at` lies ahead of `now`.
pub open spec fn age(at: u64, now: u64) -> int {
    if now >= at {
        now - at
    } else {
        0
    }
}

/// The entries that have not reached their time to live.
pub open spec fn unexpired(entries: Seq<Seen>, ttl_ms: u64, now: u64) -> Seq<Seen> {
    entries.filter(|e: Seen| age(e.at, now) < ttl_ms)
}

pub open spec fn remembers(entries: Seq<Seen>, key: Seq<char>) -> bool {
    exists|i: int| 0 <= i < entries.len() && (#[trigger] entries[i]).key == key
}

pub open spec fn position(entries: Seq<Seen>, key: Seq<char>) -> int {
    choose|i: int| 0 <= i < entries.len() && (#[trigger] entries[i]).key == key
}

pub open spec fn distinct(entries: Seq<Seen>) -> bool {
    forall|i: int, j: int|
        0 <= i < j < entries.len() ==> (#[trigger] entries[i]).key != (#[trigger] entries[j]).key
}

/// Whether `i` is the entry to evict: none was recorded earlier, and among
/// those recorded at the same time it comes first.
pub open spec fn is_oldest(entries: Seq<Seen>, i: int) -> bool {
    &&& 0 <= i < entries.len()
    &&& forall|j: int| 0 <= j < entries.len() ==> entries[i].at <= (#[trigger] entries[j]).at
    &&& forall|j: int| 0 <= j < i ==> entries[i].at < (#[trigger] entries[j]).at
}

pub open spec fn oldest_index(entries: Seq<Seen>) -> int {
    choose|i: int| is_oldest(entries, i)
}

pub proof fn lemma_oldest_unique(entries: Seq<Seen>, i: int)
    requires
        is_oldest(entries, i),
    ensures
        oldest_index(entries) == i,
{
    let k = oldest_index(entries);
    assert(is_oldest(entries, k));
    if k < i {
        assert(entries[i].at < entries[k].at);
        assert(entries[k].at <= entries[i].at);
    } else if i < k {
        assert(entries[k].at < entries[i].at);
        assert(entries[i].at <= entries[k].at);
    }
}

/// One call at time `now`: expired entries go; a key still remembered is
/// refused; a new key is recorded, after the oldest entry has made room for
/// it where the store is full.
pub open spec fn record_step(cfg: StoreConfig, entries: Seq<Seen>, key: Seq<char>, now: u64) -> (
    Seq<Seen>,
    bool,
) {
    let live = unexpired(entries, cfg.ttl_ms, now);
    if remembers(live, key) {
        (live, false)
    } else {
        let room = if live.len() >= cfg.max_keys {
            live.remove(oldest_index(live))
        } else {
            live
        };
        (room.push(Seen { key, at: now }), true)
    }
}

/// A state a store can be in.
pub open spec fn well_formed(cfg: StoreConfig, entries: Seq<Seen>) -> bool {
    &&& cfg.max_keys >= 1
    &&& entries.len() <= cfg.max_keys
    &&& distinct(entries)
}

/// Entries in the order of their times, as a clock that never runs backwards
/// leaves them.
pub open spec fn in_time_order(entries: Seq<Seen>) -> bool {
    forall|i: int, j: int|
        0 <= i <= j < entries.len() ==> (#[trigger] entries[i]).at <= (#[trigger] entries[j]).at
}

/// Filtering keeps the entries that pass, in their order.
pub proof fn lemma_unexpired(entries: Seq<Seen>, ttl_ms: u64, now: u64)
    ensures
        unexpired(entries, ttl_ms, now).len() <= entries.len(),
        forall|j: int|
            0 <= j < unexpired(entries, ttl_ms, now).len() ==> age(
                (#[trigger] unexpired(entries, ttl_ms, now)[j]).at,
                now,
            ) < ttl_ms,
        forall|j: int|
            0 <= j < unexpired(entries, ttl_ms, now).len() ==> exists|i: int|
                0 <= i < entries.len() && entries[i] == #[trigger] unexpired(entries, ttl_ms, now)[j],
        forall|i: int|
            0 <= i < entries.len() && age((#[trigger] entries[i]).at, now) < ttl_ms ==> remembers(
                unexpired(entries, ttl_ms, now),
                entries[i].key,
            ),
        distinct(entries) ==> distinct(unexpired(entries, ttl_ms, now)),
        in_time_order(entries) ==> in_time_order(unexpired(entries, ttl_ms, now)),
        (forall|i: int| 0 <= i < entries.len() ==> age((#[trigger] entries[i]).at, now) < ttl_ms)
            ==> unexpired(entries, ttl_ms, now) == entries,
    decreases entries.len(),
{
    reveal(Seq::filter);
    let p = |e: Seen| age(e.at, now) < ttl_ms;
    let out = unexpired(entries, ttl_ms, now);
    if entries.len() > 0 {
        let head = entries.drop_last();
        let e = entries.last();
        assert(entries =~= head.push(e));
        lemma_unexpired(head, ttl_ms, now);
        lemma_filter_push(head, e, p);
        let oh = unexpired(head, ttl_ms, now);
        assert forall|j: int| 0 <= j < out.len() implies exists|i: int|
            0 <= i < entries.len() && entries[i] == #[trigger] out[j] by {
            if j < oh.len() {
                let i = choose|i: int| 0 <= i < head.len() && head[i] == oh[j];
                assert(entries[i] == out[j]);
            } else {
                assert(entries[entries.len() - 1] == out[j]);
            }
        }
        assert forall|i: int|
            0 <= i < entries.len() && age((#[trigger] entries[i]).at, now) < ttl_ms implies remembers(
            out,
            entries[i].key,
        ) by {
            if i < head.len() {
                assert(head[i] == entries[i]);
                let j = position(oh, head[i].key);
                assert(out[j].key == entries[i].key);
            } else {
                assert(out[out.len() - 1].key == entries[i].key);
            }
        }
        if distinct(entries) {
            assert(distinct(head)) by {
                assert forall|a: int, b: int| 0 <= a < b < head.len() implies (#[trigger] head[a]).key
                    != (#[trigger] head[b]).key by {
                    assert(head[a] == entries[a] && head[b] == entries[b]);
                }
            }
            assert forall|a: int, b: int| 0 <= a < b < out.len() implies (#[trigger] out[a]).key != (
            #[trigger] out[b]).key by {
                if b == oh.len() {
                    let i = choose|i: int| 0 <= i < head.len() && head[i] == oh[a];
                    assert(entries[i].key != entries[entries.len() - 1].key);
                }
            }
        }
        if in_time_order(entries) {
            assert(in_time_order(head)) by {
                assert forall|a: int, b: int| 0 <= a <= b < head.len() implies (#[trigger] head[a]).at
                    <= (#[trigger] head[b]).at by {
                    assert(head[a] == entries[a] && head[b] == entries[b]);
                }
            }
            assert forall|a: int, b: int| 0 <= a <= b < out.len() implies (#[trigger] out[a]).at <= (
            #[trigger] out[b]).at by {
                if b == oh.len() && a < b {
                    let i = choose|i: int| 0 <= i < head.len() && head[i] == oh[a];
                    assert(entries[i].at <= entries[entries.len() - 1].at);
                }
            }
        }
        if forall|i: int| 0 <= i < entries.len() ==> age((#[trigger] entries[i]).at, now) < ttl_ms {
            assert forall|i: int| 0 <= i < head.len() implies age((#[trigger] head[i]).at, now)
                < ttl_ms by {
                assert(head[i] == entries[i]);
            }
            assert(p(e));
        }
    }
}

/// One call, seen from the key: the store stays well formed; the call is
/// refused exactly when the key is remembered and has not expired; and
/// afterwards the key is remembered, as the newest entry if it was recorded.
pub proof fn lemma_record_step(cfg: StoreConfig, entries: Seq<Seen>, key: Seq<char>, now: u64)
    requires
        well_formed(cfg, entries),
    ensures
        well_formed(cfg, record_step(cfg, entries, key, now).0),
        record_step(cfg, entries, key, now).1 == !remembers(
            unexpired(entries, cfg.ttl_ms, now),
            key,
        ),
        remembers(record_step(cfg, entries, key, now).0, key),
        record_step(cfg, entries, key, now).1 ==> record_step(cfg, entries, key, now).0.last() == (
        Seen { key, at: now }),
{
    let live = unexpired(entries, cfg.ttl_ms, now);
    lemma_unexpired(entries, cfg.ttl_ms, now);
    let (out, fresh) = record_step(cfg, entries, key, now);
    if fresh {
        let room = if live.len() >= cfg.max_keys {
            live.remove(oldest_index(live))
        } else {
            live
        };
        if live.len() >= cfg.max_keys {
            lemma_oldest_exists(live);
            lemma_remove(live, oldest_index(live));
        }
        assert(!remembers(room, key));
        assert(distinct(out)) by {
            assert forall|a: int, b: int| 0 <= a < b < out.len() implies (#[trigger] out[a]).key != (
            #[trigger] out[b]).key by {
                if b == room.len() {
                    assert(room[a].key != key);
                }
            }
        }
        assert(out[out.len() - 1].key == key);
    }
}

/// Non-empty entries have an oldest one.
pub proof fn lemma_oldest_exists(entries: Seq<Seen>)
    requires
        entries.len() > 0,
    ensures
        is_oldest(entries, oldest_index(entries)),
    decreases entries.len(),
{
    if entries.len() == 1 {
        assert(is_oldest(entries, 0));
    } else {
        let head = entries.drop_last();
        lemma_oldest_exists(head);
        let k = oldest_index(head);
        let n = entries.len() - 1;
        if entries[n].at < head[k].at {
            assert forall|j: int| 0 <= j < entries.len() implies entries[n].at <= (
            #[trigger] entries[j]).at by {
                if j < n {
                    assert(entries[j] == head[j]);
                }
            }
            assert forall|j: int| 0 <= j < n implies entries[n].at < (#[trigger] entries[j]).at by {
                assert(entries[j] == head[j]);
            }
            assert(is_oldest(entries, n));
        } else {
            assert forall|j: int| 0 <= j < entries.len() implies entries[k].at <= (
            #[trigger] entries[j]).at by {
                if j < n {
                    assert(entries[j] == head[j]);
                }
            }
            assert forall|j: int| 0 <= j < k implies entries[k].at < (#[trigger] entries[j]).at by {
                assert(entries[j] == head[j]);
            }
            assert(is_oldest(entries, k));
        }
    }
}

/// Removing one entry forgets its key and no other.
pub proof fn lemma_remove(entries: Seq<Seen>, i: int)
    requires
        distinct(entries),
        0 <= i < entries.len(),
    ensures
        distinct(entries.remove(i)),
        entries.remove(i).len() == entries.len() - 1,
        !remembers(entries.remove(i), entries[i].key),
        forall|key: Seq<char>|
            key != entries[i].key ==> (remembers(entries.remove(i), key) <==> remembers(
                entries,
                key,
            )),
        in_time_order(entries) ==> in_time_order(entries.remove(i)),
{
    let out = entries.remove(i);
    entries.remove_ensures(i);
    assert forall|a: int, b: int| 0 <= a < b < out.len() implies (#[trigger] out[a]).key != (
    #[trigger] out[b]).key by {
        let a0 = if a < i { a } else { a + 1 };
        let b0 = if b < i { b } else { b + 1 };
        assert(out[a] == entries[a0] && out[b] == entries[b0]);
    }
    if remembers(out, entries[i].key) {
        let a = position(out, entries[i].key);
        let a0 = if a < i { a } else { a + 1 };
        assert(out[a] == entries[a0]);
        if a0 < i {
            assert(entries[a0].key != entries[i].key);
        } else {
            assert(entries[i].key != entries[a0].key);
        }
    }
    assert forall|key: Seq<char>| key != entries[i].key implies (remembers(out, key) <==> remembers(
        entries,
        key,
    )) by {
        if remembers(entries, key) {
            let k = position(entries, key);
            let k1 = if k < i { k } else { k - 1 };
            assert(out[k1] == entries[k]);
        }
        if remembers(out, key) {
            let a = position(out, key);
            let a0 = if a < i { a } else { a + 1 };
            assert(out[a] == entries[a0]);
        }
    }
    if in_time_order(entries) {
        assert forall|a: int, b: int| 0 <= a <= b < out.len() implies (#[trigger] out[a]).at <= (
        #[trigger] out[b]).at by {
            let a0 = if a < i { a } else { a + 1 };
            let b0 = if b < i { b } else { b + 1 };
            assert(out[a] == entries[a0] && out[b] == entries[b0]);
        }
    }
}

/// Once a key has been recorded, a repeat of it before its time to live has
/// passed is refused.
pub proof fn lemma_repeat_is_refused(
    cfg: StoreConfig,
    entries: Seq<Seen>,
    key: Seq<char>,
    first: u64,
    again: u64,
)
    requires
        well_formed(cfg, entries),
        record_step(cfg, entries, key, first).1,
        age(first, again) < cfg.ttl_ms,
    ensures
        !record_step(cfg, record_step(cfg, entries, key, first).0, key, again).1,
{
    lemma_record_step(cfg, entries, key, first);
    let mid = record_step(cfg, entries, key, first).0;
    lemma_record_step(cfg, mid, key, again);
    lemma_unexpired(mid, cfg.ttl_ms, again);
    assert(mid[mid.len() - 1] == Seen { key, at: first });
}

/// A key recorded at `at` stays remembered, with that time, through a call
/// for another key, unless it expires or the store is full and has to evict.
pub proof fn lemma_other_key_keeps_memory(
    cfg: StoreConfig,
    entries: Seq<Seen>,
    key: Seq<char>,
    at: u64,
    other: Seq<char>,
    now: u64,
)
    requires
        well_formed(cfg, entries),
        key != other,
        exists|i: int| 0 <= i < entries.len() && entries[i] == (Seen { key, at }),
        age(at, now) < cfg.ttl_ms,
        unexpired(entries, cfg.ttl_ms, now).len() < cfg.max_keys || remembers(
            unexpired(entries, cfg.ttl_ms, now),
            other,
        ),
    ensures
        exists|i: int|
            0 <= i < record_step(cfg, entries, other, now).0.len() && record_step(
                cfg,
                entries,
                other,
                now,
            ).0[i] == (Seen { key, at }),
{
    let live = unexpired(entries, cfg.ttl_ms, now);
    lemma_unexpired(entries, cfg.ttl_ms, now);
    let i = choose|i: int| 0 <= i < entries.len() && entries[i] == (Seen { key, at });
    assert(age(entries[i].at, now) < cfg.ttl_ms);
    assert(remembers(live, key));
    let j = position(live, key);
    let i2 = choose|i2: int| 0 <= i2 < entries.len() && entries[i2] == live[j];
    if i2 < i {
        assert(entries[i2].key != entries[i].key);
    } else if i < i2 {
        assert(entries[i].key != entries[i2].key);
    }
    let out = record_step(cfg, entries, other, now).0;
    assert(out[j] == Seen { key, at });
}

/// While the clock does not run backwards, the entries stay in the order of
/// their times.
pub proof fn lemma_record_keeps_time_order(
    cfg: StoreConfig,
    entries: Seq<Seen>,
    key: Seq<char>,
    now: u64,
)
    requires
        well_formed(cfg, entries),
        in_time_order(entries),
        forall|i: int| 0 <= i < entries.len() ==> (#[trigger] entries[i]).at <= now,
    ensures
        in_time_order(record_step(cfg, entries, key, now).0),
        forall|i: int|
            0 <= i < record_step(cfg, entries, key, now).0.len() ==> (#[trigger] record_step(
                cfg,
                entries,
                key,
                now,
            ).0[i]).at <= now,
{
    let live = unexpired(entries, cfg.ttl_ms, now);
    lemma_unexpired(entries, cfg.ttl_ms, now);
    assert forall|j: int| 0 <= j < live.len() implies (#[trigger] live[j]).at <= now by {
        let i = choose|i: int| 0 <= i < entries.len() && entries[i] == live[j];
        assert(entries[i].at <= now);
    }
    let out = record_step(cfg, entries, key, now).0;
    if !remembers(live, key) {
        let room = if live.len() >= cfg.max_keys {
            live.remove(oldest_index(live))
        } else {
            live
        };
        if live.len() >= cfg.max_keys {
            lemma_oldest_exists(live);
            lemma_remove(live, oldest_index(live));
            live.remove_ensures(oldest_index(live));
        }
        assert forall|j: int| 0 <= j < room.len() implies (#[trigger] room[j]).at <= now by {
            if live.len() >= cfg.max_keys {
                let k = oldest_index(live);
                let j0 = if j < k { j } else { j + 1 };
                assert(room[j] == live[j0]);
            }
        }
        assert forall|a: int, b: int| 0 <= a <= b < out.len() implies (#[trigger] out[a]).at <= (
        #[trigger] out[b]).at by {
            if b == room.len() {
                if a < b {
                    assert(out[a] == room[a]);
                }
            } else {
                assert(out[a] == room[a] && out[b] == room[b]);
            }
        }
    }
}

/// A full store whose entries are in time order makes room for a new key by
/// dropping the entry that was recorded first, and nothing else.
pub proof fn lemma_full_store_evicts_oldest(
    cfg: StoreConfig,
    entries: Seq<Seen>,
    key: Seq<char>,
    now: u64,
)
    requires
        well_formed(cfg, entries),
        in_time_order(entries),
        entries.len() == cfg.max_keys,
        !remembers(entries, key),
        forall|i: int| 0 <= i < entries.len() ==> age((#[trigger] entries[i]).at, now) < cfg.ttl_ms,
    ensures
        record_step(cfg, entries, key, now) == (
            entries.skip(1).push(Seen { key, at: now }),
            true,
        ),
{
    lemma_unexpired(entries, cfg.ttl_ms, now);
    let live = unexpired(entries, cfg.ttl_ms, now);
    assert(live == entries);
    assert(is_oldest(entries, 0));
    lemma_oldest_unique(entries, 0);
    assert(entries.remove(0) =~= entries.skip(1));
}

/// What the store holds after recording `keys` one after the other at
/// `times`.
pub open spec fn record_all(
    cfg: StoreConfig,
    entries: Seq<Seen>,
    keys: Seq<Seq<char>>,
    times: Seq<u64>,
) -> Seq<Seen>
    decreases keys.len(),
{
    if keys.len() == 0 {
        entries
    } else {
        record_step(
            cfg,
            record_all(cfg, entries, keys.drop_last(), times.drop_last()),
            keys.last(),
            times.last(),
        ).0
    }
}

/// The entries of `keys` recorded at `times`, in order.
pub open spec fn recorded(keys: Seq<Seq<char>>, times: Seq<u64>) -> Seq<Seen> {
    Seq::new(keys.len(), |i: int| Seen { key: keys[i], at: times[i] })
}

/// Different keys, recorded at times that do not run backwards and lie
/// within the time to live of `until`.
pub open spec fn is_fresh_run(cfg: StoreConfig, keys: Seq<Seq<char>>, times: Seq<u64>, until: u64) -> bool {
    &&& keys.len() == times.len()
    &&& keys.no_duplicates()
    &&& forall|i: int, j: int| 0 <= i <= j < times.len() ==> (#[trigger] times[i]) <= (#[trigger] times[j])
    &&& forall|i: int| 0 <= i < times.len() ==> (#[trigger] times[i]) <= until && until - times[i] < cfg.ttl_ms
}

/// An empty store that records no more different keys than it can hold, all
/// within their time to live, holds every one of them, in order.
pub proof fn lemma_store_fills_in_order(
    cfg: StoreConfig,
    keys: Seq<Seq<char>>,
    times: Seq<u64>,
    until: u64,
)
    requires
        1 <= cfg.max_keys,
        keys.len() <= cfg.max_keys,
        is_fresh_run(cfg, keys, times, until),
    ensures
        record_all(cfg, Seq::empty(), keys, times) == recorded(keys, times),
    decreases keys.len(),
{
    if keys.len() == 0 {
        assert(recorded(keys, times) =~= Seq::<Seen>::empty());
    } else {
        let n = keys.len() - 1;
        let head_keys = keys.drop_last();
        let head_times = times.drop_last();
        let now = times.last();
        assert(is_fresh_run(cfg, head_keys, head_times, until)) by {
            assert forall|i: int, j: int| 0 <= i < head_keys.len() && 0 <= j < head_keys.len() && i
                != j implies head_keys[i] != head_keys[j] by {
                assert(head_keys[i] == keys[i] && head_keys[j] == keys[j]);
            }
            assert forall|i: int, j: int| 0 <= i <= j < head_times.len() implies (
            #[trigger] head_times[i]) <= (#[trigger] head_times[j]) by {
                assert(head_times[i] == times[i] && head_times[j] == times[j]);
            }
            assert forall|i: int| 0 <= i < head_times.len() implies (#[trigger] head_times[i])
                <= until && until - head_times[i] < cfg.ttl_ms by {
                assert(head_times[i] == times[i]);
            }
        }
        lemma_store_fills_in_order(cfg, head_keys, head_times, until);
        let entries = recorded(head_keys, head_times);
        assert forall|i: int| 0 <= i < entries.len() implies age((#[trigger] entries[i]).at, now)
            < cfg.ttl_ms by {
            assert(entries[i].at == times[i]);
            assert(times[i] <= times[n]);
            assert(times[n] <= until);
        }
        lemma_unexpired(entries, cfg.ttl_ms, now);
        assert(!remembers(entries, keys.last())) by {
            if remembers(entries, keys.last()) {
                let i = position(entries, keys.last());
                assert(keys[i] == keys[n]);
            }
        }
        assert(record_step(cfg, entries, keys.last(), now).0 =~= recorded(keys, times));
    }
}

/// Once a store has been filled with different keys, the next new key
/// drives out the one that was recorded first, and no other.
pub proof fn lemma_first_recorded_is_evicted(
    cfg: StoreConfig,
    keys: Seq<Seq<char>>,
    times: Seq<u64>,
    key: Seq<char>,
    now: u64,
)
    requires
        1 <= cfg.max_keys,
        keys.len() == cfg.max_keys,
        is_fresh_run(cfg, keys, times, now),
        !keys.contains(key),
    ensures
        record_step(cfg, record_all(cfg, Seq::empty(), keys, times), key, now) == (
            recorded(keys, times).skip(1).push(Seen { key, at: now }),
            true,
        ),
        !remembers(record_step(cfg, record_all(cfg, Seq::empty(), keys, times), key, now).0, keys[0]),
{
    lemma_store_fills_in_order(cfg, keys, times, now);
    let entries = recorded(keys, times);
    assert(distinct(entries));
    assert(in_time_order(entries));
    assert(!remembers(entries, key)) by {
        if remembers(entries, key) {
            let i = position(entries, key);
            assert(keys[i] == key);
        }
    }
    lemma_full_store_evicts_oldest(cfg, entries, key, now);
    let out = entries.skip(1).push(Seen { key, at: now });
    if remembers(out, keys[0]) {
        let j = position(out, keys[0]);
        if j < out.len() - 1 {
            assert(out[j] == entries[j + 1]);
            assert(keys[j + 1] == keys[0]);
        } else {
            assert(keys[0] == key);
            assert(keys.contains(key));
        }
    }
}

/// Whether call number `i` of a run finds room: the store is not full of
/// unexpired keys, or the key of the call is among them.
pub open spec fn has_room_at(
    cfg: StoreConfig,
    start: Seq<Seen>,
    keys: Seq<Seq<char>>,
    times: Seq<u64>,
    i: int,
) -> bool {
    let live = unexpired(
        record_all(cfg, start, keys.take(i), times.take(i)),
        cfg.ttl_ms,
        times[i],
    );
    live.len() < cfg.max_keys || remembers(live, keys[i])
}

/// A key that is recorded stays recorded, with its time, through any run of
/// calls that happen before it expires and never have to evict; so every
/// repeat of it in that time is refused.
pub proof fn lemma_key_stays_recorded(
    cfg: StoreConfig,
    start: Seq<Seen>,
    key: Seq<char>,
    at: u64,
    keys: Seq<Seq<char>>,
    times: Seq<u64>,
)
    requires
        well_formed(cfg, start),
        exists|i: int| 0 <= i < start.len() && start[i] == (Seen { key, at }),
        keys.len() == times.len(),
        forall|i: int| 0 <= i < times.len() ==> age(at, #[trigger] times[i]) < cfg.ttl_ms,
        forall|i: int| 0 <= i < keys.len() ==> #[trigger] has_room_at(cfg, start, keys, times, i),
    ensures
        well_formed(cfg, record_all(cfg, start, keys, times)),
        exists|i: int|
            0 <= i < record_all(cfg, start, keys, times).len() && record_all(
                cfg,
                start,
                keys,
                times,
            )[i] == (Seen { key, at }),
        forall|again: u64|
            age(at, again) < cfg.ttl_ms ==> !(#[trigger] record_step(
                cfg,
                record_all(cfg, start, keys, times),
                key,
                again,
            )).1,
    decreases keys.len(),
{
    let end = record_all(cfg, start, keys, times);
    if keys.len() > 0 {
        let n = keys.len() - 1;
        let head_keys = keys.drop_last();
        let head_times = times.drop_last();
        assert forall|i: int| 0 <= i < head_times.len() implies age(at, #[trigger] head_times[i])
            < cfg.ttl_ms by {
            assert(head_times[i] == times[i]);
        }
        assert forall|i: int| 0 <= i < head_keys.len() implies #[trigger] has_room_at(
            cfg,
            start,
            head_keys,
            head_times,
            i,
        ) by {
            assert(has_room_at(cfg, start, keys, times, i));
            assert(head_keys.take(i) =~= keys.take(i));
            assert(head_times.take(i) =~= times.take(i));
            assert(head_keys[i] == keys[i] && head_times[i] == times[i]);
        }
        lemma_key_stays_recorded(cfg, start, key, at, head_keys, head_times);
        let mid = record_all(cfg, start, head_keys, head_times);
        let now = times.last();
        assert(has_room_at(cfg, start, keys, times, n));
        assert(keys.take(n) =~= head_keys);
        assert(times.take(n) =~= head_times);
        lemma_record_step(cfg, mid, keys.last(), now);
        if keys.last() == key {
            lemma_still_listed(cfg, mid, key, at, now);
        } else {
            lemma_other_key_keeps_memory(cfg, mid, key, at, keys.last(), now);
        }
    }
    assert forall|again: u64| age(at, again) < cfg.ttl_ms implies !(#[trigger] record_step(
        cfg,
        end,
        key,
        again,
    )).1 by {
        lemma_record_step(cfg, end, key, again);
        lemma_still_listed(cfg, end, key, at, again);
    }
}

/// An unexpired entry is still there after the expired ones have gone.
proof fn lemma_still_listed(cfg: StoreConfig, entries: Seq<Seen>, key: Seq<char>, at: u64, now: u64)
    requires
        distinct(entries),
        exists|i: int| 0 <= i < entries.len() && entries[i] == (Seen { key, at }),
        age(at, now) < cfg.ttl_ms,
    ensures
        remembers(unexpired(entries, cfg.ttl_ms, now), key),
        exists|j: int|
            0 <= j < unexpired(entries, cfg.ttl_ms, now).len() && unexpired(
                entries,
                cfg.ttl_ms,
                now,
            )[j] == (Seen { key, at }),
        !record_step(cfg, entries, key, now).1,
        record_step(cfg, entries, key, now).0 == unexpired(entries, cfg.ttl_ms, now),
{
    let live = unexpired(entries, cfg.ttl_ms, now);
    lemma_unexpired(entries, cfg.ttl_ms, now);
    let i = choose|i: int| 0 <= i < entries.len() && entries[i] == (Seen { key, at });
    assert(age(entries[i].at, now) < cfg.ttl_ms);
    assert(remembers(live, key));
    let j = position(live, key);
    let i2 = choose|i2: int| 0 <= i2 < entries.len() && entries[i2] == live[j];
    if i2 < i {
        assert(entries[i2].key != entries[i].key);
    } else if i < i2 {
        assert(entries[i].key != entries[i2].key);
    }
    assert(live[j] == Seen { key, at });
}

/// One remembered key.
pub struct SeenKey {
    key: String,
    at: u64,
}

impl View for SeenKey {
    type V = Seen;

    closed spec fn view(&self) -> Seen {
        Seen { key: self.key@, at: self.at }
    }
}

/// The entries that a vector of remembered keys stands for.
pub open spec fn seen_of(entries: Seq<SeenKey>) -> Seq<Seen> {
    entries.map_values(|e: SeenKey| e@)
}

fn is_unexpired(at: u64, now: u64, ttl_ms: u64) -> (r: bool)
    ensures
        r == (age(at, now) < ttl_ms),
{
    if now >= at {
        now - at < ttl_ms
    } else {
        0 < ttl_ms
    }
}

fn drop_expired(entries: &Vec<SeenKey>, now: u64, ttl_ms: u64) -> (out: Vec<SeenKey>)
    ensures
        seen_of(out@) == unexpired(seen_of(entries@), ttl_ms, now),
{
    let ghost all = seen_of(entries@);
    let ghost p = |e: Seen| age(e.at, now) < ttl_ms;
    let mut out: Vec<SeenKey> = Vec::new();
    let mut i: usize = 0;
    proof {
        reveal(Seq::filter);
        assert(all.take(0) =~= Seq::<Seen>::empty());
        assert(seen_of(out@) =~= Seq::<Seen>::empty());
    }
    while i < entries.len()
        invariant
            i <= entries.len(),
            p == (|e: Seen| age(e.at, now) < ttl_ms),
            all == seen_of(entries@),
            seen_of(out@) == all.take(i as int).filter(p),
        decreases entries.len() - i,
    {
        let entry = &entries[i];
        proof {
            assert(all[i as int] == entry@);
            lemma_filter_push(all.take(i as int), entry@, p);
            assert(all.take(i + 1) =~= all.take(i as int).push(entry@));
        }
        if is_unexpired(entry.at, now, ttl_ms) {
            let ghost prev = out@;
            out.push(SeenKey { key: entry.key.clone(), at: entry.at });
            proof {
                assert(seen_of(out@) =~= seen_of(prev).push(entry@));
            }
        }
        i = i + 1;
    }
    proof {
        assert(all.take(entries.len() as int) =~= all);
    }
    out
}

fn find_seen(entries: &Vec<SeenKey>, key: &String) -> (r: Option<usize>)
    ensures
        match r {
            Some(i) => i < entries.len() && seen_of(entries@)[i as int].key == key@,
            None => !remembers(seen_of(entries@), key@),
        },
{
    let mut i: usize = 0;
    while i < entries.len()
        invariant
            i <= entries.len(),
            forall|j: int| 0 <= j < i ==> (#[trigger] seen_of(entries@)[j]).key != key@,
        decreases entries.len() - i,
    {
        if entries[i].key == *key {
            proof {
                assert(seen_of(entries@)[i as int].key == key@);
            }
            return Some(i);
        }
        proof {
            assert(seen_of(entries@)[i as int].key != key@);
        }
        i = i + 1;
    }
    None
}

fn oldest_entry(entries: &Vec<SeenKey>) -> (r: usize)
    requires
        entries.len() > 0,
    ensures
        r < entries.len(),
        r == oldest_index(seen_of(entries@)),
{
    let ghost seen = seen_of(entries@);
    let mut best: usize = 0;
    let mut best_at: u64 = entries[0].at;
    let mut i: usize = 1;
    assert(seen[0].at == best_at);
    while i < entries.len()
        invariant
            1 <= i <= entries.len(),
            best < i,
            seen == seen_of(entries@),
            best_at == seen[best as int].at,
            forall|j: int| 0 <= j < i ==> best_at <= (#[trigger] seen[j]).at,
            forall|j: int| 0 <= j < best ==> best_at < (#[trigger] seen[j]).at,
        decreases entries.len() - i,
    {
        let at = entries[i].at;
        assert(seen[i as int].at == at);
        if at < best_at {
            best = i;
            best_at = at;
        }
        i = i + 1;
    }
    proof {
        lemma_oldest_unique(seen, best as int);
    }
    best
}

/// Remembers idempotency keys for a time to live, up to a fixed number.
///
/// The keys are kept in a vector, in the order they were recorded: expiry
/// and eviction walk every entry, and the order settles which of two keys of
/// the same time is evicted.
pub struct IdempotencyStore {
    ttl_ms: u64,
    max_keys: usize,
    entries: Vec<SeenKey>,
    origin: Instant,
}

impl IdempotencyStore {
    pub closed spec fn config(&self) -> StoreConfig {
        StoreConfig { ttl_ms: self.ttl_ms, max_keys: self.max_keys }
    }

    /// The remembered keys, in the order they were recorded.
    pub closed spec fn entries(&self) -> Seq<Seen> {
        seen_of(self.entries@)
    }

    pub open spec fn wf(&self) -> bool {
        well_formed(self.config(), self.entries())
    }

    /// An empty store.  A capacity of zero is raised to one.
    pub fn new(ttl_ms: u64, max_keys: usize) -> (r: Self)
        ensures
            r.wf(),
            r.config() == (StoreConfig {
                ttl_ms,
                max_keys: if max_keys == 0 {
                    1
                } else {
                    max_keys
                },
            }),
            r.entries() == Seq::<Seen>::empty(),
    {
        let r = IdempotencyStore {
            ttl_ms,
            max_keys: if max_keys == 0 {
                1
            } else {
                max_keys
            },
            entries: Vec::new(),
            origin: clock_origin(),
        };
        proof {
            assert(seen_of(r.entries@) =~= Seq::<Seen>::empty());
        }
        r
    }

    /// Number of keys currently remembered, expired ones included until the
    /// next call drops them.
    pub fn len(&self) -> (n: usize)
        ensures
            n == self.entries().len(),
    {
        self.entries.len()
    }

    /// Whether `key` is currently held, expired or not.
    pub fn contains_key(&self, key: &str) -> (r: bool)
        ensures
            r == remembers(self.entries(), key@),
    {
        let owned = key.to_owned();
        find_seen(&self.entries, &owned).is_some()
    }

    /// Records `key` at time `now`, in milliseconds on the store's clock,
    /// unless it is still remembered.  Returns whether it was recorded.
    pub fn record_if_new_at(&mut self, key: &str, now: u64) -> (r: bool)
        requires
            old(self).wf(),
        ensures
            final(self).wf(),
            final(self).config() == old(self).config(),
            (final(self).entries(), r) == record_step(
                old(self).config(),
                old(self).entries(),
                key@,
                now,
            ),
    {
        proof {
            lemma_record_step(self.config(), self.entries(), key@, now);
            lemma_unexpired(self.entries(), self.ttl_ms, now);
        }
        let owned = key.to_owned();
        self.entries = drop_expired(&self.entries, now, self.ttl_ms);
        if find_seen(&self.entries, &owned).is_some() {
            return false;
        }
        if self.entries.len() >= self.max_keys {
            let victim = oldest_entry(&self.entries);
            let ghost before = seen_of(self.entries@);
            self.entries.remove(victim);
            proof {
                assert(seen_of(self.entries@) =~= before.remove(victim as int));
            }
        }
        let ghost room = seen_of(self.entries@);
        self.entries.push(SeenKey { key: owned, at: now });
        proof {
            assert(seen_of(self.entries@) =~= room.push(Seen { key: key@, at: now }));
        }
        true
    }

    /// Records `key` now unless it is still remembered.  The time is read
    /// from the store's own monotonic clock, so the outcome is that of
    /// `record_if_new_at` for some reading.
    pub fn record_if_new(&mut self, key: &str) -> (r: bool)
        requires
            old(self).wf(),
        ensures
            final(self).wf(),
            final(self).config() == old(self).config(),
            exists|now: u64|
                (final(self).entries(), r) == #[trigger] record_step(
                    old(self).config(),
                    old(self).entries(),
                    key@,
                    now,
                ),
    {
        let now = elapsed_millis(&self.origin);
        self.record_if_new_at(key, now)
    }
}

} // verus!
