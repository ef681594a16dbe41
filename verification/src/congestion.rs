//! The endpoint's congestion-control table: for each request in flight, when
//! it was last sent and how long to wait for its response.
//!
//! The table is a bounded least-recently-used cache of `uluru`. Time is
//! counted in nanoseconds on a clock that the caller reads.

use crate::identity::Nonce;
use crate::narrow_waist::NarrowWaistPacket;
use vstd::bytes::{
    spec_u32_from_le_bytes, spec_u32_to_le_bytes, spec_u64_from_le_bytes, spec_u64_to_le_bytes,
    u32_from_le_bytes, u64_from_le_bytes,
};
use vstd::prelude::*;
use vstd::slice::slice_subrange;

verus! {

/// Number of requests that the table remembers.
pub const CONGESTION_CONTROL_SIZE: usize = 32;

/// The wait that a request starts with: one second.
pub const INITIAL_TIMEOUT: u64 = 1_000_000_000;

/// One line of the table: the nonce of a request as a number, when the
/// request was last sent, and how long to wait for its response.
pub type Entry = (u128, u64, u64);

/// `uluru::LRUCache`: a least-recently-used cache of at most `N` items. What
/// it holds is known only through `lru_entries`.
#[verifier::external_type_specification]
#[verifier::external_body]
#[verifier::reject_recursive_types(T)]
pub struct ExLRUCache<T, const N: usize>(uluru::LRUCache<T, N>);

/// The lines that the cache holds, most recently used first.
pub uninterp spec fn lru_entries(cache: uluru::LRUCache<(u128, u64, u64), 32>) -> Seq<
    (u128, u64, u64),
>;

/// The place of the first line with the nonce `key`; the number of lines
/// where there is none.
pub open spec fn position(entries: Seq<Entry>, key: u128) -> int
    decreases entries.len(),
{
    if entries.len() == 0 {
        0
    } else if entries[0].0 == key {
        0
    } else {
        1 + position(entries.skip(1), key)
    }
}

/// The place of a nonce lies among the lines or right behind them; the line
/// at the place has the nonce, and no line before it has.
pub proof fn lemma_position(entries: Seq<Entry>, key: u128)
    ensures
        0 <= position(entries, key) <= entries.len(),
        position(entries, key) < entries.len() ==> entries[position(entries, key)].0 == key,
        forall|i: int| 0 <= i < position(entries, key) ==> entries[i].0 != key,
    decreases entries.len(),
{
    if entries.len() > 0 && entries[0].0 != key {
        lemma_position(entries.skip(1), key);
        assert forall|i: int| 0 <= i < position(entries, key) implies entries[i].0 != key by {
            if i > 0 {
                assert(entries[i] == entries.skip(1)[i - 1]);
            }
        }
    }
}

/// The table after the line at `place` moved to the front.
pub open spec fn touched(entries: Seq<Entry>, place: int) -> Seq<Entry> {
    seq![entries[place]] + entries.remove(place)
}

/// The table after `entry` was put in front: where the table was full, its
/// last line is gone.
pub open spec fn inserted(entries: Seq<Entry>, entry: Entry) -> Seq<Entry> {
    if entries.len() < CONGESTION_CONTROL_SIZE {
        seq![entry] + entries
    } else {
        seq![entry] + entries.drop_last()
    }
}

fn has_nonce(entry: &Entry, key: u128) -> (hit: bool)
    ensures
        hit == (entry.0 == key),
{
    entry.0 == key
}

/// Calls `uluru::LRUCache::new`: an empty cache.
#[verifier::external_body]
fn lru_new() -> (cache: uluru::LRUCache<(u128, u64, u64), 32>)
    ensures
        lru_entries(cache) == Seq::<Entry>::empty(),
{
    uluru::LRUCache::new()
}

/// Calls `uluru::LRUCache::insert`: the item becomes the front; where the
/// cache is full, the item at the back leaves and is returned.
#[verifier::external_body]
fn lru_insert(cache: &mut uluru::LRUCache<(u128, u64, u64), 32>, entry: (u128, u64, u64)) -> (evicted:
    Option<(u128, u64, u64)>)
    ensures
        lru_entries(*final(cache)) == inserted(lru_entries(*old(cache)), entry),
        lru_entries(*old(cache)).len() <= CONGESTION_CONTROL_SIZE,
        evicted == (if lru_entries(*old(cache)).len() < CONGESTION_CONTROL_SIZE {
            None
        } else {
            Some(lru_entries(*old(cache)).last())
        }),
{
    cache.insert(entry)
}

/// Calls `uluru::LRUCache::touch` with a test for the nonce `key`: the first
/// item that matches becomes the front, the others keep their order; without
/// a match nothing changes.
#[verifier::external_body]
fn lru_touch(cache: &mut uluru::LRUCache<(u128, u64, u64), 32>, key: u128) -> (hit: bool)
    ensures
        hit == (position(lru_entries(*old(cache)), key) < lru_entries(*old(cache)).len()),
        lru_entries(*final(cache)) == (if hit {
            touched(lru_entries(*old(cache)), position(lru_entries(*old(cache)), key))
        } else {
            lru_entries(*old(cache))
        }),
{
    cache.touch(|entry| has_nonce(entry, key))
}

/// Calls `uluru::LRUCache::front`: the most recently used item, if any.
#[verifier::external_body]
fn lru_front(cache: &uluru::LRUCache<(u128, u64, u64), 32>) -> (front: Option<(u128, u64, u64)>)
    ensures
        front == (if lru_entries(*cache).len() > 0 {
            Some(lru_entries(*cache)[0])
        } else {
            None
        }),
{
    cache.front().copied()
}

/// Calls `uluru::LRUCache::front_mut` and writes `entry` over the most
/// recently used item.
#[verifier::external_body]
fn lru_set_front(cache: &mut uluru::LRUCache<(u128, u64, u64), 32>, entry: (u128, u64, u64))
    requires
        lru_entries(*old(cache)).len() > 0,
    ensures
        lru_entries(*final(cache)) == lru_entries(*old(cache)).update(0, entry),
{
    match cache.front_mut() {
        Some(front) => {
            *front = entry;
        },
        None => {},
    }
}

/// The number that the table files a nonce under: its twelve bytes read
/// little-endian.
pub open spec fn nonce_key(nonce: Nonce) -> u128 {
    (spec_u64_from_le_bytes(nonce@.subrange(0, 8)) + 0x1_0000_0000_0000_0000 * (
    spec_u32_from_le_bytes(nonce@.subrange(8, 12)) as int)) as u128
}

/// Two nonces that the table files under the same number are the same nonce.
pub proof fn lemma_nonce_key_injective(a: Nonce, b: Nonce)
    requires
        nonce_key(a) == nonce_key(b),
    ensures
        a == b,
{
    vstd::bytes::lemma_auto_spec_u64_to_from_le_bytes();
    vstd::bytes::lemma_auto_spec_u32_to_from_le_bytes();
    let la = spec_u64_from_le_bytes(a@.subrange(0, 8));
    let lb = spec_u64_from_le_bytes(b@.subrange(0, 8));
    let ha = spec_u32_from_le_bytes(a@.subrange(8, 12));
    let hb = spec_u32_from_le_bytes(b@.subrange(8, 12));
    assert(la == lb && ha == hb);
    assert(spec_u64_to_le_bytes(la) == a@.subrange(0, 8));
    assert(spec_u64_to_le_bytes(lb) == b@.subrange(0, 8));
    assert(spec_u32_to_le_bytes(ha) == a@.subrange(8, 12));
    assert(spec_u32_to_le_bytes(hb) == b@.subrange(8, 12));
    assert forall|i: int| 0 <= i < 12 implies a@[i] == b@[i] by {
        if i < 8 {
            assert(a@[i] == a@.subrange(0, 8)[i]);
            assert(b@[i] == b@.subrange(0, 8)[i]);
        } else {
            assert(a@[i] == a@.subrange(8, 12)[i - 8]);
            assert(b@[i] == b@.subrange(8, 12)[i - 8]);
        }
    }
    assert(a =~= b);
}

/// Whether no two lines have the same nonce, and the table holds no more
/// lines than it has room for.
pub open spec fn one_line_each(entries: Seq<Entry>) -> bool {
    &&& entries.len() <= CONGESTION_CONTROL_SIZE
    &&& forall|i: int, j: int| 0 <= i < j < entries.len() ==> entries[i].0 != entries[j].0
}

/// The table after the request with nonce `key` was sent at `now`: a request
/// that the table knows moves to the front with its time of sending renewed;
/// a new one enters at the front with the initial wait.
pub open spec fn started(entries: Seq<Entry>, key: u128, now: u64) -> Seq<Entry> {
    let place = position(entries, key);
    if place < entries.len() {
        touched(entries, place).update(0, (key, now, entries[place].2))
    } else {
        inserted(entries, (key, now, INITIAL_TIMEOUT))
    }
}

/// The table after the line of `key`, if there is one, moved to the front
/// with its wait set by `wait`.
pub open spec fn settled(entries: Seq<Entry>, key: u128, wait: spec_fn(Entry) -> u64) -> Seq<Entry> {
    let place = position(entries, key);
    if place < entries.len() {
        let line = entries[place];
        touched(entries, place).update(0, (line.0, line.1, wait(line)))
    } else {
        entries
    }
}

/// Twice the wait, or the largest wait where that is less.
pub open spec fn doubled(wait: u64) -> u64 {
    if wait <= u64::MAX / 2 {
        (2 * wait) as u64
    } else {
        u64::MAX
    }
}

/// The time from `sent` to `now`; 0 where the clock went backwards.
pub open spec fn elapsed(sent: u64, now: u64) -> u64 {
    if now >= sent {
        (now - sent) as u64
    } else {
        0
    }
}

/// Sending a request leaves one line for each nonce, and the line of the
/// request in front, with the time of sending.
pub proof fn lemma_started_keeps_one_line_each(entries: Seq<Entry>, key: u128, now: u64)
    requires
        one_line_each(entries),
    ensures
        one_line_each(started(entries, key, now)),
        started(entries, key, now).len() > 0,
        started(entries, key, now)[0].0 == key,
        started(entries, key, now)[0].1 == now,
        position(entries, key) == entries.len() ==> started(entries, key, now)[0].2
            == INITIAL_TIMEOUT,
        position(entries, key) < entries.len() ==> started(entries, key, now)[0].2
            == entries[position(entries, key)].2 && started(entries, key, now).len()
            == entries.len(),
{
    lemma_position(entries, key);
    let next = started(entries, key, now);
    let place = position(entries, key);
    assert forall|i: int, j: int| 0 <= i < j < next.len() implies next[i].0 != next[j].0 by {
        if place < entries.len() {
            let rest = entries.remove(place);
            let b = if j - 1 < place {
                j - 1
            } else {
                j
            };
            assert(next[j] == rest[j - 1]);
            assert(rest[j - 1] == entries[b]);
            if i == 0 {
                assert(next[0].0 == entries[place].0);
            } else {
                let a = if i - 1 < place {
                    i - 1
                } else {
                    i
                };
                assert(next[i] == rest[i - 1]);
                assert(rest[i - 1] == entries[a]);
            }
        } else {
            assert(next[j] == entries[j - 1]);
            if i > 0 {
                assert(next[i] == entries[i - 1]);
            }
        }
    }
}

/// Settling a request leaves one line for each nonce, and as many lines as
/// there were.
pub proof fn lemma_settled_keeps_one_line_each(
    entries: Seq<Entry>,
    key: u128,
    wait: spec_fn(Entry) -> u64,
)
    requires
        one_line_each(entries),
    ensures
        one_line_each(settled(entries, key, wait)),
        settled(entries, key, wait).len() == entries.len(),
{
    lemma_position(entries, key);
    let next = settled(entries, key, wait);
    let place = position(entries, key);
    if place < entries.len() {
        assert forall|i: int, j: int| 0 <= i < j < next.len() implies next[i].0 != next[j].0 by {
            let rest = entries.remove(place);
            let b = if j - 1 < place {
                j - 1
            } else {
                j
            };
            assert(next[j] == rest[j - 1]);
            assert(rest[j - 1] == entries[b]);
            if i == 0 {
                assert(next[0].0 == entries[place].0);
            } else {
                let a = if i - 1 < place {
                    i - 1
                } else {
                    i
                };
                assert(next[i] == rest[i - 1]);
                assert(rest[i - 1] == entries[a]);
            }
        }
    }
}

/// The congestion-control table.
pub struct CongestionControl {
    names: uluru::LRUCache<(u128, u64, u64), 32>,
}

impl CongestionControl {
    /// The lines of the table, most recently used first.
    pub closed spec fn view(&self) -> Seq<Entry> {
        lru_entries(self.names)
    }

    /// An empty table.
    pub fn new() -> (cc: CongestionControl)
        ensures
            cc@ == Seq::<Entry>::empty(),
            one_line_each(cc@),
    {
        CongestionControl { names: lru_new() }
    }

    fn key_of(nw: &NarrowWaistPacket) -> (key: u128)
        ensures
            key == nonce_key(nw.nonce_spec()),
    {
        let nonce = nw.nonce();
        let low: u128 = u64_from_le_bytes(slice_subrange(nonce.as_slice(), 0, 8)) as u128;
        let high: u128 = u32_from_le_bytes(slice_subrange(nonce.as_slice(), 8, 12)) as u128;
        low + 0x1_0000_0000_0000_0000 * high
    }

    /// Notes that the request `nw` is sent at `now`: a request that the
    /// table holds keeps its wait, any other enters with the initial wait,
    /// and where the table is full the line used least recently leaves.
    pub fn start_timer(&mut self, nw: &NarrowWaistPacket, now: u64)
        ensures
            final(self)@ == started(old(self)@, nonce_key(nw.nonce_spec()), now),
            one_line_each(old(self)@) ==> one_line_each(final(self)@),
    {
        let key = Self::key_of(nw);
        proof {
            if one_line_each(self@) {
                lemma_started_keeps_one_line_each(self@, key, now);
            }
        }
        if lru_touch(&mut self.names, key) {
            match lru_front(&self.names) {
                Some(front) => {
                    lru_set_front(&mut self.names, (front.0, now, front.2));
                    proof {
                        lemma_position(old(self)@, key);
                    }
                },
                None => {},
            }
        } else {
            let _ = lru_insert(&mut self.names, (key, now, INITIAL_TIMEOUT));
        }
    }

    /// How long to wait for the response to `nw`: the wait of its line, which
    /// moves to the front; nothing where the table no longer knows the request.
    pub fn wait_for(&mut self, nw: &NarrowWaistPacket) -> (wait: Option<u64>)
        ensures
            final(self)@ == settled(old(self)@, nonce_key(nw.nonce_spec()), |line: Entry| line.2),
            one_line_each(old(self)@) ==> one_line_each(final(self)@),
            wait == (if position(old(self)@, nonce_key(nw.nonce_spec())) < old(self)@.len() {
                Some(old(self)@[position(old(self)@, nonce_key(nw.nonce_spec()))].2)
            } else {
                None
            }),
    {
        let key = Self::key_of(nw);
        proof {
            if one_line_each(self@) {
                lemma_settled_keeps_one_line_each(self@, key, |line: Entry| line.2);
            }
        }
        if lru_touch(&mut self.names, key) {
            match lru_front(&self.names) {
                Some(front) => {
                    proof {
                        lemma_position(old(self)@, key);
                        assert(self@ =~= settled(old(self)@, key, |line: Entry| line.2));
                    }
                    Some(front.2)
                },
                None => None,
            }
        } else {
            None
        }
    }

    /// Notes that the response to `nw` arrived at `now`: the wait of its line
    /// becomes the round-trip time that was seen.
    pub fn received(&mut self, nw: &NarrowWaistPacket, now: u64)
        ensures
            final(self)@ == settled(
                old(self)@,
                nonce_key(nw.nonce_spec()),
                |line: Entry| elapsed(line.1, now),
            ),
            one_line_each(old(self)@) ==> one_line_each(final(self)@),
    {
        let key = Self::key_of(nw);
        proof {
            if one_line_each(self@) {
                lemma_settled_keeps_one_line_each(self@, key, |line: Entry| elapsed(line.1, now));
            }
        }
        if lru_touch(&mut self.names, key) {
            match lru_front(&self.names) {
                Some(front) => {
                    let rtt: u64 = if now >= front.1 {
                        now - front.1
                    } else {
                        0
                    };
                    lru_set_front(&mut self.names, (front.0, front.1, rtt));
                    proof {
                        lemma_position(old(self)@, key);
                    }
                },
                None => {},
            }
        }
    }

    /// Notes that the wait for the response to `nw` ran out: the wait of its
    /// line doubles.
    pub fn timed_out(&mut self, nw: &NarrowWaistPacket)
        ensures
            final(self)@ == settled(
                old(self)@,
                nonce_key(nw.nonce_spec()),
                |line: Entry| doubled(line.2),
            ),
            one_line_each(old(self)@) ==> one_line_each(final(self)@),
    {
        let key = Self::key_of(nw);
        proof {
            if one_line_each(self@) {
                lemma_settled_keeps_one_line_each(self@, key, |line: Entry| doubled(line.2));
            }
        }
        if lru_touch(&mut self.names, key) {
            match lru_front(&self.names) {
                Some(front) => {
                    let wait: u64 = if front.2 <= u64::MAX / 2 {
                        2 * front.2
                    } else {
                        u64::MAX
                    };
                    lru_set_front(&mut self.names, (front.0, front.1, wait));
                    proof {
                        lemma_position(old(self)@, key);
                    }
                },
                None => {},
            }
        }
    }

    /// The number of requests that the table remembers.
    pub fn len(&self) -> (n: usize)
        ensures
            n == self@.len(),
            n <= CONGESTION_CONTROL_SIZE,
    {
        lru_len(&self.names)
    }
}

/// Calls `uluru::LRUCache::len`: the number of items.
#[verifier::external_body]
fn lru_len(cache: &uluru::LRUCache<(u128, u64, u64), 32>) -> (n: usize)
    ensures
        n == lru_entries(*cache).len(),
        n <= CONGESTION_CONTROL_SIZE,
{
    cache.len()
}

} // verus!
