//! Small helpers of the server: timestamps, a rate limiter and query
//! strings.

use vstd::prelude::*;
use std::time::SystemTime;
use crate::platform::{
    duration_millis, duration_secs, epoch_offset, push_char, random_index, since_unix_epoch, system_now,
    whole_millis, whole_secs,
};

verus! {

/// Whole seconds from the Unix epoch to `t` (zero if `t` lies earlier).
pub open spec fn epoch_secs(t: SystemTime) -> u64 {
    match epoch_offset(t) {
        Some(d) => whole_secs(d),
        None => 0,
    }
}

/// Whole milliseconds from the Unix epoch to `t`, in 64 bits (zero if `t`
/// lies earlier).
pub open spec fn epoch_millis(t: SystemTime) -> u64 {
    match epoch_offset(t) {
        Some(d) => (whole_millis(d) % 0x1_0000_0000_0000_0000) as u64,
        None => 0,
    }
}

/// The milliseconds from the Unix epoch to `t` fit in 64 bits (or `t`
/// lies before the epoch).
pub open spec fn epoch_millis_fit(t: SystemTime) -> bool {
    match epoch_offset(t) {
        Some(d) => whole_millis(d) < 0x1_0000_0000_0000_0000,
        None => true,
    }
}

/// Seconds since the Unix epoch at the wall-clock reading `t` (zero if it
/// lies earlier).
pub fn timestamp_of(t: &SystemTime) -> (r: u64)
    ensures
        r == epoch_secs(*t),
{
    match since_unix_epoch(t) {
        Some(d) => duration_secs(&d),
        None => 0,
    }
}

/// Seconds since the Unix epoch (zero if the clock reads earlier).
pub fn current_timestamp() -> (r: u64)
    ensures
        exists|t: SystemTime| r == #[trigger] epoch_secs(t),
{
    let t = system_now();
    timestamp_of(&t)
}

/// A millisecond count narrowed to 64 bits, as `as u64` does: the low 64
/// bits.
pub fn millis_to_u64(ms: u128) -> (r: u64)
    ensures
        r == ms % 0x1_0000_0000_0000_0000,
{
    (ms % 0x1_0000_0000_0000_0000u128) as u64
}

/// Milliseconds since the Unix epoch at the wall-clock reading `t`, in 64
/// bits (zero if it lies earlier).
pub fn timestamp_ms_of(t: &SystemTime) -> (r: u64)
    ensures
        r == epoch_millis(*t),
        epoch_millis_fit(*t) ==> r / 1000 == epoch_secs(*t),
{
    match since_unix_epoch(t) {
        Some(d) => {
            let ms = duration_millis(&d);
            millis_to_u64(ms)
        },
        None => 0,
    }
}

/// Milliseconds since the Unix epoch, in 64 bits (zero if the clock reads
/// earlier).
pub fn current_timestamp_ms() -> (r: u64)
    ensures
        exists|t: SystemTime| r == #[trigger] epoch_millis(t),
{
    let t = system_now();
    timestamp_ms_of(&t)
}

/// The requests of `history` still inside a window of `window_ms` ending
/// at `now`, in order.
pub open spec fn within_window(history: Seq<u64>, now: u64, window_ms: u64) -> Seq<u64>
    decreases history.len(),
{
    if history.len() == 0 {
        Seq::empty()
    } else {
        let prev = within_window(history.drop_last(), now, window_ms);
        if now - history.last() < window_ms {
            prev.push(history.last())
        } else {
            prev
        }
    }
}

proof fn lemma_within_window_len(history: Seq<u64>, now: u64, window_ms: u64)
    ensures
        within_window(history, now, window_ms).len() <= history.len(),
        forall|x: u64| #[trigger]
            within_window(history, now, window_ms).contains(x) ==> history.contains(x) && now - x
                < window_ms,
    decreases history.len(),
{
    if history.len() > 0 {
        lemma_within_window_len(history.drop_last(), now, window_ms);
        let prev = within_window(history.drop_last(), now, window_ms);
        assert forall|x: u64| #[trigger]
            within_window(history, now, window_ms).contains(x) implies history.contains(x) && now - x
                < window_ms by {
            if prev.contains(x) {
                let k = choose|k: int| 0 <= k < prev.len() && prev[k] == x;
                assert(history.drop_last().contains(x));
                let j = choose|j: int| 0 <= j < history.drop_last().len() && history.drop_last()[j] == x;
                assert(history[j] == x);
            }
            if now - history.last() < window_ms && x == history.last() {
                assert(history[history.len() - 1] == x);
            } else if now - history.last() < window_ms {
                let k = choose|k: int| 0 <= k < prev.len() + 1 && prev.push(history.last())[k] == x;
                assert(prev[k] == x);
            }
        }
    }
}

/// At most `max_requests` requests per sliding window of `window_ms`
/// milliseconds.
pub struct RateLimiter {
    window_ms: u64,
    max_requests: usize,
    requests: Vec<u64>,
}

impl RateLimiter {
    /// Length of the window, in milliseconds.
    pub closed spec fn window(self) -> u64 {
        self.window_ms
    }

    /// Most requests per window.
    pub closed spec fn limit(self) -> usize {
        self.max_requests
    }

    /// Times of the recorded requests, oldest first.
    pub closed spec fn history(self) -> Seq<u64> {
        self.requests@
    }

    /// `after` is this limiter after a check at `now` that answered
    /// `allowed`: requests outside the window are forgotten, and the
    /// request is allowed, and recorded, when fewer than the limit remain.
    pub open spec fn checked_at(self, after: RateLimiter, now: u64, allowed: bool) -> bool {
        let kept = within_window(self.history(), now, self.window());
        &&& forall|i: int| 0 <= i < self.history().len() ==> #[trigger] self.history()[i] <= now
        &&& after.window() == self.window()
        &&& after.limit() == self.limit()
        &&& allowed == (kept.len() < self.limit())
        &&& after.history() == if allowed {
            kept.push(now)
        } else {
            kept
        }
    }

    /// Milliseconds from `now` until a request could be allowed.
    pub open spec fn wait_from(self, now: u64) -> u64 {
        if self.history().len() < self.limit() || self.history().len() == 0 {
            0
        } else if self.history()[0] + self.window() > now {
            (self.history()[0] + self.window() - now) as u64
        } else {
            0
        }
    }

    /// A limiter with no request recorded.
    pub fn new(window_ms: u64, max_requests: usize) -> (r: RateLimiter)
        ensures
            r.window() == window_ms,
            r.limit() == max_requests,
            r.history() == Seq::<u64>::empty(),
    {
        RateLimiter { window_ms, max_requests, requests: Vec::with_capacity(max_requests) }
    }

    /// Whether a request at `now` is allowed: requests that left the
    /// window are forgotten, and the request is allowed (and recorded)
    /// when fewer than the limit remain.
    pub fn check_at(&mut self, now: u64) -> (allowed: bool)
        requires
            forall|i: int| 0 <= i < old(self).history().len() ==> #[trigger] old(self).history()[i]
                <= now,
        ensures
            old(self).checked_at(*final(self), now, allowed),
    {
        let ghost history = self.requests@;
        assert forall|k: int| 0 <= k < history.len() implies #[trigger] history[k] <= now by {
            assert(old(self).history()[k] <= now);
        }
        let mut kept: Vec<u64> = Vec::new();
        let mut i: usize = 0;
        while i < self.requests.len()
            invariant
                i <= self.requests@.len(),
                self.requests@ == history,
                forall|k: int| 0 <= k < history.len() ==> #[trigger] history[k] <= now,
                kept@ == within_window(history.take(i as int), now, self.window_ms),
            decreases self.requests@.len() - i,
        {
            let time = self.requests[i];
            proof {
                assert(history.take(i + 1).drop_last() =~= history.take(i as int));
                assert(history.take(i + 1).last() == time);
            }
            if now - time < self.window_ms {
                kept.push(time);
            }
            i = i + 1;
        }
        proof {
            assert(history.take(i as int) =~= history);
        }
        self.requests = kept;
        if self.requests.len() < self.max_requests {
            self.requests.push(now);
            true
        } else {
            false
        }
    }

    /// Whether a request now is allowed; see `check_at`. The clock is read
    /// once; a reading earlier than a recorded request counts as the
    /// latest recorded time, so the window never runs backwards.
    pub fn check(&mut self) -> (allowed: bool)
        ensures
            exists|now: u64| #[trigger] old(self).checked_at(*final(self), now, allowed),
    {
        let mut now = current_timestamp_ms();
        let mut i: usize = 0;
        while i < self.requests.len()
            invariant
                i <= self.requests@.len(),
                forall|k: int| 0 <= k < i ==> #[trigger] self.requests@[k] <= now,
            decreases self.requests@.len() - i,
        {
            if self.requests[i] > now {
                now = self.requests[i];
            }
            i = i + 1;
        }
        self.check_at(now)
    }

    /// Milliseconds until a request at `now` could be allowed: zero while
    /// under the limit, else until the oldest recorded request leaves the
    /// window.
    pub fn wait_time_at(&self, now: u64) -> (r: u64)
        requires
            self.history().len() > 0 ==> self.history()[0] + self.window() <= u64::MAX,
        ensures
            r == self.wait_from(now),
    {
        if self.requests.len() < self.max_requests {
            return 0;
        }
        if self.requests.len() == 0 {
            return 0;
        }
        let oldest = self.requests[0];
        let window_end = oldest + self.window_ms;
        if window_end > now {
            window_end - now
        } else {
            0
        }
    }

    /// Milliseconds until a request could be allowed; see `wait_time_at`.
    /// Reads the clock only when the limit is reached.
    pub fn wait_time(&self) -> (r: u64)
        requires
            self.history().len() > 0 ==> self.history()[0] + self.window() <= u64::MAX,
        ensures
            self.history().len() < self.limit() ==> r == 0,
            exists|now: u64| r == #[trigger] self.wait_from(now),
    {
        if self.requests.len() < self.max_requests {
            return self.wait_time_at(0);
        }
        let now = current_timestamp_ms();
        self.wait_time_at(now)
    }
}

/// A limiter that starts from a recorded history never holds more than
/// its limit after a check, when it held no more before.
pub proof fn lemma_check_respects_limit(history: Seq<u64>, now: u64, window_ms: u64, limit: usize)
    requires
        history.len() <= limit,
    ensures
        within_window(history, now, window_ms).len() < limit ==> within_window(
            history,
            now,
            window_ms,
        ).push(now).len() <= limit,
        within_window(history, now, window_ms).len() <= limit,
{
    lemma_within_window_len(history, now, window_ms);
}

/// Every request kept by a check lies inside the window.
pub proof fn lemma_check_keeps_window(history: Seq<u64>, now: u64, window_ms: u64, x: u64)
    requires
        within_window(history, now, window_ms).contains(x),
    ensures
        now - x < window_ms,
        history.contains(x),
{
    lemma_within_window_len(history, now, window_ms);
}


/// Splitting `s` at every `sep`, as far as it has been read: the pieces
/// already closed by a separator, and the piece being read.
pub open spec fn split_state(s: Seq<char>, sep: char) -> (Seq<Seq<char>>, Seq<char>)
    decreases s.len(),
{
    if s.len() == 0 {
        (Seq::empty(), Seq::empty())
    } else {
        let (done, cur) = split_state(s.drop_last(), sep);
        if s.last() == sep {
            (done.push(cur), Seq::empty())
        } else {
            (done, cur.push(s.last()))
        }
    }
}

/// The pieces of `s` between occurrences of `sep` (as `str::split`
/// yields them): one more piece than there are separators.
pub open spec fn split_on(s: Seq<char>, sep: char) -> Seq<Seq<char>> {
    split_state(s, sep).0.push(split_state(s, sep).1)
}

/// The texts of a list of strings.
pub open spec fn texts(v: Seq<String>) -> Seq<Seq<char>> {
    v.map_values(|x: String| x@)
}

/// The pieces of `s` between occurrences of `sep`.
pub fn split_chars(s: &str, sep: char) -> (r: Vec<String>)
    ensures
        texts(r@) == split_on(s@, sep),
{
    let n = s.unicode_len();
    let mut pieces: Vec<String> = Vec::new();
    let mut cur = String::new();
    let mut i: usize = 0;
    while i < n
        invariant
            n == s@.len(),
            i <= n,
            texts(pieces@) == split_state(s@.take(i as int), sep).0,
            cur@ == split_state(s@.take(i as int), sep).1,
        decreases n - i,
    {
        let c = s.get_char(i);
        proof {
            assert(s@.take(i + 1).drop_last() =~= s@.take(i as int));
            assert(s@.take(i + 1).last() == c);
        }
        if c == sep {
            let piece = cur;
            let ghost before = pieces@;
            pieces.push(piece);
            cur = String::new();
            proof {
                assert(texts(pieces@) =~= texts(before).push(piece@));
            }
        } else {
            push_char(&mut cur, c);
        }
        i = i + 1;
    }
    let ghost before = pieces@;
    pieces.push(cur);
    proof {
        assert(s@.take(i as int) =~= s@);
        assert(texts(pieces@) =~= texts(before).push(cur@));
    }
    pieces
}

/// The key and value of one `key=value` piece of a query: the text before
/// the first `=` and the text between it and the next `=` (or the end);
/// none when the piece has no `=`.
pub open spec fn query_pair(piece: Seq<char>) -> Option<(Seq<char>, Seq<char>)> {
    let parts = split_on(piece, '=');
    if parts.len() >= 2 {
        Some((parts[0], parts[1]))
    } else {
        None
    }
}

/// The parameters of the first `n` pieces, later keys overriding earlier.
pub open spec fn pieces_params(pieces: Seq<Seq<char>>) -> Map<Seq<char>, Seq<char>>
    decreases pieces.len(),
{
    if pieces.len() == 0 {
        Map::empty()
    } else {
        let m = pieces_params(pieces.drop_last());
        match query_pair(pieces.last()) {
            Some((k, v)) => m.insert(k, v),
            None => m,
        }
    }
}

/// The parameters of a query string: its `&`-separated pieces read as
/// `key=value`, a later key overriding an earlier one.
pub open spec fn query_params(query: Seq<char>) -> Map<Seq<char>, Seq<char>> {
    pieces_params(split_on(query, '&'))
}

/// A list of pairs read as a map, later pairs overriding earlier ones.
pub open spec fn pairs_map(ps: Seq<(String, String)>) -> Map<Seq<char>, Seq<char>>
    decreases ps.len(),
{
    if ps.len() == 0 {
        Map::empty()
    } else {
        pairs_map(ps.drop_last()).insert(ps.last().0@, ps.last().1@)
    }
}

/// No key occurs twice.
pub open spec fn keys_distinct(ps: Seq<(String, String)>) -> bool {
    forall|i: int, j: int| 0 <= i < ps.len() && 0 <= j < ps.len() && i != j ==> (#[trigger] ps[i]).0@
        != (#[trigger] ps[j]).0@
}

pub proof fn lemma_pairs_map_dom(ps: Seq<(String, String)>, k: Seq<char>)
    ensures
        pairs_map(ps).contains_key(k) <==> exists|j: int| 0 <= j < ps.len() && (#[trigger] ps[j]).0@ == k,
    decreases ps.len(),
{
    if ps.len() > 0 {
        lemma_pairs_map_dom(ps.drop_last(), k);
        if pairs_map(ps.drop_last()).contains_key(k) {
            let j = choose|j: int| 0 <= j < ps.drop_last().len() && (#[trigger] ps.drop_last()[j]).0@ == k;
            assert(ps[j] == ps.drop_last()[j]);
        }
        if exists|j: int| 0 <= j < ps.len() && (#[trigger] ps[j]).0@ == k {
            let j = choose|j: int| 0 <= j < ps.len() && (#[trigger] ps[j]).0@ == k;
            if j < ps.len() - 1 {
                assert(ps.drop_last()[j] == ps[j]);
            }
        }
    }
}

/// Overwriting the value of a key that occurs once updates the map at
/// that key only.
pub proof fn lemma_pairs_map_update(ps: Seq<(String, String)>, j: int, p: (String, String))
    requires
        keys_distinct(ps),
        0 <= j < ps.len(),
        ps[j].0@ == p.0@,
    ensures
        pairs_map(ps.update(j, p)) == pairs_map(ps).insert(p.0@, p.1@),
    decreases ps.len(),
{
    let qs = ps.update(j, p);
    if j == ps.len() - 1 {
        assert(qs.drop_last() =~= ps.drop_last());
        assert(pairs_map(qs) =~= pairs_map(ps).insert(p.0@, p.1@));
    } else {
        assert(qs.drop_last() =~= ps.drop_last().update(j, p));
        assert(keys_distinct(ps.drop_last())) by {
            assert forall|a: int, b: int|
                0 <= a < ps.drop_last().len() && 0 <= b < ps.drop_last().len() && a != b implies (
                #[trigger] ps.drop_last()[a]).0@ != (#[trigger] ps.drop_last()[b]).0@ by {
                assert(ps.drop_last()[a] == ps[a] && ps.drop_last()[b] == ps[b]);
            }
        }
        lemma_pairs_map_update(ps.drop_last(), j, p);
        assert(ps.last().0@ != p.0@) by {
            assert(ps[ps.len() - 1].0@ != ps[j].0@);
        }
        assert(qs.last() == ps.last());
        assert(pairs_map(qs) =~= pairs_map(ps).insert(p.0@, p.1@));
    }
}

/// Records `key = value`, replacing an earlier value of `key`.
pub fn insert_param(params: &mut Vec<(String, String)>, key: String, value: String)
    requires
        keys_distinct(old(params)@),
    ensures
        keys_distinct(final(params)@),
        pairs_map(final(params)@) == pairs_map(old(params)@).insert(key@, value@),
{
    let mut j: usize = 0;
    while j < params.len()
        invariant
            j <= params@.len(),
            params@ == old(params)@,
            keys_distinct(params@),
            forall|t: int| 0 <= t < j ==> (#[trigger] params@[t]).0@ != key@,
        decreases params@.len() - j,
    {
        if params[j].0 == key {
            let ghost before = params@;
            let ghost p = (key, value);
            params.set(j, (key, value));
            proof {
                lemma_pairs_map_update(before, j as int, p);
                assert forall|a: int, b: int|
                    0 <= a < params@.len() && 0 <= b < params@.len() && a != b implies (
                    #[trigger] params@[a]).0@ != (#[trigger] params@[b]).0@ by {
                    assert(params@[a].0@ == before[a].0@);
                    assert(params@[b].0@ == before[b].0@);
                }
            }
            return;
        }
        j = j + 1;
    }
    let ghost before = params@;
    params.push((key, value));
    proof {
        assert(params@.drop_last() =~= before);
        assert(params@.last() == (key, value));
        assert forall|a: int, b: int|
            0 <= a < params@.len() && 0 <= b < params@.len() && a != b implies (
            #[trigger] params@[a]).0@ != (#[trigger] params@[b]).0@ by {
            if a < before.len() && b < before.len() {
                assert(params@[a] == before[a] && params@[b] == before[b]);
            } else if a < before.len() {
                assert(params@[a] == before[a]);
            } else {
                assert(params@[b] == before[b]);
            }
        }
    }
}

/// The parameters of a query string such as `a=1&b=2`: each `&`-separated
/// piece with an `=` gives a key (before the first `=`) and a value (up to
/// the next `=`); a later key overrides an earlier one. Each key appears
/// once in the result.
pub fn parse_query_params(query: &str) -> (r: Vec<(String, String)>)
    ensures
        keys_distinct(r@),
        pairs_map(r@) == query_params(query@),
{
    let pieces = split_chars(query, '&');
    let ghost ptexts = texts(pieces@);
    let mut params: Vec<(String, String)> = Vec::new();
    let mut k: usize = 0;
    while k < pieces.len()
        invariant
            k <= pieces@.len(),
            ptexts == texts(pieces@),
            ptexts == split_on(query@, '&'),
            keys_distinct(params@),
            pairs_map(params@) == pieces_params(ptexts.take(k as int)),
        decreases pieces@.len() - k,
    {
        let parts = split_chars(pieces[k].as_str(), '=');
        proof {
            assert(ptexts.take(k + 1).drop_last() =~= ptexts.take(k as int));
            assert(ptexts.take(k + 1).last() == pieces@[k as int]@);
            assert(texts(parts@) == split_on(pieces@[k as int]@, '='));
        }
        if parts.len() >= 2 {
            let key = parts[0].clone();
            let value = parts[1].clone();
            proof {
                assert(texts(parts@)[0] == parts@[0]@);
                assert(texts(parts@)[1] == parts@[1]@);
            }
            insert_param(&mut params, key, value);
        }
        k = k + 1;
    }
    proof {
        assert(ptexts.take(k as int) =~= ptexts);
    }
    params
}


/// Removing the entry of a key that occurs once removes the key from the
/// map.
pub proof fn lemma_pairs_map_remove(ps: Seq<(String, String)>, j: int)
    requires
        keys_distinct(ps),
        0 <= j < ps.len(),
    ensures
        pairs_map(ps.remove(j)) == pairs_map(ps).remove(ps[j].0@),
        keys_distinct(ps.remove(j)),
    decreases ps.len(),
{
    let qs = ps.remove(j);
    assert(keys_distinct(qs)) by {
        assert forall|a: int, b: int| 0 <= a < qs.len() && 0 <= b < qs.len() && a != b implies (
        #[trigger] qs[a]).0@ != (#[trigger] qs[b]).0@ by {
            let a2 = if a < j { a } else { a + 1 };
            let b2 = if b < j { b } else { b + 1 };
            assert(qs[a] == ps[a2] && qs[b] == ps[b2]);
        }
    }
    let k = ps[j].0@;
    if j == ps.len() - 1 {
        assert(qs =~= ps.drop_last());
        lemma_pairs_map_dom(ps.drop_last(), k);
        if pairs_map(ps.drop_last()).contains_key(k) {
            let t = choose|t: int| 0 <= t < ps.drop_last().len() && (#[trigger] ps.drop_last()[t]).0@ == k;
            assert(ps[t].0@ == ps[j].0@);
        }
        assert(pairs_map(qs) =~= pairs_map(ps).remove(k));
    } else {
        let d = ps.drop_last();
        assert(keys_distinct(d)) by {
            assert forall|a: int, b: int| 0 <= a < d.len() && 0 <= b < d.len() && a != b implies (
            #[trigger] d[a]).0@ != (#[trigger] d[b]).0@ by {
                assert(d[a] == ps[a] && d[b] == ps[b]);
            }
        }
        lemma_pairs_map_remove(d, j);
        assert(qs.drop_last() =~= d.remove(j));
        assert(qs.last() == ps.last());
        assert(ps.last().0@ != k) by {
            assert(ps[ps.len() - 1].0@ != ps[j].0@);
        }
        assert(d[j] == ps[j]);
        assert(pairs_map(qs) =~= pairs_map(ps).remove(k));
    }
}

/// Where `key` sits in `params`, if it does.
pub fn find_param(params: &Vec<(String, String)>, key: &String) -> (r: Option<usize>)
    ensures
        r is None <==> !pairs_map(params@).contains_key(key@),
        r matches Some(j) ==> j < params@.len() && params@[j as int].0@ == key@,
{
    let mut j: usize = 0;
    while j < params.len()
        invariant
            j <= params@.len(),
            forall|t: int| 0 <= t < j ==> (#[trigger] params@[t]).0@ != key@,
        decreases params@.len() - j,
    {
        if params[j].0 == *key {
            proof {
                lemma_pairs_map_dom(params@, key@);
            }
            return Some(j);
        }
        j = j + 1;
    }
    proof {
        lemma_pairs_map_dom(params@, key@);
    }
    None
}

/// A key that occurs once maps to the value stored beside it.
pub proof fn lemma_pairs_map_value(ps: Seq<(String, String)>, j: int)
    requires
        keys_distinct(ps),
        0 <= j < ps.len(),
    ensures
        pairs_map(ps).contains_key(ps[j].0@),
        pairs_map(ps)[ps[j].0@] == ps[j].1@,
    decreases ps.len(),
{
    if j < ps.len() - 1 {
        let d = ps.drop_last();
        assert(keys_distinct(d)) by {
            assert forall|a: int, b: int| 0 <= a < d.len() && 0 <= b < d.len() && a != b implies (
            #[trigger] d[a]).0@ != (#[trigger] d[b]).0@ by {
                assert(d[a] == ps[a] && d[b] == ps[b]);
            }
        }
        lemma_pairs_map_value(d, j);
        assert(d[j] == ps[j]);
        assert(ps.last().0@ != ps[j].0@) by {
            assert(ps[ps.len() - 1].0@ != ps[j].0@);
        }
    }
}


/// The characters of a short identifier: letters and digits, safe in a
/// URL.
pub open spec fn short_id_chars() -> Seq<char> {
    seq![
        'a', 'b', 'c', 'd', 'e', 'f', 'g', 'h', 'i', 'j', 'k', 'l', 'm', 'n', 'o', 'p', 'q', 'r',
        's', 't', 'u', 'v', 'w', 'x', 'y', 'z', 'A', 'B', 'C', 'D', 'E', 'F', 'G', 'H', 'I', 'J',
        'K', 'L', 'M', 'N', 'O', 'P', 'Q', 'R', 'S', 'T', 'U', 'V', 'W', 'X', 'Y', 'Z', '0', '1',
        '2', '3', '4', '5', '6', '7', '8', '9',
    ]
}

/// A random six-character identifier drawn from `short_id_chars()`.
pub fn generate_short_id() -> (id: String)
    ensures
        id@.len() == 6,
        forall|i: int| 0 <= i < id@.len() ==> short_id_chars().contains(#[trigger] id@[i]),
{
    let chars: Vec<char> = vec![
        'a', 'b', 'c', 'd', 'e', 'f', 'g', 'h', 'i', 'j', 'k', 'l', 'm', 'n', 'o', 'p', 'q', 'r',
        's', 't', 'u', 'v', 'w', 'x', 'y', 'z', 'A', 'B', 'C', 'D', 'E', 'F', 'G', 'H', 'I', 'J',
        'K', 'L', 'M', 'N', 'O', 'P', 'Q', 'R', 'S', 'T', 'U', 'V', 'W', 'X', 'Y', 'Z', '0', '1',
        '2', '3', '4', '5', '6', '7', '8', '9',
    ];
    assert(chars@ == short_id_chars());
    let mut id = String::new();
    let mut i: usize = 0;
    while i < 6
        invariant
            i <= 6,
            chars@ == short_id_chars(),
            id@.len() == i,
            forall|k: int| 0 <= k < id@.len() ==> short_id_chars().contains(#[trigger] id@[k]),
        decreases 6 - i,
    {
        let idx = random_index(chars.len());
        let c = chars[idx];
        let ghost before = id@;
        push_char(&mut id, c);
        assert forall|k: int| 0 <= k < id@.len() implies short_id_chars().contains(#[trigger] id@[k]) by {
            if k < before.len() {
                assert(id@[k] == before[k]);
            } else {
                assert(chars@[idx as int] == c);
            }
        }
        i = i + 1;
    }
    id
}


/// The digit character for `d` (below ten).
pub open spec fn digit_char(d: nat) -> char {
    if d == 0 { '0' } else if d == 1 { '1' } else if d == 2 { '2' } else if d == 3 { '3' }
    else if d == 4 { '4' } else if d == 5 { '5' } else if d == 6 { '6' } else if d == 7 { '7' }
    else if d == 8 { '8' } else { '9' }
}

/// `n` written in decimal, without leading zeros.
pub open spec fn decimal_text(n: nat) -> Seq<char>
    decreases n,
{
    if n < 10 {
        seq![digit_char(n)]
    } else {
        decimal_text(n / 10).push(digit_char(n % 10))
    }
}

/// Appends `n`, written in decimal, to `s`.
pub fn write_decimal(s: &mut String, n: u64)
    ensures
        final(s)@ == old(s)@ + decimal_text(n as nat),
    decreases n,
{
    if n >= 10 {
        write_decimal(s, n / 10);
    }
    let d = n % 10;
    let c = if d == 0 { '0' } else if d == 1 { '1' } else if d == 2 { '2' } else if d == 3 { '3' }
        else if d == 4 { '4' } else if d == 5 { '5' } else if d == 6 { '6' } else if d == 7 { '7' }
        else if d == 8 { '8' } else { '9' };
    let ghost mid = s@;
    push_char(s, c);
    proof {
        if n >= 10 {
            assert(s@ =~= old(s)@ + decimal_text(n as nat));
        } else {
            assert(s@ =~= old(s)@ + decimal_text(n as nat));
        }
    }
}

} // verus!
