//! Clock and randomness: the few places where the game depends on the
//! machine it runs on. Everything here is a thin, trusted shim over `std`,
//! `rand` or `uuid`; nothing about the values they produce is assumed
//! beyond what their documentation promises.

use vstd::prelude::*;
use std::any::TypeId;
use std::time::{Duration, Instant, SystemTime, UNIX_EPOCH};
use rand::seq::SliceRandom;
use rand::Rng;

verus! {

/// `std::time::Instant`, carried through the game as an opaque timestamp.
#[verifier::external_type_specification]
#[verifier::external_body]
pub struct ExInstant(std::time::Instant);

// `std::time::Duration` is carried through as an opaque length of time;
// `vstd` declares the type itself.

/// `Instant::clone`: `Instant` is `Copy`, and its `Clone` is the derived
/// one, so the clone is the same instant.
pub assume_specification[ <Instant as Clone>::clone ](i: &Instant) -> (r: Instant)
    ensures
        r == *i,
;

/// `Duration::clone`: `Duration` is `Copy`, and its `Clone` is the
/// derived one, so the clone is the same length of time.
pub assume_specification[ <Duration as Clone>::clone ](d: &Duration) -> (r: Duration)
    ensures
        r == *d,
;

/// Calls `std::time::Instant::now`. The reading depends on the clock, so
/// nothing is promised about the value.
#[verifier::external_body]
pub(crate) fn instant_now() -> (now: Instant) {
    Instant::now()
}

/// Calls `rand::seq::SliceRandom::shuffle` on `v` with the thread-local
/// generator. The shuffle only swaps elements, so the result holds the same
/// elements as `v`, each as many times; their order is random.
#[verifier::external_body]
pub(crate) fn shuffle<T>(v: Vec<T>) -> (r: Vec<T>)
    ensures
        r@.to_multiset() == v@.to_multiset(),
{
    let mut v = v;
    v.shuffle(&mut rand::thread_rng());
    v
}


/// Calls `std::time::Instant::elapsed` on `start`: the time since then.
/// It depends on the clock, so nothing is promised about it.
#[verifier::external_body]
pub(crate) fn elapsed_since(start: &Instant) -> (d: Duration) {
    start.elapsed()
}

/// Calls `uuid::Uuid::new_v4` and returns the identifier as a `u128`
/// (`Uuid::as_u128`). The source masks a random number so that the four
/// version bits read 4 and the two variant bits read `10`; the other 122
/// bits are random.
#[verifier::external_body]
pub(crate) fn new_uuid_v4() -> (r: u128)
    ensures
        (r >> 76u128) & 0xfu128 == 4,
        (r >> 62u128) & 0x3u128 == 2,
{
    uuid::Uuid::new_v4().as_u128()
}

/// Calls `rand::Rng::gen_range(low..high)` on the thread-local generator.
/// The range must not be empty (the source asserts that); the result lies
/// in it and is otherwise random.
#[verifier::external_body]
pub(crate) fn random_u8_in(low: u8, high: u8) -> (r: u8)
    requires
        low < high,
    ensures
        low <= r < high,
{
    rand::thread_rng().gen_range(low..high)
}

/// Calls `rand::seq::SliceRandom::choose` on `items` with the thread-local
/// generator: `None` for an empty slice, else one of its elements, picked
/// at random.
#[verifier::external_body]
pub(crate) fn choose_char(items: &[char]) -> (r: Option<char>)
    ensures
        r is None <==> items@.len() == 0,
        r matches Some(c) ==> items@.contains(c),
{
    items.choose(&mut rand::thread_rng()).copied()
}

/// Calls `std::string::String::push`, which appends `c`.
#[verifier::external_body]
pub(crate) fn push_char(s: &mut String, c: char)
    ensures
        final(s)@ == old(s)@.push(c),
{
    s.push(c)
}


/// Calls `rand::random::<u64>()`: a random number from the thread-local
/// generator; nothing is promised about its value.
#[verifier::external_body]
pub(crate) fn random_u64() -> (r: u64) {
    rand::random::<u64>()
}


/// `std::any::TypeId`, carried through as an opaque type tag.
#[verifier::external_type_specification]
#[verifier::external_body]
pub struct ExTypeId(TypeId);

/// Calls `std::any::TypeId::of::<T>()`. Nothing is stated about the tag.
#[verifier::external_body]
pub(crate) fn type_id_of<T: ?Sized + 'static>() -> (r: TypeId) {
    TypeId::of::<T>()
}


/// `std::time::SystemTime`, carried through as an opaque wall-clock reading.
#[verifier::external_type_specification]
#[verifier::external_body]
pub struct ExSystemTime(SystemTime);

/// Calls `std::time::SystemTime::now`. The reading depends on the clock.
#[verifier::external_body]
pub(crate) fn system_now() -> (t: SystemTime) {
    SystemTime::now()
}

/// Calls `SystemTime::duration_since(UNIX_EPOCH)` on `t`: the time since
/// the epoch, or `None` when `t` lies before it.
#[verifier::external_body]
pub(crate) fn since_unix_epoch(t: &SystemTime) -> (d: Option<Duration>)
    ensures
        d == epoch_offset(*t),
{
    t.duration_since(UNIX_EPOCH).ok()
}

/// The time from the Unix epoch to `t`, as `duration_since` gives it.
pub uninterp spec fn epoch_offset(t: SystemTime) -> Option<Duration>;

/// Calls `Duration::as_secs`: the whole seconds of `d`. A duration made by
/// `Duration::from_secs(s)` has `s` whole seconds.
#[verifier::external_body]
pub(crate) fn duration_secs(d: &Duration) -> (s: u64)
    ensures
        s == whole_secs(*d),
        forall|k: u64| *d == secs_duration(k) ==> s == k,
{
    d.as_secs()
}

/// The whole seconds of `d`, as `as_secs` gives them.
pub uninterp spec fn whole_secs(d: Duration) -> u64;

/// Calls `Duration::as_millis`: the whole milliseconds of `d`. Both it
/// and `as_secs` count whole units of the same length of time, so the
/// whole seconds are the whole milliseconds divided by 1000, rounded down.
#[verifier::external_body]
pub(crate) fn duration_millis(d: &Duration) -> (ms: u128)
    ensures
        ms == whole_millis(*d),
        ms / 1000 == whole_secs(*d),
{
    d.as_millis()
}

/// The whole milliseconds of `d`, as `as_millis` gives them.
pub uninterp spec fn whole_millis(d: Duration) -> u128;


/// `serde_json::Value`: a JSON document, carried through opaquely.
#[verifier::external_type_specification]
#[verifier::external_body]
pub struct ExJsonValue(serde_json::Value);

/// `serde_json::Value::clone`: the derived `Clone` copies the document,
/// so the clone is the same value.
pub assume_specification[ <serde_json::Value as Clone>::clone ](v: &serde_json::Value) -> (r:
    serde_json::Value)
    ensures
        r == *v,
;

/// The lowercase hexadecimal digit of `v` (below 16).
pub open spec fn hex_digit(v: u128) -> char {
    seq!['0', '1', '2', '3', '4', '5', '6', '7', '8', '9', 'a', 'b', 'c', 'd', 'e', 'f'][v as int]
}

/// Hyphens of the hyphenated form stand at these positions.
pub open spec fn is_hyphen_at(i: int) -> bool {
    i == 8 || i == 13 || i == 18 || i == 23
}

/// The hyphenated text of the identifier `n`: its 32 hexadecimal digits,
/// most significant first, in groups of 8, 4, 4, 4 and 12 joined by
/// hyphens.
pub open spec fn uuid_text(n: u128) -> Seq<char> {
    Seq::new(
        36,
        |i: int|
            if is_hyphen_at(i) {
                '-'
            } else {
                let d = i - (if i < 8 {
                    0int
                } else if i < 13 {
                    1int
                } else if i < 18 {
                    2int
                } else if i < 23 {
                    3int
                } else {
                    4int
                });
                hex_digit((n >> ((4 * (31 - d)) as u128)) & 0xfu128)
            },
    )
}

/// Renders the identifier `n` as `uuid::Uuid::from_u128(n).to_string()`
/// does: `from_u128` keeps the bytes of `n` most significant first, and
/// the `Display` form writes them as 32 lowercase hexadecimal digits in
/// groups of 8, 4, 4, 4 and 12, joined by hyphens.
#[verifier::external_body]
pub(crate) fn uuid_string(n: u128) -> (r: String)
    ensures
        r@ == uuid_text(n),
{
    uuid::Uuid::from_u128(n).to_string()
}

/// A random version-4 identifier in its hyphenated text form.
pub(crate) fn new_uuid_string() -> (r: String)
    ensures
        r@.len() == 36,
        exists|n: u128| r@ == uuid_text(n) && (n >> 76u128) & 0xfu128 == 4 && (n >> 62u128) & 0x3u128 == 2,
{
    let n = new_uuid_v4();
    uuid_string(n)
}

/// Calls `rand::Rng::gen_range(0..n)` on the thread-local generator: an
/// index below `n`, at random (`n` must not be zero: the source asserts
/// that the range is not empty).
#[verifier::external_body]
pub(crate) fn random_index(n: usize) -> (r: usize)
    requires
        n > 0,
    ensures
        r < n,
{
    rand::thread_rng().gen_range(0..n)
}


/// Calls `Instant::duration_since`: the time from `earlier` to `later`
/// (zero if `earlier` is later).
#[verifier::external_body]
pub(crate) fn duration_between(later: &Instant, earlier: &Instant) -> (d: Duration)
    ensures
        d == time_between(*later, *earlier),
{
    later.duration_since(*earlier)
}

/// The time from `earlier` to `later`, as `duration_since` gives it.
pub uninterp spec fn time_between(later: Instant, earlier: Instant) -> Duration;

/// Calls `<Duration as PartialOrd>::gt`: whether `a` is longer than `b`.
/// No duration is longer than itself.
#[verifier::external_body]
pub(crate) fn duration_longer(a: &Duration, b: &Duration) -> (r: bool)
    ensures
        r == longer_than(*a, *b),
        *a == *b ==> !r,
{
    *a > *b
}

/// Whether `a` is longer than `b`, as `>` compares them.
pub uninterp spec fn longer_than(a: Duration, b: Duration) -> bool;


/// Calls `Duration::from_secs`: a duration of `secs` whole seconds. The
/// type is opaque here, so the value is named rather than described.
#[verifier::external_body]
pub(crate) fn duration_from_secs(secs: u64) -> (d: Duration)
    ensures
        d == secs_duration(secs),
{
    Duration::from_secs(secs)
}

/// The duration of `secs` whole seconds, as `Duration::from_secs` builds
/// it.
pub uninterp spec fn secs_duration(secs: u64) -> Duration;


/// Calls `serde_json::Value::from` on a `u64`: the JSON number `n`.
#[verifier::external_body]
pub(crate) fn json_u64(n: u64) -> (v: serde_json::Value)
    ensures
        v == json_number(n),
{
    serde_json::Value::from(n)
}

/// The JSON number `n`, as `Value::from` builds it.
pub uninterp spec fn json_number(n: u64) -> serde_json::Value;

/// Calls `serde_json::Value::from` on a `bool`: the JSON boolean `b`.
#[verifier::external_body]
pub(crate) fn json_bool(b: bool) -> (v: serde_json::Value)
    ensures
        v == json_boolean(b),
{
    serde_json::Value::from(b)
}

/// The JSON boolean `b`, as `Value::from` builds it.
pub uninterp spec fn json_boolean(b: bool) -> serde_json::Value;

/// Builds `serde_json::Value::Array` from `items`, in their order.
#[verifier::external_body]
pub(crate) fn json_array(items: Vec<serde_json::Value>) -> (v: serde_json::Value)
    ensures
        v == json_list(items@),
{
    serde_json::Value::Array(items)
}

/// The JSON array of `items`.
pub uninterp spec fn json_list(items: Seq<serde_json::Value>) -> serde_json::Value;

/// Builds `serde_json::Value::Object` by collecting `entries` into a
/// `serde_json::Map` (`FromIterator`): a later entry replaces an earlier
/// one with the same key.
#[verifier::external_body]
pub(crate) fn json_object(entries: Vec<(String, serde_json::Value)>) -> (v: serde_json::Value)
    ensures
        v == json_record(entries@.map_values(|e: (String, serde_json::Value)| (e.0@, e.1))),
{
    serde_json::Value::Object(entries.into_iter().collect())
}

/// The JSON object of `entries`.
pub uninterp spec fn json_record(entries: Seq<(Seq<char>, serde_json::Value)>) -> serde_json::Value;

/// Calls `serde_json::Value::get` with `key`: the field `key` of an
/// object, or `None` for a missing key or a value that is not an object.
#[verifier::external_body]
pub(crate) fn json_get<'a>(v: &'a serde_json::Value, key: &str) -> (r: Option<&'a serde_json::Value>)
    ensures
        match r {
            Some(f) => json_member(*v, key@) == Some(*f),
            None => json_member(*v, key@) is None,
        },
{
    v.get(key)
}

/// The field `key` of `v`, as `get` finds it.
pub uninterp spec fn json_member(v: serde_json::Value, key: Seq<char>) -> Option<serde_json::Value>;

/// Calls `serde_json::Value::as_u64`: the number held, when it is an
/// unsigned integer that fits in a `u64`, else `None`.
#[verifier::external_body]
pub(crate) fn json_as_u64(v: &serde_json::Value) -> (r: Option<u64>)
    ensures
        r == json_unsigned(*v),
{
    v.as_u64()
}

/// The unsigned integer `v` holds, as `as_u64` reads it.
pub uninterp spec fn json_unsigned(v: serde_json::Value) -> Option<u64>;

} // verus!
