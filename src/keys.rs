//! Routing keys: fixed-width identifiers that embed a microsecond timestamp inside a block
//! of random Base62 digits, with a route recoverable from their first two characters.

use crate::base62::{
    Base62, all_digits, base62_of, is_digit_char, lemma_base62_len, lemma_value_bound,
    lemma_value_leading_zeros, lemma_value_of_base62, lemma_value_zeros,
    pow62, push_char, value_of, zeros,
};
use rand::Rng;
use std::time::{SystemTime, UNIX_EPOCH};
use vstd::prelude::*;

verus! {

/// The largest random part: `62^7 - 1`, written `zzzzzzz`.
pub const MAX_64: u64 = 3_521_614_606_207;

/// The smallest random part: `62^4`, written `10000`, so that the random field holds
/// between 5 and 7 significant digits.
pub const MIN_64: u64 = 14_776_336;

/// Where the timestamp field starts inside a key.
pub const INSERT_INDEX: usize = 4;

/// The number of characters of every key.
pub const ROUTE_KEY_SIZE: usize = 16;

/// The width of the random field.
pub const RANDOM_WIDTH: usize = 7;

/// The width of the timestamp field.
pub const TIMESTAMP_WIDTH: usize = 9;

/// `62^9`: the timestamp field keeps a timestamp modulo this bound.
pub const TIMESTAMP_LIMIT: u64 = 13_537_086_546_263_552;

/// The fewest routes a key is spread over.
pub const MIN_ROUTES: u8 = 1;

/// The most routes a key is spread over.
pub const MAX_ROUTES: u8 = 128;

/// `s` left-padded with the zero symbol to `width` characters; unchanged when it is as
/// long already.
pub open spec fn pad_left(s: Seq<char>, width: nat) -> Seq<char> {
    if s.len() >= width {
        s
    } else {
        zeros((width - s.len()) as nat) + s
    }
}

/// The random field of a key made with the random part `random`.
pub open spec fn random_field(random: u64) -> Seq<char> {
    pad_left(base62_of(random as nat), RANDOM_WIDTH as nat)
}

/// The timestamp field of a key made at `micros`: its nine low-order Base62 digits.
pub open spec fn timestamp_field(micros: u64) -> Seq<char> {
    pad_left(base62_of((micros % TIMESTAMP_LIMIT) as nat), TIMESTAMP_WIDTH as nat)
}

/// The key made at `micros` with the random part `random`: the timestamp field inserted
/// into the random field at `INSERT_INDEX`.
pub open spec fn route_key_of(micros: u64, random: u64) -> Seq<char> {
    let r = random_field(random);
    r.take(INSERT_INDEX as int) + timestamp_field(micros) + r.skip(INSERT_INDEX as int)
}

/// `total_routes` brought into `MIN_ROUTES..=MAX_ROUTES`.
pub open spec fn clamp_routes(total_routes: u8) -> u8 {
    if total_routes < MIN_ROUTES {
        MIN_ROUTES
    } else if total_routes > MAX_ROUTES {
        MAX_ROUTES
    } else {
        total_routes
    }
}

/// The route that the two-character `prefix` selects among `total_routes` routes, or
/// `None` when the prefix is not Base62.
pub open spec fn route_of(prefix: Seq<char>, total_routes: u8) -> Option<u8> {
    if all_digits(prefix) {
        Some((value_of(prefix) % (clamp_routes(total_routes) as nat)) as u8)
    } else {
        None
    }
}

/// The timestamp field of `key`.
pub open spec fn timestamp_slice(key: Seq<char>) -> Seq<char> {
    key.subrange(INSERT_INDEX as int, (INSERT_INDEX + TIMESTAMP_WIDTH) as int)
}

/// The timestamp that the sixteen-character `key` holds, or `None` when its timestamp
/// field is not Base62.
pub open spec fn timestamp_of(key: Seq<char>) -> Option<u64> {
    if all_digits(timestamp_slice(key)) {
        Some(value_of(timestamp_slice(key)) as u64)
    } else {
        None
    }
}

/// Relies on `SystemTime::now` and `Duration::as_nanos`: the nanoseconds since the Unix
/// epoch on the host clock. Nothing is known of the reading; it panics when the clock is
/// before the epoch, the one condition no caller can recover from.
#[verifier::external_body]
fn clock_nanos() -> u128 {
    SystemTime::now().duration_since(UNIX_EPOCH).expect("system clock is before the Unix epoch").as_nanos()
}

/// Relies on `rand::thread_rng` and `Rng::gen_range` over `low..=high`, which returns a
/// value of that closed range and panics only when it is empty.
#[verifier::external_body]
fn random_in_range(low: u64, high: u64) -> (r: u64)
    requires
        low <= high,
    ensures
        low <= r <= high,
{
    rand::thread_rng().gen_range(low..=high)
}

/// `s` left-padded with the zero symbol to `width` characters.
fn pad_zeros(s: &str, width: usize) -> (r: String)
    ensures
        r@ == pad_left(s@, width as nat),
{
    let len = s.unicode_len();
    let mut r = String::new();
    if len < width {
        let mut i: usize = 0;
        while i < width - len
            invariant
                len < width,
                i <= width - len,
                r@ == zeros(i as nat),
            decreases width - len - i,
        {
            push_char(&mut r, '0');
            i = i + 1;
            assert(r@ == zeros(i as nat));
        }
    }
    r.append(s);
    r
}

/// Facts on a zero-padded encoding of a number below `62^width`.
proof fn lemma_padded(n: nat, width: nat)
    requires
        width >= 1,
        n < pow62(width),
    ensures
        pad_left(base62_of(n), width).len() == width,
        all_digits(pad_left(base62_of(n), width)),
        value_of(pad_left(base62_of(n), width)) == n,
{
    lemma_base62_len(n, width);
    lemma_value_of_base62(n);
    let s = base62_of(n);
    if s.len() < width {
        let k = (width - s.len()) as nat;
        lemma_value_leading_zeros(k, s);
        lemma_value_zeros(k);
        let p = zeros(k) + s;
        assert forall|i: int| 0 <= i < p.len() implies is_digit_char(#[trigger] p[i]) by {
            if i >= k {
                assert(p[i] == s[i - k]);
            }
        }
    }
}

/// Errors of parsing a routing key.
#[derive(Debug)]
pub enum DomainKeyError<'a> {
    /// The key is too short for the route, or not sixteen characters for the timestamp.
    InvalidSize,
    /// The key's first two characters are not Base62; holds the key.
    InvalidBase62(&'a str),
    /// The key's timestamp field is not Base62.
    ParseError,
}

/// Creation and parsing of routing keys.
pub struct RouteKey {}

impl RouteKey {
    /// A new routing key: the current time in microseconds and a random part of
    /// `MIN_64..=MAX_64`, laid out as [`RouteKey::compose`] does. Always sixteen Base62
    /// characters.
    pub fn create() -> (r: String)
        ensures
            exists|micros: u64, random: u64|
                MIN_64 <= random <= MAX_64 && r@ == route_key_of(micros, random),
            r@.len() == ROUTE_KEY_SIZE,
            all_digits(r@),
    {
        let micros = (Self::now() / 1000) as u64;
        let random = Self::gen_random();
        let key = Self::compose(micros, random);
        proof {
            lemma_key_shape(micros, random);
        }
        key
    }

    /// The current time of the host clock in nanoseconds since the Unix epoch.
    pub fn now() -> u128 {
        clock_nanos()
    }

    /// A random part for a new key, in `MIN_64..=MAX_64`.
    pub fn gen_random() -> (r: u64)
        ensures
            MIN_64 <= r <= MAX_64,
    {
        random_in_range(MIN_64, MAX_64)
    }

    /// The Base62 encoding of `n`, left-padded with the zero symbol to seven characters.
    pub fn encode_with_pad(n: u64) -> (r: String)
        ensures
            r@ == random_field(n),
    {
        let encoded = Base62::encode(n);
        pad_zeros(encoded.as_str(), RANDOM_WIDTH)
    }

    /// The key made at `micros` with the random part `random`: the first four characters
    /// of the random field, the timestamp field, then the rest of the random field.
    pub fn compose(micros: u64, random: u64) -> (r: String)
        requires
            random <= MAX_64,
        ensures
            r@ == route_key_of(micros, random),
    {
        let field = Self::encode_with_pad(random);
        let stamp = Base62::encode(micros % TIMESTAMP_LIMIT);
        let stamp_field = pad_zeros(stamp.as_str(), TIMESTAMP_WIDTH);
        proof {
            lemma_random_field(random);
        }
        let mut key = String::new();
        key.append(field.as_str().substring_char(0, INSERT_INDEX));
        key.append(stamp_field.as_str());
        key.append(field.as_str().substring_char(INSERT_INDEX, RANDOM_WIDTH));
        proof {
            assert(field@.skip(INSERT_INDEX as int) == field@.subrange(
                INSERT_INDEX as int,
                RANDOM_WIDTH as int,
            ));
        }
        key
    }

    /// The route among `total_routes` that the first two characters of `key` select, in
    /// `0..total_routes`; `total_routes` is brought into `1..=128` first.
    pub fn parse_route(key: &str, total_routes: u8) -> (r: Result<u8, DomainKeyError<'_>>)
        ensures
            key@.len() < 2 ==> r == Err::<u8, DomainKeyError<'_>>(DomainKeyError::InvalidSize),
            key@.len() >= 2 ==> match route_of(key@.take(2), total_routes) {
                Some(route) => r == Ok::<u8, DomainKeyError<'_>>(route),
                None => r == Err::<u8, DomainKeyError<'_>>(DomainKeyError::InvalidBase62(key)),
            },
    {
        let len = key.unicode_len();
        if len < 2 {
            return Err(DomainKeyError::InvalidSize);
        }
        let troutes: u8 = if total_routes < MIN_ROUTES {
            MIN_ROUTES
        } else if total_routes > MAX_ROUTES {
            MAX_ROUTES
        } else {
            total_routes
        };
        let prefix = key.substring_char(0, 2);
        proof {
            if all_digits(prefix@) {
                lemma_value_bound(prefix@);
                assert(pow62(2) == 3844) by {
                    assert(pow62(0) == 1);
                    assert(pow62(1) == 62);
                }
            }
        }
        match Base62::decode(prefix) {
            Ok(n) => Ok((n % (troutes as u64)) as u8),
            Err(_) => Err(DomainKeyError::InvalidBase62(key)),
        }
    }

    /// The timestamp held by the sixteen-character `key`: the Base62 number of the nine
    /// characters from `INSERT_INDEX`.
    pub fn parse_timestamp(key: &str) -> (r: Result<u64, DomainKeyError<'_>>)
        ensures
            key@.len() != ROUTE_KEY_SIZE ==> r == Err::<u64, DomainKeyError<'_>>(
                DomainKeyError::InvalidSize,
            ),
            key@.len() == ROUTE_KEY_SIZE ==> match timestamp_of(key@) {
                Some(ts) => r == Ok::<u64, DomainKeyError<'_>>(ts),
                None => r == Err::<u64, DomainKeyError<'_>>(DomainKeyError::ParseError),
            },
    {
        let len = key.unicode_len();
        if len != ROUTE_KEY_SIZE {
            return Err(DomainKeyError::InvalidSize);
        }
        let encoded = key.substring_char(INSERT_INDEX, INSERT_INDEX + TIMESTAMP_WIDTH);
        proof {
            if all_digits(encoded@) {
                lemma_value_bound(encoded@);
                lemma_pow62_9();
            }
        }
        match Base62::decode(encoded) {
            Ok(ts) => Ok(ts),
            Err(_) => Err(DomainKeyError::ParseError),
        }
    }
}

/// The random field of a random part up to `MAX_64` is seven Base62 characters that
/// denote it.
proof fn lemma_random_field(random: u64)
    requires
        random <= MAX_64,
    ensures
        random_field(random).len() == RANDOM_WIDTH,
        all_digits(random_field(random)),
        value_of(random_field(random)) == random,
{
    reveal_with_fuel(pow62, 8);
    lemma_padded(random as nat, RANDOM_WIDTH as nat);
}

/// The timestamp field is nine Base62 characters that denote the timestamp modulo `62^9`.
proof fn lemma_timestamp_field(micros: u64)
    ensures
        timestamp_field(micros).len() == TIMESTAMP_WIDTH,
        all_digits(timestamp_field(micros)),
        value_of(timestamp_field(micros)) == micros % TIMESTAMP_LIMIT,
{
    lemma_pow62_9();
    lemma_padded((micros % TIMESTAMP_LIMIT) as nat, TIMESTAMP_WIDTH as nat);
}

/// A key made of a timestamp and a random part up to `MAX_64` is sixteen Base62
/// characters.
pub proof fn lemma_key_shape(micros: u64, random: u64)
    requires
        random <= MAX_64,
    ensures
        route_key_of(micros, random).len() == ROUTE_KEY_SIZE,
        all_digits(route_key_of(micros, random)),
{
    lemma_random_field(random);
    lemma_timestamp_field(micros);
    let r = random_field(random);
    let t = timestamp_field(micros);
    let key = route_key_of(micros, random);
    assert forall|i: int| 0 <= i < key.len() implies is_digit_char(#[trigger] key[i]) by {
        if i < 4 {
            assert(key[i] == r[i]);
        } else if i < 13 {
            assert(key[i] == t[i - 4]);
        } else {
            assert(key[i] == r[i - 9]);
        }
    }
}

/// The timestamp a key was made with is what parsing its timestamp field gives back,
/// modulo `62^9` (about the year 2399), so exactly for every earlier time.
pub proof fn lemma_timestamp_recovery(micros: u64, random: u64)
    requires
        random <= MAX_64,
    ensures
        timestamp_of(route_key_of(micros, random)) == Some((micros % TIMESTAMP_LIMIT) as u64),
        micros < TIMESTAMP_LIMIT ==> timestamp_of(route_key_of(micros, random)) == Some(micros),
{
    lemma_random_field(random);
    lemma_timestamp_field(micros);
    let key = route_key_of(micros, random);
    assert(timestamp_slice(key) == timestamp_field(micros));
}

/// Two keys are equal only when they were made with the same random part and the same
/// timestamp modulo `62^9`: distinct parts always give distinct keys.
pub proof fn lemma_distinct_parts(m1: u64, r1: u64, m2: u64, r2: u64)
    requires
        r1 <= MAX_64,
        r2 <= MAX_64,
        route_key_of(m1, r1) == route_key_of(m2, r2),
    ensures
        r1 == r2,
        m1 % TIMESTAMP_LIMIT == m2 % TIMESTAMP_LIMIT,
{
    lemma_timestamp_recovery(m1, r1);
    lemma_timestamp_recovery(m2, r2);
    lemma_random_field(r1);
    lemma_random_field(r2);
    lemma_timestamp_field(m1);
    lemma_timestamp_field(m2);
    let k = route_key_of(m1, r1);
    let f1 = random_field(r1);
    let f2 = random_field(r2);
    assert(f1 == k.take(4) + k.skip(13));
    assert(f2 == k.take(4) + k.skip(13));
}

/// The route of the two-character prefix written for `n`: prefixes taken in increasing
/// order go round the routes `0, 1, ..., total_routes - 1, 0, 1, ...`.
pub proof fn lemma_route_round_robin(n: nat, total_routes: u8)
    requires
        n < 3844,
    ensures
        pad_left(base62_of(n), 2).len() == 2,
        route_of(pad_left(base62_of(n), 2), total_routes) == Some(
            (n % (clamp_routes(total_routes) as nat)) as u8,
        ),
        n + 1 < 3844 ==> route_of(pad_left(base62_of(n + 1), 2), total_routes) == Some(
            ((n % (clamp_routes(total_routes) as nat) + 1) % (clamp_routes(total_routes) as nat)) as u8,
        ),
{
    assert(pow62(2) == 3844) by {
        reveal_with_fuel(pow62, 3);
    }
    lemma_padded(n, 2);
    if n + 1 < 3844 {
        lemma_padded(n + 1, 2);
        let t = clamp_routes(total_routes) as nat;
        vstd::arithmetic::div_mod::lemma_add_mod_noop(n as int, 1, t as int);
        if t > 1 {
            vstd::arithmetic::div_mod::lemma_small_mod(1, t);
        } else {
            assert((n + 1) % 1 == 0 && (n % t + 1) % 1 == 0);
        }
    }
}

/// The route count is clamped: one route always gives route 0, and any count above 128
/// (or below 1) gives the routes of 128 (or 1).
pub proof fn lemma_route_clamp(prefix: Seq<char>, total_routes: u8)
    ensures
        route_of(prefix, 1) is Some ==> route_of(prefix, 1) == Some(0u8),
        total_routes >= 128 ==> route_of(prefix, total_routes) == route_of(prefix, 128),
        total_routes == 0 ==> route_of(prefix, total_routes) == route_of(prefix, 1),
        route_of(prefix, total_routes) is Some ==> route_of(prefix, total_routes)->0 < clamp_routes(
            total_routes,
        ),
{
}

/// The value of `62^9`, the bound of nine-digit numbers.
proof fn lemma_pow62_9()
    ensures
        pow62(9) == TIMESTAMP_LIMIT,
{
    reveal_with_fuel(pow62, 10);
}

} // verus!
