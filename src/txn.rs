//! Transaction identifiers and the network time they are drawn from.

use std::time::{Duration, SystemTime, SystemTimeError};

use vstd::prelude::*;

use crate::error::{bad_request, internal, Code, TCResult};
use crate::text::{
    all_digits, decimal, digits_value, is_digit, lemma_decimal_digits, parse_digits, to_decimal,
};

verus! {

#[verifier::external_type_specification]
#[verifier::external_body]
pub struct ExSystemTime(SystemTime);

#[verifier::external_type_specification]
#[verifier::external_body]
pub struct ExSystemTimeError(SystemTimeError);

/// Relies on `SystemTime::now`: the reading of the system clock, of which
/// nothing is known in advance.
#[verifier::external_body]
fn clock_now() -> SystemTime {
    SystemTime::now()
}

/// Relies on `SystemTime::duration_since` with `UNIX_EPOCH`: the time elapsed
/// since the epoch, or an error where the clock reads an earlier time.
#[verifier::external_body]
fn since_unix_epoch(t: &SystemTime) -> Result<Duration, SystemTimeError> {
    t.duration_since(std::time::UNIX_EPOCH)
}

/// Relies on `Duration::as_nanos`: the whole nanoseconds of a duration.
#[verifier::external_body]
fn duration_nanos(d: &Duration) -> u128 {
    d.as_nanos()
}

/// Relies on `rand::random`: a random `u16`, of which nothing is promised.
#[verifier::external_body]
fn random_nonce() -> u16 {
    rand::random::<u16>()
}

/// A point in time, in nanoseconds since the Unix epoch.
#[derive(Clone, Copy, Debug, PartialEq, Eq, Structural)]
pub struct NetworkTime {
    nanos: u128,
}

impl NetworkTime {
    pub closed spec fn nanos(&self) -> u128 {
        self.nanos
    }

    /// The current time of the system clock; an `Internal` error where the
    /// clock reads a time before the Unix epoch.
    pub fn now() -> (r: TCResult<NetworkTime>)
        ensures
            r matches Err(e) ==> e.code() == Code::Internal,
    {
        let now = clock_now();
        match since_unix_epoch(&now) {
            Ok(elapsed) => Ok(NetworkTime::from_nanos(duration_nanos(&elapsed))),
            Err(_) => Err(internal("the system clock reads a time before the Unix epoch")),
        }
    }

    pub fn as_millis(&self) -> (r: u64)
        requires
            self.nanos() / 1_000_000 <= u64::MAX,
        ensures
            r == self.nanos() / 1_000_000,
    {
        (self.nanos / 1_000_000) as u64
    }

    pub fn as_nanos(&self) -> (r: u128)
        ensures
            r == self.nanos(),
    {
        self.nanos
    }

    pub fn from_nanos(nanos: u128) -> (r: NetworkTime)
        ensures
            r.nanos() == nanos,
    {
        NetworkTime { nanos }
    }
}

/// The position of a transaction in the total order of transactions.
pub open spec fn txn_rank(id: (u128, u16)) -> int {
    id.0 * 65536 + id.1
}

/// The identifier of a transaction: its timestamp, then a random nonce that
/// orders transactions begun at the same nanosecond.
#[derive(Clone, Copy, Debug, PartialEq, Eq, Structural)]
pub struct TxnId {
    timestamp: u128,
    nonce: u16,
}

impl View for TxnId {
    type V = (u128, u16);

    closed spec fn view(&self) -> (u128, u16) {
        (self.timestamp, self.nonce)
    }
}

impl TxnId {
    /// Two identifiers with the same view are the same.
    pub proof fn lemma_view_injective(a: TxnId, b: TxnId)
        ensures
            a@ == b@ <==> a == b,
    {
    }

    /// A new identifier at `time`, with a random nonce.
    pub fn new(time: NetworkTime) -> (r: TxnId)
        ensures
            r@.0 == time.nanos(),
    {
        TxnId::with_nonce(time, random_nonce())
    }

    /// The identifier at `time` with the given nonce.
    pub fn with_nonce(time: NetworkTime, nonce: u16) -> (r: TxnId)
        ensures
            r@ == (time.nanos(), nonce),
    {
        TxnId { timestamp: time.as_nanos(), nonce }
    }

    /// The identifier that precedes every other.
    pub fn zero() -> (r: TxnId)
        ensures
            r@ == (0u128, 0u16),
    {
        TxnId { timestamp: 0, nonce: 0 }
    }

    /// The time at which this transaction began.
    pub fn time(&self) -> (r: NetworkTime)
        ensures
            r.nanos() == self@.0,
    {
        NetworkTime::from_nanos(self.timestamp)
    }

    /// The identifier as a pair of integers, which order as the identifiers do.
    pub fn key(&self) -> (r: (u128, u16))
        ensures
            r == self@,
    {
        (self.timestamp, self.nonce)
    }

    /// The identifier of a pair made by [`TxnId::key`].
    pub fn from_key(key: (u128, u16)) -> (r: TxnId)
        ensures
            r@ == key,
    {
        TxnId { timestamp: key.0, nonce: key.1 }
    }

    /// Whether this transaction is ordered strictly before `other`.
    pub fn precedes(&self, other: &TxnId) -> (r: bool)
        ensures
            r == (txn_rank(self@) < txn_rank(other@)),
    {
        self.timestamp < other.timestamp || (self.timestamp == other.timestamp && self.nonce
            < other.nonce)
    }

    /// `"{timestamp}-{nonce}"`
    pub fn to_string(&self) -> (r: String)
        ensures
            r@ == decimal(self@.0 as nat) + "-"@ + decimal(self@.1 as nat),
    {
        let s = to_decimal(self.timestamp).concat("-");
        let nonce = to_decimal(self.nonce as u128);
        s.concat(nonce.as_str())
    }
}

/// Whether `s` writes the identifier `id` as `"{timestamp}-{nonce}"`.
pub open spec fn names_txn(s: Seq<char>, id: (u128, u16)) -> bool {
    exists|i: int|
        0 < i < s.len() - 1 && #[trigger] s[i] == '-' && all_digits(s.subrange(0, i)) && all_digits(
            s.subrange(i + 1, s.len() as int),
        ) && digits_value(s.subrange(0, i)) == id.0 && digits_value(
            s.subrange(i + 1, s.len() as int),
        ) == id.1
}

impl TxnId {
    /// Read an identifier written as `"{timestamp}-{nonce}"`; a `BadRequest`
    /// error where `s` writes none.
    pub fn parse(s: &str) -> (r: TCResult<TxnId>)
        ensures
            r matches Ok(id) ==> names_txn(s@, id@),
            r is Err ==> forall|id: (u128, u16)| !names_txn(s@, id),
            r matches Err(e) ==> e.code() == Code::BadRequest,
    {
        let n = s.unicode_len();
        let mut d: usize = 0;
        while d < n && s.get_char(d) != '-'
            invariant
                n == s@.len(),
                d <= n,
                forall|k: int| 0 <= k < d ==> s@[k] != '-',
            decreases n - d,
        {
            d = d + 1;
        }
        proof {
            assert(!is_digit('-'));
            assert forall|id: (u128, u16)| names_txn(s@, id) implies ({
                let i = choose|i: int|
                    0 < i < s@.len() - 1 && #[trigger] s@[i] == '-' && all_digits(s@.subrange(0, i))
                        && all_digits(s@.subrange(i + 1, s@.len() as int)) && digits_value(
                        s@.subrange(0, i),
                    ) == id.0 && digits_value(s@.subrange(i + 1, s@.len() as int)) == id.1;
                i == d
            }) by {
                let i = choose|i: int|
                    0 < i < s@.len() - 1 && #[trigger] s@[i] == '-' && all_digits(s@.subrange(0, i))
                        && all_digits(s@.subrange(i + 1, s@.len() as int)) && digits_value(
                        s@.subrange(0, i),
                    ) == id.0 && digits_value(s@.subrange(i + 1, s@.len() as int)) == id.1;
                if i < d {
                    assert(s@[i] != '-');
                } else if i > d {
                    assert(s@.subrange(0, i)[d as int] == s@[d as int]);
                    assert(is_digit(s@.subrange(0, i)[d as int]));
                }
            }
        }
        if d == 0 || d >= n || n - d < 2 {
            return Err(bad_request("invalid transaction ID", s));
        }
        let timestamp = match parse_digits(s, 0, d, u128::MAX) {
            Some(v) => v,
            None => return Err(bad_request("invalid transaction ID", s)),
        };
        let nonce = match parse_digits(s, d + 1, n, 65535) {
            Some(v) => v,
            None => return Err(bad_request("invalid transaction ID", s)),
        };
        let r = TxnId { timestamp, nonce: nonce as u16 };
        proof {
            assert(s@[d as int] == '-');
        }
        Ok(r)
    }
}

/// Writing an identifier and reading it back gives the identifier, and
/// nothing else: `parse(id.to_string())` is `Ok(id)`.
pub proof fn lemma_txn_id_round_trip(id: (u128, u16))
    ensures
        names_txn(decimal(id.0 as nat) + "-"@ + decimal(id.1 as nat), id),
        forall|other: (u128, u16)|
            names_txn(decimal(id.0 as nat) + "-"@ + decimal(id.1 as nat), other) ==> other == id,
{
    reveal_strlit("-");
    let a = decimal(id.0 as nat);
    let b = decimal(id.1 as nat);
    let s = a + "-"@ + b;
    lemma_decimal_digits(id.0 as nat);
    lemma_decimal_digits(id.1 as nat);
    let m = a.len() as int;
    assert(s.subrange(0, m) =~= a);
    assert(s.subrange(m + 1, s.len() as int) =~= b);
    assert(s[m] == '-');
    assert(!is_digit('-'));
    assert forall|other: (u128, u16)| names_txn(s, other) implies other == id by {
        let i = choose|i: int|
            0 < i < s.len() - 1 && #[trigger] s[i] == '-' && all_digits(s.subrange(0, i)) && all_digits(
                s.subrange(i + 1, s.len() as int),
            ) && digits_value(s.subrange(0, i)) == other.0 && digits_value(
                s.subrange(i + 1, s.len() as int),
            ) == other.1;
        if i < m {
            assert(s[i] == a[i]);
        } else if i > m {
            assert(s.subrange(0, i)[m] == s[m]);
        }
    }
}

/// A string writes at most one identifier.
pub proof fn lemma_names_txn_unique(s: Seq<char>, a: (u128, u16), b: (u128, u16))
    requires
        names_txn(s, a),
        names_txn(s, b),
    ensures
        a == b,
{
    let i = choose|i: int|
        0 < i < s.len() - 1 && #[trigger] s[i] == '-' && all_digits(s.subrange(0, i)) && all_digits(
            s.subrange(i + 1, s.len() as int),
        ) && digits_value(s.subrange(0, i)) == a.0 && digits_value(
            s.subrange(i + 1, s.len() as int),
        ) == a.1;
    let j = choose|j: int|
        0 < j < s.len() - 1 && #[trigger] s[j] == '-' && all_digits(s.subrange(0, j)) && all_digits(
            s.subrange(j + 1, s.len() as int),
        ) && digits_value(s.subrange(0, j)) == b.0 && digits_value(
            s.subrange(j + 1, s.len() as int),
        ) == b.1;
    assert(!is_digit('-'));
    if i < j {
        assert(s.subrange(0, j)[i] == s[i]);
    } else if j < i {
        assert(s.subrange(0, i)[j] == s[j]);
    }
}

} // verus!
