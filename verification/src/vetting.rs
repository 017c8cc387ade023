//! The vetting pipeline's decisions: version allow-list, geolocation
//! allow-list and the speed measurement.  The runtime sends the three
//! commands and reads the replies; every judgement on a reply is made
//! here.
//!
//! Command payloads are raw bytes interpreted per command kind: a version
//! reply carries the version string, a location reply carries the fetched
//! JSON body, a speed reply carries a decimal megabits-per-second
//! literal.  Speeds are held in tenths of a megabit per second.  The
//! accepted speed literal is deliberately plain: up to eighteen integer
//! digits, optionally one dot followed by fractional digits of which the
//! first is kept; exponent forms, signs and surrounding space are
//! rejected, and reject a candidate slave.
use vstd::prelude::*;

use crate::text::{bytes_eq, eq_ignore_case, spec_eq_ignore_case};

verus! {

/// The one slave version the broker accepts: ASCII `1.0.9`.
pub open spec fn allowed_version_bytes() -> Seq<u8> {
    seq![49u8, 46u8, 48u8, 46u8, 57u8]
}

/// Whether a version reply is on the allow list.
pub fn version_allowed(version: &[u8]) -> (r: bool)
    ensures
        r <==> version@ == allowed_version_bytes(),
{
    let expected: [u8; 5] = [49, 46, 48, 46, 57];
    bytes_eq(version, expected.as_slice())
}

/// Whether `country` passes the allow list: an empty list admits every
/// country, else the match is ASCII-case-insensitive.
pub open spec fn spec_location_allowed(country: Seq<u8>, allowed: Seq<Vec<u8>>) -> bool {
    allowed.len() == 0 || exists|i: int|
        0 <= i < allowed.len() && spec_eq_ignore_case((#[trigger] allowed[i])@, country)
}

pub fn location_allowed(country: &[u8], allowed: &Vec<Vec<u8>>) -> (r: bool)
    ensures
        r <==> spec_location_allowed(country@, allowed@),
{
    if allowed.len() == 0 {
        return true;
    }
    let mut i: usize = 0;
    while i < allowed.len()
        invariant
            i <= allowed@.len(),
            forall|j: int|
                0 <= j < i ==> !spec_eq_ignore_case((#[trigger] allowed@[j])@, country@),
        decreases allowed@.len() - i,
    {
        if eq_ignore_case(allowed[i].as_slice(), country) {
            return true;
        }
        i = i + 1;
    }
    false
}

/// The `data.country` field of a geolocation reply body, when the body is
/// JSON and carries one.
pub uninterp spec fn country_of(body: Seq<u8>) -> Option<Seq<u8>>;

/// Relies on serde_json::from_slice, serde_json::Value::get and
/// serde_json::Value::as_str: the parsed tree, and so the extracted
/// `data.country` string, is a function of the input bytes alone.
#[verifier::external_body]
fn extract_country(body: &[u8]) -> (r: Option<Vec<u8>>)
    ensures
        (r is Some) <==> (country_of(body@) is Some),
        (r matches Some(c) ==> country_of(body@) == Some(c@)),
{
    let v: serde_json::Value = match serde_json::from_slice(body) {
        Ok(v) => v,
        Err(_) => return None,
    };
    Some(v.get("data")?.get("country")?.as_str()?.as_bytes().to_vec())
}

pub open spec fn is_digit(c: u8) -> bool {
    48 <= c <= 57
}

pub open spec fn all_digits(s: Seq<u8>) -> bool {
    forall|i: int| 0 <= i < s.len() ==> is_digit(#[trigger] s[i])
}

/// The value of a digit string, most significant first.
pub open spec fn digits_value(s: Seq<u8>) -> int
    decreases s.len(),
{
    if s.len() == 0 {
        0
    } else {
        digits_value(s.drop_last()) * 10 + (s.last() - 48)
    }
}

pub open spec fn pow10(n: nat) -> int
    decreases n,
{
    if n == 0 {
        1
    } else {
        10 * pow10((n - 1) as nat)
    }
}

proof fn lemma_digits_value_bound(s: Seq<u8>)
    requires
        all_digits(s),
    ensures
        0 <= digits_value(s) < pow10(s.len()),
    decreases s.len(),
{
    if s.len() > 0 {
        assert(all_digits(s.drop_last()));
        lemma_digits_value_bound(s.drop_last());
    }
}

proof fn lemma_pow10_mono(a: nat, b: nat)
    requires
        a <= b,
    ensures
        pow10(a) <= pow10(b),
    decreases b,
{
    if a < b {
        lemma_pow10_mono(a, (b - 1) as nat);
        assert(pow10(b) == 10 * pow10((b - 1) as nat));
        assert(pow10(a) >= 1) by {
            lemma_pow10_pos(a);
        }
    }
}

proof fn lemma_pow10_pos(a: nat)
    ensures
        pow10(a) >= 1,
    decreases a,
{
    if a > 0 {
        lemma_pow10_pos((a - 1) as nat);
    }
}

/// A plain digit literal the parser accepts: up to eighteen digits.
pub open spec fn valid_plain(s: Seq<u8>) -> bool {
    1 <= s.len() <= 18 && all_digits(s)
}

/// A dotted literal split at `k`: digits, one dot, at least one digit.
pub open spec fn dot_split(s: Seq<u8>, k: int) -> bool {
    &&& 1 <= k <= 18
    &&& k + 1 < s.len()
    &&& s[k] == 46
    &&& all_digits(s.take(k))
    &&& all_digits(s.skip(k + 1))
}

/// The measured speed in tenths, read from a decimal literal; fractional
/// digits beyond the first are dropped.  Longer literals are refused.
pub open spec fn spec_speed_tenths(s: Seq<u8>) -> Option<int> {
    if valid_plain(s) {
        Some(digits_value(s) * 10)
    } else if exists|k: int| dot_split(s, k) {
        let k = choose|k: int| dot_split(s, k);
        Some(digits_value(s.take(k)) * 10 + (s[k + 1] - 48))
    } else {
        None
    }
}

/// Accumulates the value of the digit prefix `s.take(n)`.
fn digits_to_u64(payload: &[u8], n: usize) -> (r: u64)
    requires
        n <= payload@.len(),
        n <= 18,
        all_digits(payload@.take(n as int)),
    ensures
        r as int == digits_value(payload@.take(n as int)),
        r < 1000000000000000000u64,
{
    let mut val: u64 = 0;
    let mut i: usize = 0;
    while i < n
        invariant
            i <= n,
            n <= payload@.len(),
            n <= 18,
            all_digits(payload@.take(n as int)),
            val as int == digits_value(payload@.take(i as int)),
            (val as int) < pow10(i as nat),
        decreases n - i,
    {
        proof {
            assert(payload@.take(n as int)[i as int] == payload@[i as int]);
            assert(is_digit(payload@[i as int]));
            assert(payload@.take(i + 1).drop_last() =~= payload@.take(i as int));
            assert(payload@.take(i + 1).last() == payload@[i as int]);
            lemma_pow10_mono(i as nat, 17);
            assert(pow10(17) < 1000000000000000000int) by {
                reveal_with_fuel(pow10, 19);
            }
        }
        val = val * 10 + ((payload[i] - 48) as u64);
        i = i + 1;
    }
    proof {
        lemma_pow10_mono(i as nat, 18);
        assert(pow10(18) == 1000000000000000000int) by {
            reveal_with_fuel(pow10, 19);
        }
        lemma_digits_value_bound(payload@.take(n as int));
    }
    val
}

/// Parses a speed reply: the tenths-of-a-megabit value of the decimal
/// literal, or nothing when the bytes are not such a literal.
pub fn parse_speed(payload: &[u8]) -> (r: Option<u64>)
    ensures
        (r is Some) <==> (spec_speed_tenths(payload@) is Some),
        (r matches Some(v) ==> spec_speed_tenths(payload@) == Some(v as int)),
{
    let n = payload.len();
    let mut k: usize = 0;
    while k < n && payload[k] != 46
        invariant
            k <= n,
            n == payload@.len(),
            forall|j: int| 0 <= j < k ==> payload@[j] != 46,
        decreases n - k,
    {
        k = k + 1;
    }
    if k == n {
        // no dot: a plain digit run
        proof {
            assert forall|k2: int| !dot_split(payload@, k2) by {
                if 0 <= k2 < n {
                    assert(payload@[k2] != 46);
                }
            }
        }
        if n == 0 || n > 18 {
            return None;
        }
        let mut i: usize = 0;
        while i < n
            invariant
                i <= n,
                1 <= n <= 18,
                n == payload@.len(),
                forall|j: int| 0 <= j < n ==> payload@[j] != 46,
                forall|j: int| 0 <= j < i ==> is_digit(#[trigger] payload@[j]),
            decreases n - i,
        {
            if payload[i] < 48 || payload[i] > 57 {
                proof {
                    assert(!is_digit(payload@[i as int]));
                    assert(!valid_plain(payload@));
                    assert forall|k2: int| !dot_split(payload@, k2) by {
                        if 0 <= k2 < n {
                            assert(payload@[k2] != 46);
                        }
                    }
                }
                return None;
            }
            i = i + 1;
        }
        proof {
            assert(all_digits(payload@));
            assert(payload@.take(n as int) =~= payload@);
            lemma_digits_value_bound(payload@);
        }
        let val = digits_to_u64(payload, n);
        Some(val * 10)
    } else {
        // payload[k] is the first dot
        proof {
            assert forall|k2: int| dot_split(payload@, k2) implies k2 == k as int by {
                if k2 < k {
                    assert(payload@[k2] != 46);
                } else if k2 > k {
                    assert(is_digit(payload@.take(k2)[k as int]));
                }
            }
            assert(!valid_plain(payload@)) by {
                assert(payload@[k as int] == 46);
            }
        }
        if k < 1 || k > 18 {
            return None;
        }
        if k + 1 >= n {
            return None;
        }
        let mut i: usize = 0;
        while i < k
            invariant
                i <= k,
                1 <= k <= 18,
                k + 1 < n,
                n == payload@.len(),
                payload@[k as int] == 46,
                forall|j: int| 0 <= j < k ==> payload@[j] != 46,
                forall|j: int| 0 <= j < i ==> is_digit(#[trigger] payload@[j]),
            decreases k - i,
        {
            if payload[i] < 48 || payload[i] > 57 {
                proof {
                    assert(!dot_split(payload@, k as int)) by {
                        assert(payload@.take(k as int)[i as int] == payload@[i as int]);
                    }
                    assert forall|k2: int| !dot_split(payload@, k2) by {
                        if dot_split(payload@, k2) {
                            if k2 < k as int {
                                assert(payload@[k2] != 46);
                            }
                            if k2 > k as int {
                                assert(is_digit(payload@.take(k2)[k as int]));
                            }
                        }
                    }
                    assert(!valid_plain(payload@)) by {
                        assert(!is_digit(payload@[k as int]));
                    }
                }
                return None;
            }
            i = i + 1;
        }
        let mut f: usize = k + 1;
        while f < n
            invariant
                k + 1 <= f <= n,
                1 <= k <= 18,
                k + 1 < n,
                n == payload@.len(),
                payload@[k as int] == 46,
                forall|j: int| 0 <= j < k ==> payload@[j] != 46,
                forall|j: int| k < j < f ==> is_digit(#[trigger] payload@[j]),
            decreases n - f,
        {
            if payload[f] < 48 || payload[f] > 57 {
                proof {
                    assert(!dot_split(payload@, k as int)) by {
                        assert(payload@.skip(k + 1)[f - (k + 1)] == payload@[f as int]);
                        assert(!is_digit(payload@[f as int]));
                    }
                    assert forall|k2: int| !dot_split(payload@, k2) by {
                        if dot_split(payload@, k2) {
                            if k2 < k as int {
                                assert(payload@[k2] != 46);
                            }
                            if k2 > k as int {
                                assert(is_digit(payload@.take(k2)[k as int]));
                            }
                        }
                    }
                    assert(!valid_plain(payload@)) by {
                        assert(!is_digit(payload@[k as int]));
                    }
                }
                return None;
            }
            f = f + 1;
        }
        proof {
            assert(all_digits(payload@.take(k as int))) by {
                assert(forall|j: int|
                    0 <= j < k ==> payload@.take(k as int)[j] == payload@[j]);
            }
            assert(all_digits(payload@.skip(k + 1))) by {
                assert(forall|j: int|
                    0 <= j < payload@.skip(k + 1).len() ==> #[trigger] payload@.skip(k + 1)[j]
                        == payload@[j + k + 1]);
            }
            assert(dot_split(payload@, k as int));
        }
        let val = digits_to_u64(payload, k);
        let frac = (payload[k + 1] - 48) as u64;
        proof {
            let kk = choose|k2: int| dot_split(payload@, k2);
            assert(kk == k as int);
        }
        Some(val * 10 + frac)
    }
}

/// Where a candidate stands in the vetting pipeline.
#[derive(Debug, Clone, Copy, PartialEq, Eq, Structural)]
pub enum VetState {
    AwaitVersion,
    AwaitLocation,
    AwaitSpeed,
}

/// What one vetting reply decides.
#[derive(Debug, Clone, Copy, PartialEq, Eq, Structural)]
pub enum VetVerdict {
    Proceed(VetState),
    Admit,
    Reject,
}

/// What vetting has learned about a candidate slave so far.
pub struct Candidate {
    pub version: Vec<u8>,
    pub country: Vec<u8>,
    pub speed_tenths: u64,
}

impl Candidate {
    pub fn new() -> (r: Candidate)
        ensures
            r.version@.len() == 0,
            r.country@.len() == 0,
            r.speed_tenths == 0,
    {
        Candidate { version: Vec::new(), country: Vec::new(), speed_tenths: 0 }
    }
}

/// Judges one vetting reply: the next step, admission, or rejection.  A
/// candidate advances version, then location, then speed, exactly as the
/// pipeline runs; any malformed or disallowed reply rejects it.
pub fn vet_response(
    state: &VetState,
    payload: &[u8],
    allowed: &Vec<Vec<u8>>,
    cand: &mut Candidate,
) -> (r: VetVerdict)
    ensures
        state is AwaitVersion ==> {
            if payload@ == allowed_version_bytes() {
                &&& r == VetVerdict::Proceed(VetState::AwaitLocation)
                &&& final(cand).version@ == payload@
                &&& final(cand).country == old(cand).country
                &&& final(cand).speed_tenths == old(cand).speed_tenths
            } else {
                r == VetVerdict::Reject && *final(cand) == *old(cand)
            }
        },
        state is AwaitLocation ==> {
            match country_of(payload@) {
                Some(c) => {
                    &&& final(cand).country@ == c
                    &&& final(cand).version == old(cand).version
                    &&& final(cand).speed_tenths == old(cand).speed_tenths
                    &&& (r == if spec_location_allowed(c, allowed@) {
                        VetVerdict::Proceed(VetState::AwaitSpeed)
                    } else {
                        VetVerdict::Reject
                    })
                },
                None => r == VetVerdict::Reject && *final(cand) == *old(cand),
            }
        },
        state is AwaitSpeed ==> {
            match spec_speed_tenths(payload@) {
                Some(v) => {
                    &&& r == VetVerdict::Admit
                    &&& final(cand).speed_tenths == v
                    &&& final(cand).version == old(cand).version
                    &&& final(cand).country == old(cand).country
                },
                None => r == VetVerdict::Reject && *final(cand) == *old(cand),
            }
        },
{
    match state {
        VetState::AwaitVersion => {
            if version_allowed(payload) {
                let mut v: Vec<u8> = Vec::new();
                let mut i: usize = 0;
                while i < payload.len()
                    invariant
                        i <= payload@.len(),
                        v@ =~= payload@.subrange(0, i as int),
                    decreases payload@.len() - i,
                {
                    v.push(payload[i]);
                    i = i + 1;
                }
                proof {
                    assert(v@ =~= payload@);
                }
                cand.version = v;
                VetVerdict::Proceed(VetState::AwaitLocation)
            } else {
                VetVerdict::Reject
            }
        },
        VetState::AwaitLocation => {
            match extract_country(payload) {
                Some(c) => {
                    let ok = location_allowed(c.as_slice(), allowed);
                    cand.country = c;
                    if ok {
                        VetVerdict::Proceed(VetState::AwaitSpeed)
                    } else {
                        VetVerdict::Reject
                    }
                },
                None => VetVerdict::Reject,
            }
        },
        VetState::AwaitSpeed => {
            match parse_speed(payload) {
                Some(v) => {
                    cand.speed_tenths = v;
                    VetVerdict::Admit
                },
                None => VetVerdict::Reject,
            }
        },
    }
}

} // verus!
