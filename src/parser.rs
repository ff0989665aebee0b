//! Byte-level reading helpers: delimited fields, decimal numbers and the
//! contributor field of a commit.

use vstd::prelude::*;
use vstd::utf8::*;

use crate::git_error::{GitError, GitResult};
use crate::object::{Contributor, ContributorModel};
use crate::text::string_from_utf8;

verus! {

broadcast use vstd::utf8::group_utf8_lib;

/// Length of the longest prefix of `b` that does not hold the byte `d`.
pub open spec fn until(b: Seq<u8>, d: u8) -> nat
    decreases b.len(),
{
    if b.len() == 0 {
        0
    } else if b[0] == d {
        0
    } else {
        1 + until(b.drop_first(), d)
    }
}

/// The prefix of `b` before the first `d`, or all of `b` when it holds none.
pub open spec fn prefix_until(b: Seq<u8>, d: u8) -> Seq<u8> {
    b.subrange(0, until(b, d) as int)
}

/// `b` with its first `n` bytes removed.
pub open spec fn after(b: Seq<u8>, n: int) -> Seq<u8> {
    b.subrange(n, b.len() as int)
}

pub proof fn lemma_until(b: Seq<u8>, d: u8)
    ensures
        until(b, d) <= b.len(),
        forall|k: int| 0 <= k < until(b, d) ==> b[k] != d,
        until(b, d) < b.len() ==> b[until(b, d) as int] == d,
    decreases b.len(),
{
    if b.len() > 0 && b[0] != d {
        lemma_until(b.drop_first(), d);
        assert forall|k: int| 0 <= k < until(b, d) implies b[k] != d by {
            if k > 0 {
                assert(b[k] == b.drop_first()[k - 1]);
            }
        }
    }
}

/// `until` is the one position that ends a `d`-free prefix at a `d` or at the end.
pub proof fn lemma_until_unique(b: Seq<u8>, d: u8, n: int)
    requires
        0 <= n <= b.len(),
        forall|k: int| 0 <= k < n ==> b[k] != d,
        n == b.len() || b[n] == d,
    ensures
        until(b, d) == n,
    decreases b.len(),
{
    if n > 0 {
        assert(b[0] != d);
        let t = b.drop_first();
        assert forall|k: int| 0 <= k < n - 1 implies t[k] != d by {
            assert(t[k] == b[k + 1]);
        }
        if n < b.len() {
            assert(t[n - 1] == b[n]);
        }
        lemma_until_unique(t, d, n - 1);
    }
}

/// Position of the first `d` in `bytes`, or its length when it holds none.
pub fn find_byte(bytes: &[u8], d: u8) -> (r: usize)
    ensures
        r == until(bytes@, d),
{
    let mut i: usize = 0;
    while i < bytes.len() && bytes[i] != d
        invariant
            i <= bytes@.len(),
            forall|k: int| 0 <= k < i ==> bytes@[k] != d,
        decreases bytes@.len() - i,
    {
        i = i + 1;
    }
    proof {
        lemma_until_unique(bytes@, d, i as int);
    }
    i
}

/// The bytes of `bytes` before the first `delimiter` (all of them when it
/// does not occur).
pub fn take_until(bytes: &[u8], delimiter: u8) -> (r: Vec<u8>)
    ensures
        r@ == prefix_until(bytes@, delimiter),
{
    let n = find_byte(bytes, delimiter);
    proof {
        lemma_until(bytes@, delimiter);
    }
    let mut out: Vec<u8> = Vec::new();
    let mut i: usize = 0;
    while i < n
        invariant
            n == until(bytes@, delimiter),
            n <= bytes@.len(),
            i <= n,
            out@ == bytes@.subrange(0, i as int),
        decreases n - i,
    {
        proof {
            lemma_until(bytes@, delimiter);
        }
        out.push(bytes[i]);
        i = i + 1;
        assert(out@ =~= bytes@.subrange(0, i as int));
    }
    out
}

/// The text before the first `delimiter`, which must be valid UTF-8.
pub fn parse_string_until(bytes: &[u8], delimiter: u8) -> (r: GitResult<String>)
    ensures
        r is Ok <==> valid_utf8(prefix_until(bytes@, delimiter)),
        r matches Ok(s) ==> s@ == decode_utf8(prefix_until(bytes@, delimiter)),
{
    let byte_vec = take_until(bytes, delimiter);
    match string_from_utf8(byte_vec) {
        Some(s) => Ok(s),
        None => Err(GitError(String::from_str("invalid UTF-8 in text field"))),
    }
}

pub open spec fn is_digit(c: u8) -> bool {
    48 <= c <= 57
}

pub open spec fn all_digits(s: Seq<u8>) -> bool {
    forall|i: int| 0 <= i < s.len() ==> is_digit(#[trigger] s[i])
}

/// The number written by a string of ASCII decimal digits.
pub open spec fn digits_value(s: Seq<u8>) -> nat
    decreases s.len(),
{
    if s.len() == 0 {
        0
    } else {
        digits_value(s.drop_last()) * 10 + (s.last() - 48) as nat
    }
}

/// A non-empty run of ASCII digits, read as a decimal number.
pub open spec fn decimal_value(s: Seq<u8>) -> Option<nat> {
    if s.len() > 0 && all_digits(s) {
        Some(digits_value(s))
    } else {
        None
    }
}

/// The shortest decimal writing of `n` in ASCII digits.
pub open spec fn dec_digits(n: nat) -> Seq<u8>
    decreases n,
{
    if n < 10 {
        seq![(48 + n) as u8]
    } else {
        dec_digits(n / 10) + seq![(48 + n % 10) as u8]
    }
}

proof fn lemma_digits_value_prefix(s: Seq<u8>, k: int)
    requires
        0 <= k <= s.len(),
        all_digits(s),
    ensures
        digits_value(s.subrange(0, k)) <= digits_value(s),
    decreases s.len(),
{
    if k < s.len() {
        let t = s.drop_last();
        assert(t.subrange(0, k) =~= s.subrange(0, k));
        assert(all_digits(t)) by {
            assert forall|i: int| 0 <= i < t.len() implies is_digit(#[trigger] t[i]) by {
                assert(t[i] == s[i]);
            }
        }
        lemma_digits_value_prefix(t, k);
    } else {
        assert(s.subrange(0, k) =~= s);
    }
}

/// Digits of `n` read back give `n`.
pub proof fn lemma_dec_digits(n: nat)
    ensures
        dec_digits(n).len() > 0,
        all_digits(dec_digits(n)),
        decimal_value(dec_digits(n)) == Some(n),
        digits_value(dec_digits(n)) == n,
    decreases n,
{
    let s = dec_digits(n);
    if n < 10 {
        assert(s.drop_last() =~= Seq::<u8>::empty());
        assert(digits_value(s.drop_last()) == 0);
        assert(digits_value(s) == digits_value(s.drop_last()) * 10 + (s.last() - 48) as nat);
    } else {
        lemma_dec_digits(n / 10);
        let p = dec_digits(n / 10);
        assert(s.drop_last() =~= p);
        assert forall|i: int| 0 <= i < s.len() implies is_digit(#[trigger] s[i]) by {
            if i < p.len() {
                assert(s[i] == p[i]);
            }
        }
        assert(digits_value(s) == digits_value(s.drop_last()) * 10 + (s.last() - 48) as nat);
        assert((n / 10) * 10 + n % 10 == n);
    }
}

/// Reads a run of ASCII decimal digits as a `u64`; `None` on an empty run, a
/// byte that is not a digit, or a value over `u64::MAX`.
pub fn parse_u64(b: &[u8]) -> (r: Option<u64>)
    ensures
        r matches Some(v) <==> (decimal_value(b@) matches Some(x) && x <= u64::MAX),
        r matches Some(v) ==> decimal_value(b@) == Some(v as nat),
{
    if b.len() == 0 {
        return None;
    }
    let mut acc: u64 = 0;
    let mut i: usize = 0;
    while i < b.len()
        invariant
            0 < b@.len(),
            i <= b@.len(),
            all_digits(b@.subrange(0, i as int)),
            acc as nat == digits_value(b@.subrange(0, i as int)),
        decreases b@.len() - i,
    {
        let c = b[i];
        if c < 48 || c > 57 {
            assert(!all_digits(b@)) by {
                assert(!is_digit(b@[i as int]));
            }
            return None;
        }
        let d: u64 = (c - 48) as u64;
        let ghost s1 = b@.subrange(0, i as int + 1);
        assert(s1.drop_last() =~= b@.subrange(0, i as int));
        assert(all_digits(s1)) by {
            assert forall|j: int| 0 <= j < s1.len() implies is_digit(#[trigger] s1[j]) by {
                if j < i {
                    assert(s1[j] == b@.subrange(0, i as int)[j]);
                }
            }
        }
        if acc > (u64::MAX - d) / 10 {
            proof {
                if decimal_value(b@) is Some {
                    lemma_digits_value_prefix(b@, i as int + 1);
                }
            }
            return None;
        }
        acc = acc * 10 + d;
        i = i + 1;
    }
    assert(b@.subrange(0, i as int) =~= b@);
    Some(acc)
}

/// Appends the decimal digits of `n`.
pub fn push_decimal(out: &mut Vec<u8>, n: u64)
    ensures
        final(out)@ == old(out)@ + dec_digits(n as nat),
    decreases n,
{
    if n >= 10 {
        push_decimal(out, n / 10);
    }
    out.push(48 + (n % 10) as u8);
    assert(final(out)@ =~= old(out)@ + dec_digits(n as nat));
}

/// The bytes that start a contributor field: `<name> <<email>> <seconds> <zone>\n`.
pub open spec fn contributor_bytes(c: ContributorModel) -> Seq<u8> {
    encode_utf8(c.name) + seq![32u8, 60u8] + encode_utf8(c.email) + seq![62u8, 32u8]
        + dec_digits(c.timestamp as nat) + seq![32u8] + encode_utf8(c.timezone) + seq![10u8]
}

/// The name before `<`, without the one space that separates it from `<`.
pub open spec fn name_part(raw: Seq<u8>) -> Seq<u8> {
    if raw.len() > 0 && raw.last() == 32u8 {
        raw.drop_last()
    } else {
        raw
    }
}

/// Reads a contributor field from the front of `b`; gives the number of bytes
/// used (through the closing newline) and the fields.
pub open spec fn contributor_spec(b: Seq<u8>) -> Option<(nat, ContributorModel)> {
    let n = until(b, 60u8) as int;
    let name = name_part(b.subrange(0, n));
    let r1 = after(b, n + 1);
    let e = until(r1, 62u8) as int;
    let email = r1.subrange(0, e);
    let r2 = after(r1, e + 2);
    let t = until(r2, 32u8) as int;
    let r3 = after(r2, t + 1);
    let z = until(r3, 10u8) as int;
    let zone = r3.subrange(0, z);
    if n < b.len() && valid_utf8(name) && e + 1 < r1.len() && r1[e + 1] == 32u8 && valid_utf8(
        email,
    ) && t < r2.len() && (decimal_value(r2.subrange(0, t)) matches Some(v)
        && v <= u64::MAX) && z < r3.len() && valid_utf8(zone) {
        Some(
            (
                (n + 1 + e + 2 + t + 1 + z + 1) as nat,
                ContributorModel {
                    name: decode_utf8(name),
                    email: decode_utf8(email),
                    timestamp: decimal_value(r2.subrange(0, t))->Some_0 as u64,
                    timezone: decode_utf8(zone),
                },
            ),
        )
    } else {
        None
    }
}

/// Reads `<name> <<email>> <seconds> <zone>\n` from the front of `bytes`,
/// giving the number of bytes read and the contributor.
pub fn parse_contributor(bytes: &[u8]) -> (r: GitResult<(usize, Contributor)>)
    ensures
        r is Ok <==> contributor_spec(bytes@) is Some,
        r matches Ok((n, c)) ==> contributor_spec(bytes@) == Some((n as nat, c@)),
{
    let b = bytes;
    let n = find_byte(b, 60u8);
    proof { lemma_until(b@, 60u8); }
    if n >= b.len() {
        return Err(GitError(String::from_str("contributor: missing '<'")));
    }
    let raw = take_until(b, 60u8);
    let mut name_bytes = raw;
    if name_bytes.len() > 0 && name_bytes[name_bytes.len() - 1] == 32u8 {
        name_bytes.pop();
    }
    assert(name_bytes@ =~= name_part(b@.subrange(0, n as int)));
    let name = match string_from_utf8(name_bytes) {
        Some(s) => s,
        None => { return Err(GitError(String::from_str("contributor: invalid UTF-8 in name"))); },
    };
    let r1 = &b[n + 1..b.len()];
    let e = find_byte(r1, 62u8);
    proof { lemma_until(r1@, 62u8); }
    if e + 1 >= r1.len() || r1[e + 1] != 32u8 {
        return Err(GitError(String::from_str("contributor: malformed e-mail")));
    }
    let email = match parse_string_until(r1, 62u8) {
        Ok(s) => s,
        Err(err) => { return Err(err); },
    };
    let r2 = &r1[e + 2..r1.len()];
    let t = find_byte(r2, 32u8);
    proof { lemma_until(r2@, 32u8); }
    if t >= r2.len() {
        return Err(GitError(String::from_str("contributor: missing timestamp")));
    }
    let ts = match parse_u64(&r2[0..t]) {
        Some(v) => v,
        None => { return Err(GitError(String::from_str("contributor: invalid timestamp"))); },
    };
    let r3 = &r2[t + 1..r2.len()];
    let z = find_byte(r3, 10u8);
    proof { lemma_until(r3@, 10u8); }
    if z >= r3.len() {
        return Err(GitError(String::from_str("contributor: missing end of line")));
    }
    let timezone = match parse_string_until(r3, 10u8) {
        Ok(s) => s,
        Err(err) => { return Err(err); },
    };
    let used = n + 1 + e + 2 + t + 1 + z + 1;
    Ok((used, Contributor { name, email, timestamp: ts, timezone }))
}

/// A contributor field that reads never reaches past the end of its input.
pub proof fn lemma_contributor_len(b: Seq<u8>)
    ensures
        contributor_spec(b) matches Some((n, c)) ==> n <= b.len(),
{
    let n = until(b, 60u8) as int;
    lemma_until(b, 60u8);
    let r1 = after(b, n + 1);
    lemma_until(r1, 62u8);
    let e = until(r1, 62u8) as int;
    let r2 = after(r1, e + 2);
    lemma_until(r2, 32u8);
    let t = until(r2, 32u8) as int;
    let r3 = after(r2, t + 1);
    lemma_until(r3, 10u8);
}

} // verus!
