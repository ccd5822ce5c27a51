//! Byte-level text helpers for the RESP codec: decimal integer
//! parsing and formatting, ASCII case folding, and line checks.
//!
//! RESP is a byte-oriented protocol, so everything here works on
//! `u8` sequences rather than `char` strings.

use vstd::prelude::*;

verus! {

/// Carriage return, the first byte of the RESP line terminator.
pub const CR: u8 = 13;

/// Line feed, the second byte of the RESP line terminator.
pub const LF: u8 = 10;

/// ASCII `+`, accepted as a sign prefix by the integer parsers.
pub const PLUS: u8 = 43;

/// ASCII `-`, the negative sign prefix.
pub const MINUS: u8 = 45;

pub open spec fn is_ascii_digit(b: u8) -> bool {
    48 <= b <= 57
}

pub open spec fn all_digits(s: Seq<u8>) -> bool {
    forall|i: int| 0 <= i < s.len() ==> is_ascii_digit(#[trigger] s[i])
}

/// Numeric value of a sequence of decimal digit bytes, most
/// significant digit first.
pub open spec fn digits_val(s: Seq<u8>) -> int
    decreases s.len(),
{
    if s.len() == 0 {
        0
    } else {
        digits_val(s.drop_last()) * 10 + (s.last() - 48)
    }
}

/// Canonical decimal encoding of `n`: no sign, no leading zeros
/// (except for `n == 0` itself).
pub open spec fn spec_dec_u64(n: nat) -> Seq<u8>
    decreases n,
{
    if n < 10 {
        seq![(48 + n) as u8]
    } else {
        spec_dec_u64(n / 10).push((48 + n % 10) as u8)
    }
}

/// Canonical decimal encoding of a signed value.
pub open spec fn spec_fmt_i64(v: int) -> Seq<u8> {
    if v < 0 {
        seq![MINUS] + spec_dec_u64((-v) as nat)
    } else {
        spec_dec_u64(v as nat)
    }
}

/// What `parse_u64` accepts: an optional `+`, then one or more
/// digits whose value fits in a `u64`.
pub open spec fn spec_parse_u64(s: Seq<u8>) -> Option<u64> {
    let t = if s.len() > 0 && s[0] == PLUS {
        s.drop_first()
    } else {
        s
    };
    if t.len() == 0 || !all_digits(t) {
        None
    } else if digits_val(t) > u64::MAX {
        None
    } else {
        Some(digits_val(t) as u64)
    }
}

/// What `parse_i64` accepts: an optional sign, then one or more
/// digits whose signed value fits in an `i64`.
pub open spec fn spec_parse_i64(s: Seq<u8>) -> Option<i64> {
    if s.len() > 0 && s[0] == MINUS {
        let t = s.drop_first();
        if t.len() == 0 || !all_digits(t) {
            None
        } else if digits_val(t) > 0x8000_0000_0000_0000 {
            None
        } else {
            Some((-digits_val(t)) as i64)
        }
    } else {
        let t = if s.len() > 0 && s[0] == PLUS {
            s.drop_first()
        } else {
            s
        };
        if t.len() == 0 || !all_digits(t) {
            None
        } else if digits_val(t) > i64::MAX {
            None
        } else {
            Some(digits_val(t) as i64)
        }
    }
}

/// A simple-frame line may not contain the line terminator bytes.
pub open spec fn line_ok(s: Seq<u8>) -> bool {
    forall|i: int| 0 <= i < s.len() ==> s[i] != CR && s[i] != LF
}

/// ASCII upper-casing, applied byte by byte.
pub open spec fn spec_upper_byte(b: u8) -> u8 {
    if 97 <= b <= 122 {
        (b - 32) as u8
    } else {
        b
    }
}

pub open spec fn spec_upper(s: Seq<u8>) -> Seq<u8> {
    s.map_values(|b: u8| spec_upper_byte(b))
}

proof fn lemma_digits_val_nonneg(s: Seq<u8>)
    requires
        all_digits(s),
    ensures
        digits_val(s) >= 0,
    decreases s.len(),
{
    if s.len() > 0 {
        assert(all_digits(s.drop_last()));
        lemma_digits_val_nonneg(s.drop_last());
    }
}

/// Extending a digit string can only increase its value.
proof fn lemma_digits_val_take_le(s: Seq<u8>, k: int)
    requires
        all_digits(s),
        0 <= k <= s.len(),
    ensures
        digits_val(s.take(k)) <= digits_val(s),
    decreases s.len() - k,
{
    if k < s.len() {
        lemma_digits_val_take_le(s, k + 1);
        assert(s.take(k + 1).drop_last() =~= s.take(k));
        assert(all_digits(s.take(k)));
        lemma_digits_val_nonneg(s.take(k));
        assert(digits_val(s.take(k + 1)) == digits_val(s.take(k)) * 10 + (s[k] - 48));
    } else {
        assert(s.take(k) =~= s);
    }
}

/// Core digit-run parser: reads `s[start..]`, which must be all
/// digits with value at most `bound` for the parse to succeed.
fn parse_digits(s: &[u8], start: usize, bound: u64) -> (r: Option<u64>)
    requires
        start <= s@.len(),
    ensures
        ({
            let t = s@.skip(start as int);
            match r {
                Some(v) => t.len() > 0 && all_digits(t) && digits_val(t) == v && v <= bound,
                None => t.len() == 0 || !all_digits(t) || digits_val(t) > bound,
            }
        }),
{
    let ghost t = s@.skip(start as int);
    let n = s.len();
    if start >= n {
        return None;
    }
    let mut i: usize = start;
    let mut acc: u64 = 0;
    while i < n
        invariant
            start <= i <= n,
            n == s@.len(),
            t == s@.skip(start as int),
            t.len() == n - start,
            all_digits(t.take(i - start)),
            acc == digits_val(t.take(i - start)),
            acc <= bound,
        decreases n - i,
    {
        let b = s[i];
        assert(t[i - start] == s@[i as int]);
        if b < 48 || b > 57 {
            assert(!is_ascii_digit(t[i - start]));
            return None;
        }
        let d: u64 = (b - 48) as u64;
        assert(t.take(i - start + 1).drop_last() =~= t.take(i - start));
        assert(t.take(i - start + 1).last() == t[i - start]);
        assert(digits_val(t.take(i - start + 1)) == acc * 10 + d);
        if acc > bound / 10 || (acc == bound / 10 && d > bound % 10) {
            proof {
                assert(bound == (bound / 10) * 10 + bound % 10);
                assert(acc * 10 + d > bound);
                assert(all_digits(t.take(i - start + 1)));
                if all_digits(t) {
                    lemma_digits_val_take_le(t, i - start + 1);
                    assert(digits_val(t) > bound);
                }
            }
            return None;
        }
        assert(acc * 10 + d <= bound) by {
            assert(bound == (bound / 10) * 10 + bound % 10);
        }
        acc = acc * 10 + d;
        i = i + 1;
    }
    assert(t.take(i - start) =~= t);
    Some(acc)
}

/// Parse an unsigned decimal integer, as the stored TTL option
/// requires: optional `+`, digits, value within `u64`.
pub fn parse_u64(s: &[u8]) -> (r: Option<u64>)
    ensures
        r == spec_parse_u64(s@),
{
    let n = s.len();
    let start: usize = if n > 0 && s[0] == PLUS {
        1
    } else {
        0
    };
    proof {
        if start == 1 {
            assert(s@.skip(1) =~= s@.drop_first());
        } else {
            assert(s@.skip(0) =~= s@);
        }
    }
    let r = parse_digits(s, start, u64::MAX);
    proof {
        let t = s@.skip(start as int);
        if r is Some {
            assert(spec_parse_u64(s@) == Some(r->0));
        }
    }
    r
}

/// Parse a signed decimal integer: optional sign, digits, value
/// within `i64`.
pub fn parse_i64(s: &[u8]) -> (r: Option<i64>)
    ensures
        r == spec_parse_i64(s@),
{
    let n = s.len();
    if n > 0 && s[0] == MINUS {
        proof {
            assert(s@.skip(1) =~= s@.drop_first());
        }
        match parse_digits(s, 1, 0x8000_0000_0000_0000u64) {
            Some(mag) => {
                if mag == 0x8000_0000_0000_0000u64 {
                    Some(i64::MIN)
                } else {
                    Some(-(mag as i64))
                }
            },
            None => None,
        }
    } else {
        let start: usize = if n > 0 && s[0] == PLUS {
            1
        } else {
            0
        };
        proof {
            if start == 1 {
                assert(s@.skip(1) =~= s@.drop_first());
            } else {
                assert(s@.skip(0) =~= s@);
            }
        }
        match parse_digits(s, start, i64::MAX as u64) {
            Some(v) => Some(v as i64),
            None => None,
        }
    }
}

/// Render `n` in decimal, matching `spec_dec_u64`.
pub fn fmt_u64(n: u64) -> (out: Vec<u8>)
    ensures
        out@ == spec_dec_u64(n as nat),
{
    let mut rev: Vec<u8> = Vec::new();
    let mut cur: u64 = n;
    if cur < 10 {
        let mut out: Vec<u8> = Vec::new();
        out.push((48 + cur) as u8);
        assert(out@ =~= spec_dec_u64(n as nat));
        return out;
    }
    // Collect digits least-significant first, then reverse.
    while cur >= 10
        invariant
            spec_dec_u64(n as nat) == spec_dec_u64(cur as nat).add(rev@.reverse()),
        decreases cur,
    {
        let d: u8 = (cur % 10) as u8;
        proof {
            assert(spec_dec_u64(cur as nat) == spec_dec_u64((cur as nat) / 10).push((48 + (cur as nat) % 10) as u8));
            assert(rev@.push((48 + d) as u8).reverse() =~= seq![(48 + d) as u8].add(rev@.reverse()));
            assert(spec_dec_u64((cur as nat) / 10).add(rev@.push((48 + d) as u8).reverse()) =~= spec_dec_u64(cur as nat).add(rev@.reverse()));
        }
        rev.push(48 + d);
        cur = cur / 10;
    }
    let mut out: Vec<u8> = Vec::new();
    out.push((48 + cur) as u8);
    let mut j: usize = rev.len();
    while j > 0
        invariant
            j <= rev@.len(),
            out@ == spec_dec_u64(cur as nat).add(rev@.reverse().take(rev@.len() - j)),
        decreases j,
    {
        j = j - 1;
        let b = rev[j];
        proof {
            assert(rev@.reverse()[rev@.len() - 1 - j] == rev@[j as int]);
            assert(rev@.reverse().take(rev@.len() - j) =~= rev@.reverse().take(rev@.len() - j - 1).push(rev@[j as int]));
        }
        out.push(b);
    }
    proof {
        assert(rev@.reverse().take(rev@.len() as int) =~= rev@.reverse());
        assert(out@ =~= spec_dec_u64(n as nat));
    }
    out
}

/// Render a signed value in decimal, matching `spec_fmt_i64`.
pub fn fmt_i64(v: i64) -> (out: Vec<u8>)
    ensures
        out@ == spec_fmt_i64(v as int),
{
    if v < 0 {
        let mag: u64 = if v == i64::MIN {
            0x8000_0000_0000_0000u64
        } else {
            (-v) as u64
        };
        let digits = fmt_u64(mag);
        let mut out: Vec<u8> = Vec::new();
        out.push(MINUS);
        let mut i: usize = 0;
        while i < digits.len()
            invariant
                i <= digits@.len(),
                out@ == seq![MINUS].add(digits@.take(i as int)),
            decreases digits@.len() - i,
        {
            let b = digits[i];
            proof {
                assert(digits@.take(i + 1) =~= digits@.take(i as int).push(digits@[i as int]));
            }
            out.push(b);
            i = i + 1;
        }
        proof {
            assert(digits@.take(digits@.len() as int) =~= digits@);
            assert(out@ =~= spec_fmt_i64(v as int));
        }
        out
    } else {
        let out = fmt_u64(v as u64);
        out
    }
}

/// Upper-case ASCII letters, leaving every other byte alone.
pub fn to_ascii_upper(s: &[u8]) -> (out: Vec<u8>)
    ensures
        out@ == spec_upper(s@),
{
    let mut out: Vec<u8> = Vec::new();
    let mut i: usize = 0;
    while i < s.len()
        invariant
            i <= s@.len(),
            out@ =~= spec_upper(s@.take(i as int)),
        decreases s@.len() - i,
    {
        let b = s[i];
        let u: u8 = if b >= 97 && b <= 122 {
            b - 32
        } else {
            b
        };
        proof {
            assert(spec_upper(s@.take(i + 1)) =~= spec_upper(s@.take(i as int)).push(spec_upper_byte(s@[i as int])));
        }
        out.push(u);
        i = i + 1;
    }
    proof {
        assert(s@.take(s@.len() as int) =~= s@);
    }
    out
}


/// Byte-for-byte copy of a vector.
pub fn clone_bytes(v: &Vec<u8>) -> (r: Vec<u8>)
    ensures
        r@ == v@,
{
    let c = v.clone();
    proof {
        assert(c@ =~= v@);
    }
    c
}

/// Byte-string equality, the comparison the command parser uses
/// against command-name and option literals.
pub fn bytes_eq(a: &[u8], b: &[u8]) -> (r: bool)
    ensures
        r == (a@ == b@),
{
    if a.len() != b.len() {
        return false;
    }
    let mut i: usize = 0;
    while i < a.len()
        invariant
            i <= a@.len(),
            a@.len() == b@.len(),
            forall|k: int| 0 <= k < i ==> a@[k] == b@[k],
        decreases a@.len() - i,
    {
        if a[i] != b[i] {
            return false;
        }
        i = i + 1;
    }
    proof {
        assert(a@ =~= b@);
    }
    true
}

/// Whether `s` is free of CR and LF, so it may stand inside a
/// simple frame line.
pub fn is_line_ok(s: &[u8]) -> (r: bool)
    ensures
        r == line_ok(s@),
{
    let mut i: usize = 0;
    while i < s.len()
        invariant
            i <= s@.len(),
            forall|k: int| 0 <= k < i ==> s@[k] != CR && s@[k] != LF,
        decreases s@.len() - i,
    {
        let b = s[i];
        if b == CR || b == LF {
            return false;
        }
        i = i + 1;
    }
    true
}

/// The canonical decimal digits of `n` really are digits, and they
/// carry the value `n`.
pub proof fn lemma_dec_u64_digits(n: nat)
    ensures
        all_digits(spec_dec_u64(n)),
        digits_val(spec_dec_u64(n)) == n,
        spec_dec_u64(n).len() >= 1,
    decreases n,
{
    if n < 10 {
        let s = spec_dec_u64(n);
        assert(s =~= seq![(48 + n) as u8]);
        assert(s.drop_last() =~= Seq::<u8>::empty());
        assert(digits_val(s.drop_last()) == 0);
        assert(digits_val(s) == n);
    } else {
        lemma_dec_u64_digits(n / 10);
        let s = spec_dec_u64(n);
        assert(s.drop_last() =~= spec_dec_u64(n / 10));
        assert(digits_val(s) == digits_val(spec_dec_u64(n / 10)) * 10 + (n % 10));
        assert(digits_val(s) == (n / 10) * 10 + (n % 10));
    }
}

/// Formatting then parsing a signed value gives it back.
pub proof fn lemma_parse_fmt_i64(v: i64)
    ensures
        spec_parse_i64(spec_fmt_i64(v as int)) == Some(v),
{
    let s = spec_fmt_i64(v as int);
    if v < 0 {
        let mag = (-(v as int)) as nat;
        lemma_dec_u64_digits(mag);
        assert(s.drop_first() =~= spec_dec_u64(mag));
        assert(s[0] == MINUS);
        assert(digits_val(spec_dec_u64(mag)) == mag);
        assert(mag <= 0x8000_0000_0000_0000);
    } else {
        lemma_dec_u64_digits(v as nat);
        assert(is_ascii_digit(s[0]));
        assert(s[0] != MINUS && s[0] != PLUS);
    }
}


/// A canonical decimal within `i64` range parses as a signed value.
pub proof fn lemma_parse_dec_i64(n: nat)
    requires
        n <= i64::MAX,
    ensures
        spec_parse_i64(spec_dec_u64(n)) == Some(n as i64),
{
    lemma_dec_u64_digits(n);
    let s = spec_dec_u64(n);
    assert(is_ascii_digit(s[0]));
    assert(s[0] != MINUS && s[0] != PLUS);
}

/// Decimal digit strings never contain the line terminator bytes.
pub proof fn lemma_dec_u64_line_ok(n: nat)
    ensures
        line_ok(spec_dec_u64(n)),
{
    lemma_dec_u64_digits(n);
    assert forall|i: int| 0 <= i < spec_dec_u64(n).len() implies spec_dec_u64(n)[i] != CR
        && spec_dec_u64(n)[i] != LF by {
        assert(is_ascii_digit(spec_dec_u64(n)[i]));
    }
}

/// Signed decimal strings never contain the line terminator bytes.
pub proof fn lemma_fmt_i64_line_ok(v: int)
    ensures
        line_ok(spec_fmt_i64(v)),
{
    if v < 0 {
        lemma_dec_u64_line_ok((-v) as nat);
        let s = spec_fmt_i64(v);
        assert forall|i: int| 0 <= i < s.len() implies s[i] != CR && s[i] != LF by {
            if i > 0 {
                assert(s[i] == spec_dec_u64((-v) as nat)[i - 1]);
            }
        }
    } else {
        lemma_dec_u64_line_ok(v as nat);
    }
}

} // verus!
