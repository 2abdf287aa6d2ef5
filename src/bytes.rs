//! Byte-string helpers: prefixes, occurrences, appending, and decimal numbers.
use vstd::prelude::*;
use vstd::string::StringSliceAdditionalSpecFns;

verus! {

/// The characters of ASCII bytes.
pub open spec fn ascii_chars(b: Seq<u8>) -> Seq<char> {
    Seq::new(b.len(), |i: int| b[i] as char)
}

pub open spec fn all_ascii(b: Seq<u8>) -> bool {
    forall|i: int| 0 <= i < b.len() ==> #[trigger] b[i] < 128
}

/// Relies on std's `String::from_utf8`: ASCII bytes are valid UTF-8, one character each.
#[verifier::external_body]
pub(crate) fn ascii_string(b: Vec<u8>) -> (r: String)
    requires
        all_ascii(b@),
    ensures
        r@ == ascii_chars(b@),
{
    String::from_utf8(b).unwrap_or_default()
}

/// `p` is a prefix of `s`.
pub open spec fn has_prefix(s: Seq<u8>, p: Seq<u8>) -> bool {
    p.len() <= s.len() && s.subrange(0, p.len() as int) == p
}

/// `p` occurs in `s` at position `at`.
pub open spec fn occurs_at(s: Seq<u8>, at: int, p: Seq<u8>) -> bool {
    0 <= at && at + p.len() <= s.len() && s.subrange(at, at + p.len()) == p
}

pub open spec fn is_digit(c: u8) -> bool {
    48 <= c <= 57
}

/// The three decimal digits of `n`, with leading zeros.
pub open spec fn digits3(n: int) -> Seq<u8> {
    seq![(48 + n / 100) as u8, (48 + (n / 10) % 10) as u8, (48 + n % 10) as u8]
}

/// The value of three decimal digits.
pub open spec fn value3(s: Seq<u8>) -> int {
    (s[0] - 48) * 100 + (s[1] - 48) * 10 + (s[2] - 48)
}

pub proof fn lemma_digits3(n: int)
    requires
        0 <= n < 1000,
    ensures
        digits3(n).len() == 3,
        value3(digits3(n)) == n,
        forall|i: int| 0 <= i < 3 ==> is_digit(#[trigger] digits3(n)[i]),
{
}

/// Where `p + q` occurs, `p` occurs and `q` follows it.
pub proof fn lemma_occurs_concat(s: Seq<u8>, at: int, p: Seq<u8>, q: Seq<u8>)
    requires
        occurs_at(s, at, p + q),
    ensures
        occurs_at(s, at, p),
        occurs_at(s, at + p.len(), q),
{
    let whole = s.subrange(at, at + p.len() + q.len());
    assert(whole == p + q);
    assert(s.subrange(at, at + p.len()) =~= whole.subrange(0, p.len() as int));
    assert((p + q).subrange(0, p.len() as int) =~= p);
    assert(s.subrange(at + p.len(), at + p.len() + q.len()) =~= whole.subrange(
        p.len() as int,
        (p.len() + q.len()) as int,
    ));
    assert((p + q).subrange(p.len() as int, (p.len() + q.len()) as int) =~= q);
}

/// Where three digits of `n` occur, reading them gives back `n`.
pub proof fn lemma_occurs_digits3(s: Seq<u8>, at: int, n: int)
    requires
        0 <= n < 1000,
        occurs_at(s, at, digits3(n)),
    ensures
        is_digit(s[at]) && is_digit(s[at + 1]) && is_digit(s[at + 2]),
        value3(s.subrange(at, at + 3)) == n,
{
    lemma_digits3(n);
    assert(s[at] == s.subrange(at, at + 3)[0]);
    assert(s[at + 1] == s.subrange(at, at + 3)[1]);
    assert(s[at + 2] == s.subrange(at, at + 3)[2]);
}

/// Reads three decimal digits at `at + off`, if they are there.
pub fn read_digits3_after(s: &[u8], at: usize, off: usize) -> (r: Option<u16>)
    ensures
        match r {
            Some(v) => at + off + 3 <= s@.len() && v == value3(s@.subrange(at + off, at + off + 3))
                && v < 1000,
            None => !(at + off + 3 <= s@.len() && is_digit(s@[at + off]) && is_digit(
                s@[at + off + 1],
            ) && is_digit(s@[at + off + 2])),
        },
{
    if off > s.len() || at > s.len() - off {
        return None;
    }
    read_digits3(s, at + off)
}

/// In `a + m + b`, `m` stands right after `a`, and the first byte of `b` right after `m`.
pub proof fn lemma_occurs_middle(a: Seq<u8>, m: Seq<u8>, b: Seq<u8>)
    ensures
        occurs_at(a + m + b, a.len() as int, m),
        b.len() > 0 ==> (a + m + b)[(a.len() + m.len()) as int] == b[0],
        a + m + b == a + (m + b),
{
    assert((a + m + b).subrange(a.len() as int, (a.len() + m.len()) as int) =~= m);
    assert(a + m + b =~= a + (m + b));
}

/// Reads `key` at `pos` and the decimal number right after it.
pub fn keyed_number(s: &[u8], pos: usize, key: &[u8]) -> (r: Option<(u64, usize)>)
    requires
        pos <= s@.len(),
    ensures
        r is Some ==> r->Some_0.1 <= s@.len(),
        forall|n: nat|
            n <= u64::MAX && #[trigger] occurs_at(s@, pos as int, key@ + decimal(n)) && (pos
                + key@.len() + decimal(n).len() == s@.len() || !is_digit(
                s@[pos + key@.len() + decimal(n).len()],
            )) ==> r is Some && r->Some_0.0 == n && r->Some_0.1 == pos + key@.len() + decimal(
                n,
            ).len(),
{
    if key.len() > s.len() - pos || !bytes_at(s, pos, key) {
        proof {
            assert forall|n: nat| #[trigger] occurs_at(s@, pos as int, key@ + decimal(n)) implies false by {
                lemma_occurs_concat(s@, pos as int, key@, decimal(n));
            }
        }
        return None;
    }
    let r = read_decimal(s, pos + key.len());
    proof {
        assert forall|n: nat|
            n <= u64::MAX && #[trigger] occurs_at(s@, pos as int, key@ + decimal(n)) && (pos
                + key@.len() + decimal(n).len() == s@.len() || !is_digit(
                s@[pos + key@.len() + decimal(n).len()],
            )) implies r is Some && r->Some_0.0 == n && r->Some_0.1 == pos + key@.len() + decimal(
                n,
            ).len() by {
            lemma_occurs_concat(s@, pos as int, key@, decimal(n));
        }
    }
    r
}

/// Appends `s` to `out`.
pub fn push_bytes(out: &mut Vec<u8>, s: &[u8])
    ensures
        final(out)@ == old(out)@ + s@,
{
    let mut i: usize = 0;
    while i < s.len()
        invariant
            i <= s@.len(),
            out@ == old(out)@ + s@.subrange(0, i as int),
        decreases s@.len() - i,
    {
        out.push(s[i]);
        i = i + 1;
        assert(s@.subrange(0, i as int) == s@.subrange(0, i - 1) + seq![s@[i - 1]]);
    }
    assert(s@.subrange(0, s@.len() as int) == s@);
}

/// Appends the bytes of a piece of text.
pub fn push_text(out: &mut Vec<u8>, s: &str)
    ensures
        final(out)@ == old(out)@ + s.spec_bytes(),
{
    push_bytes(out, s.as_bytes());
}

/// Appends `n` as three decimal digits.
pub fn push_digits3(out: &mut Vec<u8>, n: u16)
    requires
        n < 1000,
    ensures
        final(out)@ == old(out)@ + digits3(n as int),
{
    out.push((48 + n / 100) as u8);
    out.push((48 + (n / 10) % 10) as u8);
    out.push((48 + n % 10) as u8);
    assert(out@ =~= old(out)@ + digits3(n as int));
}

/// Reads three decimal digits at `at`, if they are there.
pub fn read_digits3(s: &[u8], at: usize) -> (r: Option<u16>)
    ensures
        match r {
            Some(v) => at + 3 <= s@.len() && is_digit(s@[at as int]) && is_digit(s@[at + 1])
                && is_digit(s@[at + 2]) && v == value3(s@.subrange(at as int, at + 3)) && v
                < 1000,
            None => !(at + 3 <= s@.len() && is_digit(s@[at as int]) && is_digit(s@[at + 1])
                && is_digit(s@[at + 2])),
        },
{
    if at > s.len() || s.len() - at < 3 {
        return None;
    }
    let a = s[at];
    let b = s[at + 1];
    let c = s[at + 2];
    if 48 <= a && a <= 57 && 48 <= b && b <= 57 && 48 <= c && c <= 57 {
        Some(((a - 48) as u16) * 100 + ((b - 48) as u16) * 10 + ((c - 48) as u16))
    } else {
        None
    }
}

/// Whether `p` occurs in `s` at position `at`.
pub fn bytes_at(s: &[u8], at: usize, p: &[u8]) -> (r: bool)
    ensures
        r == occurs_at(s@, at as int, p@),
{
    if at > s.len() || s.len() - at < p.len() {
        return false;
    }
    let mut i: usize = 0;
    while i < p.len()
        invariant
            i <= p@.len(),
            at + p@.len() <= s@.len(),
            s@.len() == s.len(),
            forall|k: int| 0 <= k < i ==> s@[at + k] == p@[k],
        decreases p@.len() - i,
    {
        assert(at + i < s.len());
        if s[at + i] != p[i] {
            assert(s@.subrange(at as int, at + p@.len())[i as int] != p@[i as int]);
            return false;
        }
        i = i + 1;
    }
    assert(s@.subrange(at as int, at + p@.len()) =~= p@);
    true
}

/// Whether `s` begins with `p`.
pub fn starts_with(s: &[u8], p: &[u8]) -> (r: bool)
    ensures
        r == has_prefix(s@, p@),
{
    bytes_at(s, 0, p)
}

/// The bytes of `s` from `start` to `end`.
pub fn copy_range(s: &[u8], start: usize, end: usize) -> (r: Vec<u8>)
    requires
        start <= end <= s@.len(),
    ensures
        r@ == s@.subrange(start as int, end as int),
{
    let mut out: Vec<u8> = Vec::new();
    let mut i: usize = start;
    while i < end
        invariant
            start <= i <= end <= s@.len(),
            out@ == s@.subrange(start as int, i as int),
        decreases end - i,
    {
        out.push(s[i]);
        i = i + 1;
        assert(out@ =~= s@.subrange(start as int, i as int));
    }
    out
}

/// The decimal digits of `n`, without leading zeros.
pub open spec fn decimal(n: nat) -> Seq<u8>
    decreases n,
{
    if n < 10 {
        seq![(48 + n) as u8]
    } else {
        decimal(n / 10).push((48 + n % 10) as u8)
    }
}

/// The value of a run of decimal digits.
pub open spec fn dec_value(s: Seq<u8>) -> nat
    decreases s.len(),
{
    if s.len() == 0 {
        0
    } else {
        dec_value(s.drop_last()) * 10 + (s.last() - 48) as nat
    }
}

pub open spec fn all_digits(s: Seq<u8>) -> bool {
    forall|i: int| 0 <= i < s.len() ==> is_digit(#[trigger] s[i])
}

pub proof fn lemma_decimal(n: nat)
    ensures
        all_digits(decimal(n)),
        dec_value(decimal(n)) == n,
        decimal(n).len() >= 1,
    decreases n,
{
    if n >= 10 {
        lemma_decimal(n / 10);
        assert(decimal(n).drop_last() == decimal(n / 10));
        assert(decimal(n).last() == (48 + n % 10) as u8);
        assert((n / 10) * 10 + n % 10 == n);
        assert(dec_value(decimal(n)) == dec_value(decimal(n / 10)) * 10 + (n % 10));
        assert forall|i: int| 0 <= i < decimal(n).len() implies is_digit(#[trigger] decimal(n)[i]) by {
            if i < decimal(n).len() - 1 {
                assert(decimal(n)[i] == decimal(n / 10)[i]);
            }
        }
    } else {
        assert(decimal(n).drop_last() =~= Seq::<u8>::empty());
        assert(dec_value(decimal(n)) == dec_value(Seq::<u8>::empty()) * 10 + n);
    }
}

pub open spec fn pow10(k: nat) -> nat
    decreases k,
{
    if k == 0 {
        1
    } else {
        10 * pow10((k - 1) as nat)
    }
}

/// A number below `10^k` has at most `k` digits.
pub proof fn lemma_decimal_bound(n: nat, k: nat)
    requires
        k >= 1,
        n < pow10(k) || (k == 20 && n <= u64::MAX),
    ensures
        decimal(n).len() <= k,
    decreases k,
{
    if k == 20 && n <= u64::MAX {
        reveal_with_fuel(pow10, 21);
        assert(pow10(20) == 100000000000000000000);
    }
    if n >= 10 {
        assert(k >= 2) by {
            if k == 1 {
                assert(pow10(1) == 10 * pow10(0));
            }
        }
        assert(pow10(k) == 10 * pow10((k - 1) as nat));
        lemma_decimal_bound(n / 10, (k - 1) as nat);
    }
}

pub proof fn lemma_dec_value_prefix(s: Seq<u8>, k: int)
    requires
        0 <= k <= s.len(),
        all_digits(s),
    ensures
        dec_value(s.subrange(0, k)) <= dec_value(s),
    decreases s.len(),
{
    if k < s.len() {
        let t = s.drop_last();
        assert(all_digits(t));
        lemma_dec_value_prefix(t, k);
        assert(t.subrange(0, k) == s.subrange(0, k));
    } else {
        assert(s.subrange(0, k) == s);
    }
}

/// Appends the decimal digits of `n`.
pub fn push_decimal(out: &mut Vec<u8>, n: u64)
    ensures
        final(out)@ == old(out)@ + decimal(n as nat),
    decreases n,
{
    if n >= 10 {
        push_decimal(out, n / 10);
    }
    out.push((48 + n % 10) as u8);
    proof {
        if n >= 10 {
            assert(out@ =~= old(out)@ + decimal(n as nat));
        } else {
            assert(out@ =~= old(out)@ + decimal(n as nat));
        }
    }
}

/// Reads the run of decimal digits at `at`: its value and where it ends. `None` where no digit
/// stands there or the value does not fit in a `u64`.
pub fn read_decimal(s: &[u8], at: usize) -> (r: Option<(u64, usize)>)
    requires
        at <= s@.len(),
    ensures
        match r {
            Some((v, e)) => at < e <= s@.len() && all_digits(s@.subrange(at as int, e as int))
                && (e == s@.len() || !is_digit(s@[e as int])) && v == dec_value(
                s@.subrange(at as int, e as int),
            ),
            None => true,
        },
        forall|n: nat|
            n <= u64::MAX && #[trigger] occurs_at(s@, at as int, decimal(n)) && (at
                + decimal(n).len() == s@.len() || !is_digit(s@[at + decimal(n).len()]))
                ==> r is Some && r->Some_0.0 == n && r->Some_0.1 == at + decimal(n).len(),
{
    let mut i: usize = at;
    let mut v: u64 = 0;
    while i < s.len() && 48 <= s[i] && s[i] <= 57
        invariant
            at <= i <= s@.len(),
            all_digits(s@.subrange(at as int, i as int)),
            v == dec_value(s@.subrange(at as int, i as int)),
        decreases s@.len() - i,
    {
        let d = (s[i] - 48) as u64;
        proof {
            let t = s@.subrange(at as int, i + 1);
            assert(t.drop_last() == s@.subrange(at as int, i as int));
            assert(all_digits(t));
        }
        match v.checked_mul(10) {
            Some(m) => match m.checked_add(d) {
                Some(w) => {
                    v = w;
                },
                None => {
                    proof { lemma_read_decimal_overflow(s@, at as int, (i + 1) as int); }
                    return None;
                },
            },
            None => {
                proof { lemma_read_decimal_overflow(s@, at as int, (i + 1) as int); }
                return None;
            },
        }
        i = i + 1;
    }
    if i == at {
        proof {
            assert forall|n: nat| n <= u64::MAX && #[trigger] occurs_at(s@, at as int, decimal(n))
                implies false by {
                lemma_decimal(n);
                assert(s@[at as int] == decimal(n)[0]);
            }
        }
        return None;
    }
    proof {
        assert forall|n: nat|
            n <= u64::MAX && #[trigger] occurs_at(s@, at as int, decimal(n)) && (at
                + decimal(n).len() == s@.len() || !is_digit(s@[at + decimal(n).len()]))
            implies i == at + decimal(n).len() && v == n by {
            lemma_decimal(n);
            let d = decimal(n);
            if i < at + d.len() {
                assert(s@[i as int] == d[i - at]);
            } else if i > at + d.len() {
                assert(s@.subrange(at as int, i as int)[d.len() as int] == s@[at + d.len()]);
            }
            assert(s@.subrange(at as int, i as int) == d);
        }
    }
    Some((v, i))
}

/// A run of digits whose prefix already overflows has no `u64` value at all.
proof fn lemma_read_decimal_overflow(s: Seq<u8>, at: int, e: int)
    requires
        0 <= at < e <= s.len(),
        all_digits(s.subrange(at, e)),
        dec_value(s.subrange(at, e)) > u64::MAX,
    ensures
        forall|n: nat|
            n <= u64::MAX && #[trigger] occurs_at(s, at, decimal(n)) && (at + decimal(n).len()
                == s.len() || !is_digit(s[at + decimal(n).len()])) ==> false,
{
    assert forall|n: nat|
        n <= u64::MAX && #[trigger] occurs_at(s, at, decimal(n)) && (at + decimal(n).len()
            == s.len() || !is_digit(s[at + decimal(n).len()])) implies false by {
        lemma_decimal(n);
        let d = decimal(n);
        if e > at + d.len() {
            assert(s.subrange(at, e)[d.len() as int] == s[at + d.len()]);
        } else {
            assert(d.subrange(0, e - at) == s.subrange(at, e));
            lemma_dec_value_prefix(d, e - at);
        }
    }
}

} // verus!
