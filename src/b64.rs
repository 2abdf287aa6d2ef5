//! Base64 (RFC 4648, standard alphabet, padded) as a specification, and the calls into the
//! `base64` crate that the library trusts to meet it.
use base64::engine::general_purpose::STANDARD as BASE64;
use base64::Engine;
use vstd::prelude::*;

verus! {

#[verifier::external_type_specification]
#[verifier::external_body]
pub struct ExDecodeError(base64::DecodeError);

/// The symbol of the standard alphabet for a six-bit value.
pub open spec fn b64_sym(v: int) -> u8 {
    if v < 26 {
        (65 + v) as u8
    } else if v < 52 {
        (71 + v) as u8
    } else if v < 62 {
        (v - 4) as u8
    } else if v == 62 {
        43u8
    } else {
        47u8
    }
}

/// The padded base64 text (RFC 4648, standard alphabet) of `b`.
pub open spec fn base64_of(b: Seq<u8>) -> Seq<u8>
    decreases b.len(),
{
    if b.len() == 0 {
        Seq::empty()
    } else if b.len() == 1 {
        seq![b64_sym(b[0] as int / 4), b64_sym((b[0] as int % 4) * 16), 61u8, 61u8]
    } else if b.len() == 2 {
        seq![
            b64_sym(b[0] as int / 4),
            b64_sym((b[0] as int % 4) * 16 + b[1] as int / 16),
            b64_sym((b[1] as int % 16) * 4),
            61u8,
        ]
    } else {
        seq![
            b64_sym(b[0] as int / 4),
            b64_sym((b[0] as int % 4) * 16 + b[1] as int / 16),
            b64_sym((b[1] as int % 16) * 4 + b[2] as int / 64),
            b64_sym(b[2] as int % 64),
        ] + base64_of(b.subrange(3, b.len() as int))
    }
}

/// A byte that can appear in padded base64 text.
pub open spec fn is_b64_byte(c: u8) -> bool {
    (65 <= c <= 90) || (97 <= c <= 122) || (48 <= c <= 57) || c == 43 || c == 47 || c == 61
}

pub open spec fn all_b64(s: Seq<u8>) -> bool {
    forall|i: int| 0 <= i < s.len() ==> is_b64_byte(#[trigger] s[i])
}

/// Base64 text is made of alphabet symbols and `=`, four for each started group of three.
pub proof fn lemma_base64_shape(b: Seq<u8>)
    ensures
        all_b64(base64_of(b)),
        base64_of(b).len() == 4 * ((b.len() + 2) / 3),
    decreases b.len(),
{
    if b.len() >= 3 {
        lemma_base64_shape(b.subrange(3, b.len() as int));
        let head = seq![
            b64_sym(b[0] as int / 4),
            b64_sym((b[0] as int % 4) * 16 + b[1] as int / 16),
            b64_sym((b[1] as int % 16) * 4 + b[2] as int / 64),
            b64_sym(b[2] as int % 64),
        ];
        let rest = base64_of(b.subrange(3, b.len() as int));
        assert(base64_of(b) == head + rest);
        assert forall|i: int| 0 <= i < base64_of(b).len() implies is_b64_byte(
            #[trigger] base64_of(b)[i],
        ) by {
            if i >= 4 {
                assert(base64_of(b)[i] == rest[i - 4]);
            }
        }
    }
}

proof fn lemma_sym(u: int, v: int)
    requires
        0 <= u < 64,
        0 <= v < 64,
    ensures
        b64_sym(u) != 61,
        b64_sym(u) == b64_sym(v) ==> u == v,
{
}

/// Different bytes have different base64 texts.
pub proof fn lemma_base64_injective(x: Seq<u8>, y: Seq<u8>)
    requires
        base64_of(x) == base64_of(y),
    ensures
        x == y,
    decreases x.len(),
{
    lemma_base64_shape(x);
    lemma_base64_shape(y);
    let bx = base64_of(x);
    let by = base64_of(y);
    if x.len() == 0 || y.len() == 0 {
        assert(x.len() == 0 && y.len() == 0);
        assert(x =~= y);
    } else {
        let a = x[0] as int;
        let c = y[0] as int;
        lemma_sym(a / 4, c / 4);
        if x.len() >= 3 && y.len() >= 3 {
            let (a1, a2) = (x[1] as int, x[2] as int);
            let (c1, c2) = (y[1] as int, y[2] as int);
            assert(bx[0] == b64_sym(a / 4) && by[0] == b64_sym(c / 4));
            assert(bx[1] == b64_sym((a % 4) * 16 + a1 / 16) && by[1] == b64_sym((c % 4) * 16 + c1 / 16));
            assert(bx[2] == b64_sym((a1 % 16) * 4 + a2 / 64) && by[2] == b64_sym((c1 % 16) * 4 + c2 / 64));
            assert(bx[3] == b64_sym(a2 % 64) && by[3] == b64_sym(c2 % 64));
            lemma_sym((a % 4) * 16 + a1 / 16, (c % 4) * 16 + c1 / 16);
            lemma_sym((a1 % 16) * 4 + a2 / 64, (c1 % 16) * 4 + c2 / 64);
            lemma_sym(a2 % 64, c2 % 64);
            assert(a == c && a1 == c1 && a2 == c2);
            let tx = x.subrange(3, x.len() as int);
            let ty = y.subrange(3, y.len() as int);
            assert(base64_of(tx) =~= bx.subrange(4, bx.len() as int));
            assert(base64_of(ty) =~= by.subrange(4, by.len() as int));
            lemma_base64_injective(tx, ty);
            assert(x.len() == y.len());
            assert forall|i: int| 0 <= i < x.len() implies x[i] == y[i] by {
                if i >= 3 {
                    assert(x[i] == tx[i - 3]);
                    assert(y[i] == ty[i - 3]);
                }
            }
            assert(x =~= y);
        } else if x.len() >= 3 {
            assert(bx.len() == 4 && by.len() == 4);
            let a2 = x[2] as int;
            lemma_sym(a2 % 64, 0);
            assert(bx[3] == b64_sym(a2 % 64));
            assert(by[3] == 61);
        } else if y.len() >= 3 {
            let c2 = y[2] as int;
            lemma_sym(c2 % 64, 0);
            assert(by[3] == b64_sym(c2 % 64));
            assert(bx[3] == 61);
        } else if x.len() == 1 && y.len() == 2 {
            let c1 = y[1] as int;
            lemma_sym((c1 % 16) * 4, 0);
            assert(by[2] == b64_sym((c1 % 16) * 4));
            assert(bx[2] == 61);
        } else if x.len() == 2 && y.len() == 1 {
            let a1 = x[1] as int;
            lemma_sym((a1 % 16) * 4, 0);
            assert(bx[2] == b64_sym((a1 % 16) * 4));
            assert(by[2] == 61);
        } else if x.len() == 1 {
            assert(bx[1] == b64_sym((a % 4) * 16) && by[1] == b64_sym((c % 4) * 16));
            lemma_sym((a % 4) * 16, (c % 4) * 16);
            assert(a == c);
            assert(x =~= y);
        } else {
            let (a1, c1) = (x[1] as int, y[1] as int);
            assert(bx[1] == b64_sym((a % 4) * 16 + a1 / 16) && by[1] == b64_sym((c % 4) * 16 + c1 / 16));
            assert(bx[2] == b64_sym((a1 % 16) * 4) && by[2] == b64_sym((c1 % 16) * 4));
            lemma_sym((a % 4) * 16 + a1 / 16, (c % 4) * 16 + c1 / 16);
            lemma_sym((a1 % 16) * 4, (c1 % 16) * 4);
            assert(a == c && a1 == c1);
            assert(x =~= y);
        }
    }
}

/// Relies on base64's `STANDARD` engine `encode`: padded RFC 4648 text, standard alphabet.
/// It panics only where the text's length would overflow `usize`.
#[verifier::external_body]
pub(crate) fn base64_encode(data: &[u8]) -> (r: Vec<u8>)
    requires
        data@.len() < usize::MAX / 2,
    ensures
        r@ == base64_of(data@),
{
    BASE64.encode(data).into_bytes()
}

/// Relies on base64's `STANDARD` engine `decode`: it requires canonical padding and no
/// trailing bits, so what it accepts is the encoding of what it returns, and the encoding of
/// any bytes is accepted.
#[verifier::external_body]
pub(crate) fn base64_decode(text: &[u8]) -> (r: Result<Vec<u8>, base64::DecodeError>)
    ensures
        r is Ok ==> base64_of(r->Ok_0@) == text@,
        (exists|x: Seq<u8>| #[trigger] base64_of(x) == text@) ==> r is Ok,
{
    BASE64.decode(text)
}

/// Decodes base64 text: the bytes whose encoding it is, an error where there are none.
pub fn decode_base64(text: &[u8]) -> (r: Result<Vec<u8>, base64::DecodeError>)
    ensures
        r is Ok ==> base64_of(r->Ok_0@) == text@,
        forall|x: Seq<u8>| #[trigger] base64_of(x) == text@ ==> r is Ok && r->Ok_0@ == x,
{
    let r = base64_decode(text);
    proof {
        assert forall|x: Seq<u8>| #[trigger] base64_of(x) == text@ implies r is Ok && r->Ok_0@
            == x by {
            lemma_base64_injective(r->Ok_0@, x);
        }
    }
    r
}

/// The end of the run of base64 bytes that starts at `from`.
pub fn b64_run_end(s: &[u8], from: usize) -> (r: usize)
    requires
        from <= s@.len(),
    ensures
        from <= r <= s@.len(),
        all_b64(s@.subrange(from as int, r as int)),
        r < s@.len() ==> !is_b64_byte(s@[r as int]),
{
    let mut i: usize = from;
    while i < s.len()
        invariant
            from <= i <= s@.len(),
            all_b64(s@.subrange(from as int, i as int)),
        decreases s@.len() - i,
    {
        let c = s[i];
        if !((65 <= c && c <= 90) || (97 <= c && c <= 122) || (48 <= c && c <= 57) || c == 43
            || c == 47 || c == 61) {
            return i;
        }
        i = i + 1;
        assert(s@.subrange(from as int, i as int) =~= s@.subrange(from as int, i - 1).push(c));
    }
    i
}

} // verus!
