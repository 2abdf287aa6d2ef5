//! Bits as CSS animation delays: 0.1s for a set bit, 0.2s for a clear one.
use crate::bytes::{
    digits3, lemma_occurs_concat, occurs_at, push_digits3, push_text,
};
use crate::stego::records::{framed, read_framed, write_framed, Scheme};
use crate::RainbowError;
use vstd::prelude::*;
use vstd::string::StringSliceAdditionalSpecFns;

verus! {

pub const CSS_HEAD: &'static str = "<!DOCTYPE html>\n<html>\n<head>\n    <title>Dynamic Content</title>\n    <style>\n        .content { font-family: Arial; line-height: 1.6; }\n        @keyframes pulse { 0% { opacity: 1; } 100% { opacity: 1; } }\n";

pub const CSS_FOOT: &'static str = "    </style>\n</head>\n<body>\n    <div class=\"content\">Experience smooth animations and transitions.</div>\n</body>\n</html>";

pub const DELAY_OPEN: &'static str = "        #e";

pub const DELAY_MID: &'static str = " { animation: pulse 1s; animation-delay: ";

pub const DELAY_CLOSE: &'static str = " }\n";

/// The value of bit `j` of a byte, counting from the most significant.
pub open spec fn bit_weight(j: int) -> int {
    if j == 0 {
        128
    } else if j == 1 {
        64
    } else if j == 2 {
        32
    } else if j == 3 {
        16
    } else if j == 4 {
        8
    } else if j == 5 {
        4
    } else if j == 6 {
        2
    } else {
        1
    }
}

/// What is left of a byte's value once its first `j` bits are read.
pub open spec fn span(j: int) -> int {
    if j == 0 {
        256
    } else {
        bit_weight(j - 1)
    }
}

/// How many values the first `j` bits can take.
pub open spec fn reach(j: int) -> int {
    if j == 0 {
        1
    } else if j == 1 {
        2
    } else if j == 2 {
        4
    } else if j == 3 {
        8
    } else if j == 4 {
        16
    } else if j == 5 {
        32
    } else if j == 6 {
        64
    } else if j == 7 {
        128
    } else {
        256
    }
}

proof fn lemma_halving(b: int, w: int)
    requires
        0 <= b,
        0 < w,
    ensures
        2 * (b / (2 * w)) + (b / w) % 2 == b / w,
{
    vstd::arithmetic::div_mod::lemma_div_denominator(b, w, 2);
    assert(w * 2 == 2 * w);
}

/// Bit `j` of `b`, counting from the most significant.
pub open spec fn bit_of(b: u8, j: int) -> bool {
    (b as int / bit_weight(j)) % 2 == 1
}

/// The `p`th character of `0.Xs` for bit `j`, where `X` is 1 for a set bit and 2 for a clear
/// one, followed by `,` or, after the last bit, `;`.
pub open spec fn delay_char(b: u8, j: int, p: int) -> u8 {
    if p == 0 {
        48u8
    } else if p == 1 {
        46u8
    } else if p == 2 {
        if bit_of(b, j) {
            49u8
        } else {
            50u8
        }
    } else if p == 3 {
        115u8
    } else if j == 7 {
        59u8
    } else {
        44u8
    }
}

/// The eight delays that carry the bits of `b`, most significant first.
pub open spec fn delay_list(b: u8) -> Seq<u8> {
    Seq::new(40, |q: int| delay_char(b, q / 5, q % 5))
}

/// The animation rule of the `i`th element, for the byte `b`.
pub open spec fn delays(i: int, b: u8) -> Seq<u8> {
    DELAY_OPEN.spec_bytes() + digits3(i % 1000) + DELAY_MID.spec_bytes() + delay_list(b)
        + DELAY_CLOSE.spec_bytes()
}

/// A page whose animation delays hide `x`.
pub open spec fn is_animation_page(s: Seq<u8>, x: Seq<u8>) -> bool {
    framed(Scheme::Delays, s, CSS_HEAD.spec_bytes(), x, CSS_FOOT.spec_bytes())
}

proof fn lemma_delay_literals()
    ensures
        DELAY_OPEN.spec_bytes().len() == 10,
        DELAY_MID.spec_bytes().len() == 41,
        DELAY_CLOSE.spec_bytes().len() == 3,
{
    reveal_strlit("        #e");
    reveal_strlit(" { animation: pulse 1s; animation-delay: ");
    reveal_strlit(" }\n");
    vstd::string::is_ascii_spec_bytes(DELAY_OPEN);
    vstd::string::is_ascii_spec_bytes(DELAY_MID);
    vstd::string::is_ascii_spec_bytes(DELAY_CLOSE);
}

pub proof fn lemma_delays_width(i: int, b: u8)
    ensures
        delays(i, b).len() == delays(0, 0).len(),
        delays(0, 0).len() > 0,
{
    lemma_delay_literals();
}

fn weight(j: usize) -> (r: u8)
    requires
        j < 8,
    ensures
        r == bit_weight(j as int),
{
    if j == 0 {
        128
    } else if j == 1 {
        64
    } else if j == 2 {
        32
    } else if j == 3 {
        16
    } else if j == 4 {
        8
    } else if j == 5 {
        4
    } else if j == 6 {
        2
    } else {
        1
    }
}

pub fn write_delays(i: usize, b: u8, out: &mut Vec<u8>)
    ensures
        final(out)@ == old(out)@ + delays(i as int, b),
{
    push_text(out, DELAY_OPEN);
    push_digits3(out, (i % 1000) as u16);
    push_text(out, DELAY_MID);
    let ghost before = out@;
    let mut j: usize = 0;
    while j < 8
        invariant
            j <= 8,
            out@ == before + delay_list(b).subrange(0, 5 * j),
        decreases 8 - j,
    {
        let set = (b / weight(j)) % 2 == 1;
        out.push(48);
        out.push(46);
        out.push(if set { 49 } else { 50 });
        out.push(115);
        out.push(if j == 7 { 59 } else { 44 });
        j = j + 1;
        assert(out@ =~= before + delay_list(b).subrange(0, 5 * j));
    }
    assert(delay_list(b).subrange(0, 40) =~= delay_list(b));
    push_text(out, DELAY_CLOSE);
    assert(out@ =~= old(out)@ + delays(i as int, b));
}

pub fn guess_delays(s: &[u8], at: usize) -> (r: Option<u8>)
    ensures
        forall|i: int, b: u8| #[trigger] occurs_at(s@, at as int, delays(i, b)) ==> r == Some(b),
{
    proof {
        lemma_delay_literals();
    }
    if at > s.len() || s.len() - at < 94 {
        return None;
    }
    let base: usize = at + 56;
    let mut v: u16 = 0;
    let mut j: usize = 0;
    while j < 8
        invariant
            j <= 8,
            base == at + 56,
            at + 94 <= s.len(),
            v < reach(j as int),
            forall|i: int, b: u8| #[trigger] occurs_at(s@, at as int, delays(i, b)) ==> v as int
                == b as int / span(j as int),
        decreases 8 - j,
    {
        let c = s[base + 5 * j];
        let bit: u16 = if c == 49 {
            1
        } else {
            0
        };
        proof {
            assert forall|i: int, b: u8| #[trigger] occurs_at(s@, at as int, delays(i, b)) implies
                v * 2 + bit == b as int / span(j + 1) by {
                let pre = DELAY_OPEN.spec_bytes() + digits3(i % 1000) + DELAY_MID.spec_bytes();
                lemma_occurs_concat(s@, at as int, pre + delay_list(b), DELAY_CLOSE.spec_bytes());
                lemma_occurs_concat(s@, at as int, pre, delay_list(b));
                let q = 5 * j + 2;
                lemma_delay_literals();
                assert(pre.len() == 54);
                assert(s@.subrange(at + 54, at + 94) == delay_list(b));
                assert(s@.subrange(at + 54, at + 94)[q as int] == s@[at + 54 + q]);
                assert(delay_list(b)[q as int] == delay_char(b, j as int, 2));
                assert(c == delay_list(b)[q as int]);
                assert((c == 49) == bit_of(b, j as int));
                assert(bit as int == (b as int / bit_weight(j as int)) % 2);
                assert(reach(j + 1) == 2 * reach(j as int));
                assert(span(j as int) == 2 * bit_weight(j as int));
                assert(span(j + 1) == bit_weight(j as int));
                lemma_halving(b as int, bit_weight(j as int));
            }
        }
        assert(reach(j + 1) == 2 * reach(j as int));
        v = v * 2 + bit;
        j = j + 1;
    }
    Some(v as u8)
}

/// Hides `data` one bit per animation delay: 0.1s for a set bit, 0.2s for a clear one.
pub fn encode(data: &[u8]) -> (r: Result<Vec<u8>, RainbowError>)
    ensures
        r is Ok && is_animation_page(r->Ok_0@, data@),
{
    Ok(write_framed(Scheme::Delays, CSS_HEAD.as_bytes(), data, CSS_FOOT.as_bytes()))
}

/// Recovers what `encode` hid; empty for any other content.
pub fn decode(data: &[u8]) -> (r: Result<Vec<u8>, RainbowError>)
    ensures
        r is Ok,
        forall|x: Seq<u8>| #[trigger] is_animation_page(data@, x) ==> r->Ok_0@ == x,
        r->Ok_0@.len() > 0 ==> is_animation_page(data@, r->Ok_0@),
{
    Ok(read_framed(Scheme::Delays, data, CSS_HEAD.as_bytes(), CSS_FOOT.as_bytes()))
}

} // verus!
