//! Bytes as the colours of CSS paint worklet parameters.
use crate::bytes::{
    digits3, lemma_occurs_concat, lemma_occurs_digits3, occurs_at, push_digits3, push_text,
    read_digits3_after,
};
use crate::stego::records::{framed, read_framed, write_framed, Scheme};
use crate::RainbowError;
use vstd::prelude::*;
use vstd::string::StringSliceAdditionalSpecFns;

verus! {

pub const PAINT_HEAD: &'static str = "{\"worklet\":\"stego-pattern\",\"style\":\".stego-container { background-image: paint(stego-pattern); }\",\"params\":[";

pub const PAINT_FOOT: &'static str = "{\"color\":\"transparent\"}]}";

pub const PARAM_OPEN: &'static str = "{\"color\":\"rgb(";

pub const PARAM_COMMA: &'static str = ",";

pub const PARAM_CLOSE: &'static str = ")\"},";

/// A paint colour for the byte: its top three bits in red, the next three in green, the last
/// two in blue, each scaled up to the channel's range.
pub open spec fn paint_param(b: u8) -> Seq<u8> {
    PARAM_OPEN.spec_bytes() + digits3((b as int / 32) * 32) + PARAM_COMMA.spec_bytes() + digits3(
        ((b as int / 4) % 8) * 32,
    ) + PARAM_COMMA.spec_bytes() + digits3((b as int % 4) * 64) + PARAM_CLOSE.spec_bytes()
}

/// A paint worklet description whose parameter list hides `x`.
pub open spec fn is_paint_worklet(s: Seq<u8>, x: Seq<u8>) -> bool {
    framed(Scheme::Paint, s, PAINT_HEAD.spec_bytes(), x, PAINT_FOOT.spec_bytes())
}

proof fn lemma_param_literals()
    ensures
        PARAM_OPEN.spec_bytes().len() == 14,
        PARAM_COMMA.spec_bytes().len() == 1,
        PARAM_CLOSE.spec_bytes().len() == 4,
{
    reveal_strlit("{\"color\":\"rgb(");
    reveal_strlit(",");
    reveal_strlit(")\"},");
    vstd::string::is_ascii_spec_bytes(PARAM_OPEN);
    vstd::string::is_ascii_spec_bytes(PARAM_COMMA);
    vstd::string::is_ascii_spec_bytes(PARAM_CLOSE);
}

pub proof fn lemma_paint_width(b: u8)
    ensures
        paint_param(b).len() == paint_param(0).len(),
        paint_param(0).len() > 0,
{
    lemma_param_literals();
}

pub fn write_paint_param(b: u8, out: &mut Vec<u8>)
    ensures
        final(out)@ == old(out)@ + paint_param(b),
{
    push_text(out, PARAM_OPEN);
    push_digits3(out, (b as u16 / 32) * 32);
    push_text(out, PARAM_COMMA);
    push_digits3(out, ((b as u16 / 4) % 8) * 32);
    push_text(out, PARAM_COMMA);
    push_digits3(out, (b as u16 % 4) * 64);
    push_text(out, PARAM_CLOSE);
    assert(out@ =~= old(out)@ + paint_param(b));
}

proof fn lemma_channels(b: u8)
    ensures
        ((b as int / 32) * 32) / 32 * 32 + ((((b as int / 4) % 8) * 32) / 32) * 4 + ((b as int % 4)
            * 64) / 64 == b,
        (b as int / 32) * 32 < 256,
        ((b as int / 4) % 8) * 32 < 256,
        (b as int % 4) * 64 < 256,
{
}

pub fn guess_paint_param(s: &[u8], at: usize) -> (r: Option<u8>)
    ensures
        forall|b: u8| #[trigger] occurs_at(s@, at as int, paint_param(b)) ==> r == Some(b),
{
    proof {
        lemma_param_literals();
    }
    let red = read_digits3_after(s, at, 14);
    let green = read_digits3_after(s, at, 18);
    let blue = read_digits3_after(s, at, 22);
    let r = match (red, green, blue) {
        (Some(x), Some(y), Some(z)) => {
            let v = (x / 32) * 32 + (y / 32) * 4 + z / 64;
            if v < 256 {
                Some(v as u8)
            } else {
                None
            }
        },
        _ => None,
    };
    proof {
        assert forall|b: u8| #[trigger] occurs_at(s@, at as int, paint_param(b)) implies r == Some(b) by {
            let open = PARAM_OPEN.spec_bytes();
            let comma = PARAM_COMMA.spec_bytes();
            let dr = digits3((b as int / 32) * 32);
            let dg = digits3(((b as int / 4) % 8) * 32);
            let db = digits3((b as int % 4) * 64);
            let before_close = open + dr + comma + dg + comma + db;
            lemma_occurs_concat(s@, at as int, before_close, PARAM_CLOSE.spec_bytes());
            lemma_occurs_concat(s@, at as int, open + dr + comma + dg + comma, db);
            lemma_occurs_concat(s@, at as int, open + dr + comma + dg, comma);
            lemma_occurs_concat(s@, at as int, open + dr + comma, dg);
            lemma_occurs_concat(s@, at as int, open + dr, comma);
            lemma_occurs_concat(s@, at as int, open, dr);
            lemma_occurs_digits3(s@, at + 14, (b as int / 32) * 32);
            lemma_occurs_digits3(s@, at + 18, ((b as int / 4) % 8) * 32);
            lemma_occurs_digits3(s@, at + 22, (b as int % 4) * 64);
            lemma_channels(b);
        }
    }
    r
}

/// Hides `data` in the colour parameters of a CSS paint worklet.
pub fn encode(data: &[u8]) -> (r: Result<Vec<u8>, RainbowError>)
    ensures
        r is Ok && is_paint_worklet(r->Ok_0@, data@),
{
    Ok(write_framed(Scheme::Paint, PAINT_HEAD.as_bytes(), data, PAINT_FOOT.as_bytes()))
}

/// Recovers what `encode` hid; empty for any other content.
pub fn decode(data: &[u8]) -> (r: Result<Vec<u8>, RainbowError>)
    ensures
        r is Ok,
        forall|x: Seq<u8>| #[trigger] is_paint_worklet(data@, x) ==> r->Ok_0@ == x,
        r->Ok_0@.len() > 0 ==> is_paint_worklet(data@, r->Ok_0@),
{
    Ok(read_framed(Scheme::Paint, data, PAINT_HEAD.as_bytes(), PAINT_FOOT.as_bytes()))
}

} // verus!
