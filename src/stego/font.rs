//! Bytes as the axis values of variable-font style rules.
use crate::bytes::{
    all_ascii, lemma_digits3,
    digits3, lemma_occurs_concat, lemma_occurs_digits3, occurs_at, push_digits3, push_text,
    read_digits3_after,
};
use crate::stego::records::{framed, read_framed, write_framed, Scheme};
use crate::RainbowError;
use vstd::prelude::*;
use vstd::string::StringSliceAdditionalSpecFns;

verus! {

pub const FONT_HEAD: &'static str = "<!DOCTYPE html>\n<html>\n<head>\n    <title>Typography Showcase</title>\n    <style>\n        @font-face {\n            font-family: 'Variable';\n            src: url('data:font/woff2;base64,d09GMgABAAA') format('woff2');\n            font-weight: 100 900;\n        }\n";

pub const FONT_FOOT: &'static str = "    </style>\n</head>\n<body>\n    <div class=\"content\">\n        <h1>Typography Examples</h1>\n        <p>Exploring variable fonts in modern web design.</p>\n    </div>\n</body>\n</html>";

pub const RULE_OPEN: &'static str = "        .v";

pub const RULE_WEIGHT: &'static str = " { font-variation-settings: 'wght' ";

pub const RULE_WIDTH: &'static str = ", 'wdth' ";

pub const RULE_SLANT: &'static str = ", 'slnt' ";

pub const RULE_CLOSE: &'static str = "; font-family: 'Variable'; }\n";

/// The weight axis carries the byte's high four bits.
pub open spec fn weight_of(b: u8) -> int {
    100 + (b as int / 16) * 50
}

/// The width axis carries the byte's low four bits.
pub open spec fn width_of(b: u8) -> int {
    100 + (b as int % 16) * 5
}

/// The slant follows the byte's low two bits; it carries nothing the other two lack.
pub open spec fn slant_of(b: u8) -> int {
    (b as int % 4) * 3
}

/// The style rule for the byte `b` of the `i`th glyph class.
pub open spec fn variation(i: int, b: u8) -> Seq<u8> {
    RULE_OPEN.spec_bytes() + digits3(i % 1000) + RULE_WEIGHT.spec_bytes() + digits3(weight_of(b))
        + RULE_WIDTH.spec_bytes() + digits3(width_of(b)) + RULE_SLANT.spec_bytes() + seq![
        (48 + slant_of(b)) as u8,
    ] + RULE_CLOSE.spec_bytes()
}

/// A page whose variable-font rules hide `x`.
pub open spec fn is_font_page(s: Seq<u8>, x: Seq<u8>) -> bool {
    framed(Scheme::Variation, s, FONT_HEAD.spec_bytes(), x, FONT_FOOT.spec_bytes())
}

proof fn lemma_rule_literals()
    ensures
        RULE_OPEN.spec_bytes().len() == 10,
        RULE_WEIGHT.spec_bytes().len() == 35,
        RULE_WIDTH.spec_bytes().len() == 9,
        RULE_SLANT.spec_bytes().len() == 9,
        RULE_CLOSE.spec_bytes().len() == 29,
        all_ascii(RULE_OPEN.spec_bytes()),
        all_ascii(RULE_WEIGHT.spec_bytes()),
        all_ascii(RULE_WIDTH.spec_bytes()),
        all_ascii(RULE_SLANT.spec_bytes()),
        all_ascii(RULE_CLOSE.spec_bytes()),
{
    reveal_strlit("        .v");
    reveal_strlit(" { font-variation-settings: 'wght' ");
    reveal_strlit(", 'wdth' ");
    reveal_strlit(", 'slnt' ");
    reveal_strlit("; font-family: 'Variable'; }\n");
    vstd::string::is_ascii_spec_bytes(RULE_OPEN);
    vstd::string::is_ascii_spec_bytes(RULE_WEIGHT);
    vstd::string::is_ascii_spec_bytes(RULE_WIDTH);
    vstd::string::is_ascii_spec_bytes(RULE_SLANT);
    vstd::string::is_ascii_spec_bytes(RULE_CLOSE);
}

pub proof fn lemma_variation_width(i: int, b: u8)
    ensures
        variation(i, b).len() == variation(0, 0).len(),
        variation(0, 0).len() > 0,
{
    lemma_rule_literals();
}

pub fn write_variation(i: usize, b: u8, out: &mut Vec<u8>)
    ensures
        final(out)@ == old(out)@ + variation(i as int, b),
{
    push_text(out, RULE_OPEN);
    push_digits3(out, (i % 1000) as u16);
    push_text(out, RULE_WEIGHT);
    push_digits3(out, 100 + (b as u16 / 16) * 50);
    push_text(out, RULE_WIDTH);
    push_digits3(out, 100 + (b as u16 % 16) * 5);
    push_text(out, RULE_SLANT);
    out.push(48 + (b % 4) * 3);
    push_text(out, RULE_CLOSE);
    assert(out@ =~= old(out)@ + variation(i as int, b));
}

/// The style rule for `byte` as the `index`th glyph class, as text.
pub fn byte_to_font_variation(byte: u8, index: usize) -> (r: String)
    ensures
        r@ == crate::bytes::ascii_chars(variation(index as int, byte)),
{
    let mut out: Vec<u8> = Vec::new();
    write_variation(index, byte, &mut out);
    proof {
        lemma_rule_literals();
        lemma_digits3(index as int % 1000);
        lemma_digits3(weight_of(byte));
        lemma_digits3(width_of(byte));
        assert(all_ascii(out@));
    }
    crate::bytes::ascii_string(out)
}

pub fn guess_variation(s: &[u8], at: usize) -> (r: Option<u8>)
    ensures
        forall|i: int, b: u8| #[trigger] occurs_at(s@, at as int, variation(i, b)) ==> r == Some(b),
{
    proof {
        lemma_rule_literals();
    }
    let weight = read_digits3_after(s, at, 48);
    let width = read_digits3_after(s, at, 60);
    let r = match (weight, width) {
        (Some(w), Some(d)) => {
            if w >= 100 && d >= 100 && (w - 100) / 50 < 16 && (d - 100) / 5 < 16 {
                Some((((w - 100) / 50) * 16 + (d - 100) / 5) as u8)
            } else {
                None
            }
        },
        _ => None,
    };
    proof {
        assert forall|i: int, b: u8| #[trigger] occurs_at(s@, at as int, variation(i, b)) implies r
            == Some(b) by {
            let lead_weight = RULE_OPEN.spec_bytes() + digits3(i % 1000) + RULE_WEIGHT.spec_bytes();
            let lead_width = lead_weight + digits3(weight_of(b)) + RULE_WIDTH.spec_bytes();
            let lead_close = lead_width + digits3(width_of(b)) + RULE_SLANT.spec_bytes() + seq![(48 + slant_of(b)) as u8];
            lemma_occurs_concat(s@, at as int, lead_close, RULE_CLOSE.spec_bytes());
            lemma_occurs_concat(s@, at as int, lead_width + digits3(width_of(b)) + RULE_SLANT.spec_bytes(), seq![(48 + slant_of(b)) as u8]);
            lemma_occurs_concat(s@, at as int, lead_width + digits3(width_of(b)), RULE_SLANT.spec_bytes());
            lemma_occurs_concat(s@, at as int, lead_width, digits3(width_of(b)));
            lemma_occurs_concat(s@, at as int, lead_weight + digits3(weight_of(b)), RULE_WIDTH.spec_bytes());
            lemma_occurs_concat(s@, at as int, lead_weight, digits3(weight_of(b)));
            lemma_occurs_digits3(s@, at + 48, weight_of(b));
            lemma_occurs_digits3(s@, at + 60, width_of(b));
            assert((b as int / 16) * 16 + b as int % 16 == b);
        }
    }
    r
}

/// Hides `data` in the axis values of variable-font style rules.
pub fn encode(data: &[u8]) -> (r: Result<Vec<u8>, RainbowError>)
    ensures
        r is Ok && is_font_page(r->Ok_0@, data@),
{
    Ok(write_framed(Scheme::Variation, FONT_HEAD.as_bytes(), data, FONT_FOOT.as_bytes()))
}

/// Recovers what `encode` hid; empty for any other content.
pub fn decode(data: &[u8]) -> (r: Result<Vec<u8>, RainbowError>)
    ensures
        r is Ok,
        forall|x: Seq<u8>| #[trigger] is_font_page(data@, x) ==> r->Ok_0@ == x,
        r->Ok_0@.len() > 0 ==> is_font_page(data@, r->Ok_0@),
{
    Ok(read_framed(Scheme::Variation, data, FONT_HEAD.as_bytes(), FONT_FOOT.as_bytes()))
}

} // verus!
