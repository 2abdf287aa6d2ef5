//! Bytes as the lengths of relative line segments in SVG path data.
use crate::bytes::{
    digits3, lemma_occurs_concat, lemma_occurs_digits3, occurs_at, push_digits3, push_text,
    read_digits3_after,
};
use crate::stego::records::{framed, read_framed, write_framed, Scheme};
use crate::RainbowError;
use vstd::prelude::*;
use vstd::string::StringSliceAdditionalSpecFns;

verus! {

pub const SVG_HEAD: &'static str = "<svg xmlns=\"http://www.w3.org/2000/svg\" width=\"256\" height=\"64\" viewBox=\"0 0 256 64\">\n  <path d=\"M0,32";

pub const SVG_FOOT: &'static str = "\" stroke=\"black\" fill=\"none\"/>\n</svg>\n";

pub const STEP_OPEN: &'static str = " l";

pub const STEP_CLOSE: &'static str = ",0";

/// A relative line segment whose horizontal length is the byte.
pub open spec fn segment(b: u8) -> Seq<u8> {
    STEP_OPEN.spec_bytes() + digits3(b as int) + STEP_CLOSE.spec_bytes()
}

/// A drawing whose path data hides `x`.
pub open spec fn is_path_drawing(s: Seq<u8>, x: Seq<u8>) -> bool {
    framed(Scheme::Path, s, SVG_HEAD.spec_bytes(), x, SVG_FOOT.spec_bytes())
}

proof fn lemma_step_literals()
    ensures
        STEP_OPEN.spec_bytes().len() == 2,
        STEP_CLOSE.spec_bytes().len() == 2,
{
    reveal_strlit(" l");
    reveal_strlit(",0");
    vstd::string::is_ascii_spec_bytes(STEP_OPEN);
    vstd::string::is_ascii_spec_bytes(STEP_CLOSE);
}

pub proof fn lemma_segment_width(b: u8)
    ensures
        segment(b).len() == segment(0).len(),
        segment(0).len() > 0,
{
    lemma_step_literals();
}

pub fn write_segment(b: u8, out: &mut Vec<u8>)
    ensures
        final(out)@ == old(out)@ + segment(b),
{
    push_text(out, STEP_OPEN);
    push_digits3(out, b as u16);
    push_text(out, STEP_CLOSE);
    assert(out@ =~= old(out)@ + segment(b));
}

pub fn guess_segment(s: &[u8], at: usize) -> (r: Option<u8>)
    ensures
        forall|b: u8| #[trigger] occurs_at(s@, at as int, segment(b)) ==> r == Some(b),
{
    proof {
        lemma_step_literals();
    }
    let r = match read_digits3_after(s, at, 2) {
        Some(v) => if v < 256 {
            Some(v as u8)
        } else {
            None
        },
        None => None,
    };
    proof {
        assert forall|b: u8| #[trigger] occurs_at(s@, at as int, segment(b)) implies r == Some(b) by {
            lemma_occurs_concat(s@, at as int, STEP_OPEN.spec_bytes() + digits3(b as int), STEP_CLOSE.spec_bytes());
            lemma_occurs_concat(s@, at as int, STEP_OPEN.spec_bytes(), digits3(b as int));
            lemma_occurs_digits3(s@, at + 2, b as int);
        }
    }
    r
}

/// Hides `data` in the path data of an SVG drawing.
pub fn encode(data: &[u8]) -> (r: Result<Vec<u8>, RainbowError>)
    ensures
        r is Ok && is_path_drawing(r->Ok_0@, data@),
{
    Ok(write_framed(Scheme::Path, SVG_HEAD.as_bytes(), data, SVG_FOOT.as_bytes()))
}

/// Recovers what `encode` hid; empty for any other content.
pub fn decode(data: &[u8]) -> (r: Result<Vec<u8>, RainbowError>)
    ensures
        r is Ok,
        forall|x: Seq<u8>| #[trigger] is_path_drawing(data@, x) ==> r->Ok_0@ == x,
        r->Ok_0@.len() > 0 ==> is_path_drawing(data@, r->Ok_0@),
{
    Ok(read_framed(Scheme::Path, data, SVG_HEAD.as_bytes(), SVG_FOOT.as_bytes()))
}

} // verus!
