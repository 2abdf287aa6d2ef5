//! Bytes as CSS grid gap and area values.
use crate::bytes::{
    digits3, lemma_occurs_concat, lemma_occurs_digits3, occurs_at, push_digits3,
    push_text, read_digits3_after,
};
use crate::stego::records::{framed, read_framed, write_framed, Scheme};
use crate::RainbowError;
use vstd::prelude::*;
use vstd::string::StringSliceAdditionalSpecFns;

verus! {

pub const GRID_HEAD: &'static str = ".stego-container {\n  display: grid;\n  grid-template-columns: repeat(auto-fill, minmax(100px, 1fr));\n";

pub const GRID_FOOT: &'static str = "}\n";

pub const GAP_OPEN: &'static str = "  grid-gap: ";

pub const GAP_CLOSE: &'static str = "px;\n";

pub const AREA_OPEN: &'static str = "  grid-area: a";

pub const AREA_CLOSE: &'static str = ";\n";

/// A byte at an even position is a gap in pixels, one at an odd position an area name.
pub open spec fn track(i: int, b: u8) -> Seq<u8> {
    if i % 2 == 0 {
        GAP_OPEN.spec_bytes() + digits3(b as int) + GAP_CLOSE.spec_bytes()
    } else {
        AREA_OPEN.spec_bytes() + digits3(b as int) + AREA_CLOSE.spec_bytes()
    }
}

/// A style sheet whose grid declarations hide `x`; nothing at all hides nothing.
pub open spec fn is_grid_sheet(s: Seq<u8>, x: Seq<u8>) -> bool {
    (x.len() == 0 && s.len() == 0) || framed(
        Scheme::Track,
        s,
        GRID_HEAD.spec_bytes(),
        x,
        GRID_FOOT.spec_bytes(),
    )
}

proof fn lemma_track_literals()
    ensures
        GAP_OPEN.spec_bytes().len() == 12,
        GAP_CLOSE.spec_bytes().len() == 4,
        AREA_OPEN.spec_bytes().len() == 14,
        AREA_CLOSE.spec_bytes().len() == 2,
{
    reveal_strlit("  grid-gap: ");
    reveal_strlit("px;\n");
    reveal_strlit("  grid-area: a");
    reveal_strlit(";\n");
    vstd::string::is_ascii_spec_bytes(GAP_OPEN);
    vstd::string::is_ascii_spec_bytes(GAP_CLOSE);
    vstd::string::is_ascii_spec_bytes(AREA_OPEN);
    vstd::string::is_ascii_spec_bytes(AREA_CLOSE);
}

pub proof fn lemma_track_width(i: int, b: u8)
    ensures
        track(i, b).len() == track(0, 0).len(),
        track(0, 0).len() > 0,
{
    lemma_track_literals();
}

pub fn write_track(i: usize, b: u8, out: &mut Vec<u8>)
    ensures
        final(out)@ == old(out)@ + track(i as int, b),
{
    if i % 2 == 0 {
        push_text(out, GAP_OPEN);
        push_digits3(out, b as u16);
        push_text(out, GAP_CLOSE);
        assert(out@ =~= old(out)@ + track(i as int, b));
    } else {
        push_text(out, AREA_OPEN);
        push_digits3(out, b as u16);
        push_text(out, AREA_CLOSE);
        assert(out@ =~= old(out)@ + track(i as int, b));
    }
}

pub fn guess_track(s: &[u8], at: usize, i: usize) -> (r: Option<u8>)
    ensures
        forall|b: u8| #[trigger] occurs_at(s@, at as int, track(i as int, b)) ==> r == Some(b),
{
    proof {
        lemma_track_literals();
    }
    let off: usize = if i % 2 == 0 {
        12
    } else {
        14
    };
    let r = match read_digits3_after(s, at, off) {
        Some(v) => if v < 256 {
            Some(v as u8)
        } else {
            None
        },
        None => None,
    };
    proof {
        assert forall|b: u8| #[trigger] occurs_at(s@, at as int, track(i as int, b)) implies r == Some(b) by {
            let (open, close) = if i % 2 == 0 {
                (GAP_OPEN.spec_bytes(), GAP_CLOSE.spec_bytes())
            } else {
                (AREA_OPEN.spec_bytes(), AREA_CLOSE.spec_bytes())
            };
            lemma_occurs_concat(s@, at as int, open + digits3(b as int), close);
            lemma_occurs_concat(s@, at as int, open, digits3(b as int));
            lemma_occurs_digits3(s@, at + off, b as int);
        }
    }
    r
}

/// Hides `data` in the gap and area values of a grid container's style sheet; no data makes
/// no style sheet.
pub fn encode(data: &[u8]) -> (r: Result<Vec<u8>, RainbowError>)
    ensures
        r is Ok && is_grid_sheet(r->Ok_0@, data@),
        data@.len() == 0 <==> r->Ok_0@.len() == 0,
{
    if data.len() == 0 {
        return Ok(Vec::new());
    }
    let r = write_framed(Scheme::Track, GRID_HEAD.as_bytes(), data, GRID_FOOT.as_bytes());
    proof {
        reveal_strlit("}\n");
        vstd::string::is_ascii_spec_bytes(GRID_FOOT);
    }
    Ok(r)
}

/// Recovers what `encode` hid; empty for any other content.
pub fn decode(data: &[u8]) -> (r: Result<Vec<u8>, RainbowError>)
    ensures
        r is Ok,
        forall|x: Seq<u8>| #[trigger] is_grid_sheet(data@, x) ==> r->Ok_0@ == x,
        r->Ok_0@.len() > 0 ==> is_grid_sheet(data@, r->Ok_0@),
{
    let r = read_framed(Scheme::Track, data, GRID_HEAD.as_bytes(), GRID_FOOT.as_bytes());
    proof {
        assert forall|x: Seq<u8>| #[trigger] is_grid_sheet(data@, x) implies r@ == x by {
            if x.len() == 0 && data@.len() == 0 {
                if r@.len() > 0 {
                    assert(framed(Scheme::Track, data@, GRID_HEAD.spec_bytes(), r@, GRID_FOOT.spec_bytes()));
                    crate::stego::records::lemma_records(Scheme::Track, r@);
                    crate::stego::records::lemma_record_width(Scheme::Track, 0, 0);
                    assert(r@.len() * crate::stego::records::width(Scheme::Track) > 0) by (nonlinear_arith)
                        requires
                            r@.len() > 0,
                            crate::stego::records::width(Scheme::Track) > 0,
                    ;
                }
            }
        }
    }
    Ok(r)
}

/// Whether `data` is a grid style sheet that hides something.
pub fn detect(data: &[u8]) -> (r: bool)
    ensures
        r <==> exists|x: Seq<u8>| x.len() > 0 && #[trigger] is_grid_sheet(data@, x),
{
    let found = read_framed(Scheme::Track, data, GRID_HEAD.as_bytes(), GRID_FOOT.as_bytes());
    proof {
        if found@.len() > 0 {
            assert(is_grid_sheet(data@, found@));
        }
    }
    found.len() > 0
}

} // verus!
