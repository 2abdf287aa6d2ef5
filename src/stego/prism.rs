//! One base64 character at the bottom of each nest of wrapper elements.
use crate::b64::{decode_base64, base64_of};
use crate::bytes::{lemma_occurs_concat, occurs_at, push_text};
use crate::stego::carrier::push_base64;
use crate::stego::records::{framed, read_framed, write_framed, Scheme};
use crate::RainbowError;
use vstd::prelude::*;
use vstd::string::StringSliceAdditionalSpecFns;

verus! {

pub const PRISM_HEAD: &'static str = "<!DOCTYPE html>\n<html>\n<head>\n<title>Page Title</title>\n</head>\n<body>\n    <div class=\"container\">\n";

pub const PRISM_FOOT: &'static str = "    </div>\n</body>\n</html>\n";

pub const NEST_OPEN: &'static str = "        <div class=\"l1\"><div class=\"l2\"><div class=\"l3\">";

pub const NEST_CLOSE: &'static str = "</div></div></div>\n";

/// One character of the base64 text, at the bottom of nested wrapper elements.
pub open spec fn nested(c: u8) -> Seq<u8> {
    NEST_OPEN.spec_bytes() + seq![c] + NEST_CLOSE.spec_bytes()
}

/// A page whose nested elements spell out the base64 text of `x`.
pub open spec fn is_nested_page(s: Seq<u8>, x: Seq<u8>) -> bool {
    framed(Scheme::Nested, s, PRISM_HEAD.spec_bytes(), base64_of(x), PRISM_FOOT.spec_bytes())
}

proof fn lemma_nest_literals()
    ensures
        NEST_OPEN.spec_bytes().len() == 56,
        NEST_CLOSE.spec_bytes().len() == 19,
{
    reveal_strlit("        <div class=\"l1\"><div class=\"l2\"><div class=\"l3\">");
    reveal_strlit("</div></div></div>\n");
    vstd::string::is_ascii_spec_bytes(NEST_OPEN);
    vstd::string::is_ascii_spec_bytes(NEST_CLOSE);
}

pub proof fn lemma_nested_width(c: u8)
    ensures
        nested(c).len() == nested(0).len(),
        nested(0).len() > 0,
{
    lemma_nest_literals();
}

pub fn write_nested(c: u8, out: &mut Vec<u8>)
    ensures
        final(out)@ == old(out)@ + nested(c),
{
    push_text(out, NEST_OPEN);
    out.push(c);
    push_text(out, NEST_CLOSE);
    assert(out@ =~= old(out)@ + nested(c));
}

pub fn guess_nested(s: &[u8], at: usize) -> (r: Option<u8>)
    ensures
        forall|c: u8| #[trigger] occurs_at(s@, at as int, nested(c)) ==> r == Some(c),
{
    proof {
        lemma_nest_literals();
    }
    if at > s.len() || s.len() - at <= 56 {
        return None;
    }
    let c = s[at + 56];
    proof {
        assert forall|d: u8| #[trigger] occurs_at(s@, at as int, nested(d)) implies c == d by {
            lemma_occurs_concat(s@, at as int, NEST_OPEN.spec_bytes() + seq![d], NEST_CLOSE.spec_bytes());
            lemma_occurs_concat(s@, at as int, NEST_OPEN.spec_bytes(), seq![d]);
            assert(s@.subrange(at + 56, at + 57)[0] == s@[at + 56]);
        }
    }
    Some(c)
}

/// Hides the base64 text of `data` one character per nest of wrapper elements.
pub fn encode(data: &[u8]) -> (r: Result<Vec<u8>, RainbowError>)
    requires
        data@.len() < usize::MAX / 2,
    ensures
        r is Ok && is_nested_page(r->Ok_0@, data@),
{
    let mut text: Vec<u8> = Vec::new();
    push_base64(&mut text, data);
    assert(text@ =~= base64_of(data@));
    Ok(write_framed(Scheme::Nested, PRISM_HEAD.as_bytes(), text.as_slice(), PRISM_FOOT.as_bytes()))
}

/// Recovers what `encode` hid; empty for any other content.
pub fn decode(data: &[u8]) -> (r: Result<Vec<u8>, RainbowError>)
    ensures
        r is Ok,
        forall|x: Seq<u8>| #[trigger] is_nested_page(data@, x) ==> r->Ok_0@ == x,
        r->Ok_0@.len() > 0 ==> is_nested_page(data@, r->Ok_0@),
{
    let text = read_framed(Scheme::Nested, data, PRISM_HEAD.as_bytes(), PRISM_FOOT.as_bytes());
    match decode_base64(text.as_slice()) {
        Ok(v) => {
            proof {
                if v@.len() > 0 {
                    crate::b64::lemma_base64_shape(v@);
                    assert(text@.len() > 0);
                }
            }
            Ok(v)
        },
        Err(_) => {
            proof {
                assert forall|x: Seq<u8>| #[trigger] is_nested_page(data@, x) implies false by {
                    assert(text@ == base64_of(x));
                }
            }
            Ok(Vec::new())
        },
    }
}

} // verus!
