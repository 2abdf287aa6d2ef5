//! Documents that carry base64 text right after a fixed head.
use crate::b64::{b64_run_end, decode_base64, base64_encode, base64_of, is_b64_byte, lemma_base64_shape};
use crate::bytes::{copy_range, has_prefix, occurs_at, push_bytes, starts_with};
use vstd::prelude::*;

verus! {

/// `s` is `head`, then the base64 text of `x`, then anything that does not start with a base64
/// byte.
pub open spec fn carries(s: Seq<u8>, head: Seq<u8>, x: Seq<u8>) -> bool {
    let b = base64_of(x);
    has_prefix(s, head) && occurs_at(s, head.len() as int, b) && (s.len() == head.len() + b.len()
        || !is_b64_byte(s[(head.len() + b.len()) as int]))
}

/// Appends the base64 text of `data`.
pub fn push_base64(out: &mut Vec<u8>, data: &[u8])
    requires
        data@.len() < usize::MAX / 2,
    ensures
        final(out)@ == old(out)@ + base64_of(data@),
{
    let text = base64_encode(data);
    push_bytes(out, text.as_slice());
}

/// A document that carries `data` between `head` and `tail`.
pub fn write_carried(head: &[u8], data: &[u8], tail: &[u8]) -> (r: Vec<u8>)
    requires
        data@.len() < usize::MAX / 2,
        tail@.len() > 0 ==> !is_b64_byte(tail@[0]),
    ensures
        carries(r@, head@, data@),
        r@ == head@ + base64_of(data@) + tail@,
{
    let mut out: Vec<u8> = Vec::new();
    push_bytes(&mut out, head);
    push_base64(&mut out, data);
    push_bytes(&mut out, tail);
    proof {
        let b = base64_of(data@);
        assert(out@.subrange(0, head@.len() as int) =~= head@);
        assert(out@.subrange(head@.len() as int, (head@.len() + b.len()) as int) =~= b);
        if tail@.len() > 0 {
            assert(out@[(head@.len() + b.len()) as int] == tail@[0]);
        }
    }
    out
}

/// The bytes carried after `head` in `s`; empty where `s` carries nothing there.
pub fn read_carried(s: &[u8], head: &[u8]) -> (r: Vec<u8>)
    ensures
        forall|x: Seq<u8>| #[trigger] carries(s@, head@, x) ==> r@ == x,
        r@.len() > 0 ==> carries(s@, head@, r@),
{
    if !starts_with(s, head) {
        return Vec::new();
    }
    let start = head.len();
    let end = b64_run_end(s, start);
    let text = copy_range(s, start, end);
    proof {
        assert forall|x: Seq<u8>| #[trigger] carries(s@, head@, x) implies text@ == base64_of(x) by {
            let b = base64_of(x);
            lemma_base64_shape(x);
            assert(s@.subrange(start as int, start + b.len()) == b);
            if end < start + b.len() {
                assert(s@[end as int] == b[end - start]);
            } else if end > start + b.len() {
                assert(s@.subrange(start as int, end as int)[b.len() as int] == s@[start + b.len()]);
            }
        }
    }
    match decode_base64(text.as_slice()) {
        Ok(v) => {
            proof {
                let b = base64_of(v@);
                if v@.len() > 0 {
                    assert(b == text@);
                    assert(s@.subrange(start as int, start + b.len()) =~= b);
                }
            }
            v
        },
        Err(_) => Vec::new(),
    }
}

} // verus!
