//! Base64 as the `metadata` field of a JSON document.
use crate::bytes::{push_decimal, push_text};
use crate::stego::carrier::{carries, push_base64, read_carried};
use crate::RainbowError;
use vstd::prelude::*;
use vstd::string::StringSliceAdditionalSpecFns;

verus! {

pub const JSON_HEAD: &'static str = "{\"type\":\"metadata\",\"version\":\"1.0\",\"metadata\":\"";

pub const JSON_TAIL_TIME: &'static str = "\",\"timestamp\":";

pub const JSON_TAIL_END: &'static str = ",\"description\":\"System configuration and metadata\"}";

/// A metadata document whose `metadata` field holds the base64 text of `x`.
pub open spec fn is_metadata_document(s: Seq<u8>, x: Seq<u8>) -> bool {
    carries(s, JSON_HEAD.spec_bytes(), x)
}

/// Hides `data` as the base64 `metadata` field of a JSON document stamped with the time.
pub fn encode(data: &[u8]) -> (r: Result<Vec<u8>, RainbowError>)
    requires
        data@.len() < usize::MAX / 2,
    ensures
        r is Ok && is_metadata_document(r->Ok_0@, data@),
{
    let now = crate::clock::unix_now();
    let stamp: u64 = if now < 0 {
        0
    } else {
        now as u64
    };
    let mut out: Vec<u8> = Vec::new();
    push_text(&mut out, JSON_HEAD);
    push_base64(&mut out, data);
    let ghost body = out@;
    push_text(&mut out, JSON_TAIL_TIME);
    push_decimal(&mut out, stamp);
    push_text(&mut out, JSON_TAIL_END);
    proof {
        reveal_strlit("\",\"timestamp\":");
        vstd::string::is_ascii_spec_bytes(JSON_TAIL_TIME);
        let h = JSON_HEAD.spec_bytes();
        let b = crate::b64::base64_of(data@);
        assert(body == h + b);
        assert(out@.subrange(0, h.len() as int) =~= h);
        assert(out@.subrange(h.len() as int, (h.len() + b.len()) as int) =~= b);
        assert(out@[(h.len() + b.len()) as int] == JSON_TAIL_TIME.spec_bytes()[0]);
    }
    Ok(out)
}

/// Recovers what `encode` hid; empty for any other content.
pub fn decode(data: &[u8]) -> (r: Result<Vec<u8>, RainbowError>)
    ensures
        r is Ok,
        forall|x: Seq<u8>| #[trigger] is_metadata_document(data@, x) ==> r->Ok_0@ == x,
        r->Ok_0@.len() > 0 ==> is_metadata_document(data@, r->Ok_0@),
{
    Ok(read_carried(data, JSON_HEAD.as_bytes()))
}

} // verus!
