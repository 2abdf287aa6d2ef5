//! Base64 inside a generic XML element.
use crate::stego::carrier::{carries, read_carried, write_carried};
use crate::RainbowError;
use vstd::prelude::*;
use vstd::string::StringSliceAdditionalSpecFns;

verus! {

pub const XML_HEAD: &'static str = "<?xml version=\"1.0\" encoding=\"UTF-8\"?>\n<data>\n    <content encoding=\"base64\">";

pub const XML_TAIL: &'static str = "</content>\n</data>\n";

/// An XML document whose `content` element holds the base64 text of `x`.
pub open spec fn is_xml_wrapper(s: Seq<u8>, x: Seq<u8>) -> bool {
    carries(s, XML_HEAD.spec_bytes(), x)
}

/// Hides `data` as the base64 text of an XML element.
pub fn encode(data: &[u8]) -> (r: Result<Vec<u8>, RainbowError>)
    requires
        data@.len() < usize::MAX / 2,
    ensures
        r is Ok && is_xml_wrapper(r->Ok_0@, data@),
{
    proof {
        reveal_strlit("</content>\n</data>\n");
        vstd::string::is_ascii_spec_bytes(XML_TAIL);
    }
    Ok(write_carried(XML_HEAD.as_bytes(), data, XML_TAIL.as_bytes()))
}

/// Recovers what `encode` hid; empty for any other content.
pub fn decode(data: &[u8]) -> (r: Result<Vec<u8>, RainbowError>)
    ensures
        r is Ok,
        forall|x: Seq<u8>| #[trigger] is_xml_wrapper(data@, x) ==> r->Ok_0@ == x,
        r->Ok_0@.len() > 0 ==> is_xml_wrapper(data@, r->Ok_0@),
{
    Ok(read_carried(data, XML_HEAD.as_bytes()))
}

} // verus!
