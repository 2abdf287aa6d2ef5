//! Base64 as the GUID of an RSS item.
use crate::bytes::{push_bytes, push_text};
use crate::stego::carrier::{carries, push_base64, read_carried};
use crate::RainbowError;
use vstd::prelude::*;
use vstd::string::StringSliceAdditionalSpecFns;

verus! {

pub const RSS_HEAD: &'static str = "<?xml version=\"1.0\" encoding=\"UTF-8\" ?>\n<rss version=\"2.0\">\n<channel>\n    <title>Rainbow RSS Feed</title>\n    <link>http://example.com/feed</link>\n    <description>A steganographic RSS feed</description>\n    <language>en-us</language>\n    <item>\n        <title>Hidden Data</title>\n        <link>http://example.com/item/1</link>\n        <description>This item contains hidden data</description>\n        <guid isPermaLink=\"false\">";

pub const RSS_GUID_END: &'static str = "</guid>\n        <pubDate>";

pub const RSS_END: &'static str = "</pubDate>\n    </item>\n</channel>\n</rss>";

/// Used where the clock reads a time that cannot be written as a date.
pub const EPOCH_DATE: &'static str = "Thu, 01 Jan 1970 00:00:00 GMT";

/// A feed whose item GUID is the base64 text of `x`.
pub open spec fn is_rss_feed(s: Seq<u8>, x: Seq<u8>) -> bool {
    carries(s, RSS_HEAD.spec_bytes(), x)
}

/// The current time as an RFC 822 date.
fn rfc822_now() -> (r: Vec<u8>) {
    match crate::clock::http_date(crate::clock::unix_now()) {
        Some(d) => d,
        None => {
            let mut d: Vec<u8> = Vec::new();
            push_text(&mut d, EPOCH_DATE);
            d
        },
    }
}

/// Hides `data` as the GUID of a dated RSS item.
pub fn encode(data: &[u8]) -> (r: Result<Vec<u8>, RainbowError>)
    requires
        data@.len() < usize::MAX / 2,
    ensures
        r is Ok && is_rss_feed(r->Ok_0@, data@),
{
    let date = rfc822_now();
    let mut out: Vec<u8> = Vec::new();
    push_text(&mut out, RSS_HEAD);
    push_base64(&mut out, data);
    let ghost body = out@;
    push_text(&mut out, RSS_GUID_END);
    push_bytes(&mut out, date.as_slice());
    push_text(&mut out, RSS_END);
    proof {
        reveal_strlit("</guid>\n        <pubDate>");
        vstd::string::is_ascii_spec_bytes(RSS_GUID_END);
        let h = RSS_HEAD.spec_bytes();
        let b = crate::b64::base64_of(data@);
        assert(body == h + b);
        assert(out@.subrange(0, h.len() as int) =~= h);
        assert(out@.subrange(h.len() as int, (h.len() + b.len()) as int) =~= b);
        assert(out@[(h.len() + b.len()) as int] == RSS_GUID_END.spec_bytes()[0]);
    }
    Ok(out)
}

/// Recovers what `encode` hid; empty for any other content.
pub fn decode(data: &[u8]) -> (r: Result<Vec<u8>, RainbowError>)
    ensures
        r is Ok,
        forall|x: Seq<u8>| #[trigger] is_rss_feed(data@, x) ==> r->Ok_0@ == x,
        r->Ok_0@.len() > 0 ==> is_rss_feed(data@, r->Ok_0@),
{
    Ok(read_carried(data, RSS_HEAD.as_bytes()))
}

} // verus!
