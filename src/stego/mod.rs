//! The codecs and the MIME-keyed registry that picks one to encode and tries them in order
//! to decode.
use crate::bytes::has_prefix;
use crate::stego::carrier::carries;
use crate::stego::records::{framed, Scheme};
use crate::RainbowError;
use rand::rngs::StdRng;
use vstd::prelude::*;
use vstd::string::StringSliceAdditionalSpecFns;

pub mod audio;
pub mod carrier;
pub mod css;
pub mod font;
pub mod grid;
pub mod houdini;
pub mod html;
pub mod json;
pub mod prism;
pub mod records;
pub mod rss;
pub mod svg_path;
pub mod xml;

use audio::AudioEncoder;

verus! {

/// A steganographic codec: a representation that hides bytes and gives them back.
pub trait Encoder {
    fn name(&self) -> &'static str;

    fn encode(&self, data: &[u8]) -> Result<Vec<u8>, RainbowError>;

    fn decode(&self, content: &[u8]) -> Result<Vec<u8>, RainbowError>;
}

impl Encoder for AudioEncoder {
    fn name(&self) -> &'static str {
        "audio"
    }

    fn encode(&self, data: &[u8]) -> (r: Result<Vec<u8>, RainbowError>)
        ensures
            data@.len() < usize::MAX / 64 ==> r is Ok && audio::is_audio_clip(r->Ok_0@, data@),
            data@.len() >= usize::MAX / 64 ==> r is Err && r->Err_0 is EncodeFailed,
    {
        if data.len() >= usize::MAX / 64 {
            return Err(RainbowError::EncodeFailed("data too long for an audio clip".to_string()));
        }
        Ok(self.encode_bytes(data))
    }

    fn decode(&self, content: &[u8]) -> (r: Result<Vec<u8>, RainbowError>)
        ensures
            r is Ok,
            forall|x: Seq<u8>| #[trigger] audio::is_audio_clip(content@, x) ==> r->Ok_0@ == x,
            r->Ok_0@.len() > 0 ==> audio::is_audio_clip(content@, r->Ok_0@),
    {
        Ok(self.decode_bytes(content))
    }
}

/// The MIME types that have codecs, as text.
pub const MIME_TYPES: [&'static str; 6] = [
    "text/html",
    "text/css",
    "application/json",
    "application/xml",
    "audio/wav",
    "image/svg+xml",
];

pub const TEXT_HTML: &'static str = "text/html";

pub const TEXT_CSS: &'static str = "text/css";

pub const APPLICATION_JSON: &'static str = "application/json";

pub const APPLICATION_XML: &'static str = "application/xml";

pub const AUDIO_WAV: &'static str = "audio/wav";

pub const IMAGE_SVG: &'static str = "image/svg+xml";

/// What a body of type `mime` looks like when it hides `x`: the output of one of the codecs
/// registered for the type, or `x` itself for a type with none.
pub open spec fn hides(mime: Seq<u8>, s: Seq<u8>, x: Seq<u8>) -> bool {
    if mime == TEXT_HTML.spec_bytes() {
        html::is_html_comment_page(s, x) || prism::is_nested_page(s, x) || font::is_font_page(s, x)
    } else if mime == TEXT_CSS.spec_bytes() {
        css::is_animation_page(s, x) || houdini::is_paint_worklet(s, x) || grid::is_grid_sheet(s, x)
    } else if mime == APPLICATION_JSON.spec_bytes() {
        json::is_metadata_document(s, x)
    } else if mime == APPLICATION_XML.spec_bytes() {
        xml::is_xml_wrapper(s, x) || rss::is_rss_feed(s, x)
    } else if mime == AUDIO_WAV.spec_bytes() {
        audio::is_audio_clip(s, x)
    } else if mime == IMAGE_SVG.spec_bytes() {
        svg_path::is_path_drawing(s, x)
    } else {
        s == x
    }
}

/// A framed document starts with its head.
proof fn lemma_framed_head(k: Scheme, s: Seq<u8>, head: Seq<u8>, x: Seq<u8>, foot: Seq<u8>)
    requires
        framed(k, s, head, x, foot),
    ensures
        has_prefix(s, head),
{
    assert(s.subrange(0, head.len() as int) =~= head);
}

/// The codecs registered for one MIME type never produce the same document.
proof fn lemma_codecs_apart()
    ensures
        forall|s: Seq<u8>, x: Seq<u8>, y: Seq<u8>|
            #[trigger] html::is_html_comment_page(s, x) ==> !#[trigger] prism::is_nested_page(s, y),
        forall|s: Seq<u8>, x: Seq<u8>, y: Seq<u8>|
            #[trigger] html::is_html_comment_page(s, x) ==> !#[trigger] font::is_font_page(s, y),
        forall|s: Seq<u8>, x: Seq<u8>, y: Seq<u8>|
            #[trigger] prism::is_nested_page(s, x) ==> !#[trigger] font::is_font_page(s, y),
        forall|s: Seq<u8>, x: Seq<u8>, y: Seq<u8>|
            #[trigger] css::is_animation_page(s, x) ==> !#[trigger] houdini::is_paint_worklet(s, y),
        forall|s: Seq<u8>, x: Seq<u8>, y: Seq<u8>|
            #[trigger] css::is_animation_page(s, x) ==> !#[trigger] grid::is_grid_sheet(s, y),
        forall|s: Seq<u8>, x: Seq<u8>, y: Seq<u8>|
            #[trigger] houdini::is_paint_worklet(s, x) ==> !#[trigger] grid::is_grid_sheet(s, y),
        forall|s: Seq<u8>, x: Seq<u8>, y: Seq<u8>|
            #[trigger] xml::is_xml_wrapper(s, x) ==> !#[trigger] rss::is_rss_feed(s, y),
{
    assert forall|s: Seq<u8>, x: Seq<u8>, y: Seq<u8>|
        #[trigger] html::is_html_comment_page(s, x) implies !#[trigger] prism::is_nested_page(s, y) by {
        lemma_codec_isolation(Codec::HtmlComment, Codec::Nested, s, x, y);
    }
    assert forall|s: Seq<u8>, x: Seq<u8>, y: Seq<u8>|
        #[trigger] html::is_html_comment_page(s, x) implies !#[trigger] font::is_font_page(s, y) by {
        lemma_codec_isolation(Codec::HtmlComment, Codec::FontVariation, s, x, y);
    }
    assert forall|s: Seq<u8>, x: Seq<u8>, y: Seq<u8>|
        #[trigger] prism::is_nested_page(s, x) implies !#[trigger] font::is_font_page(s, y) by {
        lemma_codec_isolation(Codec::Nested, Codec::FontVariation, s, x, y);
    }
    assert forall|s: Seq<u8>, x: Seq<u8>, y: Seq<u8>|
        #[trigger] css::is_animation_page(s, x) implies !#[trigger] houdini::is_paint_worklet(s, y) by {
        lemma_codec_isolation(Codec::Keyframes, Codec::Paint, s, x, y);
    }
    assert forall|s: Seq<u8>, x: Seq<u8>, y: Seq<u8>|
        #[trigger] css::is_animation_page(s, x) implies !#[trigger] grid::is_grid_sheet(s, y) by {
        lemma_codec_isolation(Codec::Keyframes, Codec::Grid, s, x, y);
    }
    assert forall|s: Seq<u8>, x: Seq<u8>, y: Seq<u8>|
        #[trigger] houdini::is_paint_worklet(s, x) implies !#[trigger] grid::is_grid_sheet(s, y) by {
        lemma_codec_isolation(Codec::Paint, Codec::Grid, s, x, y);
    }
    assert forall|s: Seq<u8>, x: Seq<u8>, y: Seq<u8>|
        #[trigger] xml::is_xml_wrapper(s, x) implies !#[trigger] rss::is_rss_feed(s, y) by {
        lemma_codec_isolation(Codec::XmlWrapper, Codec::RssGuid, s, x, y);
    }
}

/// The codecs, one for each way of hiding bytes.
#[derive(PartialEq, Eq, Structural, Clone, Copy)]
pub enum Codec {
    HtmlComment,
    Nested,
    FontVariation,
    Keyframes,
    Paint,
    Grid,
    JsonMetadata,
    XmlWrapper,
    RssGuid,
    Audio,
    SvgPath,
}

/// `s` is what codec `c` makes of `x`.
pub open spec fn produces(c: Codec, s: Seq<u8>, x: Seq<u8>) -> bool {
    match c {
        Codec::HtmlComment => html::is_html_comment_page(s, x),
        Codec::Nested => prism::is_nested_page(s, x),
        Codec::FontVariation => font::is_font_page(s, x),
        Codec::Keyframes => css::is_animation_page(s, x),
        Codec::Paint => houdini::is_paint_worklet(s, x),
        Codec::Grid => grid::is_grid_sheet(s, x),
        Codec::JsonMetadata => json::is_metadata_document(s, x),
        Codec::XmlWrapper => xml::is_xml_wrapper(s, x),
        Codec::RssGuid => rss::is_rss_feed(s, x),
        Codec::Audio => audio::is_audio_clip(s, x),
        Codec::SvgPath => svg_path::is_path_drawing(s, x),
    }
}

/// The bytes at positions 0, 1, 2, 30, 36 and 41: there the heads of all codecs differ.
pub open spec fn signature_is(s: Seq<u8>, g: Seq<int>) -> bool {
    s.len() > 41 && s[0] == g[0] && s[1] == g[1] && s[2] == g[2] && s[30] == g[3] && s[36] == g[4]
        && s[41] == g[5]
}

proof fn lemma_head_signature(h: Seq<u8>, s: Seq<u8>)
    requires
        has_prefix(s, h),
        h.len() > 41,
    ensures
        s.len() > 41,
        s[0] == h[0] && s[1] == h[1] && s[2] == h[2] && s[30] == h[30] && s[36] == h[36] && s[41]
            == h[41],
{
    let t = s.subrange(0, h.len() as int);
    assert(s[0] == t[0] && s[1] == t[1] && s[2] == t[2]);
    assert(s[30] == t[30] && s[36] == t[36] && s[41] == t[41]);
}

/// The signature bytes of what codec `c` makes.
pub open spec fn codec_signature(c: Codec, s: Seq<u8>) -> bool {
    match c {
        Codec::HtmlComment => signature_is(s, seq![60int, 33int, 68int, 32int, 105int, 87int]) || signature_is(s, seq![60int, 33int, 68int, 32int, 105int, 66int]),
        Codec::Nested => signature_is(s, seq![60int, 33int, 68int, 60int, 62int, 32int]),
        Codec::FontVariation => signature_is(s, seq![60int, 33int, 68int, 32int, 105int, 84int]),
        Codec::Keyframes => signature_is(s, seq![60int, 33int, 68int, 32int, 105int, 68int]),
        Codec::Paint => signature_is(s, seq![123int, 34int, 119int, 121int, 46int, 111int]),
        Codec::Grid => signature_is(s, seq![46int, 115int, 116int, 103int, 32int, 100int]),
        Codec::JsonMetadata => signature_is(s, seq![123int, 34int, 116int, 49int, 109int, 97int]),
        Codec::XmlWrapper => signature_is(s, seq![60int, 63int, 120int, 85int, 63int, 97int]),
        Codec::RssGuid => signature_is(s, seq![60int, 63int, 120int, 85int, 32int, 114int]),
        Codec::Audio => signature_is(s, seq![60int, 97int, 117int, 34int, 97int, 110int]),
        Codec::SvgPath => signature_is(s, seq![60int, 115int, 118int, 50int, 118int, 105int]),
    }
}

proof fn lemma_signature_html_comment(s: Seq<u8>, x: Seq<u8>)
    requires
        html::is_html_comment_page(s, x),
    ensures
        codec_signature(Codec::HtmlComment, s),
{
    reveal_strlit("<!DOCTYPE html>\n<html>\n<head>\n    <title>Welcome</title>\n    <meta charset=\"utf-8\">\n    <meta name=\"viewport\" content=\"width=device-width, initial-scale=1\">\n</head>\n<body>\n    <div class=\"container\">\n        <h1>Welcome to our site</h1>\n        <p>This is a sample page.</p>\n        <!-- ");
    reveal_strlit("<!DOCTYPE html>\n<html>\n<head>\n    <title>Blog</title>\n    <meta charset=\"utf-8\">\n    <meta name=\"viewport\" content=\"width=device-width, initial-scale=1\">\n</head>\n<body>\n    <article>\n        <h1>Latest News</h1>\n        <section>\n            <!-- ");
    vstd::string::is_ascii_spec_bytes(html::WELCOME_HEAD);
    vstd::string::is_ascii_spec_bytes(html::BLOG_HEAD);
    if carries(s, html::WELCOME_HEAD.spec_bytes(), x) {
        lemma_head_signature(html::WELCOME_HEAD.spec_bytes(), s);
    } else {
        lemma_head_signature(html::BLOG_HEAD.spec_bytes(), s);
    }
}

proof fn lemma_signature_nested(s: Seq<u8>, x: Seq<u8>)
    requires
        prism::is_nested_page(s, x),
    ensures
        codec_signature(Codec::Nested, s),
{
    reveal_strlit("<!DOCTYPE html>\n<html>\n<head>\n<title>Page Title</title>\n</head>\n<body>\n    <div class=\"container\">\n");
    vstd::string::is_ascii_spec_bytes(prism::PRISM_HEAD);
    lemma_framed_head(Scheme::Nested, s, prism::PRISM_HEAD.spec_bytes(), crate::b64::base64_of(x), prism::PRISM_FOOT.spec_bytes());
    lemma_head_signature(prism::PRISM_HEAD.spec_bytes(), s);
}

proof fn lemma_signature_font_variation(s: Seq<u8>, x: Seq<u8>)
    requires
        font::is_font_page(s, x),
    ensures
        codec_signature(Codec::FontVariation, s),
{
    reveal_strlit("<!DOCTYPE html>\n<html>\n<head>\n    <title>Typography Showcase</title>\n    <style>\n        @font-face {\n            font-family: 'Variable';\n            src: url('data:font/woff2;base64,d09GMgABAAA') format('woff2');\n            font-weight: 100 900;\n        }\n");
    vstd::string::is_ascii_spec_bytes(font::FONT_HEAD);
    lemma_framed_head(Scheme::Variation, s, font::FONT_HEAD.spec_bytes(), x, font::FONT_FOOT.spec_bytes());
    lemma_head_signature(font::FONT_HEAD.spec_bytes(), s);
}

proof fn lemma_signature_keyframes(s: Seq<u8>, x: Seq<u8>)
    requires
        css::is_animation_page(s, x),
    ensures
        codec_signature(Codec::Keyframes, s),
{
    reveal_strlit("<!DOCTYPE html>\n<html>\n<head>\n    <title>Dynamic Content</title>\n    <style>\n        .content { font-family: Arial; line-height: 1.6; }\n        @keyframes pulse { 0% { opacity: 1; } 100% { opacity: 1; } }\n");
    vstd::string::is_ascii_spec_bytes(css::CSS_HEAD);
    lemma_framed_head(Scheme::Delays, s, css::CSS_HEAD.spec_bytes(), x, css::CSS_FOOT.spec_bytes());
    lemma_head_signature(css::CSS_HEAD.spec_bytes(), s);
}

proof fn lemma_signature_paint(s: Seq<u8>, x: Seq<u8>)
    requires
        houdini::is_paint_worklet(s, x),
    ensures
        codec_signature(Codec::Paint, s),
{
    reveal_strlit("{\"worklet\":\"stego-pattern\",\"style\":\".stego-container { background-image: paint(stego-pattern); }\",\"params\":[");
    vstd::string::is_ascii_spec_bytes(houdini::PAINT_HEAD);
    lemma_framed_head(Scheme::Paint, s, houdini::PAINT_HEAD.spec_bytes(), x, houdini::PAINT_FOOT.spec_bytes());
    lemma_head_signature(houdini::PAINT_HEAD.spec_bytes(), s);
}

proof fn lemma_signature_grid(s: Seq<u8>, x: Seq<u8>)
    requires
        grid::is_grid_sheet(s, x),
        s.len() > 0,
    ensures
        codec_signature(Codec::Grid, s),
{
    reveal_strlit(".stego-container {\n  display: grid;\n  grid-template-columns: repeat(auto-fill, minmax(100px, 1fr));\n");
    vstd::string::is_ascii_spec_bytes(grid::GRID_HEAD);
    lemma_framed_head(Scheme::Track, s, grid::GRID_HEAD.spec_bytes(), x, grid::GRID_FOOT.spec_bytes());
    lemma_head_signature(grid::GRID_HEAD.spec_bytes(), s);
}

proof fn lemma_signature_json_metadata(s: Seq<u8>, x: Seq<u8>)
    requires
        json::is_metadata_document(s, x),
    ensures
        codec_signature(Codec::JsonMetadata, s),
{
    reveal_strlit("{\"type\":\"metadata\",\"version\":\"1.0\",\"metadata\":\"");
    vstd::string::is_ascii_spec_bytes(json::JSON_HEAD);
    lemma_head_signature(json::JSON_HEAD.spec_bytes(), s);
}

proof fn lemma_signature_xml_wrapper(s: Seq<u8>, x: Seq<u8>)
    requires
        xml::is_xml_wrapper(s, x),
    ensures
        codec_signature(Codec::XmlWrapper, s),
{
    reveal_strlit("<?xml version=\"1.0\" encoding=\"UTF-8\"?>\n<data>\n    <content encoding=\"base64\">");
    vstd::string::is_ascii_spec_bytes(xml::XML_HEAD);
    lemma_head_signature(xml::XML_HEAD.spec_bytes(), s);
}

proof fn lemma_signature_rss_guid(s: Seq<u8>, x: Seq<u8>)
    requires
        rss::is_rss_feed(s, x),
    ensures
        codec_signature(Codec::RssGuid, s),
{
    reveal_strlit("<?xml version=\"1.0\" encoding=\"UTF-8\" ?>\n<rss version=\"2.0\">\n<channel>\n    <title>Rainbow RSS Feed</title>\n    <link>http://example.com/feed</link>\n    <description>A steganographic RSS feed</description>\n    <language>en-us</language>\n    <item>\n        <title>Hidden Data</title>\n        <link>http://example.com/item/1</link>\n        <description>This item contains hidden data</description>\n        <guid isPermaLink=\"false\">");
    vstd::string::is_ascii_spec_bytes(rss::RSS_HEAD);
    lemma_head_signature(rss::RSS_HEAD.spec_bytes(), s);
}

proof fn lemma_signature_audio(s: Seq<u8>, x: Seq<u8>)
    requires
        audio::is_audio_clip(s, x),
    ensures
        codec_signature(Codec::Audio, s),
{
    reveal_strlit("<audio id=\"stego-audio\" style=\"display:none\"><source src=\"data:audio/wav;base64,");
    vstd::string::is_ascii_spec_bytes(audio::AUDIO_HEAD);
    lemma_head_signature(audio::AUDIO_HEAD.spec_bytes(), s);
}

proof fn lemma_signature_svg_path(s: Seq<u8>, x: Seq<u8>)
    requires
        svg_path::is_path_drawing(s, x),
    ensures
        codec_signature(Codec::SvgPath, s),
{
    reveal_strlit("<svg xmlns=\"http://www.w3.org/2000/svg\" width=\"256\" height=\"64\" viewBox=\"0 0 256 64\">\n  <path d=\"M0,32");
    vstd::string::is_ascii_spec_bytes(svg_path::SVG_HEAD);
    lemma_framed_head(Scheme::Path, s, svg_path::SVG_HEAD.spec_bytes(), x, svg_path::SVG_FOOT.spec_bytes());
    lemma_head_signature(svg_path::SVG_HEAD.spec_bytes(), s);
}

/// What a codec makes starts with that codec's head, whose signature bytes no other head
/// shares; only the grid codec makes an empty document, for no data.
pub proof fn lemma_signature(c: Codec, s: Seq<u8>, x: Seq<u8>)
    requires
        produces(c, s, x),
        c != Codec::Grid || s.len() > 0,
    ensures
        codec_signature(c, s),
{
    match c {
        Codec::HtmlComment => lemma_signature_html_comment(s, x),
        Codec::Nested => lemma_signature_nested(s, x),
        Codec::FontVariation => lemma_signature_font_variation(s, x),
        Codec::Keyframes => lemma_signature_keyframes(s, x),
        Codec::Paint => lemma_signature_paint(s, x),
        Codec::Grid => lemma_signature_grid(s, x),
        Codec::JsonMetadata => lemma_signature_json_metadata(s, x),
        Codec::XmlWrapper => lemma_signature_xml_wrapper(s, x),
        Codec::RssGuid => lemma_signature_rss_guid(s, x),
        Codec::Audio => lemma_signature_audio(s, x),
        Codec::SvgPath => lemma_signature_svg_path(s, x),
    }
}

/// Codec isolation: no document is the output of two different codecs. Each decoder returns
/// a non-empty result only for its own codec's output, so decoding what one codec made with
/// another codec's decoder yields nothing.
pub proof fn lemma_codec_isolation(a: Codec, b: Codec, s: Seq<u8>, x: Seq<u8>, y: Seq<u8>)
    requires
        a != b,
        produces(a, s, x),
    ensures
        !produces(b, s, y),
{
    if !produces(b, s, y) {
    } else if s.len() == 0 {
        if a != Codec::Grid {
            lemma_signature(a, s, x);
        } else {
            lemma_signature(b, s, y);
        }
    } else {
        lemma_signature(a, s, x);
        lemma_signature(b, s, y);
    }
}

/// Whether two byte strings are equal.
pub fn same_bytes(a: &[u8], b: &[u8]) -> (r: bool)
    ensures
        r == (a@ == b@),
{
    if a.len() != b.len() {
        return false;
    }
    let r = crate::bytes::starts_with(a, b);
    proof {
        assert(a@.subrange(0, b@.len() as int) =~= a@);
    }
    r
}

/// Picks one of the registered MIME types.
pub fn get_random_mime_type(rng: &mut StdRng) -> (r: String)
    ensures
        exists|k: int| 0 <= k < 6 && r@ == mime_text(k),
{
    let k = crate::random::below(rng, 6);
    let m = if k == 0 {
        TEXT_HTML
    } else if k == 1 {
        TEXT_CSS
    } else if k == 2 {
        APPLICATION_JSON
    } else if k == 3 {
        APPLICATION_XML
    } else if k == 4 {
        AUDIO_WAV
    } else {
        IMAGE_SVG
    };
    let r = m.to_owned();
    assert(r@ == mime_text(k as int));
    r
}

/// The registered MIME types as text.
pub open spec fn mime_text(k: int) -> Seq<char> {
    if k == 0 {
        TEXT_HTML@
    } else if k == 1 {
        TEXT_CSS@
    } else if k == 2 {
        APPLICATION_JSON@
    } else if k == 3 {
        APPLICATION_XML@
    } else if k == 4 {
        AUDIO_WAV@
    } else {
        IMAGE_SVG@
    }
}

/// The registered MIME types are visible ASCII text.
pub proof fn lemma_registered_visible(k: int)
    requires
        0 <= k < 6,
    ensures
        crate::framing::is_visible_text(vstd::utf8::encode_utf8(mime_text(k))),
{
    reveal_strlit("text/html");
    reveal_strlit("text/css");
    reveal_strlit("application/json");
    reveal_strlit("application/xml");
    reveal_strlit("audio/wav");
    reveal_strlit("image/svg+xml");
    vstd::string::is_ascii_spec_bytes(TEXT_HTML);
    vstd::string::is_ascii_spec_bytes(TEXT_CSS);
    vstd::string::is_ascii_spec_bytes(APPLICATION_JSON);
    vstd::string::is_ascii_spec_bytes(APPLICATION_XML);
    vstd::string::is_ascii_spec_bytes(AUDIO_WAV);
    vstd::string::is_ascii_spec_bytes(IMAGE_SVG);
    let m = vstd::utf8::encode_utf8(mime_text(k));
    assert forall|i: int| 0 <= i < m.len() implies 33 <= #[trigger] m[i] <= 126 by {
        if i == 0 {
        } else if i == 1 {
        } else if i == 2 {
        } else if i == 3 {
        } else if i == 4 {
        } else if i == 5 {
        } else if i == 6 {
        } else if i == 7 {
        } else if i == 8 {
        } else if i == 9 {
        } else if i == 10 {
        } else if i == 11 {
        } else if i == 12 {
        } else if i == 13 {
        } else if i == 14 {
        } else {
        }
    }
}

/// Encodes `data` with a codec registered for `mime_type`, drawn at random where the type has
/// several; a type with none leaves the bytes as they are.
pub fn encode_mime(rng: &mut StdRng, data: &[u8], mime_type: &str) -> (r: Result<
    Vec<u8>,
    RainbowError,
>)
    requires
        data@.len() < usize::MAX / 64,
    ensures
        r is Ok && hides(mime_type.spec_bytes(), r->Ok_0@, data@),
{
    let m = mime_type.as_bytes();
    if same_bytes(m, TEXT_HTML.as_bytes()) {
        let choice = crate::random::below(rng, 3);
        if choice == 0 {
            html::encode(rng, data)
        } else if choice == 1 {
            prism::encode(data)
        } else {
            font::encode(data)
        }
    } else if same_bytes(m, TEXT_CSS.as_bytes()) {
        let choice = crate::random::below(rng, 3);
        if choice == 0 {
            css::encode(data)
        } else if choice == 1 {
            houdini::encode(data)
        } else {
            grid::encode(data)
        }
    } else if same_bytes(m, APPLICATION_JSON.as_bytes()) {
        json::encode(data)
    } else if same_bytes(m, APPLICATION_XML.as_bytes()) {
        if crate::random::below(rng, 2) == 0 {
            xml::encode(data)
        } else {
            rss::encode(data)
        }
    } else if same_bytes(m, AUDIO_WAV.as_bytes()) {
        let encoder = AudioEncoder {};
        Ok(encoder.encode_bytes(data))
    } else if same_bytes(m, IMAGE_SVG.as_bytes()) {
        svg_path::encode(data)
    } else {
        let same = crate::bytes::copy_range(data, 0, data.len());
        assert(same@ =~= data@);
        Ok(same)
    }
}

/// Decodes a body of type `mime_type`: each codec registered for the type in turn, the first
/// non-empty result winning; a type with none gives the bytes as they are.
pub fn decode_mime(data: &[u8], mime_type: &str) -> (r: Result<Vec<u8>, RainbowError>)
    ensures
        r is Ok,
        forall|x: Seq<u8>| #[trigger] hides(mime_type.spec_bytes(), data@, x) ==> r->Ok_0@ == x,
        r->Ok_0@.len() > 0 ==> hides(mime_type.spec_bytes(), data@, r->Ok_0@),
{
    decode_mime_bytes(data, mime_type.as_bytes())
}

/// What decoding a body of type `mime` gives: the bytes it hides, or nothing where it hides
/// none.
pub open spec fn mime_decoding(mime: Seq<u8>, s: Seq<u8>) -> Seq<u8> {
    if exists|x: Seq<u8>| #[trigger] hides(mime, s, x) {
        choose|x: Seq<u8>| #[trigger] hides(mime, s, x)
    } else {
        Seq::empty()
    }
}

/// `decode_mime` for a MIME type given as bytes.
pub fn decode_mime_bytes(data: &[u8], m: &[u8]) -> (r: Result<Vec<u8>, RainbowError>)
    ensures
        r is Ok,
        r->Ok_0@ == mime_decoding(m@, data@),
        forall|x: Seq<u8>| #[trigger] hides(m@, data@, x) ==> r->Ok_0@ == x,
        r->Ok_0@.len() > 0 ==> hides(m@, data@, r->Ok_0@),
{
    let r = decode_mime_in_order(data, m);
    proof {
        if exists|x: Seq<u8>| #[trigger] hides(m@, data@, x) {
            let c = choose|x: Seq<u8>| #[trigger] hides(m@, data@, x);
            assert(r->Ok_0@ == c);
        } else {
            if r->Ok_0@.len() > 0 {
                assert(hides(m@, data@, r->Ok_0@));
            }
            assert(r->Ok_0@ =~= Seq::<u8>::empty());
        }
    }
    r
}

/// Each codec registered for the type in turn, the first non-empty result winning.
fn decode_mime_in_order(data: &[u8], m: &[u8]) -> (r: Result<Vec<u8>, RainbowError>)
    ensures
        r is Ok,
        forall|x: Seq<u8>| #[trigger] hides(m@, data@, x) ==> r->Ok_0@ == x,
        r->Ok_0@.len() > 0 ==> hides(m@, data@, r->Ok_0@),
{
    proof {
        lemma_codecs_apart();
    }
    if same_bytes(m, TEXT_HTML.as_bytes()) {
        let a = html::decode(data)?;
        if a.len() > 0 {
            return Ok(a);
        }
        let b = prism::decode(data)?;
        if b.len() > 0 {
            return Ok(b);
        }
        font::decode(data)
    } else if same_bytes(m, TEXT_CSS.as_bytes()) {
        let a = css::decode(data)?;
        if a.len() > 0 {
            return Ok(a);
        }
        let b = houdini::decode(data)?;
        if b.len() > 0 {
            return Ok(b);
        }
        grid::decode(data)
    } else if same_bytes(m, APPLICATION_JSON.as_bytes()) {
        json::decode(data)
    } else if same_bytes(m, APPLICATION_XML.as_bytes()) {
        let a = xml::decode(data)?;
        if a.len() > 0 {
            return Ok(a);
        }
        rss::decode(data)
    } else if same_bytes(m, AUDIO_WAV.as_bytes()) {
        let encoder = AudioEncoder {};
        Ok(encoder.decode_bytes(data))
    } else if same_bytes(m, IMAGE_SVG.as_bytes()) {
        svg_path::decode(data)
    } else {
        let same = crate::bytes::copy_range(data, 0, data.len());
        assert(same@ =~= data@);
        Ok(same)
    }
}

} // verus!
