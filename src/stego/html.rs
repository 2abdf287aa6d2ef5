//! Base64 inside an HTML comment.
use crate::b64::is_b64_byte;
use crate::bytes::has_prefix;
use crate::stego::carrier::{carries, read_carried, write_carried};
use crate::RainbowError;
use rand::rngs::StdRng;
use vstd::prelude::*;
use vstd::string::StringSliceAdditionalSpecFns;

verus! {

pub const WELCOME_HEAD: &'static str = "<!DOCTYPE html>\n<html>\n<head>\n    <title>Welcome</title>\n    <meta charset=\"utf-8\">\n    <meta name=\"viewport\" content=\"width=device-width, initial-scale=1\">\n</head>\n<body>\n    <div class=\"container\">\n        <h1>Welcome to our site</h1>\n        <p>This is a sample page.</p>\n        <!-- ";

pub const WELCOME_TAIL: &'static str = " -->\n    </div>\n</body>\n</html>";

pub const BLOG_HEAD: &'static str = "<!DOCTYPE html>\n<html>\n<head>\n    <title>Blog</title>\n    <meta charset=\"utf-8\">\n    <meta name=\"viewport\" content=\"width=device-width, initial-scale=1\">\n</head>\n<body>\n    <article>\n        <h1>Latest News</h1>\n        <section>\n            <!-- ";

pub const BLOG_TAIL: &'static str = " -->\n            <p>Stay tuned for more updates!</p>\n        </section>\n    </article>\n</body>\n</html>";

/// `s` is a page of one of the two templates with `x` in its comment.
pub open spec fn is_html_comment_page(s: Seq<u8>, x: Seq<u8>) -> bool {
    carries(s, WELCOME_HEAD.spec_bytes(), x) || carries(s, BLOG_HEAD.spec_bytes(), x)
}

proof fn lemma_templates()
    ensures
        !is_b64_byte(WELCOME_TAIL.spec_bytes()[0]),
        !is_b64_byte(BLOG_TAIL.spec_bytes()[0]),
        forall|s: Seq<u8>| has_prefix(s, BLOG_HEAD.spec_bytes()) ==> !has_prefix(s, WELCOME_HEAD.spec_bytes()),
{
    reveal_strlit(" -->\n    </div>\n</body>\n</html>");
    vstd::string::is_ascii_spec_bytes(WELCOME_TAIL);
    reveal_strlit(" -->\n            <p>Stay tuned for more updates!</p>\n        </section>\n    </article>\n</body>\n</html>");
    vstd::string::is_ascii_spec_bytes(BLOG_TAIL);
    reveal_strlit("<!DOCTYPE html>\n<html>\n<head>\n    <title>Welcome</title>\n    <meta charset=\"utf-8\">\n    <meta name=\"viewport\" content=\"width=device-width, initial-scale=1\">\n</head>\n<body>\n    <div class=\"container\">\n        <h1>Welcome to our site</h1>\n        <p>This is a sample page.</p>\n        <!-- ");
    vstd::string::is_ascii_spec_bytes(WELCOME_HEAD);
    reveal_strlit("<!DOCTYPE html>\n<html>\n<head>\n    <title>Blog</title>\n    <meta charset=\"utf-8\">\n    <meta name=\"viewport\" content=\"width=device-width, initial-scale=1\">\n</head>\n<body>\n    <article>\n        <h1>Latest News</h1>\n        <section>\n            <!-- ");
    vstd::string::is_ascii_spec_bytes(BLOG_HEAD);
    assert forall|s: Seq<u8>| has_prefix(s, BLOG_HEAD.spec_bytes()) implies !has_prefix(s, WELCOME_HEAD.spec_bytes()) by {
        let b = BLOG_HEAD.spec_bytes();
        let w = WELCOME_HEAD.spec_bytes();
        assert(s.subrange(0, b.len() as int)[41] == b[41]);
        if has_prefix(s, w) {
            assert(s.subrange(0, w.len() as int)[41] == w[41]);
        }
    }
}

/// Hides `data` as base64 inside an HTML comment of a page drawn from two templates.
pub fn encode(rng: &mut StdRng, data: &[u8]) -> (r: Result<Vec<u8>, RainbowError>)
    requires
        data@.len() < usize::MAX / 2,
    ensures
        r is Ok && is_html_comment_page(r->Ok_0@, data@),
{
    proof { lemma_templates(); }
    if crate::random::below(rng, 2) == 0 {
        Ok(write_carried(WELCOME_HEAD.as_bytes(), data, WELCOME_TAIL.as_bytes()))
    } else {
        Ok(write_carried(BLOG_HEAD.as_bytes(), data, BLOG_TAIL.as_bytes()))
    }
}

/// Recovers what `encode` hid; empty for any other content.
pub fn decode(data: &[u8]) -> (r: Result<Vec<u8>, RainbowError>)
    ensures
        r is Ok,
        forall|x: Seq<u8>| #[trigger] is_html_comment_page(data@, x) ==> r->Ok_0@ == x,
        r->Ok_0@.len() > 0 ==> is_html_comment_page(data@, r->Ok_0@),
{
    proof { lemma_templates(); }
    let welcome = read_carried(data, WELCOME_HEAD.as_bytes());
    if welcome.len() > 0 {
        return Ok(welcome);
    }
    let blog = read_carried(data, BLOG_HEAD.as_bytes());
    proof {
        assert forall|x: Seq<u8>| #[trigger] is_html_comment_page(data@, x) implies blog@ == x by {
            if carries(data@, WELCOME_HEAD.spec_bytes(), x) {
                assert(welcome@ == x);
                assert(!carries(data@, BLOG_HEAD.spec_bytes(), x));
            }
        }
    }
    Ok(blog)
}

} // verus!
