//! HTTP text: realistic header lines, header blocks, and the grammar of a first line.
use crate::bytes::{
    all_digits, decimal, has_prefix, is_digit, occurs_at, push_bytes, push_decimal, push_text,
};
use rand::rngs::StdRng;
use vstd::prelude::*;
use vstd::string::StringSliceAdditionalSpecFns;

verus! {

/// Shorter buffers are never taken for packets.
pub const MIN_PACKET_LEN: usize = 16;

pub const USER_AGENTS: [&'static str; 3] = [
    "Mozilla/5.0 (Windows NT 10.0; Win64; x64) AppleWebKit/537.36 (KHTML, like Gecko) Chrome/91.0.4472.124 Safari/537.36",
    "Mozilla/5.0 (Macintosh; Intel Mac OS X 10_15_7) AppleWebKit/537.36 (KHTML, like Gecko) Chrome/91.0.4472.124 Safari/537.36",
    "Mozilla/5.0 (Windows NT 10.0; Win64; x64; rv:89.0) Gecko/20100101 Firefox/89.0",
];

pub const SERVERS: [&'static str; 3] = ["nginx/1.18.0", "Apache/2.4.41 (Ubuntu)", "cloudflare"];

pub const API_PATHS: [&'static str; 6] = [
    "/api/v1/data",
    "/api/v1/upload",
    "/api/v2/submit",
    "/upload",
    "/submit",
    "/process",
];

pub const STATIC_PATHS: [&'static str; 7] = [
    "/",
    "/index.html",
    "/assets/main.css",
    "/js/app.js",
    "/images/logo.png",
    "/blog/latest",
    "/docs/guide",
];

/// The index of the first `c` at or after `from`, or the length where there is none.
pub open spec fn first_from(s: Seq<u8>, from: int, c: u8) -> int
    decreases s.len() - from,
{
    if from >= s.len() {
        s.len() as int
    } else if s[from] == c {
        from
    } else {
        first_from(s, from + 1, c)
    }
}

pub proof fn lemma_first_from(s: Seq<u8>, from: int, c: u8, k: int)
    requires
        0 <= from <= k <= s.len(),
        forall|i: int| from <= i < k ==> s[i] != c,
        k == s.len() || s[k] == c,
    ensures
        first_from(s, from, c) == k,
    decreases k - from,
{
    if from < k {
        lemma_first_from(s, from + 1, c, k);
    }
}

/// The first `c` at or after `from`.
pub fn find_byte(s: &[u8], from: usize, c: u8) -> (r: usize)
    requires
        from <= s@.len(),
    ensures
        r == first_from(s@, from as int, c),
        from <= r <= s@.len(),
{
    let mut i: usize = from;
    while i < s.len() && s[i] != c
        invariant
            from <= i <= s@.len(),
            first_from(s@, from as int, c) == first_from(s@, i as int, c),
        decreases s@.len() - i,
    {
        i = i + 1;
    }
    i
}

/// The first line of a buffer, without its line break.
pub open spec fn first_line(p: Seq<u8>) -> Seq<u8> {
    let nl = first_from(p, 0, 10);
    if nl > 0 && p[nl - 1] == 13 {
        p.subrange(0, nl - 1)
    } else {
        p.subrange(0, nl)
    }
}

/// `METHOD SP path SP HTTP/version`: exactly three space-separated tokens, the method `GET`
/// or `POST`, a non-empty path and a version after `HTTP/`.
pub open spec fn is_request_line(l: Seq<u8>) -> bool {
    let i1 = first_from(l, 0, 32);
    let i2 = first_from(l, i1 + 1, 32);
    &&& i1 < l.len()
    &&& (l.subrange(0, i1) == "GET".spec_bytes() || l.subrange(0, i1) == "POST".spec_bytes())
    &&& i1 + 1 < i2 < l.len()
    &&& first_from(l, i2 + 1, 32) == l.len()
    &&& l.len() > i2 + 6
    &&& occurs_at(l, i2 + 1, "HTTP/".spec_bytes())
}

/// `HTTP/version SP code SP reason`: a three-digit code and a space after it; the reason
/// that follows may be empty.
pub open spec fn is_response_line(l: Seq<u8>) -> bool {
    let i1 = first_from(l, 0, 32);
    &&& has_prefix(l, "HTTP/".spec_bytes())
    &&& 5 < i1 < l.len()
    &&& i1 + 4 < l.len()
    &&& l[i1 + 4] == 32
    &&& all_digits(l.subrange(i1 + 1, i1 + 4))
}

/// Bytes with no space, line feed or carriage return: what a path may hold here.
pub open spec fn is_path_text(p: Seq<u8>) -> bool {
    p.len() > 0 && forall|i: int| 0 <= i < p.len() ==> #[trigger] p[i] != 32 && p[i] != 10 && p[i] != 13
}

pub open spec fn no_line_feed(s: Seq<u8>) -> bool {
    forall|i: int| 0 <= i < s.len() ==> #[trigger] s[i] != 10
}

pub fn path_text_ok(p: &[u8]) -> (r: bool)
    ensures
        r == is_path_text(p@),
{
    if p.len() == 0 {
        return false;
    }
    let mut i: usize = 0;
    while i < p.len()
        invariant
            i <= p@.len(),
            forall|k: int| 0 <= k < i ==> #[trigger] p@[k] != 32 && p@[k] != 10 && p@[k] != 13,
        decreases p@.len() - i,
    {
        if p[i] == 32 || p[i] == 10 || p[i] == 13 {
            return false;
        }
        i = i + 1;
    }
    true
}

pub fn line_feed_free(s: &[u8]) -> (r: bool)
    ensures
        r == no_line_feed(s@),
{
    let mut i: usize = 0;
    while i < s.len()
        invariant
            i <= s@.len(),
            forall|k: int| 0 <= k < i ==> #[trigger] s@[k] != 10,
        decreases s@.len() - i,
    {
        if s[i] == 10 {
            return false;
        }
        i = i + 1;
    }
    true
}

pub open spec fn sp() -> Seq<u8> {
    seq![32u8]
}

pub open spec fn version_text() -> Seq<u8> {
    "HTTP/1.1".spec_bytes()
}

pub proof fn lemma_version_text()
    ensures
        version_text().len() == 8,
        version_text().subrange(0, 5) == "HTTP/".spec_bytes(),
        forall|i: int| 0 <= i < 8 ==> #[trigger] version_text()[i] != 32 && version_text()[i] != 10,
{
    reveal_strlit("HTTP/1.1");
    reveal_strlit("HTTP/");
    vstd::string::is_ascii_spec_bytes("HTTP/1.1");
    vstd::string::is_ascii_spec_bytes("HTTP/");
    assert(version_text().subrange(0, 5) =~= "HTTP/".spec_bytes());
    assert forall|i: int| 0 <= i < 8 implies #[trigger] version_text()[i] != 32 && version_text()[i]
        != 10 by {
        if i == 0 {
        } else if i == 1 {
        } else if i == 2 {
        } else if i == 3 {
        } else if i == 4 {
        } else if i == 5 {
        } else if i == 6 {
        } else {
        }
    }
}

pub proof fn lemma_root_path()
    ensures
        is_path_text("/".spec_bytes()),
{
    reveal_strlit("/");
    vstd::string::is_ascii_spec_bytes("/");
}

/// Every listed path can stand in a request line.
pub proof fn lemma_paths_clean()
    ensures
        forall|k: int| 0 <= k < 6 ==> is_path_text(#[trigger] API_PATHS[k].spec_bytes()),
        forall|k: int| 0 <= k < 7 ==> is_path_text(#[trigger] STATIC_PATHS[k].spec_bytes()),
{
    reveal_strlit("/api/v1/data");
    vstd::string::is_ascii_spec_bytes(API_PATHS[0]);
    assert(API_PATHS[0] == "/api/v1/data");
    assert forall|i: int| 0 <= i < 12 implies #[trigger] API_PATHS[0].spec_bytes()[i] != 32 && API_PATHS[0].spec_bytes()[i] != 10 && API_PATHS[0].spec_bytes()[i] != 13 by {
        if i == 0 {
        } else if i == 1 {
        } else if i == 2 {
        } else if i == 3 {
        } else if i == 4 {
        } else if i == 5 {
        } else if i == 6 {
        } else if i == 7 {
        } else if i == 8 {
        } else if i == 9 {
        } else if i == 10 {
        } else {
        }
    }
    reveal_strlit("/api/v1/upload");
    vstd::string::is_ascii_spec_bytes(API_PATHS[1]);
    assert(API_PATHS[1] == "/api/v1/upload");
    assert forall|i: int| 0 <= i < 14 implies #[trigger] API_PATHS[1].spec_bytes()[i] != 32 && API_PATHS[1].spec_bytes()[i] != 10 && API_PATHS[1].spec_bytes()[i] != 13 by {
        if i == 0 {
        } else if i == 1 {
        } else if i == 2 {
        } else if i == 3 {
        } else if i == 4 {
        } else if i == 5 {
        } else if i == 6 {
        } else if i == 7 {
        } else if i == 8 {
        } else if i == 9 {
        } else if i == 10 {
        } else if i == 11 {
        } else if i == 12 {
        } else {
        }
    }
    reveal_strlit("/api/v2/submit");
    vstd::string::is_ascii_spec_bytes(API_PATHS[2]);
    assert(API_PATHS[2] == "/api/v2/submit");
    assert forall|i: int| 0 <= i < 14 implies #[trigger] API_PATHS[2].spec_bytes()[i] != 32 && API_PATHS[2].spec_bytes()[i] != 10 && API_PATHS[2].spec_bytes()[i] != 13 by {
        if i == 0 {
        } else if i == 1 {
        } else if i == 2 {
        } else if i == 3 {
        } else if i == 4 {
        } else if i == 5 {
        } else if i == 6 {
        } else if i == 7 {
        } else if i == 8 {
        } else if i == 9 {
        } else if i == 10 {
        } else if i == 11 {
        } else if i == 12 {
        } else {
        }
    }
    reveal_strlit("/upload");
    vstd::string::is_ascii_spec_bytes(API_PATHS[3]);
    assert(API_PATHS[3] == "/upload");
    assert forall|i: int| 0 <= i < 7 implies #[trigger] API_PATHS[3].spec_bytes()[i] != 32 && API_PATHS[3].spec_bytes()[i] != 10 && API_PATHS[3].spec_bytes()[i] != 13 by {
        if i == 0 {
        } else if i == 1 {
        } else if i == 2 {
        } else if i == 3 {
        } else if i == 4 {
        } else if i == 5 {
        } else {
        }
    }
    reveal_strlit("/submit");
    vstd::string::is_ascii_spec_bytes(API_PATHS[4]);
    assert(API_PATHS[4] == "/submit");
    assert forall|i: int| 0 <= i < 7 implies #[trigger] API_PATHS[4].spec_bytes()[i] != 32 && API_PATHS[4].spec_bytes()[i] != 10 && API_PATHS[4].spec_bytes()[i] != 13 by {
        if i == 0 {
        } else if i == 1 {
        } else if i == 2 {
        } else if i == 3 {
        } else if i == 4 {
        } else if i == 5 {
        } else {
        }
    }
    reveal_strlit("/process");
    vstd::string::is_ascii_spec_bytes(API_PATHS[5]);
    assert(API_PATHS[5] == "/process");
    assert forall|i: int| 0 <= i < 8 implies #[trigger] API_PATHS[5].spec_bytes()[i] != 32 && API_PATHS[5].spec_bytes()[i] != 10 && API_PATHS[5].spec_bytes()[i] != 13 by {
        if i == 0 {
        } else if i == 1 {
        } else if i == 2 {
        } else if i == 3 {
        } else if i == 4 {
        } else if i == 5 {
        } else if i == 6 {
        } else {
        }
    }
    reveal_strlit("/");
    vstd::string::is_ascii_spec_bytes(STATIC_PATHS[0]);
    assert(STATIC_PATHS[0] == "/");
    assert forall|i: int| 0 <= i < 1 implies #[trigger] STATIC_PATHS[0].spec_bytes()[i] != 32 && STATIC_PATHS[0].spec_bytes()[i] != 10 && STATIC_PATHS[0].spec_bytes()[i] != 13 by {
        
    }
    reveal_strlit("/index.html");
    vstd::string::is_ascii_spec_bytes(STATIC_PATHS[1]);
    assert(STATIC_PATHS[1] == "/index.html");
    assert forall|i: int| 0 <= i < 11 implies #[trigger] STATIC_PATHS[1].spec_bytes()[i] != 32 && STATIC_PATHS[1].spec_bytes()[i] != 10 && STATIC_PATHS[1].spec_bytes()[i] != 13 by {
        if i == 0 {
        } else if i == 1 {
        } else if i == 2 {
        } else if i == 3 {
        } else if i == 4 {
        } else if i == 5 {
        } else if i == 6 {
        } else if i == 7 {
        } else if i == 8 {
        } else if i == 9 {
        } else {
        }
    }
    reveal_strlit("/assets/main.css");
    vstd::string::is_ascii_spec_bytes(STATIC_PATHS[2]);
    assert(STATIC_PATHS[2] == "/assets/main.css");
    assert forall|i: int| 0 <= i < 16 implies #[trigger] STATIC_PATHS[2].spec_bytes()[i] != 32 && STATIC_PATHS[2].spec_bytes()[i] != 10 && STATIC_PATHS[2].spec_bytes()[i] != 13 by {
        if i == 0 {
        } else if i == 1 {
        } else if i == 2 {
        } else if i == 3 {
        } else if i == 4 {
        } else if i == 5 {
        } else if i == 6 {
        } else if i == 7 {
        } else if i == 8 {
        } else if i == 9 {
        } else if i == 10 {
        } else if i == 11 {
        } else if i == 12 {
        } else if i == 13 {
        } else if i == 14 {
        } else {
        }
    }
    reveal_strlit("/js/app.js");
    vstd::string::is_ascii_spec_bytes(STATIC_PATHS[3]);
    assert(STATIC_PATHS[3] == "/js/app.js");
    assert forall|i: int| 0 <= i < 10 implies #[trigger] STATIC_PATHS[3].spec_bytes()[i] != 32 && STATIC_PATHS[3].spec_bytes()[i] != 10 && STATIC_PATHS[3].spec_bytes()[i] != 13 by {
        if i == 0 {
        } else if i == 1 {
        } else if i == 2 {
        } else if i == 3 {
        } else if i == 4 {
        } else if i == 5 {
        } else if i == 6 {
        } else if i == 7 {
        } else if i == 8 {
        } else {
        }
    }
    reveal_strlit("/images/logo.png");
    vstd::string::is_ascii_spec_bytes(STATIC_PATHS[4]);
    assert(STATIC_PATHS[4] == "/images/logo.png");
    assert forall|i: int| 0 <= i < 16 implies #[trigger] STATIC_PATHS[4].spec_bytes()[i] != 32 && STATIC_PATHS[4].spec_bytes()[i] != 10 && STATIC_PATHS[4].spec_bytes()[i] != 13 by {
        if i == 0 {
        } else if i == 1 {
        } else if i == 2 {
        } else if i == 3 {
        } else if i == 4 {
        } else if i == 5 {
        } else if i == 6 {
        } else if i == 7 {
        } else if i == 8 {
        } else if i == 9 {
        } else if i == 10 {
        } else if i == 11 {
        } else if i == 12 {
        } else if i == 13 {
        } else if i == 14 {
        } else {
        }
    }
    reveal_strlit("/blog/latest");
    vstd::string::is_ascii_spec_bytes(STATIC_PATHS[5]);
    assert(STATIC_PATHS[5] == "/blog/latest");
    assert forall|i: int| 0 <= i < 12 implies #[trigger] STATIC_PATHS[5].spec_bytes()[i] != 32 && STATIC_PATHS[5].spec_bytes()[i] != 10 && STATIC_PATHS[5].spec_bytes()[i] != 13 by {
        if i == 0 {
        } else if i == 1 {
        } else if i == 2 {
        } else if i == 3 {
        } else if i == 4 {
        } else if i == 5 {
        } else if i == 6 {
        } else if i == 7 {
        } else if i == 8 {
        } else if i == 9 {
        } else if i == 10 {
        } else {
        }
    }
    reveal_strlit("/docs/guide");
    vstd::string::is_ascii_spec_bytes(STATIC_PATHS[6]);
    assert(STATIC_PATHS[6] == "/docs/guide");
    assert forall|i: int| 0 <= i < 11 implies #[trigger] STATIC_PATHS[6].spec_bytes()[i] != 32 && STATIC_PATHS[6].spec_bytes()[i] != 10 && STATIC_PATHS[6].spec_bytes()[i] != 13 by {
        if i == 0 {
        } else if i == 1 {
        } else if i == 2 {
        } else if i == 3 {
        } else if i == 4 {
        } else if i == 5 {
        } else if i == 6 {
        } else if i == 7 {
        } else if i == 8 {
        } else if i == 9 {
        } else {
        }
    }
    assert forall|k: int| 0 <= k < 6 implies is_path_text(#[trigger] API_PATHS[k].spec_bytes()) by {
        if k == 0 {} else if k == 1 {} else if k == 2 {} else if k == 3 {} else if k == 4 {} else {}
    }
    assert forall|k: int| 0 <= k < 7 implies is_path_text(#[trigger] STATIC_PATHS[k].spec_bytes()) by {
        if k == 0 {} else if k == 1 {} else if k == 2 {} else if k == 3 {} else if k == 4 {} else if k == 5 {} else {}
    }
}

/// `p` when it can stand as a path in a request line, `/` otherwise.
pub fn clean_path(p: &[u8]) -> (r: &[u8])
    ensures
        is_path_text(r@),
        is_path_text(p@) ==> r@ == p@,
{
    if path_text_ok(p) {
        p
    } else {
        proof {
            lemma_root_path();
        }
        "/".as_bytes()
    }
}

/// `reason` when it is not empty and has no line feed, `OK` otherwise.
pub fn clean_reason(reason: &[u8]) -> (r: &[u8])
    ensures
        no_line_feed(r@),
        r@.len() > 0,
        no_line_feed(reason@) && reason@.len() > 0 ==> r@ == reason@,
{
    if reason.len() > 0 && line_feed_free(reason) {
        reason
    } else {
        proof {
            reveal_strlit("OK");
            vstd::string::is_ascii_spec_bytes("OK");
            assert forall|i: int| 0 <= i < 2 implies #[trigger] "OK".spec_bytes()[i] != 10 by {
                if i == 0 {
                } else {
                }
            }
        }
        "OK".as_bytes()
    }
}

/// Appends a request line.
pub fn push_request_line(out: &mut Vec<u8>, get: bool, path: &[u8])
    requires
        is_path_text(path@),
    ensures
        final(out)@ == old(out)@ + (method_text(get) + sp() + path@ + sp() + version_text()),
{
    if get {
        push_text(out, "GET");
    } else {
        push_text(out, "POST");
    }
    out.push(32);
    push_bytes(out, path);
    out.push(32);
    push_text(out, "HTTP/1.1");
    assert(out@ =~= old(out)@ + (method_text(get) + sp() + path@ + sp() + version_text()));
}

/// Appends a status line.
pub fn push_status_line(out: &mut Vec<u8>, code: u16, reason: &[u8])
    requires
        no_line_feed(reason@),
    ensures
        final(out)@ == old(out)@ + (version_text() + sp() + decimal(code as nat) + sp() + reason@),
{
    push_text(out, "HTTP/1.1");
    out.push(32);
    push_decimal(out, code as u64);
    out.push(32);
    push_bytes(out, reason);
    assert(out@ =~= old(out)@ + (version_text() + sp() + decimal(code as nat) + sp() + reason@));
}

/// The request method as bytes: `GET` or `POST`.
pub open spec fn method_text(get: bool) -> Seq<u8> {
    if get {
        "GET".spec_bytes()
    } else {
        "POST".spec_bytes()
    }
}

pub proof fn lemma_method_text(get: bool)
    ensures
        method_text(get).len() == (if get {
            3int
        } else {
            4int
        }),
        forall|i: int| 0 <= i < method_text(get).len() ==> #[trigger] method_text(get)[i] != 32
            && method_text(get)[i] != 10,
        method_text(get)[0] != 72,
{
    reveal_strlit("GET");
    reveal_strlit("POST");
    vstd::string::is_ascii_spec_bytes("GET");
    vstd::string::is_ascii_spec_bytes("POST");
    assert forall|i: int| 0 <= i < method_text(get).len() implies #[trigger] method_text(get)[i]
        != 32 && method_text(get)[i] != 10 by {
        if i == 0 {
        } else if i == 1 {
        } else if i == 2 {
        } else {
        }
    }
}

/// A request line `METHOD SP path SP HTTP/1.1` with a clean path is a request line by the
/// grammar, and has no line feed.
pub proof fn lemma_request_line(get: bool, p: Seq<u8>)
    requires
        is_path_text(p),
    ensures
        is_request_line(method_text(get) + sp() + p + sp() + version_text()),
        no_line_feed(method_text(get) + sp() + p + sp() + version_text()),
        !is_response_line(method_text(get) + sp() + p + sp() + version_text()),
{
    lemma_method_text(get);
    lemma_version_text();
    let m = method_text(get);
    let v = version_text();
    let l = m + sp() + p + sp() + v;
    let i1 = m.len() as int;
    let i2 = i1 + 1 + p.len();
    assert(l[i1] == 32);
    assert forall|i: int| 0 <= i < i1 implies l[i] != 32 by {
        assert(l[i] == m[i]);
    }
    lemma_first_from(l, 0, 32, i1);
    assert(l[i2] == 32);
    assert forall|i: int| i1 + 1 <= i < i2 implies l[i] != 32 by {
        assert(l[i] == p[i - i1 - 1]);
    }
    lemma_first_from(l, i1 + 1, 32, i2);
    assert forall|i: int| i2 + 1 <= i < l.len() implies l[i] != 32 by {
        assert(l[i] == v[i - i2 - 1]);
    }
    lemma_first_from(l, i2 + 1, 32, l.len() as int);
    assert(l.subrange(0, i1) =~= m);
    reveal_strlit("GET");
    reveal_strlit("POST");
    assert(l.subrange(i2 + 1, i2 + 6) =~= v.subrange(0, 5));
    assert forall|i: int| 0 <= i < l.len() implies #[trigger] l[i] != 10 by {
        if i < i1 {
            assert(l[i] == m[i]);
        } else if i == i1 {
        } else if i < i2 {
            assert(l[i] == p[i - i1 - 1]);
        } else if i == i2 {
        } else {
            assert(l[i] == v[i - i2 - 1]);
        }
    }
    if is_response_line(l) {
        assert(l.subrange(0, 5)[0] == l[0]);
        reveal_strlit("HTTP/");
        vstd::string::is_ascii_spec_bytes("HTTP/");
        assert(l[0] == m[0]);
    }
}

/// A status line `HTTP/1.1 SP code SP reason` with a three-digit code and a reason without a
/// line feed is a status line by the grammar, and has no line feed.
pub proof fn lemma_status_line(code: nat, reason: Seq<u8>)
    requires
        100 <= code < 1000,
        no_line_feed(reason),
    ensures
        is_response_line(version_text() + sp() + decimal(code) + sp() + reason),
        no_line_feed(version_text() + sp() + decimal(code) + sp() + reason),
{
    lemma_version_text();
    lemma_three_digits(code);
    let v = version_text();
    let d = decimal(code);
    let l = v + sp() + d + sp() + reason;
    assert forall|i: int| 0 <= i < 8 implies l[i] != 32 by {
        assert(l[i] == v[i]);
    }
    lemma_first_from(l, 0, 32, 8);
    assert(l.subrange(0, 5) =~= v.subrange(0, 5));
    assert(l.subrange(9, 12) =~= d);
    assert forall|i: int| 0 <= i < l.len() implies #[trigger] l[i] != 10 by {
        if i < 8 {
            assert(l[i] == v[i]);
        } else if i == 8 {
        } else if i < 12 {
            assert(l[i] == d[i - 9]);
        } else if i == 12 {
        } else {
            assert(l[i] == reason[i - 13]);
        }
    }
}

pub proof fn lemma_three_digits(n: nat)
    requires
        100 <= n < 1000,
    ensures
        decimal(n).len() == 3,
        all_digits(decimal(n)),
{
    crate::bytes::lemma_decimal(n);
    assert(decimal(n) == decimal(n / 10).push((48 + n % 10) as u8));
    assert(decimal(n / 10) == decimal(n / 100).push((48 + (n / 10) % 10) as u8));
    assert(decimal(n / 100) == seq![(48 + n / 100) as u8]);
}

pub proof fn lemma_line_lengths(get: bool, p: Seq<u8>)
    requires
        is_path_text(p),
    ensures
        (method_text(get) + sp() + p + sp() + version_text()).len() >= 14,
{
    lemma_method_text(get);
    lemma_version_text();
}

pub proof fn lemma_status_line_length(code: nat, reason: Seq<u8>)
    requires
        100 <= code < 1000,
        reason.len() > 0,
    ensures
        (version_text() + sp() + decimal(code) + sp() + reason).len() >= 14,
{
    lemma_version_text();
    lemma_three_digits(code);
}

/// The first line of a buffer that starts with a line without line feeds and CRLF is that
/// line.
pub proof fn lemma_first_line(line: Seq<u8>, rest: Seq<u8>)
    requires
        no_line_feed(line),
    ensures
        first_line(line + seq![13u8, 10u8] + rest) == line,
{
    let p = line + seq![13u8, 10u8] + rest;
    assert forall|i: int| 0 <= i < line.len() + 1 implies p[i] != 10 by {
        if i < line.len() {
            assert(p[i] == line[i]);
        }
    }
    lemma_first_from(p, 0, 10, (line.len() + 1) as int);
    assert(p.subrange(0, line.len() as int) =~= line);
}

/// The buffer is long enough and its first line is a request line or a status line.
pub open spec fn is_http_packet(p: Seq<u8>) -> bool {
    p.len() >= MIN_PACKET_LEN && (is_request_line(first_line(p)) || is_response_line(
        first_line(p),
    ))
}

fn request_line_ok(l: &[u8]) -> (r: bool)
    ensures
        r == is_request_line(l@),
{
    let i1 = find_byte(l, 0, 32);
    if i1 == l.len() {
        return false;
    }
    let head = crate::bytes::copy_range(l, 0, i1);
    if !crate::stego::same_bytes(head.as_slice(), "GET".as_bytes())
        && !crate::stego::same_bytes(head.as_slice(), "POST".as_bytes()) {
        return false;
    }
    let i2 = find_byte(l, i1 + 1, 32);
    if i2 == l.len() || i2 == i1 + 1 {
        return false;
    }
    let i3 = find_byte(l, i2 + 1, 32);
    if i3 != l.len() || l.len() - i2 <= 6 {
        return false;
    }
    crate::bytes::bytes_at(l, i2 + 1, "HTTP/".as_bytes())
}

fn response_line_ok(l: &[u8]) -> (r: bool)
    ensures
        r == is_response_line(l@),
{
    if !crate::bytes::starts_with(l, "HTTP/".as_bytes()) {
        return false;
    }
    let i1 = find_byte(l, 0, 32);
    if i1 <= 5 || i1 == l.len() || l.len() - i1 <= 4 {
        return false;
    }
    if l[i1 + 4] != 32 {
        return false;
    }
    let ok = is_digit_byte(l[i1 + 1]) && is_digit_byte(l[i1 + 2]) && is_digit_byte(l[i1 + 3]);
    proof {
        let d = l@.subrange(i1 + 1, i1 + 4);
        assert(d[0] == l@[i1 + 1] && d[1] == l@[i1 + 2] && d[2] == l@[i1 + 3]);
        assert(ok == all_digits(d));
    }
    ok
}

fn is_digit_byte(c: u8) -> (r: bool)
    ensures
        r == is_digit(c),
{
    48 <= c && c <= 57
}

/// Whether the first line of `data` is a request line or a status line, for a buffer of at
/// least the minimum packet size.
pub fn validate_http_packet(data: &[u8]) -> (r: bool)
    ensures
        r == is_http_packet(data@),
{
    if data.len() < MIN_PACKET_LEN {
        return false;
    }
    let nl = find_byte(data, 0, 10);
    let end = if nl > 0 && data[nl - 1] == 13 {
        nl - 1
    } else {
        nl
    };
    let line = crate::bytes::copy_range(data, 0, end);
    request_line_ok(line.as_slice()) || response_line_ok(line.as_slice())
}

/// Whether the first line of `data` is a status line.
pub fn first_line_is_response(data: &[u8]) -> (r: bool)
    ensures
        r == is_response_line(first_line(data@)),
{
    let nl = find_byte(data, 0, 10);
    let end = if nl > 0 && data[nl - 1] == 13 {
        nl - 1
    } else {
        nl
    };
    let line = crate::bytes::copy_range(data, 0, end);
    response_line_ok(line.as_slice())
}

/// A line of a header block: not empty, not starting with a carriage return, and without a
/// line feed.
pub open spec fn is_header_line(l: Seq<u8>) -> bool {
    l.len() > 0 && l[0] != 13 && forall|i: int| 0 <= i < l.len() ==> #[trigger] l[i] != 10
}

/// Header lines, each ended by CRLF: every line feed closes a line and the next line, if
/// any, is not empty. So no blank line (CRLF CRLF) stands inside.
pub open spec fn is_header_block(b: Seq<u8>) -> bool {
    b.len() == 0 || (b.len() >= 3 && b[b.len() - 2] == 13 && b[b.len() - 1] == 10 && b[0] != 13
        && b[0] != 10 && forall|i: int|
        0 <= i < b.len() && #[trigger] b[i] == 10 ==> i >= 1 && b[i - 1] == 13 && (i + 1 == b.len()
            || (b[i + 1] != 13 && b[i + 1] != 10)))
}

/// Whether `l` can stand as a header line.
pub fn header_line_ok(l: &[u8]) -> (r: bool)
    ensures
        r == is_header_line(l@),
{
    if l.len() == 0 || l[0] == 13 {
        return false;
    }
    let nl = find_byte(l, 0, 10);
    proof {
        if nl < l@.len() {
            lemma_first_from_found(l@, 0, 10);
        } else {
            assert forall|i: int| 0 <= i < l@.len() implies #[trigger] l@[i] != 10 by {
                lemma_first_from_none(l@, 0, 10, i);
            }
        }
    }
    nl == l.len()
}

pub proof fn lemma_first_from_found(s: Seq<u8>, from: int, c: u8)
    requires
        0 <= from,
        first_from(s, from, c) < s.len(),
    ensures
        s[first_from(s, from, c)] == c,
        first_from(s, from, c) >= from,
    decreases s.len() - from,
{
    if from < s.len() && s[from] != c {
        lemma_first_from_found(s, from + 1, c);
    }
}

pub proof fn lemma_first_from_none(s: Seq<u8>, from: int, c: u8, i: int)
    requires
        0 <= from <= i < s.len(),
        first_from(s, from, c) == s.len(),
    ensures
        s[i] != c,
    decreases i - from,
{
    if from < i {
        assert(s[from] != c);
        lemma_first_from_none(s, from + 1, c, i);
    }
}

/// What appending `l` to a header block adds: `l` and CRLF where `l` can stand as a header
/// line, nothing otherwise.
pub open spec fn as_header(l: Seq<u8>) -> Seq<u8> {
    if is_header_line(l) {
        l + seq![13u8, 10u8]
    } else {
        Seq::empty()
    }
}

/// Appends `line` and CRLF to a header block where `line` can stand as a header line, and
/// leaves the block as it is otherwise.
pub fn push_header_line(out: &mut Vec<u8>, line: &[u8])
    requires
        is_header_block(old(out)@),
    ensures
        is_header_block(final(out)@),
        is_header_line(line@) ==> final(out)@ == old(out)@ + line@ + seq![13u8, 10u8],
        !is_header_line(line@) ==> final(out)@ == old(out)@,
        final(out)@ == old(out)@ + as_header(line@),
{
    if header_line_ok(line) {
        let ghost before = out@;
        push_bytes(out, line);
        out.push(13);
        out.push(10);
        proof {
            let n = out@;
            assert(n =~= before + line@ + seq![13u8, 10u8]);
            assert forall|i: int| 0 <= i < n.len() && #[trigger] n[i] == 10 implies i >= 1 && n[i
                - 1] == 13 && (i + 1 == n.len() || (n[i + 1] != 13 && n[i + 1] != 10)) by {
                if i < before.len() {
                    assert(n[i] == before[i]);
                    if i + 1 < before.len() {
                        assert(n[i + 1] == before[i + 1]);
                    } else {
                        assert(n[i + 1] == line@[0]);
                    }
                    assert(n[i - 1] == before[i - 1]);
                } else if i < before.len() + line@.len() {
                    assert(n[i] == line@[i - before.len()]);
                }
            }
            if before.len() == 0 {
                assert(n[0] == line@[0]);
            } else {
                assert(n[0] == before[0]);
            }
        }
    }
}

/// Splits a packet at its first blank line: the header lines, each ended by CRLF, and the
/// body. `None` where the packet has no blank line.
pub fn extract_http_parts(data: &[u8]) -> (r: Option<(Vec<u8>, Vec<u8>)>)
    ensures
        r is None <==> forall|j: int| 0 <= j && j + 4 <= data@.len() ==> !occurs_at(
            data@,
            j,
            crate::framing::blank_line(),
        ),
        r is Some ==> {
            let (h, b) = r->Some_0;
            let split = h@.len() - 2;
            &&& h@.len() >= 2
            &&& data@ == h@ + seq![13u8, 10u8] + b@
            &&& occurs_at(data@, split, crate::framing::blank_line())
            &&& forall|j: int| 0 <= j < split ==> !occurs_at(data@, j, crate::framing::blank_line())
        },
{
    let split = crate::framing::find_blank_line(data);
    if split == data.len() {
        return None;
    }
    let h = crate::bytes::copy_range(data, 0, split + 2);
    let b = crate::bytes::copy_range(data, split + 4, data.len());
    proof {
        let t = data@.subrange(split as int, split + 4);
        assert(t[2] == data@[split + 2] && t[3] == data@[split + 3]);
        assert(data@ =~= h@ + seq![13u8, 10u8] + b@);
    }
    Some((h, b))
}

/// Appends a whole header block to another.
pub fn push_block(out: &mut Vec<u8>, block: &[u8])
    requires
        is_header_block(old(out)@),
        is_header_block(block@),
    ensures
        is_header_block(final(out)@),
        final(out)@ == old(out)@ + block@,
{
    let ghost before = out@;
    push_bytes(out, block);
    proof {
        let n = out@;
        let b = block@;
        if b.len() > 0 && before.len() > 0 {
            assert forall|i: int| 0 <= i < n.len() && #[trigger] n[i] == 10 implies i >= 1 && n[i
                - 1] == 13 && (i + 1 == n.len() || (n[i + 1] != 13 && n[i + 1] != 10)) by {
                if i < before.len() {
                    assert(n[i] == before[i]);
                    assert(n[i - 1] == before[i - 1]);
                    if i + 1 < before.len() {
                        assert(n[i + 1] == before[i + 1]);
                    } else {
                        assert(n[i + 1] == b[0]);
                    }
                } else {
                    let j = i - before.len();
                    assert(n[i] == b[j]);
                    if j >= 1 {
                        assert(n[i - 1] == b[j - 1]);
                    } else {
                        assert(b[0] != 10);
                    }
                    if j + 1 < b.len() {
                        assert(n[i + 1] == b[j + 1]);
                    }
                }
            }
            assert(n[0] == before[0]);
            assert(n[n.len() - 1] == b[b.len() - 1]);
            assert(n[n.len() - 2] == b[b.len() - 2]);
        } else if b.len() == 0 {
            assert(n =~= before);
        } else {
            assert(n =~= b);
        }
    }
}

/// Header lines that a browser sends (`is_request`) or a web server returns.
#[verifier::rlimit(60)]
pub fn generate_realistic_headers(rng: &mut StdRng, is_request: bool) -> (r: Vec<u8>)
    ensures
        is_header_block(r@),
        is_request ==> exists|k: int|
            0 <= k < 3 && r@ == as_header("User-Agent: ".spec_bytes() + USER_AGENTS[k].spec_bytes())
                + as_header("Accept-Language: en-US,en;q=0.9".spec_bytes()) + as_header(
                "Accept-Encoding: gzip, deflate, br".spec_bytes(),
            ) + as_header("Connection: keep-alive".spec_bytes()),
        !is_request ==> exists|k: int|
            0 <= k < 3 && r@ == as_header("Server: ".spec_bytes() + SERVERS[k].spec_bytes())
                + as_header("Cache-Control: no-cache".spec_bytes()) + as_header(
                "X-Content-Type-Options: nosniff".spec_bytes(),
            ) + as_header("Connection: keep-alive".spec_bytes()),
{
    let mut out: Vec<u8> = Vec::new();
    let mut line: Vec<u8> = Vec::new();
    let k = crate::random::below(rng, 3);
    if is_request {
        push_text(&mut line, "User-Agent: ");
        push_text(&mut line, USER_AGENTS[k]);
        push_header_line(&mut out, line.as_slice());
        line = Vec::new();
        push_text(&mut line, "Accept-Language: en-US,en;q=0.9");
        push_header_line(&mut out, line.as_slice());
        line = Vec::new();
        push_text(&mut line, "Accept-Encoding: gzip, deflate, br");
        push_header_line(&mut out, line.as_slice());
    } else {
        push_text(&mut line, "Server: ");
        push_text(&mut line, SERVERS[k]);
        push_header_line(&mut out, line.as_slice());
        line = Vec::new();
        push_text(&mut line, "Cache-Control: no-cache");
        push_header_line(&mut out, line.as_slice());
        line = Vec::new();
        push_text(&mut line, "X-Content-Type-Options: nosniff");
        push_header_line(&mut out, line.as_slice());
    }
    let ghost three = out@;
    line = Vec::new();
    push_text(&mut line, "Connection: keep-alive");
    push_header_line(&mut out, line.as_slice());
    assert(out@ == three + as_header("Connection: keep-alive".spec_bytes()));
    proof {
        if is_request {
            assert(out@ =~= as_header("User-Agent: ".spec_bytes() + USER_AGENTS[k as int].spec_bytes())
                + as_header("Accept-Language: en-US,en;q=0.9".spec_bytes()) + as_header(
                "Accept-Encoding: gzip, deflate, br".spec_bytes(),
            ) + as_header("Connection: keep-alive".spec_bytes()));
        } else {
            assert(out@ =~= as_header("Server: ".spec_bytes() + SERVERS[k as int].spec_bytes())
                + as_header("Cache-Control: no-cache".spec_bytes()) + as_header(
                "X-Content-Type-Options: nosniff".spec_bytes(),
            ) + as_header("Connection: keep-alive".spec_bytes()));
        }
    }
    out
}

/// A path of an API endpoint, the kind that takes uploads.
pub fn generate_random_api_path(rng: &mut StdRng) -> (r: String)
    ensures
        exists|k: int| 0 <= k < 6 && r@ == API_PATHS[k]@,
{
    let k = crate::random::below(rng, 6);
    let r = API_PATHS[k].to_owned();
    assert(r@ == API_PATHS[k as int]@);
    r
}

/// A path of a static resource, the kind a browser fetches.
pub fn generate_random_static_path(rng: &mut StdRng) -> (r: String)
    ensures
        exists|k: int| 0 <= k < 7 && r@ == STATIC_PATHS[k]@,
{
    let k = crate::random::below(rng, 7);
    let r = STATIC_PATHS[k].to_owned();
    assert(r@ == STATIC_PATHS[k as int]@);
    r
}

/// `length` random letters and digits.
pub fn random_string(rng: &mut StdRng, length: usize) -> (r: String)
    ensures
        r@.len() == length,
        exists|b: Seq<u8>|
            #![trigger crate::bytes::ascii_chars(b)]
            r@ == crate::bytes::ascii_chars(b) && forall|i: int|
                0 <= i < b.len() ==> crate::random::is_alphanumeric(#[trigger] b[i]),
{
    let bytes = crate::random::alphanumeric(rng, length);
    proof {
        assert forall|i: int| 0 <= i < bytes@.len() implies #[trigger] bytes@[i] < 128 by {
            assert(crate::random::is_alphanumeric(bytes@[i]));
        }
    }
    let ghost b = bytes@;
    let r = crate::bytes::ascii_string(bytes);
    assert(r@ == crate::bytes::ascii_chars(b));
    r
}

} // verus!
