//! Packet layout: the header block, its lines, the blank line, and the specifications and
//! lemmas that tie what the builders write to what the decoder reads.
use crate::b64::base64_of;
use crate::bytes::{copy_range, has_prefix, push_bytes, bytes_at, decimal, occurs_at};
use crate::stego::{hides, same_bytes};
use crate::utils::{
    find_byte, first_from, first_line, is_header_block, is_header_line, is_http_packet,
    is_path_text, is_request_line, is_response_line, lemma_first_from, lemma_first_line,
    method_text, no_line_feed, push_block, push_header_line, sp, version_text,
};
use crate::metadata::{
    info_cookie, info_json, lemma_info_cookie_injective, lemma_info_layout, PacketInfo,
};
use crate::rainbow::CHUNK_SIZE;
use vstd::prelude::*;
use vstd::string::StringSliceAdditionalSpecFns;

verus! {

/// Relies on uuid's `Uuid::new_v4` and its `Display`: a fresh random UUID as text.
#[verifier::external_body]
pub(crate) fn fresh_session_id() -> (r: Vec<u8>) {
    uuid::Uuid::new_v4().to_string().into_bytes()
}

/// The names under which the record may travel; a decoder looks for these alone.
pub const COOKIE_NAMES: [&'static str; 5] = ["_sess", "_csrf_token", "_uid", "_pref", "_trk"];

/// Status codes, drawn with weights 900, 25, 25, 25 and 25 in a thousand.
pub const STATUS_CODES: [u16; 5] = [200, 201, 202, 204, 206];

pub const STATUS_REASONS: [&'static str; 5] = [
    "OK",
    "Created",
    "Accepted",
    "No Content",
    "Partial Content",
];

/// The status code for a draw `d` in `0..1000`.
pub open spec fn status_for(d: int) -> u16 {
    if d < 900 {
        200
    } else if d < 925 {
        201
    } else if d < 950 {
        202
    } else if d < 975 {
        204
    } else {
        206
    }
}

/// The `Accept` header a browser sends for `path`.
pub open spec fn accept_for(path: Seq<u8>) -> Seq<char> {
    if ends_with(path, ".css".spec_bytes()) {
        "text/css,*/*;q=0.1"@
    } else if ends_with(path, ".js".spec_bytes()) {
        "application/javascript,*/*;q=0.1"@
    } else if ends_with(path, ".png".spec_bytes()) {
        "image/png,image/*;q=0.8,*/*;q=0.5"@
    } else if has_prefix(path, "/api/".spec_bytes()) {
        "application/json"@
    } else {
        "*/*"@
    }
}

pub open spec fn ends_with(s: Seq<u8>, p: Seq<u8>) -> bool {
    p.len() <= s.len() && s.subrange(s.len() - p.len(), s.len() as int) == p
}

pub(crate) fn bytes_end_with(s: &[u8], p: &[u8]) -> (r: bool)
    ensures
        r == ends_with(s@, p@),
{
    if p.len() > s.len() {
        return false;
    }
    bytes_at(s, s.len() - p.len(), p)
}

/// Visible ASCII: what a header value such as a MIME type may hold here.
pub open spec fn is_visible_text(v: Seq<u8>) -> bool {
    v.len() > 0 && forall|i: int| 0 <= i < v.len() ==> 33 <= #[trigger] v[i] <= 126
}

/// Printable ASCII, spaces included: what a header value such as a MIME type with parameters
/// may hold here.
pub open spec fn is_header_value(v: Seq<u8>) -> bool {
    v.len() > 0 && forall|i: int| 0 <= i < v.len() ==> 32 <= #[trigger] v[i] <= 126
}

/// Whether `v` can stand as a header value.
pub fn header_value_ok(v: &[u8]) -> (r: bool)
    ensures
        r == is_header_value(v@),
{
    if v.len() == 0 {
        return false;
    }
    let mut i: usize = 0;
    while i < v.len()
        invariant
            0 <= i <= v@.len(),
            forall|k: int| 0 <= k < i ==> 32 <= #[trigger] v@[k] <= 126,
        decreases v@.len() - i,
    {
        if v[i] < 32 || v[i] > 126 {
            return false;
        }
        i = i + 1;
    }
    true
}

/// Visible ASCII without `;`: what a cookie value may hold.
pub open spec fn is_cookie_text(v: Seq<u8>) -> bool {
    is_visible_text(v) && forall|i: int| 0 <= i < v.len() ==> #[trigger] v[i] != 59
}

pub fn visible_text(v: &[u8], allow_semicolon: bool) -> (r: bool)
    ensures
        r == if allow_semicolon {
            is_visible_text(v@)
        } else {
            is_cookie_text(v@)
        },
{
    if v.len() == 0 {
        return false;
    }
    let mut i: usize = 0;
    while i < v.len()
        invariant
            0 <= i <= v@.len(),
            forall|k: int| 0 <= k < i ==> 33 <= #[trigger] v@[k] <= 126 && (allow_semicolon
                || v@[k] != 59),
        decreases v@.len() - i,
    {
        if v[i] < 33 || v[i] > 126 || (!allow_semicolon && v[i] == 59) {
            return false;
        }
        i = i + 1;
    }
    true
}

/// How many chunks a payload of `n` bytes makes.
pub open spec fn chunk_count(n: int) -> int {
    (n + CHUNK_SIZE - 1) / CHUNK_SIZE as int
}

/// The length of chunk `i` of a payload of `n` bytes.
pub open spec fn chunk_len(n: int, i: int) -> int {
    if n - i * CHUNK_SIZE >= CHUNK_SIZE {
        CHUNK_SIZE as int
    } else {
        n - i * CHUNK_SIZE
    }
}

/// Whether a MIME type sends its chunk in a GET request's `X-Data` header.
pub open spec fn sends_by_get(mime: Seq<u8>) -> bool {
    appears_in(mime, "text/plain".spec_bytes()) || appears_in(mime, "application/json".spec_bytes())
}

/// Whether `p` occurs somewhere in `s`.
pub fn contains_bytes(s: &[u8], p: &[u8]) -> (r: bool)
    ensures
        r == appears_in(s@, p@),
{
    if p.len() > s.len() {
        return false;
    }
    let last = s.len() - p.len();
    let mut i: usize = 0;
    while i < last
        invariant
            p@.len() <= s@.len(),
            last == s@.len() - p@.len(),
            i <= last,
            forall|j: int| 0 <= j < i ==> !occurs_at(s@, j, p@),
        decreases last - i,
    {
        if bytes_at(s, i, p) {
            return true;
        }
        i = i + 1;
    }
    if bytes_at(s, last, p) {
        return true;
    }
    proof {
        assert forall|j: int| !occurs_at(s@, j, p@) by {
            if 0 <= j < last {
            }
        }
    }
    false
}

/// The record stands in the buffer as some cookie's value.
pub open spec fn carries_record(p: Seq<u8>, i: PacketInfo) -> bool {
    exists|at: int| occurs_at(p, at, info_cookie(i))
}

/// How a role frames its packets: a client sends what the grammar calls a request, a server
/// what it calls a response.
pub open spec fn is_framed_as(p: Seq<u8>, is_client: bool) -> bool {
    &&& is_http_packet(p)
    &&& is_client ==> is_request_line(first_line(p))
    &&& is_response_line(first_line(p)) == !is_client
}

/// `line`, a request line for a client and a status line for a server, can open a packet.
pub open spec fn is_start_line(line: Seq<u8>, is_client: bool) -> bool {
    &&& no_line_feed(line)
    &&& line.len() >= 14
    &&& is_client ==> is_request_line(line) && !is_response_line(line)
    &&& !is_client ==> is_response_line(line)
}

/// `p` opens with a start line for the role, and CRLF.
pub open spec fn opens_as(p: Seq<u8>, is_client: bool) -> bool {
    exists|line: Seq<u8>| is_start_line(line, is_client) && has_prefix(p, line + crlf())
}

pub(crate) proof fn lemma_opens_as_prefix(head: Seq<u8>, p: Seq<u8>, is_client: bool)
    requires
        opens_as(head, is_client),
        has_prefix(p, head),
    ensures
        opens_as(p, is_client),
{
    let line = choose|line: Seq<u8>| is_start_line(line, is_client) && has_prefix(head, line + crlf());
    let n = (line + crlf()).len() as int;
    assert(p.subrange(0, n) =~= head.subrange(0, n)) by {
        assert(p.subrange(0, head.len() as int) == head);
    }
    assert(has_prefix(p, line + crlf()));
}

pub(crate) proof fn lemma_framed_opens(p: Seq<u8>, is_client: bool)
    requires
        opens_as(p, is_client),
    ensures
        is_framed_as(p, is_client),
{
    let line = choose|line: Seq<u8>| is_start_line(line, is_client) && has_prefix(p, line + crlf());
    lemma_framed_by_start(line, p, is_client);
}

/// A request line or a status line, ended by CRLF, starts `p`.
pub(crate) proof fn lemma_framed_by_start(line: Seq<u8>, p: Seq<u8>, is_client: bool)
    requires
        has_prefix(p, line + crlf()),
        is_start_line(line, is_client),
    ensures
        is_framed_as(p, is_client),
        first_line(p) == line,
{
    let rest = p.subrange((line.len() + 2) as int, p.len() as int);
    assert(p =~= line + seq![13u8, 10u8] + rest) by {
        assert(p.subrange(0, (line + crlf()).len() as int) == line + crlf());
    }
    lemma_first_line(line, rest);
}

pub open spec fn blank_line() -> Seq<u8> {
    seq![13u8, 10u8, 13u8, 10u8]
}

/// The first blank line at or after `i`, or the length where there is none.
pub open spec fn first_blank_from(p: Seq<u8>, i: int) -> int
    decreases p.len() - i,
{
    if i < 0 || i + 4 > p.len() {
        p.len() as int
    } else if occurs_at(p, i, blank_line()) {
        i
    } else {
        first_blank_from(p, i + 1)
    }
}

/// Where the first blank line of `p` begins, or its length where there is none.
pub open spec fn first_blank(p: Seq<u8>) -> int {
    first_blank_from(p, 0)
}

/// The header block of `p`: its lines up to the first blank line, each ended by CRLF.
pub open spec fn head_of(p: Seq<u8>) -> Seq<u8> {
    p.subrange(0, first_blank(p) + 2)
}

/// Why the payload of `p` cannot be read: 0 where it can, 1 where the blank line or the
/// header that names the payload is missing, 2 where a GET request's `X-Data` is not base64.
pub open spec fn payload_fault(p: Seq<u8>) -> int {
    if first_blank(p) >= p.len() {
        1
    } else if has_prefix(p, "GET ".spec_bytes()) {
        match header_value_from(head_of(p), "X-Data: ".spec_bytes(), 0) {
            None => 1,
            Some(t) => if exists|x: Seq<u8>| #[trigger] base64_of(x) == t {
                0
            } else {
                2
            },
        }
    } else {
        match header_value_from(head_of(p), "Content-Type: ".spec_bytes(), 0) {
            None => 1,
            Some(_) => 0,
        }
    }
}

/// The payload of `p`: for a GET request the bytes whose base64 its `X-Data` header holds,
/// otherwise what decoding its body under its `Content-Type` gives.
pub open spec fn payload_of(p: Seq<u8>) -> Seq<u8> {
    if has_prefix(p, "GET ".spec_bytes()) {
        match header_value_from(head_of(p), "X-Data: ".spec_bytes(), 0) {
            None => Seq::empty(),
            Some(t) => choose|x: Seq<u8>| #[trigger] base64_of(x) == t,
        }
    } else {
        match header_value_from(head_of(p), "Content-Type: ".spec_bytes(), 0) {
            None => Seq::empty(),
            Some(m) => crate::stego::mime_decoding(m, p.subrange(first_blank(p) + 4, p.len() as int)),
        }
    }
}

/// Where the first blank line (CRLF CRLF) begins, or the length where there is none.
pub fn find_blank_line(p: &[u8]) -> (r: usize)
    ensures
        r == p@.len() || (r + 4 <= p@.len() && occurs_at(p@, r as int, blank_line())),
        r <= p@.len(),
        forall|j: int| 0 <= j < r && j + 4 <= p@.len() ==> !occurs_at(p@, j, blank_line()),
        r == first_blank(p@),
{
    if p.len() < 4 {
        return p.len();
    }
    let mut i: usize = 0;
    while i <= p.len() - 4
        invariant
            i <= p@.len(),
            p@.len() >= 4,
            forall|j: int| 0 <= j < i && j + 4 <= p@.len() ==> !occurs_at(p@, j, blank_line()),
            first_blank(p@) == first_blank_from(p@, i as int),
        decreases p@.len() - i,
    {
        if p[i] == 13 && p[i + 1] == 10 && p[i + 2] == 13 && p[i + 3] == 10 {
            assert(p@.subrange(i as int, i + 4) =~= blank_line());
            return i;
        }
        proof {
            if occurs_at(p@, i as int, blank_line()) {
                let t = p@.subrange(i as int, i + 4);
                assert(t[0] == p@[i as int] && t[1] == p@[i + 1] && t[2] == p@[i + 2] && t[3]
                    == p@[i + 3]);
            }
        }
        i = i + 1;
    }
    p.len()
}

/// The first `c` in `from..to`, or `to`.
pub open spec fn first_in(s: Seq<u8>, from: int, to: int, c: u8) -> int
    decreases to - from,
{
    if from >= to {
        to
    } else if s[from] == c {
        from
    } else {
        first_in(s, from + 1, to, c)
    }
}

/// Where `a..b` starts once leading spaces are dropped.
pub open spec fn trim_start(s: Seq<u8>, a: int, b: int) -> int
    decreases b - a,
{
    if a >= b {
        a
    } else if s[a] == 32 {
        trim_start(s, a + 1, b)
    } else {
        a
    }
}

/// Where `a..b` ends once trailing spaces and carriage returns are dropped.
pub open spec fn trim_end(s: Seq<u8>, a: int, b: int) -> int
    decreases b - a,
{
    if b <= a {
        b
    } else if s[b - 1] == 32 || s[b - 1] == 13 {
        trim_end(s, a, b - 1)
    } else {
        b
    }
}

/// The `;`-separated pieces of `v` from `start` on, spaces trimmed, empty pieces dropped.
pub open spec fn cookie_pieces(v: Seq<u8>, start: int) -> Seq<Seq<u8>>
    decreases v.len() - start,
{
    if start < 0 || start >= v.len() {
        Seq::empty()
    } else {
        let end = first_in(v, start, v.len() as int, 59);
        let a = trim_start(v, start, end);
        let b = trim_end(v, a, end);
        let piece = v.subrange(a, b);
        let rest = if end >= v.len() || end < start {
            Seq::empty()
        } else {
            cookie_pieces(v, end + 1)
        };
        if piece.len() > 0 {
            seq![piece] + rest
        } else {
            rest
        }
    }
}

/// Where the cookie list of the line at `pos` starts: after `Cookie: ` or `Set-Cookie: `,
/// or the length where the line is neither.
pub open spec fn cookie_start(h: Seq<u8>, pos: int) -> int {
    if occurs_at(h, pos, "Cookie: ".spec_bytes()) {
        pos + 8
    } else if occurs_at(h, pos, "Set-Cookie: ".spec_bytes()) {
        pos + 12
    } else {
        h.len() as int
    }
}

pub open spec fn is_allowed_name(n: Seq<u8>) -> bool {
    exists|k: int| 0 <= k < 5 && n == COOKIE_NAMES[k].spec_bytes()
}

/// The record whose cookie value `v` is, if any.
pub open spec fn cookie_record(v: Seq<u8>) -> Option<PacketInfo> {
    if exists|i: PacketInfo| #[trigger] info_cookie(i) == v {
        Some(choose|i: PacketInfo| #[trigger] info_cookie(i) == v)
    } else {
        None
    }
}

/// The record of the cookie `name=value` in `start..end`, spaces trimmed, where the name is on
/// the allow-list and the value reads as a record.
pub open spec fn pair_record(h: Seq<u8>, start: int, end: int) -> Option<PacketInfo> {
    let a = trim_start(h, start, end);
    let b = trim_end(h, a, end);
    let eq = first_in(h, a, b, 61);
    if eq < b && is_allowed_name(h.subrange(a, eq)) {
        cookie_record(h.subrange(eq + 1, b))
    } else {
        None
    }
}

/// The first record among the `;`-separated cookies in `start..nl`.
pub open spec fn pairs_from(h: Seq<u8>, start: int, nl: int) -> Option<PacketInfo>
    decreases nl - start,
{
    if start >= nl {
        None
    } else {
        let end = first_in(h, start, nl, 59);
        match pair_record(h, start, end) {
            Some(i) => Some(i),
            None => if end >= nl || end < start {
                None
            } else {
                pairs_from(h, end + 1, nl)
            },
        }
    }
}

/// The first record in the cookie lines at or after `pos`.
pub open spec fn records_from(h: Seq<u8>, pos: int) -> Option<PacketInfo>
    decreases h.len() - pos,
{
    if pos < 0 || pos >= h.len() {
        None
    } else {
        let nl = first_from(h, pos, 10);
        let from = cookie_start(h, pos);
        let found = if from < nl {
            pairs_from(h, from, nl)
        } else {
            None
        };
        if found is Some {
            found
        } else if nl >= h.len() || nl < pos {
            None
        } else {
            records_from(h, nl + 1)
        }
    }
}

/// The first `c` in `from..to`, or `to`.
pub fn find_byte_before(s: &[u8], from: usize, to: usize, c: u8) -> (r: usize)
    requires
        from <= to <= s@.len(),
    ensures
        from <= r <= to,
        r < to ==> s@[r as int] == c,
        r == first_in(s@, from as int, to as int, c),
{
    let mut i: usize = from;
    while i < to && s[i] != c
        invariant
            from <= i <= to <= s@.len(),
            first_in(s@, from as int, to as int, c) == first_in(s@, i as int, to as int, c),
        decreases to - i,
    {
        i = i + 1;
    }
    i
}

/// The range `a..b` without leading and trailing spaces and carriage returns.
pub fn trim_spaces(s: &[u8], a: usize, b: usize) -> (r: (usize, usize))
    requires
        a <= b <= s@.len(),
    ensures
        a <= r.0 <= r.1 <= b,
        r.0 == trim_start(s@, a as int, b as int),
        r.1 == trim_end(s@, r.0 as int, b as int),
{
    let mut x = a;
    while x < b && s[x] == 32
        invariant
            a <= x <= b <= s@.len(),
            trim_start(s@, a as int, b as int) == trim_start(s@, x as int, b as int),
        decreases b - x,
    {
        x = x + 1;
    }
    let mut y = b;
    while y > x && (s[y - 1] == 32 || s[y - 1] == 13)
        invariant
            x <= y <= b <= s@.len(),
            trim_end(s@, x as int, b as int) == trim_end(s@, x as int, y as int),
        decreases y - x,
    {
        y = y - 1;
    }
    (x, y)
}

/// Whether `s[a..b]` is one of the cookie names a record travels under.
pub fn is_allowed_cookie_name(s: &[u8], a: usize, b: usize) -> (r: bool)
    requires
        a <= b <= s@.len(),
    ensures
        r == exists|k: int| 0 <= k < 5 && s@.subrange(a as int, b as int) == COOKIE_NAMES[k].spec_bytes(),
{
    let name = copy_range(s, a, b);
    let mut k: usize = 0;
    while k < 5
        invariant
            k <= 5,
            name@ == s@.subrange(a as int, b as int),
            forall|j: int| 0 <= j < k ==> name@ != COOKIE_NAMES[j].spec_bytes(),
        decreases 5 - k,
    {
        if same_bytes(name.as_slice(), COOKIE_NAMES[k].as_bytes()) {
            return true;
        }
        k = k + 1;
    }
    false
}

/// Where the cookie list of a `Cookie` or `Set-Cookie` line at `pos` starts; the length of
/// the block where the line is neither.
pub(crate) fn cookie_values_start(h: &[u8], pos: usize) -> (r: usize)
    requires
        pos <= h@.len(),
    ensures
        pos <= r <= h@.len(),
        r == cookie_start(h@, pos as int),
{
    if bytes_at(h, pos, "Cookie: ".as_bytes()) {
        proof {
            reveal_strlit("Cookie: ");
            vstd::string::is_ascii_spec_bytes("Cookie: ");
            assert("Cookie: ".spec_bytes().len() == 8);
            assert(pos + 8 <= h.len());
        }
        pos + 8
    } else if bytes_at(h, pos, "Set-Cookie: ".as_bytes()) {
        proof {
            reveal_strlit("Set-Cookie: ");
            vstd::string::is_ascii_spec_bytes("Set-Cookie: ");
            assert("Set-Cookie: ".spec_bytes().len() == 12);
            assert(pos + 12 <= h.len());
        }
        pos + 12
    } else {
        h.len()
    }
}

/// The body after the first blank line at `at` hides `x` under the `Content-Type` `mime`
/// that the packet declares.
pub open spec fn declared_body(p: Seq<u8>, mime: Seq<u8>, at: int, x: Seq<u8>) -> bool {
    &&& appears_in(p, "Content-Type: ".spec_bytes() + mime)
    &&& occurs_at(p, at, blank_line())
    &&& hides(mime, p.subrange(at + 4, p.len() as int), x)
}

/// Some declared type and blank line make the body hide `x`.
pub open spec fn body_declared(p: Seq<u8>, x: Seq<u8>) -> bool {
    exists|mime: Seq<u8>, at: int| #[trigger] declared_body(p, mime, at, x)
}

pub(crate) proof fn lemma_appears_prefix(h: Seq<u8>, p: Seq<u8>, q: Seq<u8>)
    requires
        appears_in(h, q),
        h.len() <= p.len(),
        h == p.subrange(0, h.len() as int),
    ensures
        appears_in(p, q),
{
    let at = choose|at: int| occurs_at(h, at, q);
    assert(p.subrange(at, at + q.len()) =~= h.subrange(at, at + q.len()));
    assert(occurs_at(p, at, q));
}

/// Facts on the names of the data-bearing header lines.
pub(crate) proof fn lemma_data_names()
    ensures
        "X-Data: ".spec_bytes().len() == 8,
        "Content-Type: ".spec_bytes().len() == 14,
        "GET ".spec_bytes().len() == 4,
        no_line_feed("X-Data: ".spec_bytes()),
        no_line_feed("Content-Type: ".spec_bytes()),
        "X-Data: ".spec_bytes()[0] == 88,
        "Content-Type: ".spec_bytes()[0] == 67,
        "GET ".spec_bytes()[0] == 71,
        "Content-Type: ".spec_bytes()[2] == 110,
        "Content-Length: ".spec_bytes().len() == 16,
        "Content-Length: ".spec_bytes()[0] == 67,
        "Content-Length: ".spec_bytes()[2] == 110,
        no_line_feed("Content-Length: ".spec_bytes()),
{
    reveal_strlit("Content-Length: ");
    vstd::string::is_ascii_spec_bytes("Content-Length: ");
    assert forall|i: int| 0 <= i < 16 implies #[trigger] "Content-Length: ".spec_bytes()[i] != 10 by {
        if i == 0 {
        } else if i == 1 {
        } else if i == 2 {
        } else if i == 3 {
        } else if i == 4 {
        } else if i == 5 {
        } else if i == 6 {
        } else if i == 7 {
        } else if i == 8 {
        } else if i == 9 {
        } else if i == 10 {
        } else if i == 11 {
        } else if i == 12 {
        } else if i == 13 {
        } else if i == 14 {
        } else {
        }
    }
    reveal_strlit("X-Data: ");
    reveal_strlit("Content-Type: ");
    reveal_strlit("GET ");
    vstd::string::is_ascii_spec_bytes("X-Data: ");
    vstd::string::is_ascii_spec_bytes("Content-Type: ");
    vstd::string::is_ascii_spec_bytes("GET ");
    assert forall|i: int| 0 <= i < 8 implies #[trigger] "X-Data: ".spec_bytes()[i] != 10 by {
        if i == 0 {
        } else if i == 1 {
        } else if i == 2 {
        } else if i == 3 {
        } else if i == 4 {
        } else if i == 5 {
        } else if i == 6 {
        } else {
        }
    }
    assert forall|i: int| 0 <= i < 14 implies #[trigger] "Content-Type: ".spec_bytes()[i] != 10 by {
        if i == 0 {
        } else if i == 1 {
        } else if i == 2 {
        } else if i == 3 {
        } else if i == 4 {
        } else if i == 5 {
        } else if i == 6 {
        } else if i == 7 {
        } else if i == 8 {
        } else if i == 9 {
        } else if i == 10 {
        } else if i == 11 {
        } else if i == 12 {
        } else {
        }
    }
}

/// Facts on the pieces of a record's cookie line.
pub(crate) proof fn lemma_cookie_parts()
    ensures
        no_line_feed("Cookie: ".spec_bytes()),
        "Cookie: ".spec_bytes().len() == 8,
        no_line_feed("Set-Cookie: ".spec_bytes()),
        "Set-Cookie: ".spec_bytes().len() == 12,
        no_line_feed("=".spec_bytes()),
        "=".spec_bytes().len() == 1,
        forall|k: int| 0 <= k < 5 ==> no_line_feed(#[trigger] COOKIE_NAMES[k].spec_bytes()),
        "Cookie: ".spec_bytes()[0] == 67,
        "Set-Cookie: ".spec_bytes()[0] == 83,
{
    reveal_strlit("Cookie: ");
    vstd::string::is_ascii_spec_bytes("Cookie: ");
    assert forall|i: int| 0 <= i < 8 implies #[trigger] "Cookie: ".spec_bytes()[i] != 10 by {
        if i == 0 {
        } else if i == 1 {
        } else if i == 2 {
        } else if i == 3 {
        } else if i == 4 {
        } else if i == 5 {
        } else if i == 6 {
        } else {
        }
    }
    reveal_strlit("Set-Cookie: ");
    vstd::string::is_ascii_spec_bytes("Set-Cookie: ");
    assert forall|i: int| 0 <= i < 12 implies #[trigger] "Set-Cookie: ".spec_bytes()[i] != 10 by {
        if i == 0 {
        } else if i == 1 {
        } else if i == 2 {
        } else if i == 3 {
        } else if i == 4 {
        } else if i == 5 {
        } else if i == 6 {
        } else if i == 7 {
        } else if i == 8 {
        } else if i == 9 {
        } else if i == 10 {
        } else {
        }
    }
    reveal_strlit("=");
    vstd::string::is_ascii_spec_bytes("=");
    assert forall|i: int| 0 <= i < 1 implies #[trigger] "=".spec_bytes()[i] != 10 by {
        
    }
    reveal_strlit("_sess");
    vstd::string::is_ascii_spec_bytes(COOKIE_NAMES[0]);
    assert(COOKIE_NAMES[0] == "_sess");
    assert forall|i: int| 0 <= i < 5 implies #[trigger] COOKIE_NAMES[0].spec_bytes()[i] != 10 by {
        if i == 0 {
        } else if i == 1 {
        } else if i == 2 {
        } else if i == 3 {
        } else {
        }
    }
    reveal_strlit("_csrf_token");
    vstd::string::is_ascii_spec_bytes(COOKIE_NAMES[1]);
    assert(COOKIE_NAMES[1] == "_csrf_token");
    assert forall|i: int| 0 <= i < 11 implies #[trigger] COOKIE_NAMES[1].spec_bytes()[i] != 10 by {
        if i == 0 {
        } else if i == 1 {
        } else if i == 2 {
        } else if i == 3 {
        } else if i == 4 {
        } else if i == 5 {
        } else if i == 6 {
        } else if i == 7 {
        } else if i == 8 {
        } else if i == 9 {
        } else {
        }
    }
    reveal_strlit("_uid");
    vstd::string::is_ascii_spec_bytes(COOKIE_NAMES[2]);
    assert(COOKIE_NAMES[2] == "_uid");
    assert forall|i: int| 0 <= i < 4 implies #[trigger] COOKIE_NAMES[2].spec_bytes()[i] != 10 by {
        if i == 0 {
        } else if i == 1 {
        } else if i == 2 {
        } else {
        }
    }
    reveal_strlit("_pref");
    vstd::string::is_ascii_spec_bytes(COOKIE_NAMES[3]);
    assert(COOKIE_NAMES[3] == "_pref");
    assert forall|i: int| 0 <= i < 5 implies #[trigger] COOKIE_NAMES[3].spec_bytes()[i] != 10 by {
        if i == 0 {
        } else if i == 1 {
        } else if i == 2 {
        } else if i == 3 {
        } else {
        }
    }
    reveal_strlit("_trk");
    vstd::string::is_ascii_spec_bytes(COOKIE_NAMES[4]);
    assert(COOKIE_NAMES[4] == "_trk");
    assert forall|i: int| 0 <= i < 4 implies #[trigger] COOKIE_NAMES[4].spec_bytes()[i] != 10 by {
        if i == 0 {
        } else if i == 1 {
        } else if i == 2 {
        } else {
        }
    }
    assert forall|k: int| 0 <= k < 5 implies no_line_feed(#[trigger] COOKIE_NAMES[k].spec_bytes()) by {
        if k == 0 {
        } else if k == 1 {
        } else if k == 2 {
        } else if k == 3 {
        } else {
        }
    }
}

/// Concatenations of text without line feeds have none.
pub proof fn lemma_no_line_feed_concat(a: Seq<u8>, b: Seq<u8>)
    requires
        no_line_feed(a),
        no_line_feed(b),
    ensures
        no_line_feed(a + b),
{
    assert forall|i: int| 0 <= i < (a + b).len() implies #[trigger] (a + b)[i] != 10 by {
        if i < a.len() {
            assert((a + b)[i] == a[i]);
        } else {
            assert((a + b)[i] == b[i - a.len()]);
        }
    }
}

/// Base64 text has no line feed.
pub proof fn lemma_base64_no_line_feed(x: Seq<u8>)
    ensures
        no_line_feed(base64_of(x)),
{
    crate::b64::lemma_base64_shape(x);
    assert forall|i: int| 0 <= i < base64_of(x).len() implies #[trigger] base64_of(x)[i] != 10 by {
        assert(crate::b64::is_b64_byte(base64_of(x)[i]));
    }
}

/// `p` occurs somewhere in `h`.
pub open spec fn appears_in(h: Seq<u8>, p: Seq<u8>) -> bool {
    exists|at: int| occurs_at(h, at, p)
}

/// The end of the line at `pos`, without its carriage return.
pub open spec fn line_end(h: Seq<u8>, pos: int) -> int {
    let nl = first_from(h, pos, 10);
    if nl > pos && h[nl - 1] == 13 {
        nl - 1
    } else {
        nl
    }
}

/// The value of the first line at or after `pos` that starts with `name`.
pub open spec fn header_value_from(h: Seq<u8>, name: Seq<u8>, pos: int) -> Option<Seq<u8>>
    decreases h.len() - pos,
{
    if pos < 0 || pos >= h.len() {
        None
    } else {
        let nl = first_from(h, pos, 10);
        let end = line_end(h, pos);
        if name.len() <= end - pos && occurs_at(h, pos, name) {
            Some(h.subrange(pos + name.len(), end))
        } else if nl >= h.len() || nl < pos {
            None
        } else {
            header_value_from(h, name, nl + 1)
        }
    }
}

/// The value of the first header line that starts with `name`, without its line break.
pub fn header_value(h: &[u8], name: &[u8]) -> (r: Option<Vec<u8>>)
    ensures
        r is Some ==> appears_in(h@, name@ + r->Some_0@),
        r is Some ==> header_value_from(h@, name@, 0) == Some(r->Some_0@),
        r is None ==> header_value_from(h@, name@, 0) is None,
{
    let mut pos: usize = 0;
    while pos < h.len()
        invariant
            pos <= h@.len(),
            header_value_from(h@, name@, 0) == header_value_from(h@, name@, pos as int),
        decreases h@.len() - pos,
    {
        let nl = find_byte(h, pos, 10);
        let end = if nl > pos && h[nl - 1] == 13 {
            nl - 1
        } else {
            nl
        };
        if name.len() <= end - pos && bytes_at(h, pos, name) {
            let value = copy_range(h, pos + name.len(), end);
            proof {
                assert(h@.subrange(pos as int, pos + name@.len() + value@.len()) =~= name@ + value@);
                assert(occurs_at(h@, pos as int, name@ + value@));
                assert(appears_in(h@, name@ + value@));
            }
            return Some(value);
        }
        if nl == h.len() {
            return None;
        }
        pos = nl + 1;
    }
    None
}

/// A line without line feeds, ended by CRLF, that does not start with `name`, is passed over.
pub proof fn lemma_header_value_skip(h: Seq<u8>, name: Seq<u8>, pos: int, line: Seq<u8>)
    requires
        0 <= pos,
        pos + line.len() + 2 <= h.len(),
        h.subrange(pos, pos + line.len() + 2) == line + crlf(),
        no_line_feed(line),
        !has_prefix(line, name),
    ensures
        header_value_from(h, name, pos) == header_value_from(h, name, pos + line.len() + 2),
{
    let t = h.subrange(pos, pos + line.len() + 2);
    assert forall|i: int| pos <= i < pos + line.len() + 1 implies h[i] != 10 by {
        assert(h[i] == t[i - pos]);
        if i < pos + line.len() {
            assert(t[i - pos] == line[i - pos]);
        }
    }
    assert(h[pos + line.len() + 1] == t[(line.len() + 1) as int]);
    lemma_first_from(h, pos, 10, pos + line.len() + 1);
    assert(h[pos + line.len()] == t[line.len() as int]);
    if name.len() <= line.len() && occurs_at(h, pos, name) {
        assert(line.subrange(0, name.len() as int) =~= h.subrange(pos, pos + name.len()));
    }
}

/// The line `name + value`, without line feeds and ended by CRLF, gives `value`.
pub proof fn lemma_header_value_hit(h: Seq<u8>, name: Seq<u8>, pos: int, value: Seq<u8>)
    requires
        0 <= pos,
        pos + name.len() + value.len() + 2 <= h.len(),
        h.subrange(pos, pos + name.len() + value.len() + 2) == name + value + crlf(),
        no_line_feed(name + value),
    ensures
        header_value_from(h, name, pos) == Some(value),
{
    let line = name + value;
    let t = h.subrange(pos, pos + line.len() + 2);
    assert forall|i: int| pos <= i < pos + line.len() + 1 implies h[i] != 10 by {
        assert(h[i] == t[i - pos]);
        if i < pos + line.len() {
            assert(t[i - pos] == line[i - pos]);
        }
    }
    assert(h[pos + line.len() + 1] == t[(line.len() + 1) as int]);
    lemma_first_from(h, pos, 10, pos + line.len() + 1);
    assert(h[pos + line.len()] == t[line.len() as int]);
    assert(h.subrange(pos, pos + name.len()) =~= name) by {
        assert forall|i: int| 0 <= i < name.len() implies h.subrange(pos, pos + name.len())[i]
            == name[i] by {
            assert(h[pos + i] == t[i]);
            assert(t[i] == line[i]);
        }
    }
    assert(h.subrange(pos + name.len(), pos + line.len()) =~= value) by {
        assert forall|i: int| 0 <= i < value.len() implies h.subrange(
            pos + name.len(),
            pos + line.len(),
        )[i] == value[i] by {
            assert(h[pos + name.len() + i] == t[name.len() + i]);
            assert(t[name.len() + i] == line[name.len() + i]);
        }
    }
}

/// In a header block followed by CRLF, the first blank line is the block's last line break
/// and that CRLF.
pub proof fn lemma_first_blank(h: Seq<u8>, rest: Seq<u8>)
    requires
        is_header_block(h),
        h.len() > 0,
    ensures
        occurs_at(h + crlf() + rest, h.len() - 2, blank_line()),
        forall|j: int| 0 <= j < h.len() - 2 ==> !occurs_at(h + crlf() + rest, j, blank_line()),
{
    let p = h + crlf() + rest;
    assert(p.subrange(h.len() - 2, (h.len() + 2) as int) =~= blank_line()) by {
        assert(p[h.len() - 2] == h[h.len() - 2]);
        assert(p[h.len() - 1] == h[h.len() - 1]);
    }
    assert forall|j: int| 0 <= j < h.len() - 2 implies !occurs_at(p, j, blank_line()) by {
        if occurs_at(p, j, blank_line()) {
            let t = p.subrange(j, j + 4);
            assert(t[1] == p[j + 1] && t[2] == p[j + 2]);
            assert(p[j + 1] == h[j + 1] && p[j + 2] == h[j + 2]);
            assert(h[j + 1] == 10);
        }
    }
}

pub(crate) proof fn lemma_cookie_inside(before: Seq<u8>, cookie: Seq<u8>, p: Seq<u8>, info: PacketInfo, is_request: bool)
    requires
        exists|k: int|
            0 <= k < 5 && has_prefix(
                cookie,
                (if is_request {
                    "Cookie: ".spec_bytes()
                } else {
                    "Set-Cookie: ".spec_bytes()
                }) + COOKIE_NAMES[k].spec_bytes() + "=".spec_bytes() + info_cookie(info),
            ),
        has_prefix(p, before + cookie),
    ensures
        carries_record(p, info),
{
    let k = choose|k: int|
        0 <= k < 5 && has_prefix(
            cookie,
            (if is_request {
                "Cookie: ".spec_bytes()
            } else {
                "Set-Cookie: ".spec_bytes()
            }) + COOKIE_NAMES[k].spec_bytes() + "=".spec_bytes() + info_cookie(info),
        );
    let q = (if is_request {
        "Cookie: ".spec_bytes()
    } else {
        "Set-Cookie: ".spec_bytes()
    }) + COOKIE_NAMES[k].spec_bytes() + "=".spec_bytes();
    let c = info_cookie(info);
    let at: int = (before.len() + q.len()) as int;
    assert(cookie.subrange(0, (q + c).len() as int) == q + c);
    assert(p.subrange(0, (before + cookie).len() as int) == before + cookie);
    assert(p.subrange(at, at + c.len()) =~= c) by {
        assert forall|t: int| 0 <= t < c.len() implies p.subrange(at, at + c.len())[t] == c[t] by {
            assert(p[at + t] == (before + cookie)[at + t]);
            assert((before + cookie)[at + t] == cookie[q.len() + t]);
            assert(cookie[q.len() + t] == (q + c)[q.len() + t]);
        }
    }
    assert(occurs_at(p, at as int, c));
}

pub open spec fn crlf() -> Seq<u8> {
    seq![13u8, 10u8]
}

/// The header lines after the data-bearing one: the length line where it can stand as one,
/// the cookie line, and the rest.
pub open spec fn framed_rest(extra: Seq<u8>, cookie: Seq<u8>, others: Seq<u8>) -> Seq<u8> {
    (if is_header_line(extra) {
        extra + crlf()
    } else {
        Seq::empty()
    }) + cookie + crlf() + others
}

/// A packet: the start line, the data-bearing line, the length line (where it is one), the
/// cookie line and the other header lines, each ended by CRLF; a blank line; the body.
pub fn frame_packet(
    first: &[u8],
    data_line: &[u8],
    extra: &[u8],
    cookie: &[u8],
    others: &[u8],
    body: &[u8],
) -> (r: Vec<u8>)
    requires
        is_header_line(first@),
        is_header_line(data_line@),
        is_header_line(cookie@),
        is_header_block(others@),
    ensures
        r@ == (first@ + crlf() + data_line@ + crlf() + framed_rest(extra@, cookie@, others@))
            + crlf() + body@,
        is_header_block(first@ + crlf() + data_line@ + crlf() + framed_rest(extra@, cookie@, others@)),
{
    let mut head: Vec<u8> = Vec::new();
    push_header_line(&mut head, first);
    push_header_line(&mut head, data_line);
    push_header_line(&mut head, extra);
    push_header_line(&mut head, cookie);
    push_block(&mut head, others);
    proof {
        assert(head@ =~= first@ + crlf() + data_line@ + crlf() + framed_rest(extra@, cookie@, others@));
    }
    let mut packet = head;
    packet.push(13);
    packet.push(10);
    push_bytes(&mut packet, body);
    proof {
        assert(packet@ =~= (first@ + crlf() + data_line@ + crlf() + framed_rest(extra@, cookie@, others@))
            + crlf() + body@);
    }
    packet
}

/// How a packet carries its chunk: after its start line comes either the chunk as base64 in
/// the `X-Data` line of a GET request, or the `Content-Type` line of a type under which the body
/// hides the chunk; then more header lines, a blank line, and the body.
pub open spec fn payload_layout(
    p: Seq<u8>,
    first: Seq<u8>,
    data_line: Seq<u8>,
    rest: Seq<u8>,
    body: Seq<u8>,
    mime: Seq<u8>,
    chunk: Seq<u8>,
) -> bool {
    let h = first + crlf() + data_line + crlf() + rest;
    &&& p == h + crlf() + body
    &&& is_header_block(h)
    &&& no_line_feed(first)
    &&& first.len() >= 4
    &&& first[0] != 88 && first[0] != 67
    &&& no_line_feed(data_line)
    &&& if has_prefix(first, "GET ".spec_bytes()) {
        data_line == "X-Data: ".spec_bytes() + base64_of(chunk) && body.len() == 0
    } else {
        data_line == "Content-Type: ".spec_bytes() + mime && hides(mime, body, chunk)
    }
}

/// `p` is framed for the role with the MIME type `m`: a client's request line has the
/// method that `sends_by_get(m)` picks and version 1.1; a server's status line has version 1.1
/// and one of the codes drawn; and the chunk travels as `payload_layout` says for `m`.
pub open spec fn packet_as(p: Seq<u8>, is_client: bool, m: Seq<u8>, chunk: Seq<u8>) -> bool {
    &&& is_client ==> exists|path: Seq<u8>|
        first_line(p) == method_text(sends_by_get(m)) + sp() + path + sp() + version_text()
    &&& !is_client ==> exists|code: u16, reason: Seq<u8>|
        first_line(p) == version_text() + sp() + decimal(code as nat) + sp() + reason && (code == 200
            || code == 201 || code == 202 || code == 204 || code == 206)
    &&& exists|first: Seq<u8>, data_line: Seq<u8>, rest: Seq<u8>, body: Seq<u8>|
        #[trigger] payload_layout(p, first, data_line, rest, body, m, chunk)
}

/// The decoy cookies that may follow the record's: a session id, an analytics pair and a
/// theme, each present or absent, in that order.
pub open spec fn decoy_cookies(t: Seq<u8>) -> bool {
    exists|s1: Seq<u8>, s2: Seq<u8>, s3: Seq<u8>|
        #![trigger s1 + s2 + s3]
        t == s1 + s2 + s3 && (s1.len() == 0 || exists|v: Seq<u8>|
            s1 == "; sid=".spec_bytes() + v && #[trigger] is_cookie_text(v)) && (s2.len() == 0
            || exists|a: nat, b: nat|
            #![trigger decimal(a), decimal(b)]
            a <= u32::MAX && b <= u32::MAX && s2 == "; _ga=GA1.2.".spec_bytes() + decimal(a)
                + ".".spec_bytes() + decimal(b)) && (s3.len() == 0 || s3
            == "; theme=light".spec_bytes())
}

/// The header block of `p` declares the length of the body that follows it.
pub open spec fn declares_length(p: Seq<u8>) -> bool {
    exists|h: Seq<u8>, body: Seq<u8>|
        #![trigger appears_in(h, "Content-Length: ".spec_bytes() + decimal(body.len()) + crlf())]
        p == h + crlf() + body && appears_in(h, "Content-Length: ".spec_bytes() + decimal(body.len()) + crlf())
}

/// A length line `Content-Length: n` stands as a header line.
pub proof fn lemma_length_line(n: nat)
    ensures
        is_header_line("Content-Length: ".spec_bytes() + decimal(n)),
{
    lemma_data_names();
    crate::bytes::lemma_decimal(n);
    assert forall|i: int| 0 <= i < decimal(n).len() implies #[trigger] decimal(n)[i] != 10 by {
        assert(crate::bytes::is_digit(decimal(n)[i]));
    }
    lemma_no_line_feed_concat("Content-Length: ".spec_bytes(), decimal(n));
    assert(("Content-Length: ".spec_bytes() + decimal(n))[0] == 67);
}

/// A packet assembled with a length line for its body declares that length.
pub proof fn lemma_declares_length(
    packet: Seq<u8>,
    first: Seq<u8>,
    data_line: Seq<u8>,
    extra: Seq<u8>,
    cookie: Seq<u8>,
    others: Seq<u8>,
    body: Seq<u8>,
)
    requires
        packet == (first + crlf() + data_line + crlf() + framed_rest(extra, cookie, others)) + crlf()
            + body,
        extra == "Content-Length: ".spec_bytes() + decimal(body.len()),
    ensures
        declares_length(packet),
{
    lemma_length_line(body.len());
    let h = first + crlf() + data_line + crlf() + framed_rest(extra, cookie, others);
    let at = (first.len() + 2 + data_line.len() + 2) as int;
    let q = extra + crlf();
    assert(h.subrange(at, at + q.len()) =~= q);
    assert(occurs_at(h, at, q));
    assert(appears_in(h, "Content-Length: ".spec_bytes() + decimal(body.len()) + crlf()));
}

/// `p` carries `chunk` as `payload_layout` describes.
pub open spec fn carries_payload(p: Seq<u8>, chunk: Seq<u8>) -> bool {
    exists|first: Seq<u8>, data_line: Seq<u8>, rest: Seq<u8>, body: Seq<u8>, mime: Seq<u8>|
        #[trigger] payload_layout(p, first, data_line, rest, body, mime, chunk)
}

pub(crate) proof fn lemma_start_line_lead(first: Seq<u8>, get: bool, path: Seq<u8>)
    requires
        first == method_text(get) + sp() + path + sp() + version_text(),
        is_path_text(path),
    ensures
        first[0] != 88 && first[0] != 67 && first[0] != 13 && first[0] != 83,
        first.len() >= 4,
{
    reveal_strlit("GET");
    reveal_strlit("POST");
    vstd::string::is_ascii_spec_bytes("GET");
    vstd::string::is_ascii_spec_bytes("POST");
    assert(first[0] == method_text(get)[0]);
    crate::utils::lemma_line_lengths(get, path);
}

pub(crate) proof fn lemma_get_prefix(first: Seq<u8>, get: bool, path: Seq<u8>)
    requires
        first == method_text(get) + sp() + path + sp() + version_text(),
        is_path_text(path),
    ensures
        has_prefix(first, "GET ".spec_bytes()) == get,
{
    reveal_strlit("GET");
    reveal_strlit("POST");
    reveal_strlit("GET ");
    vstd::string::is_ascii_spec_bytes("GET");
    vstd::string::is_ascii_spec_bytes("POST");
    vstd::string::is_ascii_spec_bytes("GET ");
    crate::utils::lemma_line_lengths(get, path);
    if get {
        assert(first.subrange(0, 4) =~= "GET ".spec_bytes()) by {
            assert(first[0] == method_text(get)[0]);
            assert(first[1] == method_text(get)[1]);
            assert(first[2] == method_text(get)[2]);
        }
    } else {
        assert(first[0] == method_text(get)[0]);
        assert(first.subrange(0, 4)[0] == first[0]);
    }
}

pub(crate) proof fn lemma_status_line_lead(first: Seq<u8>, code: nat, reason: Seq<u8>)
    requires
        first == version_text() + sp() + decimal(code) + sp() + reason,
        100 <= code < 1000,
        reason.len() > 0,
    ensures
        first[0] != 88 && first[0] != 67 && first[0] != 13 && first[0] != 83,
        first.len() >= 4,
        !has_prefix(first, "GET ".spec_bytes()),
{
    reveal_strlit("HTTP/1.1");
    reveal_strlit("GET ");
    vstd::string::is_ascii_spec_bytes("HTTP/1.1");
    vstd::string::is_ascii_spec_bytes("GET ");
    assert(first[0] == version_text()[0]);
    crate::utils::lemma_status_line_length(code, reason);
    assert(first.subrange(0, 4)[0] == first[0]);
}

/// An assembled packet is framed for its role, carries the record of its cookie line, and
/// opens with its start line.
pub(crate) proof fn lemma_framed_packet(
    first: Seq<u8>,
    data_line: Seq<u8>,
    extra: Seq<u8>,
    cookie: Seq<u8>,
    others: Seq<u8>,
    body: Seq<u8>,
    packet: Seq<u8>,
    info: PacketInfo,
    is_client: bool,
)
    requires
        is_start_line(first, is_client),
        packet == (first + crlf() + data_line + crlf() + framed_rest(extra, cookie, others)) + crlf()
            + body,
        exists|k: int, tail: Seq<u8>| #[trigger] record_cookie_line(cookie, k, tail, info, is_client),
    ensures
        is_framed_as(packet, is_client),
        first_line(packet) == first,
        carries_record(packet, info),
{
    let (k, tail) = choose|k: int, tail: Seq<u8>| #[trigger] record_cookie_line(cookie, k, tail, info, is_client);
    let lead = (if is_client {
        "Cookie: ".spec_bytes()
    } else {
        "Set-Cookie: ".spec_bytes()
    }) + COOKIE_NAMES[k].spec_bytes() + "=".spec_bytes() + info_cookie(info);
    assert(cookie.subrange(0, lead.len() as int) =~= lead);
    assert(packet.subrange(0, (first + crlf()).len() as int) =~= first + crlf());
    lemma_framed_by_start(first, packet, is_client);
    let e = if is_header_line(extra) {
        extra + crlf()
    } else {
        Seq::<u8>::empty()
    };
    let before = first + crlf() + data_line + crlf() + e;
    assert(packet.subrange(0, (before + cookie).len() as int) =~= before + cookie);
    lemma_cookie_inside(before, cookie, packet, info, is_client);
}

/// What the decoder needs of a packet: a blank line at `split` ends its header block, and the
/// header block names the chunk (`X-Data`) or the type its body hides the chunk under.
pub open spec fn decodes_to(p: Seq<u8>, split: int, chunk: Seq<u8>) -> bool {
    let h = p.subrange(0, split + 2);
    let body = p.subrange(split + 4, p.len() as int);
    &&& 0 <= split && split + 4 <= p.len()
    &&& has_prefix(p, "GET ".spec_bytes()) ==> header_value_from(h, "X-Data: ".spec_bytes(), 0)
        == Some(base64_of(chunk))
    &&& !has_prefix(p, "GET ".spec_bytes()) ==> exists|mime: Seq<u8>|
        header_value_from(h, "Content-Type: ".spec_bytes(), 0) == Some(mime) && #[trigger] hides(
            mime,
            body,
            chunk,
        )
}

/// The first blank line of a packet laid out as `payload_layout` says ends its header block.
pub(crate) proof fn lemma_payload_split(
    p: Seq<u8>,
    first: Seq<u8>,
    data_line: Seq<u8>,
    rest: Seq<u8>,
    body: Seq<u8>,
    mime: Seq<u8>,
    chunk: Seq<u8>,
    split: int,
)
    requires
        payload_layout(p, first, data_line, rest, body, mime, chunk),
        split == p.len() || (split + 4 <= p.len() && occurs_at(p, split, blank_line())),
        forall|j: int| 0 <= j < split && j + 4 <= p.len() ==> !occurs_at(p, j, blank_line()),
    ensures
        split + 2 == (first + crlf() + data_line + crlf() + rest).len(),
        split + 4 <= p.len(),
        p.subrange(0, split + 2) == first + crlf() + data_line + crlf() + rest,
        p.subrange(split + 4, p.len() as int) == body,
        has_prefix(p, "GET ".spec_bytes()) == has_prefix(first, "GET ".spec_bytes()),
{
    let h = first + crlf() + data_line + crlf() + rest;
    lemma_first_blank(h, body);
    let at = h.len() - 2;
    if split > at {
        assert(!occurs_at(p, at, blank_line()));
    }
    if split < at {
        assert(!occurs_at(p, split, blank_line()));
    }
    assert(p.subrange(0, split + 2) =~= h);
    assert(p.subrange(split + 4, p.len() as int) =~= body);
    reveal_strlit("GET ");
    vstd::string::is_ascii_spec_bytes("GET ");
    assert(p.subrange(0, 4) =~= first.subrange(0, 4));
}

/// In the header block of a packet laid out as `payload_layout` says, the data-bearing line
/// is the first that starts with its name.
pub(crate) proof fn lemma_payload_lookup(first: Seq<u8>, data_line: Seq<u8>, rest: Seq<u8>, name: Seq<u8>, value: Seq<u8>)
    requires
        no_line_feed(first),
        first.len() >= 1,
        name.len() >= 1,
        first[0] != name[0],
        data_line == name + value,
        no_line_feed(data_line),
    ensures
        header_value_from(first + crlf() + data_line + crlf() + rest, name, 0) == Some(value),
{
    let h = first + crlf() + data_line + crlf() + rest;
    assert(!has_prefix(first, name)) by {
        if has_prefix(first, name) {
            assert(first.subrange(0, name.len() as int)[0] == first[0]);
        }
    }
    assert(h.subrange(0, (first.len() + 2) as int) =~= first + crlf());
    lemma_header_value_skip(h, name, 0, first);
    let pos: int = (first.len() + 2) as int;
    assert(h.subrange(pos, pos + data_line.len() + 2) =~= data_line + crlf());
    lemma_header_value_hit(h, name, pos, value);
}

/// A packet laid out as `payload_layout` says decodes to its chunk at its first blank line.
pub(crate) proof fn lemma_payload_decodes(
    p: Seq<u8>,
    first: Seq<u8>,
    data_line: Seq<u8>,
    rest: Seq<u8>,
    body: Seq<u8>,
    mime: Seq<u8>,
    chunk: Seq<u8>,
    split: int,
)
    requires
        payload_layout(p, first, data_line, rest, body, mime, chunk),
        split == p.len() || (split + 4 <= p.len() && occurs_at(p, split, blank_line())),
        forall|j: int| 0 <= j < split && j + 4 <= p.len() ==> !occurs_at(p, j, blank_line()),
    ensures
        decodes_to(p, split, chunk),
{
    lemma_payload_split(p, first, data_line, rest, body, mime, chunk, split);
    lemma_data_names();
    if has_prefix(first, "GET ".spec_bytes()) {
        let name = "X-Data: ".spec_bytes();
        let value = base64_of(chunk);
        lemma_payload_lookup(first, data_line, rest, name, value);
    } else {
        let name = "Content-Type: ".spec_bytes();
        lemma_payload_lookup(first, data_line, rest, name, mime);
    }
}

pub proof fn lemma_first_in(s: Seq<u8>, from: int, to: int, c: u8, k: int)
    requires
        from <= k <= to,
        forall|i: int| from <= i < k ==> s[i] != c,
        k == to || s[k] == c,
    ensures
        first_in(s, from, to, c) == k,
    decreases k - from,
{
    if from < k {
        lemma_first_in(s, from + 1, to, c, k);
    }
}

pub(crate) proof fn lemma_trim_end_steps(s: Seq<u8>, a: int, b: int, k: int)
    requires
        a < k <= b,
        forall|i: int| k <= i < b ==> s[i] == 32 || s[i] == 13,
        s[k - 1] != 32 && s[k - 1] != 13,
    ensures
        trim_end(s, a, b) == k,
    decreases b - k,
{
    if b > k {
        lemma_trim_end_steps(s, a, b - 1, k);
    }
}

/// A line that does not open with `Cookie: ` or `Set-Cookie: `.
pub open spec fn not_cookie_line(line: Seq<u8>) -> bool {
    line.len() >= 3 && line[0] != 83 && (line[0] != 67 || line[2] != 111)
}

/// A line that is not a cookie line is passed over by the record search.
pub(crate) proof fn lemma_records_skip(h: Seq<u8>, pos: int, line: Seq<u8>)
    requires
        0 <= pos,
        pos + line.len() + 2 <= h.len(),
        h.subrange(pos, pos + line.len() + 2) == line + crlf(),
        no_line_feed(line),
        not_cookie_line(line),
    ensures
        records_from(h, pos) == records_from(h, pos + line.len() + 2),
{
    let t = h.subrange(pos, pos + line.len() + 2);
    assert forall|i: int| pos <= i < pos + line.len() + 1 implies h[i] != 10 by {
        assert(h[i] == t[i - pos]);
        if i < pos + line.len() {
            assert(t[i - pos] == line[i - pos]);
        }
    }
    assert(h[pos + line.len() + 1] == t[(line.len() + 1) as int]);
    lemma_first_from(h, pos, 10, pos + line.len() + 1);
    lemma_cookie_parts();
    assert(h[pos] == line[0]) by {
        assert(h[pos] == t[0]);
    }
    assert(h[pos + 2] == line[2]) by {
        assert(h[pos + 2] == t[2]);
    }
    reveal_strlit("Cookie: ");
    vstd::string::is_ascii_spec_bytes("Cookie: ");
    if occurs_at(h, pos, "Cookie: ".spec_bytes()) {
        assert(h.subrange(pos, pos + 8)[0] == h[pos]);
        assert(h.subrange(pos, pos + 8)[2] == h[pos + 2]);
    }
    if occurs_at(h, pos, "Set-Cookie: ".spec_bytes()) {
        assert(h.subrange(pos, pos + 12)[0] == h[pos]);
    }
}

/// Facts on the bytes of a cookie name and of base64 text that the record search relies on.
pub(crate) proof fn lemma_cookie_name_bytes(k: int)
    requires
        0 <= k < 5,
    ensures
        COOKIE_NAMES[k].spec_bytes().len() > 0,
        COOKIE_NAMES[k].spec_bytes().len() <= 11,
        COOKIE_NAMES[k].spec_bytes()[0] != 32,
        forall|i: int| 0 <= i < COOKIE_NAMES[k].spec_bytes().len() ==> #[trigger] COOKIE_NAMES[k].spec_bytes()[i] != 59
            && COOKIE_NAMES[k].spec_bytes()[i] != 61 && COOKIE_NAMES[k].spec_bytes()[i] != 10,
{
    if k == 0 {
        reveal_strlit("_sess");
        vstd::string::is_ascii_spec_bytes(COOKIE_NAMES[0]);
        assert(COOKIE_NAMES[0] == "_sess");
        assert forall|i: int| 0 <= i < 5 implies #[trigger] COOKIE_NAMES[k].spec_bytes()[i] != 59
            && COOKIE_NAMES[k].spec_bytes()[i] != 61 && COOKIE_NAMES[k].spec_bytes()[i] != 10 by {
            if i == 0 {
            } else if i == 1 {
            } else if i == 2 {
            } else if i == 3 {
            } else {
            }
        }
    } else if k == 1 {
        reveal_strlit("_csrf_token");
        vstd::string::is_ascii_spec_bytes(COOKIE_NAMES[1]);
        assert(COOKIE_NAMES[1] == "_csrf_token");
        assert forall|i: int| 0 <= i < 11 implies #[trigger] COOKIE_NAMES[k].spec_bytes()[i] != 59
            && COOKIE_NAMES[k].spec_bytes()[i] != 61 && COOKIE_NAMES[k].spec_bytes()[i] != 10 by {
            if i == 0 {
            } else if i == 1 {
            } else if i == 2 {
            } else if i == 3 {
            } else if i == 4 {
            } else if i == 5 {
            } else if i == 6 {
            } else if i == 7 {
            } else if i == 8 {
            } else if i == 9 {
            } else {
            }
        }
    } else if k == 2 {
        reveal_strlit("_uid");
        vstd::string::is_ascii_spec_bytes(COOKIE_NAMES[2]);
        assert(COOKIE_NAMES[2] == "_uid");
        assert forall|i: int| 0 <= i < 4 implies #[trigger] COOKIE_NAMES[k].spec_bytes()[i] != 59
            && COOKIE_NAMES[k].spec_bytes()[i] != 61 && COOKIE_NAMES[k].spec_bytes()[i] != 10 by {
            if i == 0 {
            } else if i == 1 {
            } else if i == 2 {
            } else {
            }
        }
    } else if k == 3 {
        reveal_strlit("_pref");
        vstd::string::is_ascii_spec_bytes(COOKIE_NAMES[3]);
        assert(COOKIE_NAMES[3] == "_pref");
        assert forall|i: int| 0 <= i < 5 implies #[trigger] COOKIE_NAMES[k].spec_bytes()[i] != 59
            && COOKIE_NAMES[k].spec_bytes()[i] != 61 && COOKIE_NAMES[k].spec_bytes()[i] != 10 by {
            if i == 0 {
            } else if i == 1 {
            } else if i == 2 {
            } else if i == 3 {
            } else {
            }
        }
    } else if k == 4 {
        reveal_strlit("_trk");
        vstd::string::is_ascii_spec_bytes(COOKIE_NAMES[4]);
        assert(COOKIE_NAMES[4] == "_trk");
        assert forall|i: int| 0 <= i < 4 implies #[trigger] COOKIE_NAMES[k].spec_bytes()[i] != 59
            && COOKIE_NAMES[k].spec_bytes()[i] != 61 && COOKIE_NAMES[k].spec_bytes()[i] != 10 by {
            if i == 0 {
            } else if i == 1 {
            } else if i == 2 {
            } else {
            }
        }
    }
}

/// The bytes of a line that stands at `pos`, ended by CRLF.
pub(crate) proof fn lemma_line_at(h: Seq<u8>, pos: int, line: Seq<u8>)
    requires
        0 <= pos,
        pos + line.len() + 2 <= h.len(),
        h.subrange(pos, pos + line.len() + 2) == line + crlf(),
        no_line_feed(line),
    ensures
        forall|i: int| 0 <= i < line.len() ==> h[pos + i] == #[trigger] line[i],
        h[pos + line.len()] == 13,
        first_from(h, pos, 10) == pos + line.len() + 1,
{
    let t = h.subrange(pos, pos + line.len() + 2);
    assert forall|i: int| 0 <= i < line.len() implies h[pos + i] == #[trigger] line[i] by {
        assert(h[pos + i] == t[i]);
    }
    assert(h[pos + line.len()] == t[line.len() as int]);
    assert forall|i: int| pos <= i < pos + line.len() + 1 implies h[i] != 10 by {
        if i < pos + line.len() {
            assert(h[i] == line[i - pos]);
        }
    }
    assert(h[pos + line.len() + 1] == t[(line.len() + 1) as int]);
    lemma_first_from(h, pos, 10, pos + line.len() + 1);
}

/// The first cookie of a record's cookie line reads as that record.
pub(crate) proof fn lemma_pair_eval(h: Seq<u8>, a: int, end: int, name: Seq<u8>, v: Seq<u8>, k: int, info: PacketInfo)
    requires
        0 <= k < 5,
        name == COOKIE_NAMES[k].spec_bytes(),
        v == info_cookie(info),
        0 <= a,
        a + name.len() + 1 + v.len() <= end <= h.len(),
        forall|i: int| 0 <= i < name.len() ==> h[a + i] == #[trigger] name[i],
        h[a + name.len()] == 61,
        forall|i: int| 0 <= i < v.len() ==> h[a + name.len() + 1 + i] == #[trigger] v[i],
        forall|i: int| a + name.len() + 1 + v.len() <= i < end ==> h[i] == 13,
    ensures
        pair_record(h, a, end) == Some(info),
{
    lemma_cookie_name_bytes(k);
    crate::b64::lemma_base64_shape(info_json(info));
    lemma_info_json_nonempty(info);
    let eq = a + name.len();
    let b = eq + 1 + v.len();
    assert(trim_start(h, a, end) == a) by {
        assert(h[a] == name[0]);
    }
    assert(crate::b64::is_b64_byte(v[v.len() - 1]));
    assert(h[b - 1] == v[v.len() - 1]);
    lemma_trim_end_steps(h, a, end, b);
    assert forall|i: int| a <= i < eq implies h[i] != 61 by {
        assert(h[i] == name[i - a]);
    }
    lemma_first_in(h, a, b, 61, eq);
    assert(h.subrange(a, eq) =~= name);
    assert(h.subrange(eq + 1, b) =~= v);
    assert(is_allowed_name(h.subrange(a, eq)));
    let c = choose|i: PacketInfo| #[trigger] info_cookie(i) == v;
    lemma_info_cookie_injective(c, info);
}

/// The record search finds the record of a cookie line whose first cookie is an allow-listed
/// name and that record's cookie value.
#[verifier::rlimit(100)]
pub(crate) proof fn lemma_records_hit(h: Seq<u8>, pos: int, cookie: Seq<u8>, k: int, tail: Seq<u8>, info: PacketInfo, is_client: bool)
    requires
        0 <= pos,
        0 <= k < 5,
        pos + cookie.len() + 2 <= h.len(),
        h.subrange(pos, pos + cookie.len() + 2) == cookie + crlf(),
        no_line_feed(cookie),
        cookie == (if is_client {
            "Cookie: ".spec_bytes()
        } else {
            "Set-Cookie: ".spec_bytes()
        }) + COOKIE_NAMES[k].spec_bytes() + "=".spec_bytes() + info_cookie(info) + tail,
        tail.len() == 0 || tail[0] == 59,
    ensures
        records_from(h, pos) == Some(info),
{
    lemma_cookie_parts();
    lemma_cookie_name_bytes(k);
    crate::b64::lemma_base64_shape(info_json(info));
    let pre = if is_client {
        "Cookie: ".spec_bytes()
    } else {
        "Set-Cookie: ".spec_bytes()
    };
    let name = COOKIE_NAMES[k].spec_bytes();
    let v = info_cookie(info);
    lemma_line_at(h, pos, cookie);
    let nl = pos + cookie.len() + 1;
    let from = pos + pre.len();
    let eq = from + name.len();
    let b = eq + 1 + v.len();
    assert(cookie.len() == pre.len() + name.len() + 1 + v.len() + tail.len());
    assert forall|i: int| 0 <= i < pre.len() implies h[pos + i] == #[trigger] pre[i] by {
        assert(cookie[i] == pre[i]);
    }
    assert forall|i: int| 0 <= i < name.len() implies h[from + i] == #[trigger] name[i] by {
        assert(cookie[pre.len() + i] == name[i]);
    }
    assert(h[eq] == 61) by {
        reveal_strlit("=");
        vstd::string::is_ascii_spec_bytes("=");
        assert(cookie[(pre.len() + name.len()) as int] == "=".spec_bytes()[0]);
    }
    assert forall|i: int| 0 <= i < v.len() implies h[eq + 1 + i] == #[trigger] v[i] by {
        assert(cookie[pre.len() + name.len() + 1 + i] == v[i]);
    }
    assert(h.subrange(pos, pos + pre.len()) =~= pre);
    if !is_client {
        assert(!occurs_at(h, pos, "Cookie: ".spec_bytes())) by {
            if occurs_at(h, pos, "Cookie: ".spec_bytes()) {
                assert(h.subrange(pos, pos + 8)[0] == h[pos]);
                assert(h[pos] == pre[0]);
            }
        }
    }
    assert(cookie_start(h, pos) == from);
    let end = if tail.len() == 0 {
        nl
    } else {
        b
    };
    assert forall|i: int| 0 <= i < v.len() implies #[trigger] v[i] != 59 by {
        assert(crate::b64::is_b64_byte(v[i]));
    }
    assert forall|i: int| from <= i < end implies h[i] != 59 by {
        if i < eq {
            assert(h[i] == name[i - from]);
        } else if i == eq {
        } else if i < b {
            assert(h[i] == v[i - eq - 1]);
        }
    }
    if tail.len() > 0 {
        assert(h[b] == tail[0]) by {
            assert(cookie[(pre.len() + name.len() + 1 + v.len()) as int] == tail[0]);
        }
    }
    lemma_first_in(h, from, nl, 59, end);
    lemma_pair_eval(h, from, end, name, v, k, info);
}

pub(crate) proof fn lemma_info_json_nonempty(i: PacketInfo)
    ensures
        info_json(i).len() > 0,
{
    lemma_info_layout(i);
}

/// The cookie line that carries `info` under the `k`th allowed name, first among cookies.
pub open spec fn record_cookie_line(cookie: Seq<u8>, k: int, tail: Seq<u8>, info: PacketInfo, is_client: bool) -> bool {
    &&& 0 <= k < 5
    &&& cookie == (if is_client {
        "Cookie: ".spec_bytes()
    } else {
        "Set-Cookie: ".spec_bytes()
    }) + COOKIE_NAMES[k].spec_bytes() + "=".spec_bytes() + info_cookie(info) + tail
    &&& (tail.len() == 0 || tail[0] == 59)
    &&& no_line_feed(cookie)
}

/// How a packet built for a role carries `chunk` and `info`: as `payload_layout` says, with
/// a start line for the role, and the record's cookie line right after the data-bearing line
/// and the length line.
pub open spec fn packet_layout(
    p: Seq<u8>,
    first: Seq<u8>,
    data_line: Seq<u8>,
    extra: Seq<u8>,
    cookie: Seq<u8>,
    others: Seq<u8>,
    body: Seq<u8>,
    mime: Seq<u8>,
    k: int,
    tail: Seq<u8>,
    chunk: Seq<u8>,
    info: PacketInfo,
    is_client: bool,
) -> bool {
    &&& payload_layout(p, first, data_line, framed_rest(extra, cookie, others), body, mime, chunk)
    &&& is_start_line(first, is_client)
    &&& not_cookie_line(first)
    &&& not_cookie_line(data_line)
    &&& (is_header_line(extra) ==> not_cookie_line(extra))
    &&& record_cookie_line(cookie, k, tail, info, is_client)
}

/// `p` is a packet of the role that carries `chunk` and `info`.
pub open spec fn carries_packet(p: Seq<u8>, chunk: Seq<u8>, info: PacketInfo, is_client: bool) -> bool {
    exists|
        first: Seq<u8>,
        data_line: Seq<u8>,
        extra: Seq<u8>,
        cookie: Seq<u8>,
        others: Seq<u8>,
        body: Seq<u8>,
        mime: Seq<u8>,
        k: int,
        tail: Seq<u8>,
    |
        #[trigger] packet_layout(
            p,
            first,
            data_line,
            extra,
            cookie,
            others,
            body,
            mime,
            k,
            tail,
            chunk,
            info,
            is_client,
        )
}

/// A packet the builders assemble carries its chunk and record as `packet_layout` says.
pub(crate) proof fn lemma_builder_layout(
    packet: Seq<u8>,
    first: Seq<u8>,
    data_line: Seq<u8>,
    extra: Seq<u8>,
    cookie: Seq<u8>,
    others: Seq<u8>,
    body: Seq<u8>,
    mime: Seq<u8>,
    chunk: Seq<u8>,
    info: PacketInfo,
    is_client: bool,
)
    requires
        payload_layout(packet, first, data_line, framed_rest(extra, cookie, others), body, mime, chunk),
        is_start_line(first, is_client),
        first[0] != 83 && first[0] != 67,
        data_line.len() >= 3 && (data_line[0] == 88 || (data_line[0] == 67 && data_line[2] == 110)),
        is_header_line(extra) ==> extra.len() >= 3 && extra[0] == 67 && extra[2] == 110,
        exists|k: int, tail: Seq<u8>| #[trigger] record_cookie_line(cookie, k, tail, info, is_client),
    ensures
        carries_packet(packet, chunk, info, is_client),
{
    let (k, tail) = choose|k: int, tail: Seq<u8>| #[trigger] record_cookie_line(cookie, k, tail, info, is_client);
    assert(packet_layout(packet, first, data_line, extra, cookie, others, body, mime, k, tail, chunk, info, is_client));
}

/// What decoding needs of a packet that carries a chunk and a record: it is framed for its
/// role, carries the chunk, and its header block, up to the first blank line at `split`,
/// yields the record.
#[verifier::rlimit(100)]
pub(crate) proof fn lemma_packet_facts(
    p: Seq<u8>,
    first: Seq<u8>,
    data_line: Seq<u8>,
    extra: Seq<u8>,
    cookie: Seq<u8>,
    others: Seq<u8>,
    body: Seq<u8>,
    mime: Seq<u8>,
    k: int,
    tail: Seq<u8>,
    chunk: Seq<u8>,
    info: PacketInfo,
    is_client: bool,
    split: int,
)
    requires
        packet_layout(p, first, data_line, extra, cookie, others, body, mime, k, tail, chunk, info, is_client),
        split == p.len() || (split + 4 <= p.len() && occurs_at(p, split, blank_line())),
        forall|j: int| 0 <= j < split && j + 4 <= p.len() ==> !occurs_at(p, j, blank_line()),
    ensures
        is_framed_as(p, is_client),
        carries_payload(p, chunk),
        split + 4 <= p.len(),
        records_from(p.subrange(0, split + 2), 0) == Some(info),
{
    let rest = framed_rest(extra, cookie, others);
    let h = first + crlf() + data_line + crlf() + rest;
    lemma_payload_split(p, first, data_line, rest, body, mime, chunk, split);
    assert(p.subrange(0, (first + crlf()).len() as int) =~= first + crlf());
    lemma_framed_by_start(first, p, is_client);
    lemma_records_of_head(first, data_line, extra, cookie, others, k, tail, info, is_client);
}

/// The record search over a packet's header block finds the record of its cookie line.
#[verifier::rlimit(100)]
pub(crate) proof fn lemma_records_of_head(
    first: Seq<u8>,
    data_line: Seq<u8>,
    extra: Seq<u8>,
    cookie: Seq<u8>,
    others: Seq<u8>,
    k: int,
    tail: Seq<u8>,
    info: PacketInfo,
    is_client: bool,
)
    requires
        no_line_feed(first),
        no_line_feed(data_line),
        not_cookie_line(first),
        not_cookie_line(data_line),
        is_header_line(extra) ==> not_cookie_line(extra),
        record_cookie_line(cookie, k, tail, info, is_client),
    ensures
        records_from(first + crlf() + data_line + crlf() + framed_rest(extra, cookie, others), 0)
            == Some(info),
{
    let h = first + crlf() + data_line + crlf() + framed_rest(extra, cookie, others);
    let p1 = (first.len() + 2) as int;
    assert(h.subrange(0, p1) =~= first + crlf());
    lemma_records_skip(h, 0, first);
    assert(h.subrange(p1, p1 + data_line.len() + 2) =~= data_line + crlf());
    lemma_records_skip(h, p1, data_line);
    let p2 = p1 + data_line.len() + 2;
    let p3 = if is_header_line(extra) {
        p2 + extra.len() + 2
    } else {
        p2
    };
    if is_header_line(extra) {
        assert(h.subrange(p2, p2 + extra.len() + 2) =~= extra + crlf());
        lemma_records_skip(h, p2, extra);
    }
    assert(h.subrange(p3, p3 + cookie.len() + 2) =~= cookie + crlf());
    lemma_records_hit(h, p3, cookie, k, tail, info, is_client);
}

} // verus!
