//! The protocol: the steganographic processor, its encode and decode operations, their laws,
//! and packets of an exact length.
use crate::b64::{base64_of, decode_base64};
use crate::bytes::{
    bytes_at,
    copy_range, has_prefix, push_bytes, starts_with, decimal, occurs_at, push_decimal, push_text,
};
use crate::stego::{decode_mime_bytes, encode_mime, get_random_mime_type, hides, same_bytes};
use crate::utils::{
    API_PATHS, STATIC_PATHS, clean_path, clean_reason, find_byte, first_line,
    generate_realistic_headers, is_header_block, is_header_line, is_http_packet, is_response_line,
    lemma_request_line, lemma_status_line, method_text, no_line_feed, push_block, push_header_line,
    push_request_line, push_status_line, sp, validate_http_packet, version_text,
};
use crate::RainbowError;
use rand::rngs::StdRng;
use crate::metadata::{info_cookie, info_json, lemma_info_cookie_injective, PacketInfo};
use crate::framing::{
    lemma_cookie_inside, lemma_framed_by_start,
    cookie_pieces, packet_as, payload_fault, payload_of, head_of, first_blank,
    COOKIE_NAMES, STATUS_REASONS, accept_for, appears_in, blank_line, body_declared, bytes_end_with,
    carries_packet, carries_payload, carries_record, chunk_count, chunk_len, cookie_values_start,
    crlf, declared_body, decodes_to, find_blank_line, find_byte_before, frame_packet, framed_rest,
    fresh_session_id, header_value, is_allowed_cookie_name, is_framed_as, is_start_line,
    is_visible_text, lemma_appears_prefix, lemma_base64_no_line_feed, lemma_builder_layout,
    lemma_cookie_parts, lemma_data_names, lemma_framed_opens, lemma_framed_packet, lemma_get_prefix,
    lemma_no_line_feed_concat, lemma_opens_as_prefix, lemma_packet_facts, lemma_payload_decodes,
    lemma_start_line_lead, lemma_status_line_lead, opens_as, packet_layout, pair_record, pairs_from,
    payload_layout, record_cookie_line, records_from, sends_by_get, status_for, trim_spaces,
    visible_text,
};
use vstd::prelude::*;
use vstd::string::StringSliceAdditionalSpecFns;

verus! {

/// The most payload bytes one packet carries.
pub const CHUNK_SIZE: usize = 1024;

/// `p` is packet `index` of `total` for the payload `data`: it carries chunk `index` and its
/// record, laid out as `packet_layout` says.
pub open spec fn carries_chunk(p: Seq<u8>, data: Seq<u8>, index: int, total: int, is_client: bool) -> bool {
    let chunk = chunk_of(data, index);
    exists|info: PacketInfo|
        #![trigger carries_packet(p, chunk, info, is_client)]
        carries_packet(p, chunk, info, is_client) && info.version == 1 && info.index == index
            && info.total == total && info.length == chunk.len()
}

/// The MIME type `m` a packet uses: the one given, or a registered one where none is.
pub open spec fn mime_choice(mime_type: Option<String>, m: Seq<u8>) -> bool {
    match mime_type {
        Some(t) => m == vstd::utf8::encode_utf8(t@),
        None => exists|k: int| 0 <= k < 6 && m == vstd::utf8::encode_utf8(crate::stego::mime_text(k)),
    }
}

/// Packet `index` of `data` is framed with the MIME type chosen for it and carries its chunk
/// under that type.
pub open spec fn chunk_framed(
    p: Seq<u8>,
    data: Seq<u8>,
    index: int,
    is_client: bool,
    mime_type: Option<String>,
) -> bool {
    exists|m: Seq<u8>| mime_choice(mime_type, m) && #[trigger] packet_as(p, is_client, m, chunk_of(data, index))
}

/// Chunk `i` of a payload.
pub open spec fn chunk_of(data: Seq<u8>, i: int) -> Seq<u8> {
    data.subrange(i * CHUNK_SIZE, i * CHUNK_SIZE + chunk_len(data.len() as int, i))
}

/// The first `k` chunks of a payload, joined in order.
pub open spec fn rebuilt(data: Seq<u8>, k: int) -> Seq<u8>
    decreases k,
{
    if k <= 0 {
        Seq::empty()
    } else {
        rebuilt(data, k - 1) + chunk_of(data, k - 1)
    }
}

/// Round trip: the chunks of a payload, which its packets carry and decoding returns one by
/// one, joined in order are the payload.
pub proof fn lemma_chunks_rebuild(data: Seq<u8>)
    ensures
        rebuilt(data, chunk_count(data.len() as int)) == data,
{
    let n = data.len();
    lemma_chunking(n);
    let c = chunk_count(n as int);
    if n == 0 {
        assert(c == 0);
        assert(data =~= Seq::<u8>::empty());
    } else {
        lemma_rebuilt_prefix(data, c - 1);
        let last = chunk_of(data, c - 1);
        assert(rebuilt(data, c) == data.subrange(0, (c - 1) * CHUNK_SIZE) + last);
        assert(data.subrange(0, (c - 1) * CHUNK_SIZE) + last =~= data);
    }
}

proof fn lemma_rebuilt_prefix(data: Seq<u8>, k: int)
    requires
        0 <= k,
        k * CHUNK_SIZE < data.len() || k == 0,
        k < chunk_count(data.len() as int) || k == 0,
    ensures
        rebuilt(data, k) == data.subrange(0, k * CHUNK_SIZE),
    decreases k,
{
    lemma_chunking(data.len());
    if k == 0 {
        assert(rebuilt(data, 0) =~= data.subrange(0, 0));
    } else {
        assert((k - 1) * CHUNK_SIZE < data.len()) by (nonlinear_arith)
            requires
                k * CHUNK_SIZE < data.len(),
                k >= 1,
        ;
        lemma_rebuilt_prefix(data, k - 1);
        assert(chunk_len(data.len() as int, k - 1) == CHUNK_SIZE);
        assert((k - 1) * CHUNK_SIZE + CHUNK_SIZE == k * CHUNK_SIZE) by (nonlinear_arith);
        assert(rebuilt(data, k) =~= data.subrange(0, k * CHUNK_SIZE));
    }
}

/// Round trip and end of stream, packet by packet: packet `i` of `total` that `encode_write`
/// made carries chunk `i` and a record whose declared length is that chunk's, so
/// `decrypt_single_read` returns that chunk, and it reports the end of the stream exactly
/// for `i == total - 1`.
pub proof fn lemma_packet_round_trip(p: Seq<u8>, data: Seq<u8>, i: int, total: int, is_client: bool)
    requires
        0 <= i < total,
        carries_chunk(p, data, i, total, is_client),
    ensures
        exists|info: PacketInfo|
            #![trigger carries_packet(p, chunk_of(data, i), info, is_client)]
            carries_packet(p, chunk_of(data, i), info, is_client) && chunk_of(data, i).len()
                == info.length && ((i + 1 >= info.total) == (i == total - 1)),
{
    let info = choose|info: PacketInfo|
        #![trigger carries_packet(p, chunk_of(data, i), info, is_client)]
        carries_packet(p, chunk_of(data, i), info, is_client) && info.version == 1 && info.index == i
            && info.total == total && info.length == chunk_of(data, i).len();
    lemma_end_of_stream(i, total);
}

/// Chunking: a payload of `n` bytes makes `ceil(n / CHUNK_SIZE)` chunks; each but the last
/// is `CHUNK_SIZE` bytes long, the last is `n mod CHUNK_SIZE` bytes long or `CHUNK_SIZE` where
/// that is 0, and together they are `n` bytes long.
pub proof fn lemma_chunking(n: nat)
    ensures
        chunk_count(n as int) * CHUNK_SIZE >= n,
        n > 0 ==> (chunk_count(n as int) - 1) * CHUNK_SIZE < n,
        forall|i: int| 0 <= i < chunk_count(n as int) - 1 ==> #[trigger] chunk_len(n as int, i) == CHUNK_SIZE,
        n > 0 ==> chunk_len(n as int, chunk_count(n as int) - 1) == if n % CHUNK_SIZE as nat == 0 {
            CHUNK_SIZE as int
        } else {
            (n % CHUNK_SIZE as nat) as int
        },
        n > 0 ==> (chunk_count(n as int) - 1) * CHUNK_SIZE + chunk_len(n as int, chunk_count(n as int) - 1) == n,
{
    let c = chunk_count(n as int);
    assert(c == (n + 1023) / 1024);
    assert forall|i: int| 0 <= i < c - 1 implies #[trigger] chunk_len(n as int, i) == CHUNK_SIZE by {
        assert(n - i * 1024 >= 1024) by (nonlinear_arith)
            requires
                0 <= i < c - 1,
                c == (n + 1023) / 1024,
        ;
    }
    if n > 0 {
        assert(n - (c - 1) * 1024 > 0 && n - (c - 1) * 1024 <= 1024) by (nonlinear_arith)
            requires
                c == (n + 1023) / 1024,
                n > 0,
        ;
        assert(n - (c - 1) * 1024 == if n % 1024 == 0 {
            1024
        } else {
            n % 1024
        }) by (nonlinear_arith)
            requires
                c == (n + 1023) / 1024,
                n > 0,
        ;
    }
}

/// End of stream: of `total` packets, only the one at index `total - 1` is the last by the
/// rule `index + 1 >= total`.
pub proof fn lemma_end_of_stream(index: int, total: int)
    requires
        0 <= index < total,
    ensures
        (index + 1 >= total) == (index == total - 1),
{
}

/// Direction integrity: a packet framed for one role is well formed, and its first line's
/// direction is the one the opposite role refuses (`decrypt_single_read` returns
/// `InvalidData` there).
pub proof fn lemma_direction_integrity(p: Seq<u8>, is_client: bool)
    requires
        is_framed_as(p, is_client),
    ensures
        is_http_packet(p),
        (!is_client) == is_response_line(first_line(p)),
        is_client == !is_response_line(first_line(p)),
{
}

/// The steganographic processor: HTTP-shaped packets that carry a payload chunk by chunk.
pub struct Rainbow {}

impl Rainbow {
    pub fn new() -> (r: Rainbow) {
        Rainbow {  }
    }

    /// The `Accept` header a browser would send for `path`.
    pub fn get_accept_header(&self, path: &str) -> (r: &'static str)
        ensures
            r@ == accept_for(path.spec_bytes()),
    {
        let p = path.as_bytes();
        if bytes_end_with(p, ".css".as_bytes()) {
            "text/css,*/*;q=0.1"
        } else if bytes_end_with(p, ".js".as_bytes()) {
            "application/javascript,*/*;q=0.1"
        } else if bytes_end_with(p, ".png".as_bytes()) {
            "image/png,image/*;q=0.8,*/*;q=0.5"
        } else if starts_with(p, "/api/".as_bytes()) {
            "application/json"
        } else {
            "*/*"
        }
    }

    /// The status code for a draw `d` of the weighted distribution.
    pub fn status_for_draw(d: usize) -> (r: u16)
        requires
            d < 1000,
        ensures
            r == status_for(d as int),
    {
        if d < 900 {
            200
        } else if d < 925 {
            201
        } else if d < 950 {
            202
        } else if d < 975 {
            204
        } else {
            206
        }
    }

    /// A status code drawn from the weighted distribution.
    pub fn get_random_status_code(&self, rng: &mut StdRng) -> (r: u16)
        ensures
            exists|d: int| 0 <= d < 1000 && r == status_for(d),
    {
        let d = crate::random::below(rng, 1000);
        Self::status_for_draw(d)
    }

    fn reason_for(code: u16) -> &'static str {
        if code == 201 {
            STATUS_REASONS[1]
        } else if code == 202 {
            STATUS_REASONS[2]
        } else if code == 204 {
            STATUS_REASONS[3]
        } else if code == 206 {
            STATUS_REASONS[4]
        } else {
            STATUS_REASONS[0]
        }
    }

    /// The cookie header line (without its line break) that carries `info` under a name drawn
    /// from the allow-list, first among decoy cookies.
    #[verifier::rlimit(100)]
    pub fn build_cookie_header(&self, rng: &mut StdRng, info: &PacketInfo, is_request: bool) -> (r:
        Vec<u8>)
        ensures
            is_header_line(r@),
            exists|k: int, tail: Seq<u8>|
                #[trigger] record_cookie_line(r@, k, tail, *info, is_request)
                    && crate::framing::decoy_cookies(tail),
    {
        let lead_line = Self::record_cookie_line(rng, info, is_request);
        let mut line = lead_line.clone();
        assert(line@ == lead_line@);
        let ghost lead = line@;
        proof {
            reveal_strlit("; sid=");
            reveal_strlit("; _ga=GA1.2.");
            reveal_strlit("; theme=light");
            vstd::string::is_ascii_spec_bytes("; sid=");
            vstd::string::is_ascii_spec_bytes("; _ga=GA1.2.");
            vstd::string::is_ascii_spec_bytes("; theme=light");
        }
        let ghost mut s1: Seq<u8> = Seq::empty();
        let ghost mut s2: Seq<u8> = Seq::empty();
        let ghost mut s3: Seq<u8> = Seq::empty();
        let sid = fresh_session_id();
        if visible_text(sid.as_slice(), false) {
            push_text(&mut line, "; sid=");
            push_bytes(&mut line, sid.as_slice());
            proof {
                s1 = "; sid=".spec_bytes() + sid@;
            }
        }
        assert(line@ =~= lead + s1);
        if crate::random::below(rng, 2) == 0 {
            let a = crate::random::any_u32(rng);
            let b = crate::random::any_u32(rng);
            push_text(&mut line, "; _ga=GA1.2.");
            push_decimal(&mut line, a as u64);
            push_text(&mut line, ".");
            push_decimal(&mut line, b as u64);
            proof {
                s2 = "; _ga=GA1.2.".spec_bytes() + decimal(a as nat) + ".".spec_bytes() + decimal(
                    b as nat,
                );
            }
        }
        assert(line@ =~= lead + s1 + s2);
        if crate::random::below(rng, 2) == 0 {
            push_text(&mut line, "; theme=light");
            proof {
                s3 = "; theme=light".spec_bytes();
            }
        }
        assert(line@ =~= lead + s1 + s2 + s3);
        let ghost k = choose|k: int|
            0 <= k < 5 && lead == (if is_request {
                "Cookie: ".spec_bytes()
            } else {
                "Set-Cookie: ".spec_bytes()
            }) + COOKIE_NAMES[k].spec_bytes() + "=".spec_bytes() + info_cookie(*info);
        if crate::utils::header_line_ok(line.as_slice()) {
            proof {
                let tail = s1 + s2 + s3;
                assert(line@ =~= lead + tail);
                assert(crate::framing::decoy_cookies(tail));
                if tail.len() > 0 {
                    if s1.len() > 0 {
                        assert(tail[0] == s1[0]);
                    } else if s2.len() > 0 {
                        assert(tail[0] == s2[0]);
                    } else {
                        assert(tail[0] == s3[0]);
                    }
                }
                assert(record_cookie_line(line@, k, tail, *info, is_request));
            }
            line
        } else {
            proof {
                let tail = Seq::<u8>::empty();
                assert(lead =~= lead + tail);
                let e = Seq::<u8>::empty();
                assert(tail =~= e + e + e);
                assert(crate::framing::decoy_cookies(tail));
                assert(record_cookie_line(lead_line@, k, tail, *info, is_request));
            }
            lead_line
        }
    }

    /// The cookie header line with the record alone, under a name drawn from the allow-list.
    fn record_cookie_line(rng: &mut StdRng, info: &PacketInfo, is_request: bool) -> (r: Vec<u8>)
        ensures
            is_header_line(r@),
            exists|k: int|
                0 <= k < 5 && r@ == (if is_request {
                    "Cookie: ".spec_bytes()
                } else {
                    "Set-Cookie: ".spec_bytes()
                }) + COOKIE_NAMES[k].spec_bytes() + "=".spec_bytes() + info_cookie(*info),
    {
        let k = crate::random::below(rng, 5);
        let mut line: Vec<u8> = Vec::new();
        if is_request {
            push_text(&mut line, "Cookie: ");
        } else {
            push_text(&mut line, "Set-Cookie: ");
        }
        push_text(&mut line, COOKIE_NAMES[k]);
        push_text(&mut line, "=");
        let value = info.to_cookie();
        push_bytes(&mut line, value.as_slice());
        proof {
            let pre = if is_request {
                "Cookie: ".spec_bytes()
            } else {
                "Set-Cookie: ".spec_bytes()
            };
            assert(line@ =~= pre + COOKIE_NAMES[k as int].spec_bytes() + "=".spec_bytes() + info_cookie(*info));
            lemma_cookie_parts();
            lemma_base64_no_line_feed(info_json(*info));
            lemma_no_line_feed_concat(pre, COOKIE_NAMES[k as int].spec_bytes());
            lemma_no_line_feed_concat(pre + COOKIE_NAMES[k as int].spec_bytes(), "=".spec_bytes());
            lemma_no_line_feed_concat(pre + COOKIE_NAMES[k as int].spec_bytes() + "=".spec_bytes(), info_cookie(*info));
            assert(line@[0] == pre[0]);
        }
        line
    }

    /// The cookies of a `Cookie` or `Set-Cookie` value: split at `;`, spaces trimmed, empty
    /// pieces dropped.
    pub fn parse_cookies(value: &[u8]) -> (r: Vec<Vec<u8>>)
        ensures
            r@.map_values(|c: Vec<u8>| c@) == cookie_pieces(value@, 0),
            forall|k: int| 0 <= k < r@.len() ==> #[trigger] r@[k]@.len() > 0 && appears_in(value@, r@[k]@),
    {
        let mut out: Vec<Vec<u8>> = Vec::new();
        let mut start: usize = 0;
        while start < value.len()
            invariant
                start <= value@.len(),
                forall|k: int| 0 <= k < out@.len() ==> #[trigger] out@[k]@.len() > 0 && appears_in(value@, out@[k]@),
                out@.map_values(|c: Vec<u8>| c@) + cookie_pieces(value@, start as int) == cookie_pieces(value@, 0),
            decreases value@.len() - start,
        {
            let end = find_byte_before(value, start, value.len(), 59);
            let (a, b) = trim_spaces(value, start, end);
            let piece = copy_range(value, a, b);
            let ghost before = out@.map_values(|c: Vec<u8>| c@);
            let next = if end == value.len() {
                end
            } else {
                end + 1
            };
            proof {
                let rest = cookie_pieces(value@, next as int);
                if end < value@.len() {
                    assert(cookie_pieces(value@, (end + 1) as int) == rest);
                } else {
                    assert(rest =~= Seq::<Seq<u8>>::empty());
                }
            }
            if piece.len() > 0 {
                proof {
                    assert(occurs_at(value@, a as int, piece@));
                }
                let ghost old_out = out@;
                out.push(piece);
                proof {
                    assert forall|k: int| 0 <= k < out@.len() implies #[trigger] out@[k]@.len() > 0
                        && appears_in(value@, out@[k]@) by {
                        if k < old_out.len() {
                            assert(out@[k] == old_out[k]);
                        }
                    }
                    assert(out@.map_values(|c: Vec<u8>| c@) =~= before.push(piece@));
                    assert(before.push(piece@) + cookie_pieces(value@, next as int) =~= before + (seq![piece@] + cookie_pieces(value@, next as int)));
                }
            }
            start = next;
        }
        proof {
            assert(cookie_pieces(value@, start as int) =~= Seq::<Seq<u8>>::empty());
            assert(out@.map_values(|c: Vec<u8>| c@) + Seq::<Seq<u8>>::empty() =~= out@.map_values(|c: Vec<u8>| c@));
        }
        out
    }

    /// The `Date` line and the realistic headers of a request or a response.
    fn build_common_headers(&self, rng: &mut StdRng, is_request: bool, out: &mut Vec<u8>)
        requires
            is_header_block(old(out)@),
        ensures
            is_header_block(final(out)@),
    {
        match crate::clock::http_date(crate::clock::unix_now()) {
            Some(date) => {
                let mut line: Vec<u8> = Vec::new();
                push_text(&mut line, "Date: ");
                push_bytes(&mut line, date.as_slice());
                push_header_line(out, line.as_slice());
            },
            None => {},
        }
        let realistic = generate_realistic_headers(rng, is_request);
        push_block(out, realistic.as_slice());
    }

    /// A request that carries `data` and `info`: a GET with the chunk as base64 in `X-Data`
    /// for the textual types that `sends_by_get` names, a POST with a codec-encoded body
    /// otherwise.
    #[verifier::rlimit(100)]
    pub fn build_http_request(
        &self,
        rng: &mut StdRng,
        data: &[u8],
        info: &PacketInfo,
        mime_type: &str,
    ) -> (r: Result<Vec<u8>, RainbowError>)
        requires
            data@.len() <= CHUNK_SIZE,
            no_line_feed(mime_type.spec_bytes()),
        ensures
            r is Ok,
            is_framed_as(r->Ok_0@, true),
            exists|path: Seq<u8>|
                first_line(r->Ok_0@) == method_text(sends_by_get(mime_type.spec_bytes())) + sp()
                    + path + sp() + version_text(),
            sends_by_get(mime_type.spec_bytes()) ==> exists|k: int|
                0 <= k < 7 && first_line(r->Ok_0@) == method_text(true) + sp()
                    + #[trigger] STATIC_PATHS[k].spec_bytes() + sp() + version_text(),
            !sends_by_get(mime_type.spec_bytes()) ==> exists|k: int|
                0 <= k < 6 && first_line(r->Ok_0@) == method_text(false) + sp()
                    + #[trigger] API_PATHS[k].spec_bytes() + sp() + version_text(),
            carries_record(r->Ok_0@, *info),
            carries_payload(r->Ok_0@, data@),
            carries_packet(r->Ok_0@, data@, *info, true),
            packet_as(r->Ok_0@, true, mime_type.spec_bytes(), data@),
            !sends_by_get(mime_type.spec_bytes()) ==> crate::framing::declares_length(r->Ok_0@),
    {
        let m = mime_type.as_bytes();
        let use_get = crate::framing::contains_bytes(m, "text/plain".as_bytes())
            || crate::framing::contains_bytes(m, "application/json".as_bytes());
        let pk = if use_get {
            crate::random::below(rng, 7)
        } else {
            crate::random::below(rng, 6)
        };
        let path: &str = if use_get {
            STATIC_PATHS[pk]
        } else {
            API_PATHS[pk]
        };
        let path_bytes = clean_path(path.as_bytes());
        proof {
            crate::utils::lemma_paths_clean();
        }
        let mut first: Vec<u8> = Vec::new();
        push_request_line(&mut first, use_get, path_bytes);
        let (data_line, extra, body) = self.request_fields(rng, data, mime_type, use_get)?;
        let cookie = self.build_cookie_header(rng, info, true);
        let mut others: Vec<u8> = Vec::new();
        self.build_common_headers(rng, true, &mut others);
        let mut line: Vec<u8> = Vec::new();
        push_text(&mut line, "Accept: ");
        push_text(&mut line, self.get_accept_header(path));
        push_header_line(&mut others, line.as_slice());
        proof {
            lemma_request_line(use_get, path_bytes@);
            crate::utils::lemma_line_lengths(use_get, path_bytes@);
            lemma_start_line_lead(first@, use_get, path_bytes@);
        }
        let packet = frame_packet(
            first.as_slice(),
            data_line.as_slice(),
            extra.as_slice(),
            cookie.as_slice(),
            others.as_slice(),
            body.as_slice(),
        );
        proof {
            lemma_framed_packet(
                first@,
                data_line@,
                extra@,
                cookie@,
                others@,
                body@,
                packet@,
                *info,
                true,
            );
            assert(use_get == sends_by_get(mime_type.spec_bytes()));
            let rest = framed_rest(extra@, cookie@, others@);
            lemma_get_prefix(first@, use_get, path_bytes@);
            assert(payload_layout(packet@, first@, data_line@, rest, body@, m@, data@));
            lemma_data_names();
            if use_get {
                assert(data_line@[0] == "X-Data: ".spec_bytes()[0]);
            } else {
                assert(data_line@[0] == "Content-Type: ".spec_bytes()[0]);
                assert(data_line@[2] == "Content-Type: ".spec_bytes()[2]);
                assert(extra@[0] == "Content-Length: ".spec_bytes()[0]);
                assert(extra@[2] == "Content-Length: ".spec_bytes()[2]);
            }
            lemma_builder_layout(packet@, first@, data_line@, extra@, cookie@, others@, body@, m@, data@, *info, true);
            if !use_get {
                crate::framing::lemma_declares_length(packet@, first@, data_line@, extra@, cookie@, others@, body@);
            }
        }
        Ok(packet)
    }

    /// The data-bearing header line of a request, its `Content-Length` line (empty for a
    /// GET), and its body (empty for a GET).
    fn request_fields(
        &self,
        rng: &mut StdRng,
        data: &[u8],
        mime_type: &str,
        use_get: bool,
    ) -> (r: Result<(Vec<u8>, Vec<u8>, Vec<u8>), RainbowError>)
        requires
            data@.len() <= CHUNK_SIZE,
            no_line_feed(mime_type.spec_bytes()),
        ensures
            r is Ok,
            is_header_line(r->Ok_0.0@),
            use_get ==> r->Ok_0.0@ == "X-Data: ".spec_bytes() + base64_of(data@),
            !use_get ==> r->Ok_0.0@ == "Content-Type: ".spec_bytes() + mime_type.spec_bytes()
                && hides(mime_type.spec_bytes(), r->Ok_0.2@, data@),
            use_get ==> r->Ok_0.1@.len() == 0 && r->Ok_0.2@.len() == 0,
            !use_get ==> has_prefix(r->Ok_0.1@, "Content-Length: ".spec_bytes()),
            !use_get ==> r->Ok_0.1@ == "Content-Length: ".spec_bytes() + decimal(r->Ok_0.2@.len()),
    {
        proof {
            lemma_data_names();
        }
        let mut line: Vec<u8> = Vec::new();
        if use_get {
            push_text(&mut line, "X-Data: ");
            crate::stego::carrier::push_base64(&mut line, data);
            proof {
                lemma_base64_no_line_feed(data@);
                lemma_no_line_feed_concat("X-Data: ".spec_bytes(), base64_of(data@));
                assert(line@[0] == "X-Data: ".spec_bytes()[0]);
            }
            let none: Vec<u8> = Vec::new();
            let empty_body: Vec<u8> = Vec::new();
            assert(none@.len() == 0 && empty_body@.len() == 0);
            Ok((line, none, empty_body))
        } else {
            let body = encode_mime(rng, data, mime_type)?;
            push_text(&mut line, "Content-Type: ");
            push_bytes(&mut line, mime_type.as_bytes());
            proof {
                lemma_no_line_feed_concat("Content-Type: ".spec_bytes(), mime_type.spec_bytes());
                assert(line@[0] == "Content-Type: ".spec_bytes()[0]);
            }
            let mut length: Vec<u8> = Vec::new();
            push_text(&mut length, "Content-Length: ");
            let ghost named = length@;
            push_decimal(&mut length, body.len() as u64);
            assert(length@.subrange(0, named.len() as int) =~= named);
            assert(length@ =~= "Content-Length: ".spec_bytes() + decimal(body@.len()));
            Ok((line, length, body))
        }
    }

    /// A response that carries `data` and `info`: a status line drawn from the weighted
    /// distribution, the codec-encoded body, the record in `Set-Cookie`.
    #[verifier::rlimit(100)]
    pub fn build_http_response(
        &self,
        rng: &mut StdRng,
        data: &[u8],
        info: &PacketInfo,
        mime_type: &str,
    ) -> (r: Result<Vec<u8>, RainbowError>)
        requires
            data@.len() <= CHUNK_SIZE,
            no_line_feed(mime_type.spec_bytes()),
        ensures
            r is Ok,
            is_framed_as(r->Ok_0@, false),
            exists|code: u16, reason: Seq<u8>|
                first_line(r->Ok_0@) == version_text() + sp() + decimal(code as nat) + sp() + reason
                    && (code == 200 || code == 201 || code == 202 || code == 204 || code == 206),
            carries_record(r->Ok_0@, *info),
            carries_payload(r->Ok_0@, data@),
            carries_packet(r->Ok_0@, data@, *info, false),
            packet_as(r->Ok_0@, false, mime_type.spec_bytes(), data@),
            crate::framing::declares_length(r->Ok_0@),
    {
        let body = encode_mime(rng, data, mime_type)?;
        let code = self.get_random_status_code(rng);
        let reason = clean_reason(Self::reason_for(code).as_bytes());
        let mut first: Vec<u8> = Vec::new();
        push_status_line(&mut first, code, reason);
        let mut data_line: Vec<u8> = Vec::new();
        push_text(&mut data_line, "Content-Type: ");
        push_bytes(&mut data_line, mime_type.as_bytes());
        let mut extra: Vec<u8> = Vec::new();
        push_text(&mut extra, "Content-Length: ");
        push_decimal(&mut extra, body.len() as u64);
        let cookie = self.build_cookie_header(rng, info, false);
        let mut others: Vec<u8> = Vec::new();
        self.build_common_headers(rng, false, &mut others);
        proof {
            lemma_status_line(code as nat, reason@);
            crate::utils::lemma_status_line_length(code as nat, reason@);
            lemma_status_line_lead(first@, code as nat, reason@);
            lemma_data_names();
            lemma_no_line_feed_concat("Content-Type: ".spec_bytes(), mime_type.spec_bytes());
            assert(data_line@ =~= "Content-Type: ".spec_bytes() + mime_type.spec_bytes());
            assert(data_line@[0] == "Content-Type: ".spec_bytes()[0]);
        }
        let packet = frame_packet(
            first.as_slice(),
            data_line.as_slice(),
            extra.as_slice(),
            cookie.as_slice(),
            others.as_slice(),
            body.as_slice(),
        );
        proof {
            lemma_framed_packet(
                first@,
                data_line@,
                extra@,
                cookie@,
                others@,
                body@,
                packet@,
                *info,
                false,
            );
            let rest = framed_rest(extra@, cookie@, others@);
            assert(payload_layout(packet@, first@, data_line@, rest, body@, mime_type.spec_bytes(), data@));
            assert(data_line@[2] == "Content-Type: ".spec_bytes()[2]);
            assert(extra@[0] == "Content-Length: ".spec_bytes()[0]);
            assert(extra@[2] == "Content-Length: ".spec_bytes()[2]);
            lemma_builder_layout(packet@, first@, data_line@, extra@, cookie@, others@, body@, mime_type.spec_bytes(), data@, *info, false);
            assert(extra@ =~= "Content-Length: ".spec_bytes() + decimal(body@.len()));
            crate::framing::lemma_declares_length(packet@, first@, data_line@, extra@, cookie@, others@, body@);
        }
        Ok(packet)
    }

    /// Whether the recovered payload has the length the record declares.
    pub fn verify_length(&self, decoded: &[u8], expected_length: usize) -> (r: Result<
        (),
        RainbowError,
    >)
        ensures
            r is Ok <==> decoded@.len() == expected_length,
            r is Err ==> r->Err_0 is LengthMismatch,
    {
        if decoded.len() == expected_length {
            Ok(())
        } else {
            Err(RainbowError::LengthMismatch("payload length differs from the record".to_string()))
        }
    }

    /// The record in the first cookie whose name is on the allow-list and whose value reads as
    /// a record, looking through every `Cookie` and `Set-Cookie` line of the header block.
    pub fn find_packet_info(header: &[u8]) -> (r: Option<PacketInfo>)
        ensures
            r == records_from(header@, 0),
            r is Some ==> carries_record(header@, r->Some_0),
    {
        let mut pos: usize = 0;
        while pos < header.len()
            invariant
                pos <= header@.len(),
                records_from(header@, 0) == records_from(header@, pos as int),
            decreases header@.len() - pos,
        {
            let nl = find_byte(header, pos, 10);
            let from = cookie_values_start(header, pos);
            if from < nl {
                match Self::cookie_line_record(header, from, nl) {
                    Some(info) => {
                        return Some(info);
                    },
                    None => {},
                }
            }
            if nl == header.len() {
                return None;
            }
            pos = nl + 1;
        }
        None
    }

    /// The record of the first cookie in `from..nl` whose name is on the allow-list and whose
    /// value reads as a record.
    fn cookie_line_record(header: &[u8], from: usize, nl: usize) -> (r: Option<PacketInfo>)
        requires
            from < nl <= header@.len(),
        ensures
            r == pairs_from(header@, from as int, nl as int),
            r is Some ==> carries_record(header@, r->Some_0),
    {
        let mut start: usize = from;
        while start < nl
            invariant
                from <= start <= nl <= header@.len(),
                pairs_from(header@, from as int, nl as int) == pairs_from(header@, start as int, nl as int),
            decreases nl - start,
        {
            let end = find_byte_before(header, start, nl, 59);
            let (a, b) = trim_spaces(header, start, end);
            let eq = find_byte_before(header, a, b, 61);
            if eq < b && is_allowed_cookie_name(header, a, eq) {
                let value = copy_range(header, eq + 1, b);
                match PacketInfo::from_cookie(value.as_slice()) {
                    Ok(info) => {
                        proof {
                            let v = header@.subrange(eq + 1, b as int);
                            assert(info_cookie(info) == v);
                            let c = choose|i: PacketInfo| #[trigger] info_cookie(i) == v;
                            lemma_info_cookie_injective(c, info);
                            assert(pair_record(header@, start as int, end as int) == Some(info));
                            assert(occurs_at(header@, eq + 1, info_cookie(info)));
                        }
                        return Some(info);
                    },
                    Err(_) => {
                        proof {
                            let v = header@.subrange(eq + 1, b as int);
                            assert(!(exists|i: PacketInfo| #[trigger] info_cookie(i) == v));
                            assert(pair_record(header@, start as int, end as int) is None);
                        }
                    },
                }
            }
            if end == nl {
                start = nl;
            } else {
                start = end + 1;
            }
        }
        None
    }

    /// Recovers the payload of one packet: the base64 `X-Data` header of a GET request, or the
    /// body decoded by the codecs of its `Content-Type`.
    pub fn decode_single_packet(&self, packet: &[u8], packet_index: usize) -> (r: Result<
        Vec<u8>,
        RainbowError,
    >)
        ensures
            payload_fault(packet@) == 0 ==> r is Ok && r->Ok_0@ == payload_of(packet@),
            payload_fault(packet@) == 1 ==> r is Err && r->Err_0 is InvalidData,
            payload_fault(packet@) == 2 ==> r is Err && r->Err_0 is Base64Error,
            r is Ok && has_prefix(packet@, "GET ".spec_bytes()) ==> appears_in(
                packet@,
                "X-Data: ".spec_bytes() + base64_of(r->Ok_0@),
            ),
            r is Ok && !has_prefix(packet@, "GET ".spec_bytes()) && r->Ok_0@.len() > 0
                ==> body_declared(packet@, r->Ok_0@),
            forall|chunk: Seq<u8>| #[trigger] carries_payload(packet@, chunk) ==> r is Ok && r->Ok_0@
                == chunk,
    {
        let split = find_blank_line(packet);
        proof {
            assert forall|chunk: Seq<u8>| #[trigger] carries_payload(packet@, chunk) implies decodes_to(
                packet@,
                split as int,
                chunk,
            ) by {
                let (first, data_line, rest, body, mime) = choose|
                    first: Seq<u8>,
                    data_line: Seq<u8>,
                    rest: Seq<u8>,
                    body: Seq<u8>,
                    mime: Seq<u8>,
                | #[trigger] payload_layout(packet@, first, data_line, rest, body, mime, chunk);
                lemma_payload_decodes(packet@, first, data_line, rest, body, mime, chunk, split as int);
            }
        }
        if split == packet.len() {
            return Err(RainbowError::InvalidData("missing header/body separator".to_string()));
        }
        let header = copy_range(packet, 0, split + 2);
        let body = copy_range(packet, split + 4, packet.len());
        assert(header@ == head_of(packet@));
        if starts_with(packet, "GET ".as_bytes()) {
            match header_value(header.as_slice(), "X-Data: ".as_bytes()) {
                Some(text) => match decode_base64(text.as_slice()) {
                    Ok(v) => {
                        proof {
                            assert(header@ == packet@.subrange(0, header@.len() as int));
                            lemma_appears_prefix(header@, packet@, "X-Data: ".spec_bytes() + text@);
                            assert(text@ == base64_of(v@));
                            let c = choose|x: Seq<u8>| #[trigger] base64_of(x) == text@;
                            crate::b64::lemma_base64_injective(c, v@);
                        }
                        Ok(v)
                    },
                    Err(e) => Err(RainbowError::Base64Error(e)),
                },
                None => Err(
                    RainbowError::InvalidData("missing X-Data header in GET request".to_string()),
                ),
            }
        } else {
            match header_value(header.as_slice(), "Content-Type: ".as_bytes()) {
                Some(mime) => {
                    match decode_mime_bytes(body.as_slice(), mime.as_slice()) {
                        Ok(v) => {
                            proof {
                                assert(body@ =~= packet@.subrange(split + 4, packet@.len() as int));
                                if v@.len() > 0 {
                                    lemma_appears_prefix(header@, packet@, "Content-Type: ".spec_bytes() + mime@);
                                    assert(body@ =~= packet@.subrange(split + 4, packet@.len() as int));
                                    assert(header@ == packet@.subrange(0, header@.len() as int));
                                    assert(occurs_at(packet@, split as int, blank_line()));
                                    assert(declared_body(packet@, mime@, split as int, v@));
                                    assert(body_declared(packet@, v@));
                                }
                            }
                            Ok(v)
                        },
                        Err(_) => Err(RainbowError::InvalidData("undecodable body".to_string())),
                    }
                },
                None => Err(RainbowError::InvalidData("missing Content-Type header".to_string())),
            }
        }
    }

    /// Splits `data` into chunks of at most `CHUNK_SIZE` bytes and frames each as a request
    /// (`is_client`) or a response, with the MIME type given or one drawn per chunk. Returns the
    /// packets and the chunk lengths, in order. A MIME type that is not visible ASCII text is
    /// rejected.
    #[verifier::rlimit(100)]
    pub fn encode_write_with(
        &self,
        rng: &mut StdRng,
        data: &[u8],
        is_client: bool,
        mime_type: Option<String>,
    ) -> (r: Result<(Vec<Vec<u8>>, Vec<usize>), RainbowError>)
        ensures
            r is Ok <==> (mime_type is None || crate::framing::is_header_value(vstd::utf8::encode_utf8(mime_type->Some_0@))),
            r is Err ==> r->Err_0 is InvalidData,
            r is Ok ==> {
                let (packets, lengths) = r->Ok_0;
                &&& packets@.len() == chunk_count(data@.len() as int)
                &&& lengths@.len() == packets@.len()
                &&& forall|i: int|
                    0 <= i < lengths@.len() ==> lengths@[i] == chunk_len(data@.len() as int, i)
                &&& forall|i: int|
                    0 <= i < packets@.len() ==> is_framed_as(#[trigger] packets@[i]@, is_client)
                &&& forall|i: int|
                    0 <= i < packets@.len() ==> carries_chunk(
                        #[trigger] packets@[i]@,
                        data@,
                        i,
                        packets@.len() as int,
                        is_client,
                    )
                &&& forall|i: int|
                    0 <= i < packets@.len() ==> chunk_framed(
                        #[trigger] packets@[i]@,
                        data@,
                        i,
                        is_client,
                        mime_type,
                    )
            },
    {
        let n = data.len();
        match &mime_type {
            Some(m) => {
                if !crate::framing::header_value_ok(m.as_str().as_bytes()) {
                    return Err(
                        RainbowError::InvalidData("MIME type is not a header value".to_string()),
                    );
                }
            },
            None => {},
        }
        let total = if n == 0 {
            0
        } else {
            (n - 1) / CHUNK_SIZE + 1
        };
        let mut packets: Vec<Vec<u8>> = Vec::new();
        let mut lengths: Vec<usize> = Vec::new();
        let mut i: usize = 0;
        while i < total
            invariant
                i <= total,
                total == chunk_count(n as int),
                n == data@.len(),
                packets@.len() == i,
                lengths@.len() == i,
                forall|k: int| 0 <= k < i ==> lengths@[k] == chunk_len(n as int, k),
                forall|k: int| 0 <= k < i ==> is_framed_as(#[trigger] packets@[k]@, is_client),
                mime_type is Some ==> crate::framing::is_header_value(
                    vstd::utf8::encode_utf8(mime_type->Some_0@),
                ),
                forall|k: int|
                    0 <= k < i ==> carries_chunk(#[trigger] packets@[k]@, data@, k, total as int, is_client),
                forall|k: int|
                    0 <= k < i ==> chunk_framed(#[trigger] packets@[k]@, data@, k, is_client, mime_type),
            decreases total - i,
        {
            assert(i * CHUNK_SIZE < n) by (nonlinear_arith)
                requires
                    i < total,
                    total == (n + CHUNK_SIZE - 1) / CHUNK_SIZE as int,
            ;
            let begin = i * CHUNK_SIZE;
            let end = if n - begin >= CHUNK_SIZE {
                begin + CHUNK_SIZE
            } else {
                n
            };
            let chunk = copy_range(data, begin, end);
            assert(end - begin == chunk_len(n as int, i as int));
            let info = PacketInfo::new(i, total, chunk.len());
            let mime = match &mime_type {
                Some(m) => m.clone(),
                None => get_random_mime_type(rng),
            };
            proof {
                if mime_type is None {
                    let k = choose|k: int| 0 <= k < 6 && mime@ == crate::stego::mime_text(k);
                    crate::stego::lemma_registered_visible(k);
                }
                let mb = vstd::utf8::encode_utf8(mime@);
                if mime_type is None {
                    assert(is_visible_text(mb));
                    assert forall|j: int| 0 <= j < mb.len() implies 32 <= #[trigger] mb[j] <= 126 by {
                        assert(33 <= mb[j]);
                    }
                }
                assert(crate::framing::is_header_value(mb));
                assert forall|j: int| 0 <= j < mb.len() implies #[trigger] mb[j] != 10 by {
                    assert(32 <= mb[j]);
                }
            }
            let packet = if is_client {
                self.build_http_request(rng, chunk.as_slice(), &info, mime.as_str())?
            } else {
                self.build_http_response(rng, chunk.as_slice(), &info, mime.as_str())?
            };
            proof {
                assert(chunk@ == chunk_of(data@, i as int));
                assert(carries_packet(packet@, chunk@, info, is_client));
                assert(carries_chunk(packet@, data@, i as int, total as int, is_client));
                let mb = vstd::utf8::encode_utf8(mime@);
                assert(mime_choice(mime_type, mb));
                assert(packet_as(packet@, is_client, mb, chunk_of(data@, i as int)));
                assert(chunk_framed(packet@, data@, i as int, is_client, mime_type));
            }
            packets.push(packet);
            lengths.push(chunk.len());
            i = i + 1;
        }
        Ok((packets, lengths))
    }

    /// Decodes one packet taken in the given role: a client takes requests, a server responses.
    /// Returns the payload, the length the record declares, and whether this is the last
    /// packet (`packet_index + 1 >= total`).
    pub fn decrypt_single_read(&self, data: Vec<u8>, packet_index: usize, is_client: bool) -> (r:
        Result<(Vec<u8>, usize, bool), RainbowError>)
        ensures
            !is_http_packet(data@) ==> r is Err && r->Err_0 is InvalidData,
            is_http_packet(data@) && is_client == is_response_line(first_line(data@)) ==> r is Err
                && r->Err_0 is InvalidData,
            forall|chunk: Seq<u8>| #[trigger] carries_payload(data@, chunk) && r is Ok ==> r->Ok_0.0@
                == chunk,
            forall|chunk: Seq<u8>, info: PacketInfo|
                #[trigger] carries_packet(data@, chunk, info, is_client) && chunk.len() == info.length
                    ==> r is Ok && r->Ok_0.0@ == chunk && r->Ok_0.1 == info.length && r->Ok_0.2 == (
                packet_index + 1 >= info.total),
            is_http_packet(data@) && is_client != is_response_line(first_line(data@)) && first_blank(
                data@,
            ) >= data@.len() ==> r is Err && r->Err_0 is InvalidData,
            is_http_packet(data@) && is_client != is_response_line(first_line(data@)) && first_blank(
                data@,
            ) < data@.len() ==> match records_from(head_of(data@), 0) {
                None => r is Err && r->Err_0 is InvalidData,
                Some(info) => if payload_fault(data@) == 2 {
                    r is Err && r->Err_0 is Base64Error
                } else if payload_fault(data@) == 1 {
                    r is Err && r->Err_0 is InvalidData
                } else if payload_of(data@).len() != info.length {
                    r is Err && r->Err_0 is LengthMismatch
                } else {
                    r is Ok && r->Ok_0.0@ == payload_of(data@) && r->Ok_0.1 == info.length
                        && r->Ok_0.2 == (packet_index + 1 >= info.total)
                },
            },
            r is Ok ==> exists|info: PacketInfo|
                {
                    &&& carries_record(data@, info)
                    &&& r->Ok_0.0@.len() == info.length
                    &&& r->Ok_0.1 == info.length
                    &&& r->Ok_0.2 == (packet_index + 1 >= info.total)
                },
    {
        let split = find_blank_line(data.as_slice());
        proof {
            assert forall|chunk: Seq<u8>, info: PacketInfo|
                #[trigger] carries_packet(data@, chunk, info, is_client) implies {
                    &&& is_framed_as(data@, is_client)
                    &&& carries_payload(data@, chunk)
                    &&& split + 4 <= data@.len()
                    &&& records_from(data@.subrange(0, split + 2), 0) == Some(info)
                } by {
                let (first, data_line, extra, cookie, others, body, mime, k, tail) = choose|
                    first: Seq<u8>,
                    data_line: Seq<u8>,
                    extra: Seq<u8>,
                    cookie: Seq<u8>,
                    others: Seq<u8>,
                    body: Seq<u8>,
                    mime: Seq<u8>,
                    k: int,
                    tail: Seq<u8>,
                |
                    #[trigger] packet_layout(
                        data@,
                        first,
                        data_line,
                        extra,
                        cookie,
                        others,
                        body,
                        mime,
                        k,
                        tail,
                        chunk,
                        info,
                        is_client,
                    );
                lemma_packet_facts(
                    data@,
                    first,
                    data_line,
                    extra,
                    cookie,
                    others,
                    body,
                    mime,
                    k,
                    tail,
                    chunk,
                    info,
                    is_client,
                    split as int,
                );
            }
        }
        if !validate_http_packet(data.as_slice()) {
            return Err(RainbowError::InvalidData("invalid HTTP packet".to_string()));
        }
        let is_response = crate::utils::first_line_is_response(data.as_slice());
        if is_client == is_response {
            return Err(
                RainbowError::InvalidData("packet direction does not match the role".to_string()),
            );
        }
        if split == data.len() {
            return Err(RainbowError::InvalidData("missing header/body separator".to_string()));
        }
        let header = copy_range(data.as_slice(), 0, split + 2);
        assert(header@ == head_of(data@));
        let info = match Self::find_packet_info(header.as_slice()) {
            Some(info) => info,
            None => {
                return Err(
                    RainbowError::InvalidData("no packet record in the cookies".to_string()),
                )
            },
        };
        let decoded = self.decode_single_packet(data.as_slice(), packet_index)?;
        proof {
            let at = choose|at: int| occurs_at(header@, at, info_cookie(info));
            assert(data@.subrange(at, at + info_cookie(info).len()) =~= header@.subrange(
                at,
                at + info_cookie(info).len(),
            ));
            assert(occurs_at(data@, at, info_cookie(info)));
            assert(carries_record(data@, info));
        }
        match self.verify_length(decoded.as_slice(), info.length) {
            Ok(()) => {},
            Err(e) => return Err(e),
        }
        let is_last = info.total == 0 || packet_index >= info.total - 1;
        Ok((decoded, info.length, is_last))
    }
}


pub const PADDING_NAME: &'static str = "X-Padding: ";

pub const LENGTH_NAME: &'static str = "Content-Length: ";

/// The shortest packet that can be made on a head of `head_len` bytes: an empty body and
/// its length `0`.
pub open spec fn min_length(head_len: int) -> int {
    head_len + 21
}

/// The length of a packet on a head of `head_len` bytes with a body of `body_len` bytes and
/// nothing to pad.
pub open spec fn total_length(head_len: int, body_len: int) -> int {
    head_len + 16 + decimal(body_len as nat).len() + 4 + body_len
}

/// `k` spaces.
pub open spec fn spaces(k: int) -> Seq<u8> {
    Seq::new(k as nat, |i: int| 32u8)
}

/// What follows the head of a length-targeted packet that is `pad` bytes short with `body`:
/// an `X-Padding` line whose `filler` makes up the shortfall where it is at least 13 bytes,
/// the length line (with `pad` spaces after the number where the shortfall is smaller), the
/// blank line, and the body.
pub open spec fn frame_tail(filler: Seq<u8>, pad: int, body: Seq<u8>) -> Seq<u8> {
    (if pad >= 13 {
        PADDING_NAME.spec_bytes() + filler + crlf()
    } else {
        Seq::empty()
    }) + LENGTH_NAME.spec_bytes() + decimal(body.len()) + (if pad >= 13 {
        Seq::empty()
    } else {
        spaces(pad)
    }) + blank_line() + body
}

proof fn lemma_frame_literals()
    ensures
        PADDING_NAME.spec_bytes().len() == 11,
        LENGTH_NAME.spec_bytes().len() == 16,
{
    reveal_strlit("X-Padding: ");
    reveal_strlit("Content-Length: ");
    vstd::string::is_ascii_spec_bytes(PADDING_NAME);
    vstd::string::is_ascii_spec_bytes(LENGTH_NAME);
}

/// The length of a packet whose head is `headers_len` bytes and whose body is `encoded_len`
/// bytes, with nothing to pad; `None` where it does not fit in a `usize`.
pub fn calculate_total_length(headers_len: usize, encoded_len: usize) -> (r: Option<usize>)
    ensures
        r is Some ==> r->Some_0 == total_length(headers_len as int, encoded_len as int),
        r is None ==> total_length(headers_len as int, encoded_len as int) > usize::MAX,
{
    let mut digits: Vec<u8> = Vec::new();
    push_decimal(&mut digits, encoded_len as u64);
    assert(digits@ =~= decimal(encoded_len as nat));
    match headers_len.checked_add(20) {
        Some(a) => match a.checked_add(digits.len()) {
            Some(b) => b.checked_add(encoded_len),
            None => None,
        },
        None => None,
    }
}

/// The packet: `headers`, then `frame_tail` for a shortfall of `padding` bytes, with random
/// letters and digits as filler.
pub fn build_final_packet(
    rng: &mut StdRng,
    headers: &[u8],
    encoded: &[u8],
    padding: usize,
) -> (r: Vec<u8>)
    ensures
        exists|filler: Seq<u8>|
            (padding >= 13 ==> filler.len() == padding - 13) && all_alphanumeric(filler)
                && #[trigger] frame_tail(filler, padding as int, encoded@)
                == r@.subrange(headers@.len() as int, r@.len() as int),
        has_prefix(r@, headers@),
        r@.len() == total_length(headers@.len() as int, encoded@.len() as int) + padding,
{
    let mut packet: Vec<u8> = Vec::new();
    push_bytes(&mut packet, headers);
    let ghost filler_seq: Seq<u8> = Seq::empty();
    if padding >= 13 {
        push_text(&mut packet, PADDING_NAME);
        let filler = crate::random::alphanumeric(rng, padding - 13);
        push_bytes(&mut packet, filler.as_slice());
        packet.push(13);
        packet.push(10);
        proof {
            filler_seq = filler@;
        }
    }
    push_text(&mut packet, LENGTH_NAME);
    push_decimal(&mut packet, encoded.len() as u64);
    if padding < 13 {
        let mut k: usize = 0;
        let ghost before = packet@;
        while k < padding
            invariant
                k <= padding,
                packet@ == before + spaces(k as int),
            decreases padding - k,
        {
            packet.push(32);
            k = k + 1;
            assert(packet@ =~= before + spaces(k as int));
        }
    }
    packet.push(13);
    packet.push(10);
    packet.push(13);
    packet.push(10);
    push_bytes(&mut packet, encoded);
    proof {
        lemma_frame_literals();
        assert(packet@.subrange(0, headers@.len() as int) =~= headers@);
        assert(packet@.subrange(headers@.len() as int, packet@.len() as int) =~= frame_tail(
            filler_seq,
            padding as int,
            encoded@,
        ));
        crate::bytes::lemma_decimal(encoded@.len());
        assert(padding >= 13 ==> filler_seq.len() == padding - 13);
        assert(all_alphanumeric(filler_seq));
    }
    packet
}

/// A packet of exactly `target_length` bytes on the head `base_headers`: a binary search over
/// lengths of random payload, encoded for `mime_type`, for the longest packet no longer than
/// the target; what it is short by goes into padding. Fails with `InvalidData` exactly where
/// the target is below `min_length` of the head.
pub fn find_optimal_packet_size(
    rng: &mut StdRng,
    base_headers: &[u8],
    target_length: usize,
    mime_type: &str,
) -> (r: Result<Vec<u8>, RainbowError>)
    ensures
        r is Ok <==> target_length >= min_length(base_headers@.len() as int),
        r is Ok ==> r->Ok_0@.len() == target_length && has_prefix(r->Ok_0@, base_headers@),
        r is Ok ==> exists|filler: Seq<u8>, pad: int, body: Seq<u8>|
            #[trigger] frame_tail(filler, pad, body) == r->Ok_0@.subrange(
                base_headers@.len() as int,
                r->Ok_0@.len() as int,
            ) && all_alphanumeric(filler) && (body.len() == 0 || exists|x: Seq<u8>|
                #[trigger] hides(mime_type.spec_bytes(), body, x)),
        r is Err ==> r->Err_0 is InvalidData,
{
    let head = base_headers.len();
    if head > target_length || target_length - head < 21 {
        return Err(
            RainbowError::InvalidData("target length is too small for the headers".to_string()),
        );
    }
    proof {
        lemma_decimal_len_one();
    }
    let mut best: Vec<u8> = Vec::new();
    let mut best_total: usize = head + 21;
    let mut lo: usize = 1;
    let room = target_length - head - 21;
    let mut hi: usize = if room > usize::MAX / 128 {
        usize::MAX / 128
    } else {
        room
    };
    while lo <= hi
        invariant
            head == base_headers@.len(),
            head + 21 <= target_length,
            best_total == total_length(head as int, best@.len() as int),
            best_total <= target_length,
            best@.len() == 0 || exists|x: Seq<u8>| #[trigger] hides(mime_type.spec_bytes(), best@, x),
            hi <= usize::MAX / 128,
        decreases hi + 1 - lo,
    {
        let mid = lo + (hi - lo) / 2;
        let mut payload: Vec<u8> = Vec::new();
        let mut k: usize = 0;
        while k < mid
            invariant
                k <= mid,
                payload@.len() == k,
            decreases mid - k,
        {
            payload.push(crate::random::any_byte(rng));
            k = k + 1;
        }
        let encoded = match encode_mime(rng, payload.as_slice(), mime_type) {
            Ok(e) => e,
            Err(_) => Vec::new(),
        };
        assert(encoded@.len() == 0 || exists|x: Seq<u8>| #[trigger] hides(mime_type.spec_bytes(), encoded@, x));
        match calculate_total_length(head, encoded.len()) {
            Some(t) => {
                if t <= target_length {
                    best = encoded;
                    best_total = t;
                    if t == target_length {
                        break;
                    }
                    lo = mid + 1;
                } else {
                    if mid == 0 {
                        break;
                    }
                    hi = mid - 1;
                }
            },
            None => {
                if mid == 0 {
                    break;
                }
                hi = mid - 1;
            },
        }
    }
    let padding = target_length - best_total;
    let packet = build_final_packet(rng, base_headers, best.as_slice(), padding);
    Ok(packet)
}

proof fn lemma_decimal_len_one()
    ensures
        decimal(0).len() == 1,
{
}

/// Letters and digits only.
pub open spec fn all_alphanumeric(s: Seq<u8>) -> bool {
    forall|i: int| 0 <= i < s.len() ==> crate::random::is_alphanumeric(#[trigger] s[i])
}

/// The record of a cookie line stands in a buffer that holds that line after `before`.
proof fn lemma_cookie_inside_line(before: Seq<u8>, cookie: Seq<u8>, p: Seq<u8>, info: PacketInfo, is_request: bool)
    requires
        (exists|k: int, tail: Seq<u8>| #[trigger] record_cookie_line(cookie, k, tail, info, is_request))
            || (exists|k: int|
            0 <= k < 5 && cookie == (if is_request {
                "Cookie: ".spec_bytes()
            } else {
                "Set-Cookie: ".spec_bytes()
            }) + COOKIE_NAMES[k].spec_bytes() + "=".spec_bytes() + info_cookie(info)),
        has_prefix(p, before + cookie),
    ensures
        carries_record(p, info),
{
    if exists|k: int, tail: Seq<u8>| #[trigger] record_cookie_line(cookie, k, tail, info, is_request) {
        let (k, tail) = choose|k: int, tail: Seq<u8>| #[trigger] record_cookie_line(cookie, k, tail, info, is_request);
        let lead = (if is_request {
            "Cookie: ".spec_bytes()
        } else {
            "Set-Cookie: ".spec_bytes()
        }) + COOKIE_NAMES[k].spec_bytes() + "=".spec_bytes() + info_cookie(info);
        assert(cookie.subrange(0, lead.len() as int) =~= lead);
    } else {
        let k = choose|k: int|
            0 <= k < 5 && cookie == (if is_request {
                "Cookie: ".spec_bytes()
            } else {
                "Set-Cookie: ".spec_bytes()
            }) + COOKIE_NAMES[k].spec_bytes() + "=".spec_bytes() + info_cookie(info);
        assert(cookie.subrange(0, cookie.len() as int) =~= cookie);
    }
    lemma_cookie_inside(before, cookie, p, info, is_request);
}

/// A line of `h` starts at `i`.
pub open spec fn line_start(h: Seq<u8>, i: int) -> bool {
    0 <= i < h.len() && (i == 0 || h[i - 1] == 10)
}

/// No line of `h` starts with `name`.
pub open spec fn no_line_named(h: Seq<u8>, name: Seq<u8>) -> bool {
    forall|i: int| #[trigger] line_start(h, i) ==> !occurs_at(h, i, name)
}

/// Whether no line of `h` starts with `name`.
pub fn lines_unnamed(h: &[u8], name: &[u8]) -> (r: bool)
    ensures
        r == no_line_named(h@, name@),
{
    let mut i: usize = 0;
    while i < h.len()
        invariant
            i <= h@.len(),
            forall|j: int| 0 <= j < i && #[trigger] line_start(h@, j) ==> !occurs_at(h@, j, name@),
        decreases h@.len() - i,
    {
        if (i == 0 || h[i - 1] == 10) && bytes_at(h, i, name) {
            assert(line_start(h@, i as int));
            return false;
        }
        i = i + 1;
    }
    true
}

/// The start line of a length-targeted packet: `POST path HTTP/1.1` with a listed path or
/// `/`, or `HTTP/1.1 code reason` with one of the codes drawn.
pub open spec fn synth_start_line(first: Seq<u8>, is_request: bool) -> bool {
    &&& is_start_line(first, is_request)
    &&& is_header_line(first)
    &&& is_request ==> exists|path: Seq<u8>|
        (path == "/".spec_bytes() || exists|k: int| 0 <= k < 6 && path == #[trigger] API_PATHS[k].spec_bytes())
            && first == method_text(false) + sp() + path + sp() + version_text()
    &&& !is_request ==> exists|code: u16, reason: Seq<u8>|
        first == version_text() + sp() + decimal(code as nat) + sp() + reason && (code == 200 || code
            == 201 || code == 202 || code == 204 || code == 206)
}

/// The head of a length-targeted packet: its start line, then header lines; it carries the
/// record `info`.
pub open spec fn synth_head(h: Seq<u8>, is_request: bool, info: PacketInfo) -> bool {
    &&& exists|first: Seq<u8>, block: Seq<u8>|
        #![trigger synth_start_line(first, is_request), is_header_block(block)]
        synth_start_line(first, is_request) && h == first + crlf() + block && is_header_block(block)
    &&& is_header_block(h)
    &&& carries_record(h, info)
}

/// The record of a length-targeted packet of `target` bytes.
pub open spec fn synth_record(info: PacketInfo, target: int) -> bool {
    info.version == 1 && info.index == 0 && info.total == 1 && info.length == target
}

/// The length of the short head: the bare start line and the record's cookie line under the
/// `k`th name.
pub open spec fn short_head_len(info: PacketInfo, k: int, is_request: bool) -> int {
    15 + 2 + (if is_request {
        8int
    } else {
        12int
    }) + COOKIE_NAMES[k].spec_bytes().len() + 1 + info_cookie(info).len() + 2
}

proof fn lemma_start_block(first: Seq<u8>, block: Seq<u8>, h: Seq<u8>)
    requires
        is_header_line(first),
        is_header_block(block),
        h == first + crlf() + block,
    ensures
        is_header_block(h),
{
    let l = first + crlf();
    assert(is_header_block(l)) by {
        assert forall|i: int| 0 <= i < l.len() && #[trigger] l[i] == 10 implies i >= 1 && l[i - 1]
            == 13 && (i + 1 == l.len() || (l[i + 1] != 13 && l[i + 1] != 10)) by {
            if i < first.len() {
                assert(l[i] == first[i]);
            }
        }
        assert(l[0] == first[0]);
    }
    if block.len() > 0 {
        assert forall|i: int| 0 <= i < h.len() && #[trigger] h[i] == 10 implies i >= 1 && h[i - 1]
            == 13 && (i + 1 == h.len() || (h[i + 1] != 13 && h[i + 1] != 10)) by {
            if i < l.len() {
                assert(h[i] == l[i]);
                assert(h[i - 1] == l[i - 1]);
                if i + 1 < l.len() {
                    assert(h[i + 1] == l[i + 1]);
                } else {
                    assert(h[i + 1] == block[0]);
                }
            } else {
                let j = i - l.len();
                assert(h[i] == block[j]);
                if j >= 1 {
                    assert(h[i - 1] == block[j - 1]);
                }
                if j + 1 < block.len() {
                    assert(h[i + 1] == block[j + 1]);
                }
            }
        }
        assert(h[0] == first[0]);
        assert(h[h.len() - 1] == block[block.len() - 1]);
        assert(h[h.len() - 2] == block[block.len() - 2]);
    } else {
        assert(h =~= l);
    }
}

/// The start line of a length-targeted packet.
fn synth_start(rng: &mut StdRng, is_request: bool, short: bool) -> (r: Vec<u8>)
    ensures
        synth_start_line(r@, is_request),
        short ==> r@.len() == 15,
{
    let mut first: Vec<u8> = Vec::new();
    proof {
        crate::utils::lemma_paths_clean();
        crate::utils::lemma_root_path();
        crate::utils::lemma_version_text();
    }
    if is_request {
        let path: &[u8] = if short {
            "/".as_bytes()
        } else {
            API_PATHS[crate::random::below(rng, 6)].as_bytes()
        };
        push_request_line(&mut first, false, path);
        proof {
            lemma_request_line(false, path@);
            crate::utils::lemma_line_lengths(false, path@);
            lemma_start_line_lead(first@, false, path@);
            crate::utils::lemma_method_text(false);
            reveal_strlit("/");
            vstd::string::is_ascii_spec_bytes("/");
        }
    } else {
        let code = if short {
            200
        } else {
            Rainbow::new().get_random_status_code(rng)
        };
        let reason = if short {
            proof {
                reveal_strlit("OK");
                vstd::string::is_ascii_spec_bytes("OK");
                assert forall|i: int| 0 <= i < "OK".spec_bytes().len() implies #[trigger] "OK".spec_bytes()[i]
                    != 10 by {
                    if i == 0 {
                    } else {
                    }
                }
            }
            "OK".as_bytes()
        } else {
            clean_reason(Rainbow::reason_for(code).as_bytes())
        };
        push_status_line(&mut first, code, reason);
        proof {
            lemma_status_line(code as nat, reason@);
            crate::utils::lemma_status_line_length(code as nat, reason@);
            lemma_status_line_lead(first@, code as nat, reason@);
            crate::utils::lemma_three_digits(code as nat);
            if short {
                assert(status_for(0) == 200);
            }
        }
    }
    proof {
        assert forall|i: int| 0 <= i < first@.len() implies #[trigger] first@[i] != 10 by {}
    }
    first
}

/// The head of a length-targeted packet: a start line, the record's cookie, the realistic
/// headers and the content type.
fn synthetic_head(
    rng: &mut StdRng,
    info: &PacketInfo,
    target_length: usize,
    is_request: bool,
    mime_type: &str,
) -> (r: Vec<u8>)
    ensures
        synth_head(r@, is_request, *info),
{
    let rainbow = Rainbow::new();
    let first = synth_start(rng, is_request, false);
    let small = target_length < 1000;
    let mut block: Vec<u8> = Vec::new();
    let cookie = if small {
        Rainbow::record_cookie_line(rng, info, is_request)
    } else {
        rainbow.build_cookie_header(rng, info, is_request)
    };
    push_header_line(&mut block, cookie.as_slice());
    let ghost with_cookie = block@;
    let mut rest: Vec<u8> = Vec::new();
    if small {
        let mut line: Vec<u8> = Vec::new();
        push_text(&mut line, "Host: localhost");
        push_header_line(&mut rest, line.as_slice());
        line = Vec::new();
        push_text(&mut line, "Connection: close");
        push_header_line(&mut rest, line.as_slice());
    } else {
        rainbow.build_common_headers(rng, is_request, &mut rest);
    }
    let mut line: Vec<u8> = Vec::new();
    push_text(&mut line, "Content-Type: ");
    push_text(&mut line, mime_type);
    push_header_line(&mut rest, line.as_slice());
    push_block(&mut block, rest.as_slice());
    let mut head: Vec<u8> = Vec::new();
    push_bytes(&mut head, first.as_slice());
    head.push(13);
    head.push(10);
    push_bytes(&mut head, block.as_slice());
    proof {
        assert(head@ =~= first@ + crlf() + block@);
        lemma_start_block(first@, block@, head@);
        let before = first@ + crlf();
        assert(head@.subrange(0, (before + cookie@).len() as int) =~= before + cookie@);
        let k = choose|k: int, tail: Seq<u8>| #[trigger] record_cookie_line(cookie@, k, tail, *info, is_request);
        lemma_cookie_inside_line(before, cookie@, head@, *info, is_request);
    }
    head
}

/// The longest head a length-targeted packet is built on.
pub const MAX_HEAD: usize = 320;

/// The short head: the bare start line and the record's cookie line.
fn fallback_head(rng: &mut StdRng, info: &PacketInfo, is_request: bool) -> (r: Vec<u8>)
    ensures
        synth_head(r@, is_request, *info),
        no_line_named(r@, "Content-Length: ".spec_bytes()),
        exists|k: int| 0 <= k < 5 && r@.len() == short_head_len(*info, k, is_request),
        r@.len() <= MAX_HEAD,
{
    let first = synth_start(rng, is_request, true);
    let cookie = Rainbow::record_cookie_line(rng, info, is_request);
    let mut block: Vec<u8> = Vec::new();
    push_header_line(&mut block, cookie.as_slice());
    let mut head: Vec<u8> = Vec::new();
    push_bytes(&mut head, first.as_slice());
    head.push(13);
    head.push(10);
    push_bytes(&mut head, block.as_slice());
    proof {
        assert(head@ =~= first@ + crlf() + cookie@ + crlf());
        lemma_fallback_head(head@, first@, cookie@, *info, is_request);
    }
    head
}

#[verifier::rlimit(100)]
proof fn lemma_fallback_head(h: Seq<u8>, first: Seq<u8>, cookie: Seq<u8>, info: PacketInfo, is_request: bool)
    requires
        synth_start_line(first, is_request),
        first.len() == 15,
        is_header_line(cookie),
        exists|k: int|
            0 <= k < 5 && cookie == (if is_request {
                "Cookie: ".spec_bytes()
            } else {
                "Set-Cookie: ".spec_bytes()
            }) + COOKIE_NAMES[k].spec_bytes() + "=".spec_bytes() + info_cookie(info),
        h == first + crlf() + cookie + crlf(),
    ensures
        synth_head(h, is_request, info),
        no_line_named(h, "Content-Length: ".spec_bytes()),
        exists|k: int| 0 <= k < 5 && h.len() == short_head_len(info, k, is_request),
        h.len() <= MAX_HEAD,
{
    let block = cookie + crlf();
    assert(h =~= first + crlf() + block);
    assert(is_header_block(block)) by {
        lemma_start_block(cookie, Seq::<u8>::empty(), block);
    }
    lemma_start_block(first, block, h);
    let before = first + crlf();
    assert(h.subrange(0, (before + cookie).len() as int) =~= before + cookie);
    lemma_cookie_inside_line(before, cookie, h, info, is_request);
    lemma_fallback_shape(h, first, cookie, info, is_request);
}

#[verifier::rlimit(100)]
proof fn lemma_fallback_shape(h: Seq<u8>, first: Seq<u8>, cookie: Seq<u8>, info: PacketInfo, is_request: bool)
    requires
        synth_start_line(first, is_request),
        first.len() == 15,
        is_header_line(cookie),
        exists|k: int|
            0 <= k < 5 && cookie == (if is_request {
                "Cookie: ".spec_bytes()
            } else {
                "Set-Cookie: ".spec_bytes()
            }) + COOKIE_NAMES[k].spec_bytes() + "=".spec_bytes() + info_cookie(info),
        h == first + crlf() + cookie + crlf(),
    ensures
        no_line_named(h, "Content-Length: ".spec_bytes()),
        exists|k: int| 0 <= k < 5 && h.len() == short_head_len(info, k, is_request),
        h.len() <= MAX_HEAD,
{
    let k = choose|k: int|
        0 <= k < 5 && cookie == (if is_request {
            "Cookie: ".spec_bytes()
        } else {
            "Set-Cookie: ".spec_bytes()
        }) + COOKIE_NAMES[k].spec_bytes() + "=".spec_bytes() + info_cookie(info);
    lemma_cookie_parts();
    crate::framing::lemma_cookie_name_bytes(k);
    crate::metadata::lemma_info_json_len(info);
    crate::b64::lemma_base64_shape(info_json(info));
    assert(h.len() == short_head_len(info, k, is_request));
    reveal_strlit("Cookie: ");
    vstd::string::is_ascii_spec_bytes("Cookie: ");
    assert(cookie[0] == (if is_request {
        "Cookie: ".spec_bytes()
    } else {
        "Set-Cookie: ".spec_bytes()
    })[0]);
    assert(is_request ==> cookie[2] == "Cookie: ".spec_bytes()[2]);
    assert(first[0] != 67) by {
        if is_request {
            let path = choose|path: Seq<u8>|
                (path == "/".spec_bytes() || exists|k: int| 0 <= k < 6 && path == #[trigger] API_PATHS[k].spec_bytes())
                    && first == method_text(false) + sp() + path + sp() + version_text();
            reveal_strlit("POST");
            vstd::string::is_ascii_spec_bytes("POST");
            assert(first[0] == method_text(false)[0]);
        } else {
            crate::utils::lemma_version_text();
            reveal_strlit("HTTP/1.1");
            vstd::string::is_ascii_spec_bytes("HTTP/1.1");
            let (code, reason) = choose|code: u16, reason: Seq<u8>|
                first == version_text() + sp() + decimal(code as nat) + sp() + reason && (code == 200
                    || code == 201 || code == 202 || code == 204 || code == 206);
            assert(first[0] == version_text()[0]);
        }
    }
    lemma_short_head_unnamed(h, first, cookie, is_request);
}

/// The short head has no `Content-Length` line: its two lines open with the start line's
/// method or version and with a cookie header name.
proof fn lemma_short_head_unnamed(h: Seq<u8>, first: Seq<u8>, cookie: Seq<u8>, is_request: bool)
    requires
        h == first + crlf() + cookie + crlf(),
        no_line_feed(first),
        no_line_feed(cookie),
        first.len() >= 4 && first[0] != 67,
        cookie.len() >= 3 && (cookie[0] != 67 || cookie[2] != 110),
    ensures
        no_line_named(h, "Content-Length: ".spec_bytes()),
{
    lemma_data_names();
    let name = "Content-Length: ".spec_bytes();
    assert forall|i: int| #[trigger] line_start(h, i) implies !occurs_at(h, i, name) by {
        if i == 0 {
            if occurs_at(h, 0, name) {
                assert(h.subrange(0, 16)[0] == h[0]);
                assert(h[0] == first[0]);
            }
        } else {
            assert(h[i - 1] == 10);
            if i - 1 < first.len() {
                assert(h[i - 1] == first[i - 1]);
            } else if i - 1 == first.len() {
            } else if i - 1 > first.len() + 1 && i - 1 < first.len() + 2 + cookie.len() {
                assert(h[i - 1] == cookie[i - 1 - first.len() - 2]);
            } else if i - 1 == first.len() + 2 + cookie.len() {
            } else if i - 1 > first.len() + 2 + cookie.len() {
            } else {
                assert(i == first.len() + 2);
                if occurs_at(h, i, name) {
                    assert(h.subrange(i, i + 16)[0] == h[i]);
                    assert(h.subrange(i, i + 16)[2] == h[i + 2]);
                    assert(h[i] == cookie[0]);
                    assert(h[i + 2] == cookie[2]);
                }
            }
        }
    }
}

/// A packet on a synthetic head whose tail `find_optimal_packet_size` wrote.
#[verifier::rlimit(100)]
proof fn lemma_synth_packet(h: Seq<u8>, p: Seq<u8>, info: PacketInfo, is_request: bool, m: Seq<u8>, target: int)
    requires
        synth_head(h, is_request, info),
        synth_record(info, target),
        no_line_named(h, "Content-Length: ".spec_bytes()),
        mime_choice(None, m),
        has_prefix(p, h),
        exists|filler: Seq<u8>, pad: int, body: Seq<u8>|
            #[trigger] frame_tail(filler, pad, body) == p.subrange(h.len() as int, p.len() as int)
                && all_alphanumeric(filler) && (body.len() == 0 || exists|x: Seq<u8>|
                #[trigger] hides(m, body, x)),
    ensures
        is_framed_as(p, is_request),
        exists|head: Seq<u8>, filler: Seq<u8>, pad: int, body: Seq<u8>, info2: PacketInfo|
            #![trigger synth_head(head, is_request, info2), frame_tail(filler, pad, body)]
            synth_head(head, is_request, info2) && synth_record(info2, target) && no_line_named(
                head,
                "Content-Length: ".spec_bytes(),
            ) && head + frame_tail(filler, pad, body) == p && all_alphanumeric(filler) && (
            body.len() == 0 || exists|m2: Seq<u8>, x: Seq<u8>|
                #[trigger] hides(m2, body, x) && mime_choice(None, m2)),
        exists|info2: PacketInfo| #[trigger] carries_record(p, info2) && synth_record(info2, target),
{
    let (filler, pad, body) = choose|filler: Seq<u8>, pad: int, body: Seq<u8>|
        #[trigger] frame_tail(filler, pad, body) == p.subrange(h.len() as int, p.len() as int)
            && all_alphanumeric(filler) && (body.len() == 0 || exists|x: Seq<u8>|
            #[trigger] hides(m, body, x));
    assert(p.subrange(0, h.len() as int) == h);
    assert(h + frame_tail(filler, pad, body) =~= p);
    let (first, block) = choose|first: Seq<u8>, block: Seq<u8>|
        #![trigger synth_start_line(first, is_request), is_header_block(block)]
        synth_start_line(first, is_request) && h == first + crlf() + block && is_header_block(block);
    assert(p.subrange(0, (first + crlf()).len() as int) =~= first + crlf());
    lemma_framed_by_start(first, p, is_request);
    let at = choose|at: int| occurs_at(h, at, info_cookie(info));
    assert(p.subrange(at, at + info_cookie(info).len()) =~= h.subrange(at, at + info_cookie(info).len()));
    assert(occurs_at(p, at, info_cookie(info)));
    assert(carries_record(p, info));
    if body.len() > 0 {
        let x = choose|x: Seq<u8>| #[trigger] hides(m, body, x);
        assert(hides(m, body, x) && mime_choice(None, m));
    }
}

/// A packet of exactly `target_length` bytes, a request (`is_request`) or a response, whose
/// body hides random bytes, for traffic that must match given packet sizes. The head drawn is
/// replaced by the short one where it is too long, has a `Content-Length` line, or leaves no
/// room for the target; the call fails with `InvalidData` only where the target is below the
/// short head's minimum, and every target of `MAX_HEAD + 21` bytes or more is met.
#[verifier::rlimit(100)]
pub fn generate_stego_packet_with_length(
    rng: &mut StdRng,
    target_length: usize,
    is_request: bool,
) -> (r: Result<Vec<u8>, RainbowError>)
    ensures
        target_length >= MAX_HEAD + 21 ==> r is Ok,
        r is Ok ==> r->Ok_0@.len() == target_length && is_framed_as(r->Ok_0@, is_request),
        r is Ok ==> exists|
            head: Seq<u8>,
            filler: Seq<u8>,
            pad: int,
            body: Seq<u8>,
            info: PacketInfo,
        |
            #![trigger synth_head(head, is_request, info), frame_tail(filler, pad, body)]
            synth_head(head, is_request, info) && synth_record(info, target_length as int)
                && no_line_named(head, "Content-Length: ".spec_bytes()) && head + frame_tail(
                filler,
                pad,
                body,
            ) == r->Ok_0@ && all_alphanumeric(filler) && (body.len() == 0 || exists|
                m: Seq<u8>,
                x: Seq<u8>,
            |
                #[trigger] hides(m, body, x) && mime_choice(None, m)),
        r is Ok ==> exists|info: PacketInfo|
            #[trigger] carries_record(r->Ok_0@, info) && synth_record(info, target_length as int),
        r is Err ==> r->Err_0 is InvalidData && exists|info: PacketInfo, k: int|
            #![trigger short_head_len(info, k, is_request)]
            synth_record(info, target_length as int) && 0 <= k < 5 && target_length
                < short_head_len(info, k, is_request) + 21,
{
    let mime = if target_length < 1000 {
        "application/json".to_owned()
    } else {
        get_random_mime_type(rng)
    };
    let info = PacketInfo::new(0, 1, target_length);
    let mut head = synthetic_head(rng, &info, target_length, is_request, mime.as_str());
    if head.len() > MAX_HEAD || !lines_unnamed(head.as_slice(), "Content-Length: ".as_bytes())
        || target_length < 21 || target_length - 21 < head.len() {
        head = fallback_head(rng, &info, is_request);
    }
    let r = find_optimal_packet_size(rng, head.as_slice(), target_length, mime.as_str());
    proof {
        if r is Ok {
            let mb = vstd::utf8::encode_utf8(mime@);
            if target_length < 1000 {
                assert(mime@ == crate::stego::mime_text(2));
            }
            assert(mime_choice(None, mb));
            lemma_synth_packet(head@, r->Ok_0@, info, is_request, mb, target_length as int);
        }
    }
    r
}

} // verus!
