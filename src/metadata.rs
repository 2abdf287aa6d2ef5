//! The record each packet carries, its JSON text and its cookie value.
use crate::b64::{base64_encode, base64_of, decode_base64};
use crate::bytes::{
    decimal, is_digit, keyed_number, lemma_decimal, lemma_occurs_middle, occurs_at, push_decimal,
    push_text,
};
use crate::stego::same_bytes;
use crate::RainbowError;
use vstd::prelude::*;
use vstd::string::StringSliceAdditionalSpecFns;

verus! {

pub const KEY_VERSION: &'static str = "{\"version\":";

pub const KEY_TIMESTAMP: &'static str = ",\"timestamp\":";

pub const KEY_INDEX: &'static str = ",\"index\":";

pub const KEY_TOTAL: &'static str = ",\"total\":";

pub const KEY_LENGTH: &'static str = ",\"length\":";

pub const KEY_END: &'static str = "}";

/// The reassembly record each packet carries: which chunk it holds, of how many, and how long.
#[derive(PartialEq, Eq, Structural, Clone, Copy, Debug)]
pub struct PacketInfo {
    pub version: u8,
    pub timestamp: u64,
    pub index: usize,
    pub total: usize,
    pub length: usize,
}

/// The record as JSON text, fields in declaration order.
pub open spec fn info_json(i: PacketInfo) -> Seq<u8> {
    KEY_VERSION.spec_bytes() + decimal(i.version as nat) + KEY_TIMESTAMP.spec_bytes() + decimal(
        i.timestamp as nat,
    ) + KEY_INDEX.spec_bytes() + decimal(i.index as nat) + KEY_TOTAL.spec_bytes() + decimal(
        i.total as nat,
    ) + KEY_LENGTH.spec_bytes() + decimal(i.length as nat) + KEY_END.spec_bytes()
}

/// The record as a cookie value: the base64 text of its JSON text.
pub open spec fn info_cookie(i: PacketInfo) -> Seq<u8> {
    base64_of(info_json(i))
}

pub(crate) proof fn lemma_key_literals()
    ensures
        KEY_TIMESTAMP.spec_bytes().len() > 0 && !is_digit(KEY_TIMESTAMP.spec_bytes()[0]),
        KEY_INDEX.spec_bytes().len() > 0 && !is_digit(KEY_INDEX.spec_bytes()[0]),
        KEY_TOTAL.spec_bytes().len() > 0 && !is_digit(KEY_TOTAL.spec_bytes()[0]),
        KEY_LENGTH.spec_bytes().len() > 0 && !is_digit(KEY_LENGTH.spec_bytes()[0]),
        KEY_END.spec_bytes().len() == 1 && !is_digit(KEY_END.spec_bytes()[0]),
{
    reveal_strlit(",\"timestamp\":");
    reveal_strlit(",\"index\":");
    reveal_strlit(",\"total\":");
    reveal_strlit(",\"length\":");
    reveal_strlit("}");
    vstd::string::is_ascii_spec_bytes(KEY_TIMESTAMP);
    vstd::string::is_ascii_spec_bytes(KEY_INDEX);
    vstd::string::is_ascii_spec_bytes(KEY_TOTAL);
    vstd::string::is_ascii_spec_bytes(KEY_LENGTH);
    vstd::string::is_ascii_spec_bytes(KEY_END);
}

/// Where each field of `i` stands in its JSON text `j`, and what follows it.
pub open spec fn layout(j: Seq<u8>, i: PacketInfo) -> bool {
    let k1 = KEY_VERSION.spec_bytes();
    let k2 = KEY_TIMESTAMP.spec_bytes();
    let k3 = KEY_INDEX.spec_bytes();
    let k4 = KEY_TOTAL.spec_bytes();
    let k5 = KEY_LENGTH.spec_bytes();
    let d1 = decimal(i.version as nat);
    let d2 = decimal(i.timestamp as nat);
    let d3 = decimal(i.index as nat);
    let d4 = decimal(i.total as nat);
    let d5 = decimal(i.length as nat);
    let e1: int = (k1.len() + d1.len()) as int;
    let e2: int = e1 + k2.len() + d2.len();
    let e3: int = e2 + k3.len() + d3.len();
    let e4: int = e3 + k4.len() + d4.len();
    let e5: int = e4 + k5.len() + d5.len();
    &&& occurs_at(j, 0, k1 + d1) && !is_digit(j[e1])
    &&& occurs_at(j, e1, k2 + d2) && !is_digit(j[e2])
    &&& occurs_at(j, e2, k3 + d3) && !is_digit(j[e3])
    &&& occurs_at(j, e3, k4 + d4) && !is_digit(j[e4])
    &&& occurs_at(j, e4, k5 + d5) && !is_digit(j[e5])
    &&& e5 + 1 == j.len()
}

#[verifier::rlimit(100)]
pub(crate) proof fn lemma_info_layout(i: PacketInfo)
    ensures
        layout(info_json(i), i),
{
    let j = info_json(i);
    lemma_key_literals();
    let k1 = KEY_VERSION.spec_bytes();
    let k2 = KEY_TIMESTAMP.spec_bytes();
    let k3 = KEY_INDEX.spec_bytes();
    let k4 = KEY_TOTAL.spec_bytes();
    let k5 = KEY_LENGTH.spec_bytes();
    let k6 = KEY_END.spec_bytes();
    let d1 = decimal(i.version as nat);
    let d2 = decimal(i.timestamp as nat);
    let d3 = decimal(i.index as nat);
    let d4 = decimal(i.total as nat);
    let d5 = decimal(i.length as nat);
    let t5 = k6;
    let t4 = k5 + d5 + t5;
    let t3 = k4 + d4 + t4;
    let t2 = k3 + d3 + t3;
    let t1 = k2 + d2 + t2;
    assert(j =~= Seq::<u8>::empty() + (k1 + d1) + t1);
    lemma_occurs_middle(Seq::<u8>::empty(), k1 + d1, t1);
    let a1 = k1 + d1;
    assert(j =~= a1 + (k2 + d2) + t2);
    lemma_occurs_middle(a1, k2 + d2, t2);
    let a2 = a1 + (k2 + d2);
    assert(j =~= a2 + (k3 + d3) + t3);
    lemma_occurs_middle(a2, k3 + d3, t3);
    let a3 = a2 + (k3 + d3);
    assert(j =~= a3 + (k4 + d4) + t4);
    lemma_occurs_middle(a3, k4 + d4, t4);
    let a4 = a3 + (k4 + d4);
    assert(j =~= a4 + (k5 + d5) + t5);
    lemma_occurs_middle(a4, k5 + d5, t5);
}

/// Two numbers whose digits stand at one place, each followed by a non-digit or the end, are
/// the same.
pub(crate) proof fn lemma_decimal_run_unique(s: Seq<u8>, at: int, a: nat, b: nat)
    requires
        occurs_at(s, at, decimal(a)),
        occurs_at(s, at, decimal(b)),
        at + decimal(a).len() == s.len() || !is_digit(s[at + decimal(a).len()]),
        at + decimal(b).len() == s.len() || !is_digit(s[at + decimal(b).len()]),
    ensures
        a == b,
{
    lemma_decimal(a);
    lemma_decimal(b);
    let da = decimal(a);
    let db = decimal(b);
    if da.len() < db.len() {
        assert(s[at + da.len()] == s.subrange(at, at + db.len())[da.len() as int]);
    } else if db.len() < da.len() {
        assert(s[at + db.len()] == s.subrange(at, at + da.len())[db.len() as int]);
    }
    assert(da =~= db);
}

/// Different records have different JSON texts, and so different cookie values.
pub proof fn lemma_info_cookie_injective(i: PacketInfo, j: PacketInfo)
    requires
        info_cookie(i) == info_cookie(j),
    ensures
        i == j,
{
    crate::b64::lemma_base64_injective(info_json(i), info_json(j));
    let t = info_json(i);
    lemma_info_layout(i);
    lemma_info_layout(j);
    lemma_key_literals();
    let k1 = KEY_VERSION.spec_bytes();
    let k2 = KEY_TIMESTAMP.spec_bytes();
    let k3 = KEY_INDEX.spec_bytes();
    let k4 = KEY_TOTAL.spec_bytes();
    let k5 = KEY_LENGTH.spec_bytes();
    crate::bytes::lemma_occurs_concat(t, 0, k1, decimal(i.version as nat));
    crate::bytes::lemma_occurs_concat(t, 0, k1, decimal(j.version as nat));
    lemma_decimal_run_unique(t, k1.len() as int, i.version as nat, j.version as nat);
    let e1 = (k1.len() + decimal(i.version as nat).len()) as int;
    crate::bytes::lemma_occurs_concat(t, e1, k2, decimal(i.timestamp as nat));
    crate::bytes::lemma_occurs_concat(t, e1, k2, decimal(j.timestamp as nat));
    lemma_decimal_run_unique(t, e1 + k2.len(), i.timestamp as nat, j.timestamp as nat);
    let e2 = e1 + k2.len() + decimal(i.timestamp as nat).len();
    crate::bytes::lemma_occurs_concat(t, e2, k3, decimal(i.index as nat));
    crate::bytes::lemma_occurs_concat(t, e2, k3, decimal(j.index as nat));
    lemma_decimal_run_unique(t, e2 + k3.len(), i.index as nat, j.index as nat);
    let e3 = e2 + k3.len() + decimal(i.index as nat).len();
    crate::bytes::lemma_occurs_concat(t, e3, k4, decimal(i.total as nat));
    crate::bytes::lemma_occurs_concat(t, e3, k4, decimal(j.total as nat));
    lemma_decimal_run_unique(t, e3 + k4.len(), i.total as nat, j.total as nat);
    let e4 = e3 + k4.len() + decimal(i.total as nat).len();
    crate::bytes::lemma_occurs_concat(t, e4, k5, decimal(i.length as nat));
    crate::bytes::lemma_occurs_concat(t, e4, k5, decimal(j.length as nat));
    lemma_decimal_run_unique(t, e4 + k5.len(), i.length as nat, j.length as nat);
}

/// Reads the JSON text of a record; only the exact text that `to_json` writes is accepted.
pub(crate) fn parse_info_json(j: &[u8]) -> (r: Option<PacketInfo>)
    ensures
        r is Some ==> info_json(r->Some_0) == j@,
        forall|i: PacketInfo| #[trigger] info_json(i) == j@ ==> r == Some(i),
{
    proof {
        assert forall|i: PacketInfo| #[trigger] info_json(i) == j@ implies layout(j@, i) by {
            lemma_info_layout(i);
        }
    }
    let (version, e1) = match keyed_number(j, 0, KEY_VERSION.as_bytes()) {
        Some(x) => x,
        None => {
            proof {
                assert forall|i: PacketInfo| #[trigger] info_json(i) == j@ implies false by {
                    lemma_info_layout(i);
                }
            }
            return None;
        },
    };
    let (timestamp, e2) = match keyed_number(j, e1, KEY_TIMESTAMP.as_bytes()) {
        Some(x) => x,
        None => {
            proof {
                assert forall|i: PacketInfo| #[trigger] info_json(i) == j@ implies false by {
                    lemma_info_layout(i);
                }
            }
            return None;
        },
    };
    let (index, e3) = match keyed_number(j, e2, KEY_INDEX.as_bytes()) {
        Some(x) => x,
        None => {
            proof {
                assert forall|i: PacketInfo| #[trigger] info_json(i) == j@ implies false by {
                    lemma_info_layout(i);
                }
            }
            return None;
        },
    };
    let (total, e4) = match keyed_number(j, e3, KEY_TOTAL.as_bytes()) {
        Some(x) => x,
        None => {
            proof {
                assert forall|i: PacketInfo| #[trigger] info_json(i) == j@ implies false by {
                    lemma_info_layout(i);
                }
            }
            return None;
        },
    };
    let (length, e5) = match keyed_number(j, e4, KEY_LENGTH.as_bytes()) {
        Some(x) => x,
        None => {
            proof {
                assert forall|i: PacketInfo| #[trigger] info_json(i) == j@ implies false by {
                    lemma_info_layout(i);
                }
            }
            return None;
        },
    };
    if version > 255 || index > usize::MAX as u64 || total > usize::MAX as u64 || length
        > usize::MAX as u64 {
        proof {
            assert forall|i: PacketInfo| #[trigger] info_json(i) == j@ implies false by {
                lemma_info_layout(i);
            }
        }
        return None;
    }
    let candidate = PacketInfo {
        version: version as u8,
        timestamp,
        index: index as usize,
        total: total as usize,
        length: length as usize,
    };
    let text = candidate.to_json();
    proof {
        assert forall|i: PacketInfo| #[trigger] info_json(i) == j@ implies candidate == i by {
            lemma_info_layout(i);
        }
    }
    if crate::stego::same_bytes(text.as_slice(), j) {
        Some(candidate)
    } else {
        None
    }
}

impl PacketInfo {
    /// The record for chunk `index` of `total`, `length` bytes long, stamped with the time now.
    pub fn new(index: usize, total: usize, length: usize) -> (r: PacketInfo)
        ensures
            r.version == 1,
            r.index == index,
            r.total == total,
            r.length == length,
    {
        let now = crate::clock::unix_now();
        let timestamp: u64 = if now < 0 {
            0
        } else {
            now as u64
        };
        PacketInfo { version: 1, timestamp, index, total, length }
    }

    /// The record as JSON text.
    pub fn to_json(&self) -> (r: Vec<u8>)
        ensures
            r@ == info_json(*self),
    {
        let mut out: Vec<u8> = Vec::new();
        push_text(&mut out, KEY_VERSION);
        push_decimal(&mut out, self.version as u64);
        push_text(&mut out, KEY_TIMESTAMP);
        push_decimal(&mut out, self.timestamp);
        push_text(&mut out, KEY_INDEX);
        push_decimal(&mut out, self.index as u64);
        push_text(&mut out, KEY_TOTAL);
        push_decimal(&mut out, self.total as u64);
        push_text(&mut out, KEY_LENGTH);
        push_decimal(&mut out, self.length as u64);
        push_text(&mut out, KEY_END);
        assert(out@ =~= info_json(*self));
        out
    }

    /// The record as a cookie value: JSON text, then base64.
    pub fn to_cookie(&self) -> (r: Vec<u8>)
        ensures
            r@ == info_cookie(*self),
    {
        let json = self.to_json();
        proof {
            lemma_info_json_len(*self);
        }
        base64_encode(json.as_slice())
    }

    /// Reads a cookie value back into a record. Text that is not base64 gives `Base64Error`;
    /// decoded bytes that are not a record's JSON text give `JsonError`.
    pub fn from_cookie(cookie: &[u8]) -> (r: Result<PacketInfo, RainbowError>)
        ensures
            r is Ok ==> info_cookie(r->Ok_0) == cookie@,
            forall|i: PacketInfo| #[trigger] info_cookie(i) == cookie@ ==> r == Ok::<
                PacketInfo,
                RainbowError,
            >(i),
            !(exists|x: Seq<u8>| #[trigger] base64_of(x) == cookie@) ==> r is Err && r->Err_0 is Base64Error,
            (exists|x: Seq<u8>| #[trigger] base64_of(x) == cookie@) && r is Err ==> r->Err_0 is JsonError,
    {
        let bytes = match decode_base64(cookie) {
            Ok(b) => b,
            Err(e) => return Err(RainbowError::Base64Error(e)),
        };
        match parse_info_json(bytes.as_slice()) {
            Some(info) => Ok(info),
            None => Err(RainbowError::JsonError("not a packet record".to_string())),
        }
    }
}

pub(crate) proof fn lemma_info_json_len(i: PacketInfo)
    ensures
        info_json(i).len() < 200,
{
    reveal_strlit("{\"version\":");
    reveal_strlit(",\"timestamp\":");
    reveal_strlit(",\"index\":");
    reveal_strlit(",\"total\":");
    reveal_strlit(",\"length\":");
    reveal_strlit("}");
    vstd::string::is_ascii_spec_bytes(KEY_VERSION);
    vstd::string::is_ascii_spec_bytes(KEY_TIMESTAMP);
    vstd::string::is_ascii_spec_bytes(KEY_INDEX);
    vstd::string::is_ascii_spec_bytes(KEY_TOTAL);
    vstd::string::is_ascii_spec_bytes(KEY_LENGTH);
    vstd::string::is_ascii_spec_bytes(KEY_END);
    lemma_decimal_len(i.version as nat);
    lemma_decimal_len(i.timestamp as nat);
    lemma_decimal_len(i.index as nat);
    lemma_decimal_len(i.total as nat);
    lemma_decimal_len(i.length as nat);
}

pub(crate) proof fn lemma_decimal_len(n: nat)
    requires
        n <= u64::MAX,
    ensures
        decimal(n).len() <= 20,
{
    crate::bytes::lemma_decimal_bound(n, 20);
}

} // verus!
