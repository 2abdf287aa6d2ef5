//! Hides payloads in synthetic HTTP/1.1 traffic: chunking, per-chunk reassembly records,
//! request and response framing, MIME-keyed steganographic codecs, and packets of an exact
//! length.
use vstd::prelude::*;

pub mod b64;
pub mod bytes;
pub mod clock;
pub mod framing;
pub mod metadata;
pub mod rainbow;
pub mod random;
pub mod stego;
pub mod utils;

use framing::{
    carries_packet, carries_payload, carries_record, chunk_count, chunk_len, first_blank, head_of,
    is_framed_as, payload_fault, payload_of, records_from,
};
use metadata::PacketInfo;
use rainbow::{carries_chunk, chunk_framed, Rainbow};
use utils::{first_line, is_http_packet, is_response_line};

verus! {

/// What can go wrong in this library.
#[derive(Debug)]
pub enum RainbowError {
    InvalidData(String),
    EncodeFailed(String),
    DecodeFailed(String),
    LengthMismatch(String),
    HttpError(String),
    IoError(String),
    Base64Error(base64::DecodeError),
    JsonError(String),
    Other(String),
}

/// A name to tell processors apart.
pub trait Name {
    fn name(&self) -> &'static str;
}

/// A processor that hides data in network packets and recovers it one packet at a time.
pub trait SteganographyProcessor: Name {
    /// Splits `data` into packets; returns them with the length of the chunk each carries.
    fn encode_write(&self, data: &[u8], is_client: bool, mime_type: Option<String>) -> Result<
        (Vec<Vec<u8>>, Vec<usize>),
        RainbowError,
    >;

    /// Recovers one packet: its payload, the length its record declares, and whether it is
    /// the last.
    fn decrypt_single_read(&self, data: Vec<u8>, packet_index: usize, is_client: bool) -> Result<
        (Vec<u8>, usize, bool),
        RainbowError,
    >;
}

impl Name for Rainbow {
    fn name(&self) -> &'static str {
        "rainbow"
    }
}

impl SteganographyProcessor for Rainbow {
    fn encode_write(&self, data: &[u8], is_client: bool, mime_type: Option<String>) -> (r: Result<
        (Vec<Vec<u8>>, Vec<usize>),
        RainbowError,
    >)
        ensures
            r is Ok <==> (mime_type is None || crate::framing::is_header_value(vstd::utf8::encode_utf8(mime_type->Some_0@))),
            r is Err ==> r->Err_0 is InvalidData,
            r is Ok ==> {
                let (packets, lengths) = r->Ok_0;
                &&& packets@.len() == chunk_count(data@.len() as int)
                &&& lengths@.len() == packets@.len()
                &&& forall|i: int|
                    0 <= i < lengths@.len() ==> lengths@[i] == chunk_len(data@.len() as int, i)
                &&& forall|i: int|
                    0 <= i < packets@.len() ==> is_framed_as(#[trigger] packets@[i]@, is_client)
                &&& forall|i: int|
                    0 <= i < packets@.len() ==> carries_chunk(
                        #[trigger] packets@[i]@,
                        data@,
                        i,
                        packets@.len() as int,
                        is_client,
                    )
                &&& forall|i: int|
                    0 <= i < packets@.len() ==> chunk_framed(
                        #[trigger] packets@[i]@,
                        data@,
                        i,
                        is_client,
                        mime_type,
                    )
            },
    {
        let mut rng = random::fresh_rng();
        self.encode_write_with(&mut rng, data, is_client, mime_type)
    }

    fn decrypt_single_read(&self, data: Vec<u8>, packet_index: usize, is_client: bool) -> (r:
        Result<(Vec<u8>, usize, bool), RainbowError>)
        ensures
            !is_http_packet(data@) ==> r is Err && r->Err_0 is InvalidData,
            is_http_packet(data@) && is_client == is_response_line(first_line(data@)) ==> r is Err
                && r->Err_0 is InvalidData,
            forall|chunk: Seq<u8>| #[trigger] carries_payload(data@, chunk) && r is Ok ==> r->Ok_0.0@
                == chunk,
            forall|chunk: Seq<u8>, info: PacketInfo|
                #[trigger] carries_packet(data@, chunk, info, is_client) && chunk.len() == info.length
                    ==> r is Ok && r->Ok_0.0@ == chunk && r->Ok_0.1 == info.length && r->Ok_0.2 == (
                packet_index + 1 >= info.total),
            is_http_packet(data@) && is_client != is_response_line(first_line(data@)) && first_blank(
                data@,
            ) >= data@.len() ==> r is Err && r->Err_0 is InvalidData,
            is_http_packet(data@) && is_client != is_response_line(first_line(data@)) && first_blank(
                data@,
            ) < data@.len() ==> match records_from(head_of(data@), 0) {
                None => r is Err && r->Err_0 is InvalidData,
                Some(info) => if payload_fault(data@) == 2 {
                    r is Err && r->Err_0 is Base64Error
                } else if payload_fault(data@) == 1 {
                    r is Err && r->Err_0 is InvalidData
                } else if payload_of(data@).len() != info.length {
                    r is Err && r->Err_0 is LengthMismatch
                } else {
                    r is Ok && r->Ok_0.0@ == payload_of(data@) && r->Ok_0.1 == info.length
                        && r->Ok_0.2 == (packet_index + 1 >= info.total)
                },
            },
            r is Ok ==> exists|info: PacketInfo|
                {
                    &&& carries_record(data@, info)
                    &&& r->Ok_0.0@.len() == info.length
                    &&& r->Ok_0.1 == info.length
                    &&& r->Ok_0.2 == (packet_index + 1 >= info.total)
                },
    {
        self.decrypt_single_read(data, packet_index, is_client)
    }
}

} // verus!
