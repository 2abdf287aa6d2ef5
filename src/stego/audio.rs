//! Bytes as the amplitudes of a sampled carrier wave behind a sync preamble, embedded as a
//! base64 data URL.
use crate::bytes::{occurs_at, starts_with};
use crate::stego::carrier::{carries, read_carried, write_carried};
use crate::stego::records::{read_records, records, write_records, Scheme};
use vstd::prelude::*;
use vstd::string::StringSliceAdditionalSpecFns;

verus! {

pub const AUDIO_HEAD: &'static str = "<audio id=\"stego-audio\" style=\"display:none\"><source src=\"data:audio/wav;base64,";

pub const AUDIO_TAIL: &'static str = "\" type=\"audio/wav\"></audio>";

/// The sync preamble's amplitude.
pub const SYNC_LEVEL: i32 = 30000;

/// One period of the carrier, eight samples a cycle, scaled to a peak of 100.
pub open spec fn carrier_level(k: int) -> int {
    if k == 0 || k == 4 {
        0
    } else if k == 1 || k == 3 {
        71
    } else if k == 2 {
        100
    } else if k == 6 {
        -100
    } else {
        -71
    }
}

/// Byte `h` (0 low, 1 high) of the 16-bit little-endian sample `v`.
pub open spec fn sample_byte(v: int, h: int) -> u8 {
    let u = if v < 0 {
        v + 65536
    } else {
        v
    };
    if h == 0 {
        (u % 256) as u8
    } else {
        (u / 256) as u8
    }
}

/// The frame for `b`: one carrier period whose amplitude is `b + 1` steps.
pub open spec fn frame(b: u8) -> Seq<u8> {
    Seq::new(16, |p: int| sample_byte((b as int + 1) * carrier_level(p / 2), p % 2))
}

/// The sync preamble: eight samples alternating between the two extremes.
pub open spec fn preamble() -> Seq<u8> {
    Seq::new(
        16,
        |p: int|
            sample_byte(
                if (p / 2) % 2 == 0 {
                    SYNC_LEVEL as int
                } else {
                    -SYNC_LEVEL
                },
                p % 2,
            ),
    )
}

/// An audio element whose embedded samples are the preamble and then the frames for `x`.
pub open spec fn is_audio_clip(s: Seq<u8>, x: Seq<u8>) -> bool {
    carries(s, AUDIO_HEAD.spec_bytes(), preamble() + records(Scheme::Wave, x))
}

pub proof fn lemma_frame_width(b: u8)
    ensures
        frame(b).len() == frame(0).len(),
        frame(0).len() > 0,
{
}

fn level(k: usize) -> (r: i32)
    requires
        k < 8,
    ensures
        r == carrier_level(k as int),
{
    if k == 0 || k == 4 {
        0
    } else if k == 1 || k == 3 {
        71
    } else if k == 2 {
        100
    } else if k == 6 {
        -100
    } else {
        -71
    }
}

fn push_sample(v: i32, out: &mut Vec<u8>)
    requires
        -65536 < v < 65536,
    ensures
        final(out)@ == old(out)@ + seq![sample_byte(v as int, 0), sample_byte(v as int, 1)],
{
    let u: u32 = if v < 0 {
        (v + 65536) as u32
    } else {
        v as u32
    };
    out.push((u % 256) as u8);
    out.push((u / 256) as u8);
}

pub fn write_frame(b: u8, out: &mut Vec<u8>)
    ensures
        final(out)@ == old(out)@ + frame(b),
{
    let ghost before = out@;
    let mut k: usize = 0;
    while k < 8
        invariant
            k <= 8,
            out@ == before + frame(b).subrange(0, 2 * k),
        decreases 8 - k,
    {
        let v = (b as i32 + 1) * level(k);
        push_sample(v, out);
        k = k + 1;
        assert(out@ =~= before + frame(b).subrange(0, 2 * k));
    }
    assert(frame(b).subrange(0, 16) =~= frame(b));
}

fn write_preamble(out: &mut Vec<u8>)
    ensures
        final(out)@ == old(out)@ + preamble(),
{
    let ghost before = out@;
    let mut k: usize = 0;
    while k < 8
        invariant
            k <= 8,
            out@ == before + preamble().subrange(0, 2 * k),
        decreases 8 - k,
    {
        let v = if k % 2 == 0 {
            SYNC_LEVEL
        } else {
            -SYNC_LEVEL
        };
        push_sample(v, out);
        k = k + 1;
        assert(out@ =~= before + preamble().subrange(0, 2 * k));
    }
    assert(preamble().subrange(0, 16) =~= preamble());
}

/// Reads the crest of the frame at `at` (its third sample) back as the byte.
pub fn guess_frame(s: &[u8], at: usize) -> (r: Option<u8>)
    ensures
        forall|b: u8| #[trigger] occurs_at(s@, at as int, frame(b)) ==> r == Some(b),
{
    if at > s.len() || s.len() - at < 6 {
        return None;
    }
    let crest: u32 = s[at + 4] as u32 + 256 * (s[at + 5] as u32);
    let r = if crest >= 100 && crest <= 25600 && crest % 100 == 0 {
        Some((crest / 100 - 1) as u8)
    } else {
        None
    };
    proof {
        assert forall|b: u8| #[trigger] occurs_at(s@, at as int, frame(b)) implies r == Some(b) by {
            assert(s@[at + 4] == s@.subrange(at as int, at + 16)[4]);
            assert(s@[at + 5] == s@.subrange(at as int, at + 16)[5]);
            assert(frame(b)[4] == sample_byte((b as int + 1) * 100, 0));
            assert(frame(b)[5] == sample_byte((b as int + 1) * 100, 1));
            let u = (b as int + 1) * 100;
            assert(u % 256 + 256 * (u / 256) == u);
        }
    }
    r
}

/// The audio steganography codec: bytes as the amplitudes of a sampled carrier wave.
pub struct AudioEncoder {}

impl Default for AudioEncoder {
    fn default() -> (r: AudioEncoder)
        ensures
            r == (AudioEncoder {  }),
    {
        AudioEncoder {  }
    }
}

impl AudioEncoder {
    /// Hides `data` in an audio element's embedded samples.
    pub fn encode_bytes(&self, data: &[u8]) -> (r: Vec<u8>)
        requires
            data@.len() < usize::MAX / 64,
        ensures
            is_audio_clip(r@, data@),
    {
        let mut wave: Vec<u8> = Vec::new();
        write_preamble(&mut wave);
        write_records(Scheme::Wave, data, &mut wave);
        proof {
            crate::stego::records::lemma_records(Scheme::Wave, data@);
            reveal(crate::stego::records::record);
            assert(wave@.len() == 16 + data@.len() * 16);
            reveal_strlit("\" type=\"audio/wav\"></audio>");
            vstd::string::is_ascii_spec_bytes(AUDIO_TAIL);
        }
        write_carried(AUDIO_HEAD.as_bytes(), wave.as_slice(), AUDIO_TAIL.as_bytes())
    }

    /// Recovers what `encode_bytes` hid; empty for any other content.
    pub fn decode_bytes(&self, content: &[u8]) -> (r: Vec<u8>)
        ensures
            forall|x: Seq<u8>| #[trigger] is_audio_clip(content@, x) ==> r@ == x,
            r@.len() > 0 ==> is_audio_clip(content@, r@),
    {
        let wave = read_carried(content, AUDIO_HEAD.as_bytes());
        let mut sync: Vec<u8> = Vec::new();
        write_preamble(&mut sync);
        assert(sync@ =~= preamble());
        if !starts_with(wave.as_slice(), sync.as_slice()) {
            proof {
                assert forall|x: Seq<u8>| #[trigger] is_audio_clip(content@, x) implies false by {
                    assert(wave@ == preamble() + records(Scheme::Wave, x));
                    assert(wave@.subrange(0, 16) =~= preamble());
                }
            }
            return Vec::new();
        }
        match read_records(Scheme::Wave, wave.as_slice(), 16, wave.len()) {
            Some(x) => {
                proof {
                    assert(wave@ =~= preamble() + wave@.subrange(16, wave@.len() as int));
                    assert forall|y: Seq<u8>| #[trigger] is_audio_clip(content@, y) implies x@ == y by {
                        assert(wave@ == preamble() + records(Scheme::Wave, y));
                        assert(wave@.subrange(16, wave@.len() as int) =~= records(Scheme::Wave, y));
                    }
                    if x@.len() > 0 {
                        assert(wave@.len() > 0);
                        assert(wave@ =~= preamble() + records(Scheme::Wave, x@));
                    }
                }
                x
            },
            None => {
                proof {
                    assert forall|y: Seq<u8>| #[trigger] is_audio_clip(content@, y) implies false by {
                        assert(wave@ == preamble() + records(Scheme::Wave, y));
                        assert(wave@.subrange(16, wave@.len() as int) =~= records(Scheme::Wave, y));
                    }
                }
                Vec::new()
            },
        }
    }
}

} // verus!
