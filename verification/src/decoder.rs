//! The decisions of decoding an MP3 file to 16-bit PCM: which track to
//! decode, what the stream's parameters are when the file does not say,
//! what to do with each packet that is read, and how samples become bytes.
//! The program around the library reads the file and runs the decoder.

use vstd::prelude::*;
use crate::text::concat;

verus! {

/// The parameters of decoded audio.
pub struct AudioInfo {
    pub sample_rate: u32,
    pub channels: u32,
    pub bits: u32,
}

/// Decoded audio: its parameters and its PCM bytes.
pub struct DecodedAudio {
    pub info: AudioInfo,
    pub samples: Vec<u8>,
}

/// The parameters of the decoded stream: the track's sample rate or
/// 44100, its number of channels or 2, and 16 bits per sample.
pub fn audio_info(sample_rate: Option<u32>, channels: Option<u32>) -> (r: AudioInfo)
    ensures
        r.sample_rate == (match sample_rate {
            Some(v) => v,
            None => 44100u32,
        }),
        r.channels == (match channels {
            Some(v) => v,
            None => 2u32,
        }),
        r.bits == 16,
{
    AudioInfo {
        sample_rate: match sample_rate {
            Some(v) => v,
            None => 44100,
        },
        channels: match channels {
            Some(v) => v,
            None => 2,
        },
        bits: 16,
    }
}

/// The first track whose codec is not the null codec.
pub fn first_audio_track(codec_is_null: &[bool]) -> (r: Option<usize>)
    ensures
        r matches Some(k) ==> k < codec_is_null@.len() && !codec_is_null@[k as int] && forall|j: int|
            0 <= j < k ==> #[trigger] codec_is_null@[j],
        r is None ==> forall|j: int| 0 <= j < codec_is_null@.len() ==> #[trigger] codec_is_null@[j],
{
    let mut i: usize = 0;
    while i < codec_is_null.len()
        invariant
            0 <= i <= codec_is_null@.len(),
            forall|j: int| 0 <= j < i ==> #[trigger] codec_is_null@[j],
        decreases codec_is_null@.len() - i,
    {
        if !codec_is_null[i] {
            return Some(i);
        }
        i = i + 1;
    }
    None
}

/// What reading the next packet gave.
pub enum PacketRead {
    /// A packet of the given track.
    Packet { track_id: u32 },
    /// The reader hit an I/O error: the end of the file.
    EndOfStream,
    /// The reader must be reset.
    ResetRequired,
    /// Any other error, with its message.
    Failed { message: String },
}

/// What to do with what was read.
pub enum PacketStep {
    /// Decode the packet and append its samples.
    Decode,
    /// Skip the packet: it belongs to another track.
    Skip,
    /// Stop: the audio is complete.
    Finish,
    /// Stop with this error message.
    Fail(String),
}

/// Decides what to do with what reading the next packet gave, when
/// decoding the track `track_id`.
pub fn next_packet_step(track_id: u32, read: PacketRead) -> (r: PacketStep)
    ensures
        match read {
            PacketRead::Packet { track_id: id } => if id == track_id {
                r is Decode
            } else {
                r is Skip
            },
            PacketRead::EndOfStream => r is Finish,
            PacketRead::ResetRequired => r is Finish,
            PacketRead::Failed { message } => r matches PacketStep::Fail(m) && m@ == "Error leyendo paquete: "@
                + message@,
        },
{
    match read {
        PacketRead::Packet { track_id: id } => {
            if id == track_id {
                PacketStep::Decode
            } else {
                PacketStep::Skip
            }
        },
        PacketRead::EndOfStream => PacketStep::Finish,
        PacketRead::ResetRequired => PacketStep::Finish,
        PacketRead::Failed { message } => PacketStep::Fail(concat("Error leyendo paquete: ", message.as_str())),
    }
}

/// The two bytes of a 16-bit sample, least significant first.
pub open spec fn le_bytes(s: i16) -> Seq<u8> {
    seq![((s as u16) % 256) as u8, ((s as u16) / 256) as u8]
}

/// The bytes of the samples, two per sample, least significant first.
pub open spec fn pcm_bytes(samples: Seq<i16>) -> Seq<u8>
    decreases samples.len(),
{
    if samples.len() == 0 {
        Seq::empty()
    } else {
        pcm_bytes(samples.drop_last()) + le_bytes(samples.last())
    }
}

/// Appends the samples to `out` as 16-bit little-endian PCM.
pub fn append_pcm(out: &mut Vec<u8>, samples: &[i16])
    ensures
        final(out)@ == old(out)@ + pcm_bytes(samples@),
{
    let ghost start = out@;
    for i in 0..samples.len()
        invariant
            out@ == start + pcm_bytes(samples@.take(i as int)),
    {
        let x = samples[i];
        let u = x as u16;
        let lo = (u & 0xff) as u8;
        let hi = (u >> 8) as u8;
        assert(lo == ((x as u16) % 256) as u8 && hi == ((x as u16) / 256) as u8) by (bit_vector)
            requires
                u == x as u16,
                lo == (u & 0xff) as u8,
                hi == (u >> 8) as u8,
        ;
        out.push(lo);
        out.push(hi);
        assert(samples@.take(i + 1).drop_last() =~= samples@.take(i as int));
        assert(out@ =~= start + pcm_bytes(samples@.take(i + 1)));
    }
    assert(samples@.take(samples@.len() as int) =~= samples@);
}

/// Every sample takes two bytes, and the bytes of sample `i` stand at
/// `2 * i` and `2 * i + 1`.
pub proof fn lemma_pcm_layout(samples: Seq<i16>)
    ensures
        pcm_bytes(samples).len() == 2 * samples.len(),
        forall|i: int|
            0 <= i < samples.len() ==> pcm_bytes(samples)[2 * i] == le_bytes(#[trigger] samples[i])[0]
                && pcm_bytes(samples)[2 * i + 1] == le_bytes(samples[i])[1],
    decreases samples.len(),
{
    if samples.len() > 0 {
        let t = samples.drop_last();
        lemma_pcm_layout(t);
        assert forall|i: int| 0 <= i < samples.len() implies pcm_bytes(samples)[2 * i] == le_bytes(
            #[trigger] samples[i],
        )[0] && pcm_bytes(samples)[2 * i + 1] == le_bytes(samples[i])[1] by {
            if i < t.len() {
                assert(samples[i] == t[i]);
            }
        }
    }
}

/// Reading two bytes back gives the sample they were made from.
pub proof fn lemma_pcm_round_trip(s: i16)
    ensures
        ((le_bytes(s)[0] as u16) + (le_bytes(s)[1] as u16) * 256) as i16 == s,
{
    let lo = le_bytes(s)[0];
    let hi = le_bytes(s)[1];
    assert(lo == ((s as u16) % 256) as u8 && hi == ((s as u16) / 256) as u8);
    assert(((((s as u16) % 256) as u8 as u16) + ((((s as u16) / 256) as u8) as u16) * 256) as i16 == s)
        by (bit_vector);
}

} // verus!
