//! Sound effects and the WAV container that carries their samples.

use vstd::prelude::*;

verus! {

/// A sound effect.
#[derive(Clone, Copy, Debug, PartialEq, Eq, Structural)]
pub enum Sfx {
    Ui,
    Confirm,
    Cancel,
    Transit,
    Feeder,
    Eat,
    Birth,
    Death,
}

/// Sample rate of every procedural sound.
pub const SAMPLE_RATE: u32 = 22_050;

/// Little-endian bytes of a 16-bit value.
pub open spec fn le16(x: int) -> Seq<u8> {
    seq![(x % 256) as u8, ((x / 256) % 256) as u8]
}

/// Little-endian bytes of a 32-bit value.
pub open spec fn le32(x: int) -> Seq<u8> {
    seq![(x % 256) as u8, ((x / 256) % 256) as u8, ((x / 65536) % 256) as u8, ((x / 16777216) % 256) as u8]
}

/// The 44-byte header of a mono 16-bit PCM WAV file with `n` samples at 22 050 Hz.
pub open spec fn wav_header(n: int) -> Seq<u8> {
    "RIFF"@.map_values(|c: char| c as u8) + le32(36 + 2 * n) + "WAVE"@.map_values(|c: char| c as u8)
        + "fmt "@.map_values(|c: char| c as u8) + le32(16) + le16(1) + le16(1) + le32(22050) + le32(44100)
        + le16(2) + le16(16) + "data"@.map_values(|c: char| c as u8) + le32(2 * n)
}

/// Two's-complement bytes of the first `k` samples, each little-endian.
pub open spec fn pcm_bytes(samples: Seq<i16>, k: int) -> Seq<u8>
    decreases k,
{
    if k <= 0 {
        Seq::empty()
    } else {
        pcm_bytes(samples, k - 1) + le16(if samples[k - 1] < 0 { samples[k - 1] + 65536 } else { samples[k - 1] as int })
    }
}

fn push_le16(out: &mut Vec<u8>, x: u16)
    ensures
        final(out)@ == old(out)@ + le16(x as int),
{
    out.push((x % 256) as u8);
    out.push((x / 256) as u8);
    assert(final(out)@ =~= old(out)@ + le16(x as int)) by {
        assert(out@ =~= old(out)@ + le16(x as int));
    }
}

fn push_le32(out: &mut Vec<u8>, x: u32)
    ensures
        final(out)@ == old(out)@ + le32(x as int),
{
    out.push((x % 256) as u8);
    out.push(((x / 256) % 256) as u8);
    out.push(((x / 65536) % 256) as u8);
    out.push((x / 16777216) as u8);
    assert(out@ =~= old(out)@ + le32(x as int));
}

fn push_tag(out: &mut Vec<u8>, a: u8, b: u8, c: u8, d: u8)
    ensures
        final(out)@ == old(out)@ + seq![a, b, c, d],
{
    out.push(a);
    out.push(b);
    out.push(c);
    out.push(d);
    assert(out@ =~= old(out)@ + seq![a, b, c, d]);
}

/// A mono 16-bit PCM WAV file (22 050 Hz) holding `samples`.
pub fn encode_wav(samples: &[i16]) -> (r: Vec<u8>)
    requires
        36 + 2 * samples@.len() <= u32::MAX,
    ensures
        r@ == wav_header(samples@.len() as int) + pcm_bytes(samples@, samples@.len() as int),
{
    let n = samples.len() as u32;
    let data_bytes = n * 2;
    let mut out: Vec<u8> = Vec::new();
    proof {
        reveal_strlit("RIFF");
        reveal_strlit("WAVE");
        reveal_strlit("fmt ");
        reveal_strlit("data");
    }
    push_tag(&mut out, 82, 73, 70, 70);
    push_le32(&mut out, 36 + data_bytes);
    push_tag(&mut out, 87, 65, 86, 69);
    push_tag(&mut out, 102, 109, 116, 32);
    push_le32(&mut out, 16);
    push_le16(&mut out, 1);
    push_le16(&mut out, 1);
    push_le32(&mut out, SAMPLE_RATE);
    push_le32(&mut out, SAMPLE_RATE * 2);
    push_le16(&mut out, 2);
    push_le16(&mut out, 16);
    push_tag(&mut out, 100, 97, 116, 97);
    push_le32(&mut out, data_bytes);
    proof {
        assert("RIFF"@.map_values(|c: char| c as u8) =~= seq![82u8, 73u8, 70u8, 70u8]);
        assert("WAVE"@.map_values(|c: char| c as u8) =~= seq![87u8, 65u8, 86u8, 69u8]);
        assert("fmt "@.map_values(|c: char| c as u8) =~= seq![102u8, 109u8, 116u8, 32u8]);
        assert("data"@.map_values(|c: char| c as u8) =~= seq![100u8, 97u8, 116u8, 97u8]);
        assert(out@ =~= wav_header(samples@.len() as int));
    }
    let ghost head = out@;
    let len = samples.len();
    for i in 0..len
        invariant
            len == samples@.len(),
            out@ == head + pcm_bytes(samples@, i as int),
    {
        let s = samples[i];
        let u: u16 = if s < 0 { (s as i32 + 65536) as u16 } else { s as u16 };
        push_le16(&mut out, u);
        assert(out@ =~= head + pcm_bytes(samples@, i + 1));
    }
    out
}

} // verus!
