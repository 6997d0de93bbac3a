//! The integer side of live audio analysis: cutting the incoming sample
//! stream into analysis windows, and sorting spectrum bins into bands.
//! The signal arithmetic itself (downmixing, windowing, the FFT and the
//! band energies) is floating point and stays with the application.

use vstd::prelude::*;

verus! {

/// Samples per analysis window.
pub const FFT_SIZE: usize = 1024;

/// Bins of the spectrum that are analysed: a real signal's spectrum is
/// symmetric, so only the first half is needed.
pub const ANALYZED_BINS: usize = 512;

/// Upper edge of the bass band, in Hz (exclusive).
pub const BASS_LIMIT_HZ: u32 = 250;

/// Upper edge of the mid band, in Hz (exclusive).
pub const MID_LIMIT_HZ: u32 = 4000;

/// The frequency band a spectrum bin falls in.
#[derive(Clone, Copy, Debug, PartialEq, Eq, Structural)]
pub enum Band {
    /// below 250 Hz
    Bass,
    /// 250 Hz up to 4000 Hz
    Mid,
    /// 4000 Hz and above
    Treble,
}

/// The band of bin `bin` of a `FFT_SIZE`-point spectrum at `sample_rate`:
/// the bin's frequency is `bin * sample_rate / FFT_SIZE` Hz, compared with
/// the band edges without rounding.
pub open spec fn spec_band(bin: int, sample_rate: int) -> Band {
    if bin * sample_rate < BASS_LIMIT_HZ * FFT_SIZE {
        Band::Bass
    } else if bin * sample_rate < MID_LIMIT_HZ * FFT_SIZE {
        Band::Mid
    } else {
        Band::Treble
    }
}

/// The rank of a band, low to high.
pub open spec fn band_rank(b: Band) -> int {
    match b {
        Band::Bass => 0,
        Band::Mid => 1,
        Band::Treble => 2,
    }
}

/// The band of bin `bin` of a `FFT_SIZE`-point spectrum at `sample_rate`.
pub fn band_for_bin(bin: usize, sample_rate: u32) -> (band: Band)
    ensures
        band == spec_band(bin as int, sample_rate as int),
        (bin as int) * (sample_rate as int) < 250 * 1024 <==> band == Band::Bass,
        250 * 1024 <= (bin as int) * (sample_rate as int) < 4000 * 1024 <==> band == Band::Mid,
        4000 * 1024 <= (bin as int) * (sample_rate as int) <==> band == Band::Treble,
{
    proof {
        lemma_band_edges(bin as int, sample_rate as int);
    }
    let b: u128 = bin as u128;
    let r: u128 = sample_rate as u128;
    assert(b * r <= 0xffff_ffff_ffff_ffff_ffff_ffff_ffff_ffff) by (nonlinear_arith)
        requires
            b <= 0xffff_ffff_ffff_ffff,
            r <= 0xffff_ffff,
    ;
    let scaled: u128 = b * r;
    if scaled < (BASS_LIMIT_HZ as u128) * (FFT_SIZE as u128) {
        Band::Bass
    } else if scaled < (MID_LIMIT_HZ as u128) * (FFT_SIZE as u128) {
        Band::Mid
    } else {
        Band::Treble
    }
}

/// A bin's band is decided by its frequency, `bin * sample_rate / 1024`
/// Hz, against the edges 250 Hz and 4000 Hz, for every sample rate: below
/// 250 Hz is bass, from 250 Hz up to 4000 Hz is mid, 4000 Hz and above is
/// treble.
pub proof fn lemma_band_edges(bin: int, sample_rate: int)
    ensures
        bin * sample_rate < 250 * 1024 <==> spec_band(bin, sample_rate) == Band::Bass,
        250 * 1024 <= bin * sample_rate < 4000 * 1024 <==> spec_band(bin, sample_rate) == Band::Mid,
        4000 * 1024 <= bin * sample_rate <==> spec_band(bin, sample_rate) == Band::Treble,
{
}

/// Bands are contiguous: a higher bin never falls in a lower band.
pub proof fn lemma_bands_ordered(low: int, high: int, sample_rate: int)
    requires
        0 <= low <= high,
        0 <= sample_rate,
    ensures
        band_rank(spec_band(low, sample_rate)) <= band_rank(spec_band(high, sample_rate)),
{
    assert(low * sample_rate <= high * sample_rate) by (nonlinear_arith)
        requires
            0 <= low <= high,
            0 <= sample_rate,
    ;
}

/// The samples of a list of windows, one window after another.
pub open spec fn joined<T>(chunks: Seq<Vec<T>>) -> Seq<T> {
    chunks.map_values(|c: Vec<T>| c@).flatten()
}

/// Takes every full window of `chunk_len` samples off the front of
/// `buffer`, oldest first, and leaves the incomplete rest in it.
pub fn split_ready_chunks<T: Copy>(buffer: &mut Vec<T>, chunk_len: usize) -> (chunks: Vec<Vec<T>>)
    requires
        chunk_len > 0,
    ensures
        joined(chunks@) + final(buffer)@ == old(buffer)@,
        forall|k: int| 0 <= k < chunks@.len() ==> (#[trigger] chunks@[k])@.len() == chunk_len,
        final(buffer)@.len() < chunk_len,
{
    let ghost original = buffer@;
    let mut chunks: Vec<Vec<T>> = Vec::new();
    let mut start: usize = 0;
    let len = buffer.len();
    proof {
        assert(chunks@.map_values(|c: Vec<T>| c@) =~= Seq::<Seq<T>>::empty());
        assert(original.subrange(0, 0) =~= Seq::<T>::empty());
    }
    while len - start >= chunk_len
        invariant
            buffer@ == original,
            len == original.len(),
            chunk_len > 0,
            start <= len,
            joined(chunks@) == original.subrange(0, start as int),
            forall|k: int| 0 <= k < chunks@.len() ==> (#[trigger] chunks@[k])@.len() == chunk_len,
        decreases len - start,
    {
        let mut chunk: Vec<T> = Vec::new();
        let mut i: usize = 0;
        while i < chunk_len
            invariant
                buffer@ == original,
                len == original.len(),
                start + chunk_len <= len,
                i <= chunk_len,
                chunk@ == original.subrange(start as int, start + i),
            decreases chunk_len - i,
        {
            chunk.push(buffer[start + i]);
            proof {
                assert(original.subrange(start as int, start + i + 1) =~= original.subrange(
                    start as int,
                    start + i,
                ).push(original[start + i]));
            }
            i = i + 1;
        }
        let ghost prev = chunks@;
        chunks.push(chunk);
        proof {
            let f = |c: Vec<T>| c@;
            assert(chunks@.map_values(f) =~= prev.map_values(f).push(original.subrange(
                start as int,
                start + chunk_len,
            )));
            prev.map_values(f).lemma_flatten_push(original.subrange(start as int, start + chunk_len));
            assert(original.subrange(0, start + chunk_len) =~= original.subrange(0, start as int)
                + original.subrange(start as int, start + chunk_len));
        }
        start = start + chunk_len;
    }
    let mut rest: Vec<T> = Vec::new();
    let mut i: usize = start;
    while i < len
        invariant
            buffer@ == original,
            len == original.len(),
            start <= i <= len,
            rest@ == original.subrange(start as int, i as int),
        decreases len - i,
    {
        rest.push(buffer[i]);
        proof {
            assert(original.subrange(start as int, i + 1) =~= original.subrange(start as int, i as int).push(
                original[i as int],
            ));
        }
        i = i + 1;
    }
    *buffer = rest;
    proof {
        assert(original.subrange(0, start as int) + original.subrange(start as int, len as int) =~= original);
    }
    chunks
}

} // verus!
