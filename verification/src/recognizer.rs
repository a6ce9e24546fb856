//! Song recognition: the binary Shazam signature format (and its data URI)
//! built from the fingerprint peaks, and the song read from the answer.
use vstd::prelude::*;

use base64::Engine;
use vstd::string::StringExecFns;

verus! {

#[derive(Debug, Clone)]
pub struct SongInfo {
    pub title: String,
    pub artist: String,
}

/// The recognized song from the track's `title` and `subtitle` (its
/// artist): none unless both are present and non-empty.
pub fn song_info(title: Option<String>, subtitle: Option<String>) -> (r: Option<SongInfo>)
    ensures
        r is Some <==> (title is Some && title->0@.len() > 0 && subtitle is Some && subtitle->0@.len()
            > 0),
        r matches Some(info) ==> Some(info.title) == title && Some(info.artist) == subtitle,
{
    match (title, subtitle) {
        (Some(t), Some(s)) => {
            if t.as_str().is_empty() || s.as_str().is_empty() {
                None
            } else {
                Some(SongInfo { title: t, artist: s })
            }
        },
        _ => None,
    }
}

// ───────────── signature ─────────────

/// One spectral peak of the fingerprint.
#[derive(Debug, Clone, Copy, PartialEq, Eq, Structural)]
pub struct FrequencyPeak {
    pub fft_pass_number: u32,
    pub peak_magnitude: u16,
    pub corrected_peak_frequency_bin: u16,
}

/// Number of frequency bands (250-520, 520-1450, 1450-3500, 3500-5500 Hz).
pub const BAND_COUNT: usize = 4;

/// A fingerprint: the peaks found in each frequency band, in band order
/// (an empty band has no peaks).
#[derive(Debug, Clone)]
pub struct DecodedSignature {
    pub sample_rate_hz: u32,
    pub number_samples: u32,
    pub band_peaks: Vec<Vec<FrequencyPeak>>,
}

pub open spec fn le16(v: u16) -> Seq<u8> {
    seq![(v % 256) as u8, (v / 256) as u8]
}

pub open spec fn le32(v: u32) -> Seq<u8> {
    seq![(v % 256) as u8, ((v / 256) % 256) as u8, ((v / 65536) % 256) as u8, (v / 16777216) as u8]
}

/// Code of a sample rate in the signature header (16 kHz when unknown).
pub open spec fn rate_code(rate: u32) -> u32 {
    if rate == 8000 {
        1
    } else if rate == 11025 {
        2
    } else if rate == 16000 {
        3
    } else if rate == 32000 {
        4
    } else if rate == 44100 {
        5
    } else if rate == 48000 {
        6
    } else {
        3
    }
}

/// Bytes of peak `i` of a band: a pass-number reset (`0xff` and the full
/// pass number) when the pass advanced by 255 or more since the previous
/// peak, then the pass delta, magnitude and corrected bin.
pub open spec fn peak_bytes(peaks: Seq<FrequencyPeak>, i: int) -> Seq<u8> {
    let p = peaks[i];
    let prev: int = if i == 0 {
        0
    } else {
        peaks[i - 1].fft_pass_number as int
    };
    let reset = p.fft_pass_number - prev >= 255;
    let base: int = if reset {
        p.fft_pass_number as int
    } else {
        prev
    };
    (if reset {
        seq![0xffu8] + le32(p.fft_pass_number)
    } else {
        seq![]
    }) + seq![(p.fft_pass_number - base) as u8] + le16(p.peak_magnitude) + le16(
        p.corrected_peak_frequency_bin,
    )
}

pub open spec fn peaks_bytes(peaks: Seq<FrequencyPeak>, n: int) -> Seq<u8>
    decreases n,
{
    if n <= 0 {
        seq![]
    } else {
        peaks_bytes(peaks, n - 1) + peak_bytes(peaks, n - 1)
    }
}

pub open spec fn zeros(n: int) -> Seq<u8> {
    Seq::new(n as nat, |_i: int| 0u8)
}

/// A band's block: its tag, the length of its peak data, the data, and zero
/// padding to a multiple of four bytes.
pub open spec fn band_block(band: int, peaks: Seq<FrequencyPeak>) -> Seq<u8> {
    let pb = peaks_bytes(peaks, peaks.len() as int);
    le32((0x60030040 + band) as u32) + le32(pb.len() as u32) + pb + zeros((4 - pb.len() % 4) % 4)
}

/// Blocks of the first `n` bands that have peaks.
pub open spec fn blocks(bands: Seq<Seq<FrequencyPeak>>, n: int) -> Seq<u8>
    decreases n,
{
    if n <= 0 {
        seq![]
    } else if bands[n - 1].len() == 0 {
        blocks(bands, n - 1)
    } else {
        blocks(bands, n - 1) + band_block(n - 1, bands[n - 1])
    }
}

/// The signature from byte 8 on (what the checksum covers): data size,
/// header fields, then the band blocks. `samples` is the sample count field.
pub open spec fn signature_tail(rate: u32, samples: u32, body: Seq<u8>) -> Seq<u8> {
    let size = (body.len() + 8) as u32;
    le32(size) + le32(0x94119c00) + le32(0) + le32(0) + le32(0) + le32(
        (rate_code(rate) * 0x8000000) as u32,
    ) + le32(0) + le32(0) + le32(samples) + le32((15 * 0x80000 + 0x40000) as u32) + le32(0x40000000)
        + le32(size) + body
}

/// One bit step of the reflected CRC-32 (IEEE) register, polynomial
/// `0xEDB88320`.
pub open spec fn crc_bit(c: u32) -> u32 {
    if c % 2 == 1 {
        (c / 2) as u32 ^ 0xEDB88320u32
    } else {
        (c / 2) as u32
    }
}

pub open spec fn crc_bits(c: u32, n: nat) -> u32
    decreases n,
{
    if n == 0 {
        c
    } else {
        crc_bits(crc_bit(c), (n - 1) as nat)
    }
}

/// The register after feeding `bytes`, low bit of each byte first.
pub open spec fn crc_update(c: u32, bytes: Seq<u8>) -> u32
    decreases bytes.len(),
{
    if bytes.len() == 0 {
        c
    } else {
        crc_update(crc_bits(c ^ (bytes[0] as u32), 8), bytes.drop_first())
    }
}

/// CRC-32 (IEEE) of a byte string, as `crc32fast::hash` computes it: the
/// register starts at all ones and ends complemented.
#[verifier::opaque]
pub open spec fn crc32_of(bytes: Seq<u8>) -> u32 {
    crc_update(0xFFFF_FFFFu32, bytes) ^ 0xFFFF_FFFFu32
}

/// `crc32fast::hash`.
#[verifier::external_body]
fn crc32(bytes: &[u8]) -> (r: u32)
    ensures
        r == crc32_of(bytes@),
{
    crc32fast::hash(bytes)
}

/// The whole signature: magic, checksum of the tail, tail.
pub open spec fn signature_bytes(rate: u32, samples: u32, body: Seq<u8>) -> Seq<u8> {
    let tail = signature_tail(rate, samples, body);
    le32(0xcafe2580) + le32(crc32_of(tail)) + tail
}

pub open spec fn band_views(bands: Seq<Vec<FrequencyPeak>>) -> Seq<Seq<FrequencyPeak>> {
    bands.map_values(|v: Vec<FrequencyPeak>| v@)
}

/// Pass numbers never go back within a band.
pub open spec fn passes_ordered(peaks: Seq<FrequencyPeak>) -> bool {
    forall|i: int|
        0 < i < peaks.len() ==> peaks[i - 1].fft_pass_number <= (#[trigger] peaks[i]).fft_pass_number
}

fn push_le16(out: &mut Vec<u8>, v: u16)
    ensures
        final(out)@ == old(out)@ + le16(v),
{
    out.push((v % 256) as u8);
    out.push((v / 256) as u8);
    assert(final(out)@ =~= old(out)@ + le16(v));
}

fn push_le32(out: &mut Vec<u8>, v: u32)
    ensures
        final(out)@ == old(out)@ + le32(v),
{
    out.push((v % 256) as u8);
    out.push(((v / 256) % 256) as u8);
    out.push(((v / 65536) % 256) as u8);
    out.push((v / 16777216) as u8);
    assert(final(out)@ =~= old(out)@ + le32(v));
}

fn encode_peaks(peaks: &Vec<FrequencyPeak>) -> (r: Vec<u8>)
    requires
        passes_ordered(peaks@),
    ensures
        r@ == peaks_bytes(peaks@, peaks@.len() as int),
{
    let mut out: Vec<u8> = Vec::new();
    let mut fft_pass: u32 = 0;
    let mut i: usize = 0;
    while i < peaks.len()
        invariant
            i <= peaks@.len(),
            passes_ordered(peaks@),
            fft_pass == (if i == 0 {
                0
            } else {
                peaks@[i - 1].fft_pass_number
            }),
            out@ == peaks_bytes(peaks@, i as int),
        decreases peaks@.len() - i,
    {
        let p = peaks[i];
        let ghost before = out@;
        if p.fft_pass_number - fft_pass >= 255 {
            out.push(0xff);
            push_le32(&mut out, p.fft_pass_number);
            fft_pass = p.fft_pass_number;
        }
        out.push((p.fft_pass_number - fft_pass) as u8);
        push_le16(&mut out, p.peak_magnitude);
        push_le16(&mut out, p.corrected_peak_frequency_bin);
        assert(out@ =~= before + peak_bytes(peaks@, i as int));
        fft_pass = p.fft_pass_number;
        i += 1;
    }
    out
}

impl DecodedSignature {
    /// Signature in Shazam's binary format. `lead_in_samples` (0.24 s of
    /// samples at the signature's rate) is added to the sample count field.
    #[verifier::rlimit(50)]
    #[verifier::spinoff_prover]
    pub fn encode_to_binary(&self, lead_in_samples: u32) -> (r: Vec<u8>)
        requires
            self.band_peaks@.len() == BAND_COUNT,
            forall|b: int| 0 <= b < BAND_COUNT ==> passes_ordered(#[trigger] self.band_peaks@[b]@),
            self.number_samples + lead_in_samples <= u32::MAX,
            blocks(band_views(self.band_peaks@), BAND_COUNT as int).len() + 56 <= u32::MAX,
        ensures
            r@ == signature_bytes(
                self.sample_rate_hz,
                (self.number_samples + lead_in_samples) as u32,
                blocks(band_views(self.band_peaks@), BAND_COUNT as int),
            ),
    {
        let ghost bands = band_views(self.band_peaks@);
        let mut body: Vec<u8> = Vec::new();
        let mut b: usize = 0;
        while b < BAND_COUNT
            invariant
                b <= BAND_COUNT,
                self.band_peaks@.len() == BAND_COUNT,
                bands == band_views(self.band_peaks@),
                forall|k: int| 0 <= k < BAND_COUNT ==> passes_ordered(#[trigger] self.band_peaks@[k]@),
                body@ == blocks(bands, b as int),
                blocks(bands, BAND_COUNT as int).len() + 56 <= u32::MAX,
            decreases BAND_COUNT - b,
        {
            proof {
                lemma_blocks_len_mono(bands, b + 1, BAND_COUNT as int);
            }
            let peaks = &self.band_peaks[b];
            assert(bands[b as int] == peaks@);
            if peaks.len() > 0 {
                let pb = encode_peaks(peaks);
                let ghost before = body@;
                push_le32(&mut body, 0x60030040 + b as u32);
                push_le32(&mut body, pb.len() as u32);
                let mut k: usize = 0;
                while k < pb.len()
                    invariant
                        k <= pb@.len(),
                        body@ == before + le32((0x60030040 + b) as u32) + le32(pb@.len() as u32)
                            + pb@.take(k as int),
                    decreases pb@.len() - k,
                {
                    body.push(pb[k]);
                    assert(pb@.take(k + 1) =~= pb@.take(k as int).push(pb@[k as int]));
                    k += 1;
                }
                assert(pb@.take(pb@.len() as int) =~= pb@);
                let pad = (4 - pb.len() % 4) % 4;
                let ghost mid = body@;
                let mut z: usize = 0;
                while z < pad
                    invariant
                        z <= pad,
                        body@ == mid + zeros(z as int),
                    decreases pad - z,
                {
                    body.push(0);
                    assert(zeros(z + 1) =~= zeros(z as int).push(0u8));
                    z += 1;
                }
                assert(body@ =~= before + band_block(b as int, peaks@));
            }
            b += 1;
        }
        let size = (body.len() + 8) as u32;
        let mut tail: Vec<u8> = Vec::new();
        push_le32(&mut tail, size);
        push_le32(&mut tail, 0x94119c00);
        push_le32(&mut tail, 0);
        push_le32(&mut tail, 0);
        push_le32(&mut tail, 0);
        let rate_id: u32 = match self.sample_rate_hz {
            8000 => 1,
            11025 => 2,
            16000 => 3,
            32000 => 4,
            44100 => 5,
            48000 => 6,
            _ => 3,
        };
        push_le32(&mut tail, rate_id * 0x8000000);
        push_le32(&mut tail, 0);
        push_le32(&mut tail, 0);
        push_le32(&mut tail, self.number_samples + lead_in_samples);
        push_le32(&mut tail, 15 * 0x80000 + 0x40000);
        push_le32(&mut tail, 0x40000000);
        push_le32(&mut tail, size);
        let ghost head = tail@;
        let mut k: usize = 0;
        while k < body.len()
            invariant
                k <= body@.len(),
                tail@ == head + body@.take(k as int),
            decreases body@.len() - k,
        {
            tail.push(body[k]);
            assert(body@.take(k + 1) =~= body@.take(k as int).push(body@[k as int]));
            k += 1;
        }
        assert(body@.take(body@.len() as int) =~= body@);
        assert(tail@ =~= signature_tail(
            self.sample_rate_hz,
            (self.number_samples + lead_in_samples) as u32,
            body@,
        ));
        let crc = crc32(tail.as_slice());
        let mut out: Vec<u8> = Vec::new();
        push_le32(&mut out, 0xcafe2580);
        push_le32(&mut out, crc);
        let ghost prefix = out@;
        let mut k: usize = 0;
        while k < tail.len()
            invariant
                k <= tail@.len(),
                out@ == prefix + tail@.take(k as int),
            decreases tail@.len() - k,
        {
            out.push(tail[k]);
            assert(tail@.take(k + 1) =~= tail@.take(k as int).push(tail@[k as int]));
            k += 1;
        }
        assert(tail@.take(tail@.len() as int) =~= tail@);
        out
    }

    /// The signature as a `data:` URI (standard base64).
    pub fn encode_to_uri(&self, lead_in_samples: u32) -> (r: String)
        requires
            self.band_peaks@.len() == BAND_COUNT,
            forall|b: int| 0 <= b < BAND_COUNT ==> passes_ordered(#[trigger] self.band_peaks@[b]@),
            self.number_samples + lead_in_samples <= u32::MAX,
            blocks(band_views(self.band_peaks@), BAND_COUNT as int).len() + 56 <= u32::MAX,
            (blocks(band_views(self.band_peaks@), BAND_COUNT as int).len() + 56) / 3 * 4 + 4
                <= usize::MAX,
        ensures
            r@ == "data:audio/vnd.shazam.sig;base64,"@ + base64_of(
                signature_bytes(
                    self.sample_rate_hz,
                    (self.number_samples + lead_in_samples) as u32,
                    blocks(band_views(self.band_peaks@), BAND_COUNT as int),
                ),
            ),
    {
        let bytes = self.encode_to_binary(lead_in_samples);
        proof {
            lemma_signature_len(
                self.sample_rate_hz,
                (self.number_samples + lead_in_samples) as u32,
                blocks(band_views(self.band_peaks@), BAND_COUNT as int),
            );
        }
        String::from_str("data:audio/vnd.shazam.sig;base64,").concat(base64_standard(&bytes).as_str())
    }
}

proof fn lemma_signature_len(rate: u32, samples: u32, body: Seq<u8>)
    ensures
        signature_bytes(rate, samples, body).len() == body.len() + 56,
{
}

/// The little-endian 32-bit number at byte `o`.
pub open spec fn read_le32(s: Seq<u8>, o: int) -> int {
    s[o] + 256 * s[o + 1] + 65536 * s[o + 2] + 16777216 * s[o + 3]
}

proof fn lemma_blocks_prefix(bands: Seq<Seq<FrequencyPeak>>, m: int, n: int)
    requires
        0 <= m <= n,
    ensures
        blocks(bands, m).len() <= blocks(bands, n).len(),
        blocks(bands, n).take(blocks(bands, m).len() as int) == blocks(bands, m),
    decreases n - m,
{
    if m < n {
        lemma_blocks_prefix(bands, m, n - 1);
        let a = blocks(bands, m);
        let b = blocks(bands, n - 1);
        assert(blocks(bands, n).take(b.len() as int) =~= b);
        assert(blocks(bands, n).take(a.len() as int) =~= b.take(a.len() as int));
    } else {
        assert(blocks(bands, n).take(blocks(bands, n).len() as int) =~= blocks(bands, n));
    }
}

proof fn lemma_band_tag_in_body(bands: Seq<Seq<FrequencyPeak>>, k: int, n: int)
    requires
        0 <= k < n,
        bands[k].len() > 0,
    ensures
        forall|j: int|
            0 <= j < 4 ==> blocks(bands, n)[blocks(bands, k).len() + j] == #[trigger] le32(
                (0x60030040 + k) as u32,
            )[j],
        blocks(bands, k).len() + 4 <= blocks(bands, n).len(),
{
    let body = blocks(bands, n);
    let pre = blocks(bands, k);
    let blk = band_block(k, bands[k]);
    assert(blocks(bands, k + 1) == pre + blk);
    lemma_blocks_prefix(bands, k + 1, n);
    let o = pre.len() as int;
    let tag = le32((0x60030040 + k) as u32);
    assert forall|j: int| 0 <= j < 4 implies body[o + j] == #[trigger] tag[j] by {
        assert(body.take(blocks(bands, k + 1).len() as int)[o + j] == body[o + j]);
        assert((pre + blk)[o + j] == blk[j]);
    }
}

proof fn lemma_signature_body(rate: u32, samples: u32, body: Seq<u8>)
    ensures
        forall|j: int| 0 <= j < body.len() ==> #[trigger] signature_bytes(rate, samples, body)[56 + j] == body[j],
{
    let sig = signature_bytes(rate, samples, body);
    let tail = signature_tail(rate, samples, body);
    assert forall|j: int| 0 <= j < body.len() implies #[trigger] sig[56 + j] == body[j] by {
        assert(sig[56 + j] == tail[48 + j]);
    }
}

proof fn lemma_tag_value(k: int)
    requires
        0 <= k < 4,
    ensures
        read_le32(le32((0x60030040 + k) as u32), 0) == 0x60030040 + k,
{
    let tag = le32((0x60030040 + k) as u32);
    if k == 0 {
        assert(tag == seq![0x40u8, 0x00u8, 0x03u8, 0x60u8]);
    } else if k == 1 {
        assert(tag == seq![0x41u8, 0x00u8, 0x03u8, 0x60u8]);
    } else if k == 2 {
        assert(tag == seq![0x42u8, 0x00u8, 0x03u8, 0x60u8]);
    } else {
        assert(tag == seq![0x43u8, 0x00u8, 0x03u8, 0x60u8]);
    }
}

/// Each band's block is tagged with its own band: in the signature, the
/// block of band `k` (of the four) starts, right after the blocks of the
/// bands before it, with the tag `0x60030040 + k`, so blocks of different
/// bands carry different tags.
pub proof fn law_band_blocks_tagged(rate: u32, samples: u32, bands: Seq<Seq<FrequencyPeak>>, k: int)
    requires
        0 <= k < BAND_COUNT <= bands.len(),
        bands[k].len() > 0,
    ensures
        read_le32(
            signature_bytes(rate, samples, blocks(bands, BAND_COUNT as int)),
            56 + blocks(bands, k).len() as int,
        ) == 0x60030040 + k,
{
    let n = BAND_COUNT as int;
    let body = blocks(bands, n);
    let o = blocks(bands, k).len() as int;
    let tag = le32((0x60030040 + k) as u32);
    lemma_band_tag_in_body(bands, k, n);
    lemma_signature_body(rate, samples, body);
    lemma_tag_value(k);
    let sig = signature_bytes(rate, samples, body);
    assert(sig[56 + o] == tag[0]);
    assert(sig[56 + o + 1] == tag[1]);
    assert(sig[56 + o + 2] == tag[2]);
    assert(sig[56 + o + 3] == tag[3]);
}

proof fn lemma_blocks_len_mono(bands: Seq<Seq<FrequencyPeak>>, m: int, n: int)
    requires
        m <= n,
    ensures
        blocks(bands, m).len() <= blocks(bands, n).len(),
    decreases n - m,
{
    if m < n {
        lemma_blocks_len_mono(bands, m, n - 1);
    }
}

/// The standard base64 alphabet: `A`-`Z`, `a`-`z`, `0`-`9`, `+`, `/`.
pub open spec fn b64_char(n: int) -> char {
    if n < 26 {
        (0x41 + n) as char
    } else if n < 52 {
        (0x61 + n - 26) as char
    } else if n < 62 {
        (0x30 + n - 52) as char
    } else if n == 62 {
        '+'
    } else {
        '/'
    }
}

/// Standard (padded) base64 of a byte string, as the `base64` crate's
/// `STANDARD` engine encodes it: each group of three bytes becomes four
/// chars, a last group of one or two bytes is padded with `=`.
#[verifier::opaque]
pub open spec fn base64_of(bytes: Seq<u8>) -> Seq<char>
    decreases bytes.len(),
{
    if bytes.len() == 0 {
        seq![]
    } else if bytes.len() == 1 {
        seq![b64_char(bytes[0] as int / 4), b64_char((bytes[0] as int % 4) * 16), '=', '=']
    } else if bytes.len() == 2 {
        seq![
            b64_char(bytes[0] as int / 4),
            b64_char((bytes[0] as int % 4) * 16 + bytes[1] as int / 16),
            b64_char((bytes[1] as int % 16) * 4),
            '=',
        ]
    } else {
        seq![
            b64_char(bytes[0] as int / 4),
            b64_char((bytes[0] as int % 4) * 16 + bytes[1] as int / 16),
            b64_char((bytes[1] as int % 16) * 4 + bytes[2] as int / 64),
            b64_char(bytes[2] as int % 64),
        ] + base64_of(bytes.skip(3))
    }
}

/// `BASE64_STANDARD.encode`, which panics only when the encoded length
/// overflows `usize`.
#[verifier::external_body]
fn base64_standard(bytes: &Vec<u8>) -> (r: String)
    requires
        bytes@.len() / 3 * 4 + 4 <= usize::MAX,
    ensures
        r@ == base64_of(bytes@),
{
    base64::prelude::BASE64_STANDARD.encode(bytes)
}

/// Band of a peak's frequency (whole Hz): 250-519, 520-1449, 1450-3499 and
/// 3500-5500 Hz are bands 0 to 3; other peaks are left out.
pub fn band_index(freq_hz: i32) -> (r: Option<usize>)
    ensures
        r == (if 250 <= freq_hz <= 519 {
            Some(0usize)
        } else if 520 <= freq_hz <= 1449 {
            Some(1usize)
        } else if 1450 <= freq_hz <= 3499 {
            Some(2usize)
        } else if 3500 <= freq_hz <= 5500 {
            Some(3usize)
        } else {
            None::<usize>
        }),
{
    if 250 <= freq_hz && freq_hz <= 519 {
        Some(0)
    } else if 520 <= freq_hz && freq_hz <= 1449 {
        Some(1)
    } else if 1450 <= freq_hz && freq_hz <= 3499 {
        Some(2)
    } else if 3500 <= freq_hz && freq_hz <= 5500 {
        Some(3)
    } else {
        None
    }
}

} // verus!
