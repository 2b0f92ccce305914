//! Reading 16-bit PCM out of a RIFF/WAVE byte buffer.
//!
//! The decoder writes a WAV file whose `data` chunk holds signed 16-bit
//! little-endian samples. Optional chunks may come before `data`, so the
//! reader walks the chunk list instead of skipping a fixed-size header.
use vstd::prelude::*;

verus! {

/// Why a byte buffer could not be read as a RIFF/WAVE file with a `data` chunk.
#[derive(Debug, Clone, Copy, PartialEq, Eq, Structural)]
pub enum WavError {
    /// Shorter than the 12-byte RIFF header, or the header does not read `RIFF`....`WAVE`.
    NotRiffWave,
    /// A chunk header announces more bytes than the file holds.
    ChunkExceedsFile,
    /// The chunk list ends without a `data` chunk.
    DataChunkNotFound,
}

/// Why a byte buffer did not yield 16-bit PCM samples.
#[derive(Debug, Clone, Copy, PartialEq, Eq, Structural)]
pub enum PcmError {
    /// The buffer is not a RIFF/WAVE file with a `data` chunk.
    Wav(WavError),
    /// The `data` chunk is empty.
    NoSamples,
    /// The `data` chunk holds an odd number of bytes (the number is given).
    OddLength(usize),
}

/// The four bytes `RIFF`.
pub open spec fn riff_tag() -> Seq<u8> {
    seq![0x52u8, 0x49u8, 0x46u8, 0x46u8]
}

/// The four bytes `WAVE`.
pub open spec fn wave_tag() -> Seq<u8> {
    seq![0x57u8, 0x41u8, 0x56u8, 0x45u8]
}

/// The four bytes `data`.
pub open spec fn data_tag() -> Seq<u8> {
    seq![0x64u8, 0x61u8, 0x74u8, 0x61u8]
}

/// `b` holds the four bytes of `tag` at `pos`.
pub open spec fn has_tag(b: Seq<u8>, pos: int, tag: Seq<u8>) -> bool {
    0 <= pos && pos + 4 <= b.len() && b.subrange(pos, pos + 4) == tag
}

/// The unsigned 32-bit little-endian number stored at `pos`.
pub open spec fn le_u32(b: Seq<u8>, pos: int) -> int {
    b[pos] + 256 * b[pos + 1] + 65536 * b[pos + 2] + 16777216 * b[pos + 3]
}

/// Walks the RIFF chunk list from the chunk header at `pos`: each chunk is a
/// 4-byte id, a 4-byte little-endian length and that many bytes, followed by
/// one pad byte when the length is odd. Gives the body of the first `data`
/// chunk.
pub open spec fn find_data_chunk(wav: Seq<u8>, pos: int) -> Result<Seq<u8>, WavError>
    decreases wav.len() + 1 - pos,
{
    if pos < 0 || pos + 8 > wav.len() {
        Err(WavError::DataChunkNotFound)
    } else {
        let len = le_u32(wav, pos + 4);
        let body = pos + 8;
        if body + len > wav.len() {
            Err(WavError::ChunkExceedsFile)
        } else if has_tag(wav, pos, data_tag()) {
            Ok(wav.subrange(body, body + len))
        } else {
            find_data_chunk(wav, body + len + len % 2)
        }
    }
}

/// The body of the `data` chunk of a RIFF/WAVE file, or why there is none.
pub open spec fn wav_data(wav: Seq<u8>) -> Result<Seq<u8>, WavError> {
    if wav.len() < 12 || !has_tag(wav, 0, riff_tag()) || !has_tag(wav, 8, wave_tag()) {
        Err(WavError::NotRiffWave)
    } else {
        find_data_chunk(wav, 12)
    }
}

/// The signed 16-bit number whose little-endian bytes are `lo`, `hi`.
pub open spec fn le_i16(lo: u8, hi: u8) -> i16 {
    let u = lo + 256 * hi;
    if u >= 32768 {
        (u - 65536) as i16
    } else {
        u as i16
    }
}

/// The samples of a buffer of signed 16-bit little-endian PCM: one sample per
/// two bytes, in order.
pub open spec fn pcm16_samples(bytes: Seq<u8>) -> Seq<i16> {
    Seq::new(bytes.len() / 2, |i: int| le_i16(bytes[2 * i], bytes[2 * i + 1]))
}

/// The samples held in the `data` chunk of a RIFF/WAVE file, or why there are none.
pub open spec fn wav_pcm16(wav: Seq<u8>) -> Result<Seq<i16>, PcmError> {
    match wav_data(wav) {
        Err(e) => Err(PcmError::Wav(e)),
        Ok(d) => if d.len() == 0 {
            Err(PcmError::NoSamples)
        } else if d.len() % 2 != 0 {
            Err(PcmError::OddLength(d.len() as usize))
        } else {
            Ok(pcm16_samples(d))
        },
    }
}


/// The four little-endian bytes of `n`.
pub open spec fn le32_bytes(n: u32) -> Seq<u8> {
    seq![
        (n % 256) as u8,
        ((n / 256) % 256) as u8,
        ((n / 65536) % 256) as u8,
        ((n / 16777216) % 256) as u8,
    ]
}

/// One RIFF chunk: its 4-byte id, the length of its body as 4 little-endian
/// bytes, the body, and a pad byte when the body's length is odd.
pub open spec fn chunk_bytes(id: Seq<u8>, body: Seq<u8>) -> Seq<u8> {
    id + le32_bytes(body.len() as u32) + body + (if body.len() % 2 == 1 {
        seq![0u8]
    } else {
        Seq::<u8>::empty()
    })
}

/// A list of RIFF chunks, one after the other.
pub open spec fn chunk_list_bytes(chunks: Seq<(Seq<u8>, Seq<u8>)>) -> Seq<u8>
    decreases chunks.len(),
{
    if chunks.len() == 0 {
        Seq::<u8>::empty()
    } else {
        chunk_bytes(chunks[0].0, chunks[0].1) + chunk_list_bytes(chunks.drop_first())
    }
}

/// A RIFF/WAVE file: `RIFF`, the size field, `WAVE`, then the chunks.
pub open spec fn riff_wave_bytes(size: u32, chunks: Seq<(Seq<u8>, Seq<u8>)>) -> Seq<u8> {
    riff_tag() + le32_bytes(size) + wave_tag() + chunk_list_bytes(chunks)
}

/// Every chunk has a 4-byte id and a body whose length fits the 32-bit length field.
pub open spec fn well_formed_chunks(chunks: Seq<(Seq<u8>, Seq<u8>)>) -> bool {
    forall|i: int|
        0 <= i < chunks.len() ==> (#[trigger] chunks[i]).0.len() == 4 && chunks[i].1.len()
            <= u32::MAX
}

/// The body of the first chunk whose id is `data`, if any.
pub open spec fn first_data_body(chunks: Seq<(Seq<u8>, Seq<u8>)>) -> Option<Seq<u8>>
    decreases chunks.len(),
{
    if chunks.len() == 0 {
        None
    } else if chunks[0].0 == data_tag() {
        Some(chunks[0].1)
    } else {
        first_data_body(chunks.drop_first())
    }
}

proof fn lemma_le32_round_trip(x: u32)
    ensures
        le_u32(le32_bytes(x), 0) == x,
{
    assert(x == x % 256 + 256 * ((x / 256) % 256) + 65536 * ((x / 65536) % 256) + 16777216 * ((x
        / 16777216) % 256)) by (bit_vector);
}

proof fn lemma_find_in_chunk_list(prefix: Seq<u8>, chunks: Seq<(Seq<u8>, Seq<u8>)>)
    requires
        well_formed_chunks(chunks),
    ensures
        find_data_chunk(prefix + chunk_list_bytes(chunks), prefix.len() as int) == match
            first_data_body(chunks) {
            Some(body) => Ok::<Seq<u8>, WavError>(body),
            None => Err::<Seq<u8>, WavError>(WavError::DataChunkNotFound),
        },
    decreases chunks.len(),
{
    let w = prefix + chunk_list_bytes(chunks);
    let pos = prefix.len() as int;
    if chunks.len() == 0 {
        assert(w =~= prefix);
    } else {
        let id = chunks[0].0;
        let body = chunks[0].1;
        let rest = chunks.drop_first();
        assert(well_formed_chunks(rest)) by {
            assert forall|i: int| 0 <= i < rest.len() implies (#[trigger] rest[i]).0.len() == 4
                && rest[i].1.len() <= u32::MAX by {
                assert(rest[i] == chunks[i + 1]);
            }
        }
        assert(chunks[0].0.len() == 4 && chunks[0].1.len() <= u32::MAX);
        let c = chunk_bytes(id, body);
        let len32 = body.len() as u32;
        let head = id + le32_bytes(len32);
        assert(w =~= prefix + c + chunk_list_bytes(rest));
        lemma_le32_round_trip(len32);
        assert(w.subrange(pos, pos + 4) =~= id);
        assert(w.subrange(pos + 4, pos + 8) =~= le32_bytes(len32));
        assert(le_u32(w, pos + 4) == le_u32(le32_bytes(len32), 0));
        assert(le_u32(w, pos + 4) == body.len());
        assert(w.subrange(pos + 8, pos + 8 + body.len()) =~= body);
        if id == data_tag() {
            assert(has_tag(w, pos, data_tag()));
        } else {
            assert(!has_tag(w, pos, data_tag()));
            let next = prefix + c;
            assert(next.len() == pos + 8 + body.len() + body.len() % 2);
            lemma_find_in_chunk_list(next, rest);
            assert(next + chunk_list_bytes(rest) =~= w);
        }
    }
}

/// A RIFF/WAVE file built from well-formed chunks yields the body of its first
/// `data` chunk, whatever chunks come before it; without a `data` chunk it
/// yields `DataChunkNotFound`. The size field in the header is not read.
pub proof fn law_data_chunk_of_built_file(size: u32, chunks: Seq<(Seq<u8>, Seq<u8>)>)
    requires
        well_formed_chunks(chunks),
    ensures
        wav_data(riff_wave_bytes(size, chunks)) == match first_data_body(chunks) {
            Some(body) => Ok::<Seq<u8>, WavError>(body),
            None => Err::<Seq<u8>, WavError>(WavError::DataChunkNotFound),
        },
{
    let header = riff_tag() + le32_bytes(size) + wave_tag();
    let w = riff_wave_bytes(size, chunks);
    assert(w =~= header + chunk_list_bytes(chunks));
    assert(w.subrange(0, 4) =~= riff_tag());
    assert(w.subrange(8, 12) =~= wave_tag());
    lemma_find_in_chunk_list(header, chunks);
}

/// The signed 16-bit little-endian bytes of the samples, two per sample, in order.
pub open spec fn le16_bytes(samples: Seq<i16>) -> Seq<u8> {
    Seq::new(
        2 * samples.len(),
        |k: int|
            if k % 2 == 0 {
                ((samples[k / 2] as u16) % 256) as u8
            } else {
                ((samples[k / 2] as u16) / 256) as u8
            },
    )
}

proof fn lemma_le_i16_round_trip(x: i16)
    ensures
        le_i16(((x as u16) % 256) as u8, ((x as u16) / 256) as u8) == x,
{
    let lo = ((x as u16) % 256) as u8;
    let hi = ((x as u16) / 256) as u8;
    assert(lo + 256 * hi == x as u16) by (bit_vector)
        requires
            lo == ((x as u16) % 256) as u8,
            hi == ((x as u16) / 256) as u8,
    ;
    assert((x as u16) >= 32768 ==> x == (x as u16) - 65536) by (bit_vector);
    assert((x as u16) < 32768 ==> x == (x as u16)) by (bit_vector);
}

/// Samples written as signed 16-bit little-endian bytes read back as the same samples.
pub proof fn law_pcm16_round_trip(samples: Seq<i16>)
    ensures
        pcm16_samples(le16_bytes(samples)) == samples,
{
    let b = le16_bytes(samples);
    assert forall|i: int| 0 <= i < samples.len() implies #[trigger] pcm16_samples(b)[i]
        == samples[i] by {
        assert((2 * i) / 2 == i && (2 * i + 1) / 2 == i);
        assert((2 * i) % 2 == 0 && (2 * i + 1) % 2 == 1);
        lemma_le_i16_round_trip(samples[i]);
    }
    assert(pcm16_samples(b) =~= samples);
}

/// A RIFF/WAVE file built from well-formed chunks, whose first `data` chunk
/// holds some samples as signed 16-bit little-endian bytes, decodes to those
/// samples, whatever chunks come before it.
pub proof fn law_decode_built_file(
    size: u32,
    chunks: Seq<(Seq<u8>, Seq<u8>)>,
    samples: Seq<i16>,
)
    requires
        well_formed_chunks(chunks),
        first_data_body(chunks) == Some(le16_bytes(samples)),
        samples.len() > 0,
    ensures
        wav_pcm16(riff_wave_bytes(size, chunks)) == Ok::<Seq<i16>, PcmError>(samples),
{
    law_data_chunk_of_built_file(size, chunks);
    law_pcm16_round_trip(samples);
}

proof fn lemma_find_data_chunk(wav: Seq<u8>, pos: int) -> (p: int)
    ensures
        find_data_chunk(wav, pos) != Err::<Seq<u8>, WavError>(WavError::NotRiffWave),
        find_data_chunk(wav, pos) is Ok ==> {
            &&& pos <= p
            &&& has_tag(wav, p, data_tag())
            &&& p + 8 + le_u32(wav, p + 4) <= wav.len()
            &&& find_data_chunk(wav, pos) == Ok::<Seq<u8>, WavError>(
                wav.subrange(p + 8, p + 8 + le_u32(wav, p + 4)),
            )
        },
    decreases wav.len() + 1 - pos,
{
    if pos < 0 || pos + 8 > wav.len() {
        pos
    } else {
        let len = le_u32(wav, pos + 4);
        let body = pos + 8;
        if body + len > wav.len() {
            pos
        } else if has_tag(wav, pos, data_tag()) {
            pos
        } else {
            lemma_find_data_chunk(wav, body + len + len % 2)
        }
    }
}

/// A buffer is refused as `NotRiffWave` exactly when it is shorter than 12
/// bytes or does not start with `RIFF`, four bytes, `WAVE`; and the bytes
/// given back for a `data` chunk are the body of a chunk in the buffer that
/// starts with the id `data` and whose length field gives their number.
pub proof fn law_wav_data_sound(wav: Seq<u8>)
    ensures
        wav_data(wav) == Err::<Seq<u8>, WavError>(WavError::NotRiffWave) <==> (wav.len() < 12
            || !has_tag(wav, 0, riff_tag()) || !has_tag(wav, 8, wave_tag())),
        wav_data(wav) is Ok ==> exists|p: int|
            12 <= p && has_tag(wav, p, data_tag()) && p + 8 + le_u32(wav, p + 4) <= wav.len()
                && wav_data(wav) == Ok::<Seq<u8>, WavError>(
                wav.subrange(p + 8, p + 8 + #[trigger] le_u32(wav, p + 4)),
            ),
{
    if !(wav.len() < 12 || !has_tag(wav, 0, riff_tag()) || !has_tag(wav, 8, wave_tag())) {
        let p = lemma_find_data_chunk(wav, 12);
        if wav_data(wav) is Ok {
            assert(12 <= p && has_tag(wav, p, data_tag()) && p + 8 + le_u32(wav, p + 4)
                <= wav.len() && wav_data(wav) == Ok::<Seq<u8>, WavError>(
                wav.subrange(p + 8, p + 8 + le_u32(wav, p + 4)),
            ));
        }
    }
}

/// A RIFF/WAVE file built from well-formed chunks decodes to `NoSamples` when
/// its first `data` chunk is empty, to `OddLength` with the chunk's length when
/// that length is odd, and to `DataChunkNotFound` when it has no `data` chunk.
pub proof fn law_decode_built_file_errors(size: u32, chunks: Seq<(Seq<u8>, Seq<u8>)>)
    requires
        well_formed_chunks(chunks),
    ensures
        first_data_body(chunks) is None ==> wav_pcm16(riff_wave_bytes(size, chunks)) == Err::<
            Seq<i16>,
            PcmError,
        >(PcmError::Wav(WavError::DataChunkNotFound)),
        first_data_body(chunks) is Some && first_data_body(chunks)->0.len() == 0 ==> wav_pcm16(
            riff_wave_bytes(size, chunks),
        ) == Err::<Seq<i16>, PcmError>(PcmError::NoSamples),
        first_data_body(chunks) is Some && first_data_body(chunks)->0.len() % 2 == 1 ==> wav_pcm16(
            riff_wave_bytes(size, chunks),
        ) == Err::<Seq<i16>, PcmError>(
            PcmError::OddLength(first_data_body(chunks)->0.len() as usize),
        ),
{
    law_data_chunk_of_built_file(size, chunks);
}

fn tag_at(wav: &[u8], pos: usize, t0: u8, t1: u8, t2: u8, t3: u8) -> (r: bool)
    requires
        pos + 4 <= wav@.len(),
    ensures
        r == has_tag(wav@, pos as int, seq![t0, t1, t2, t3]),
{
    let r = wav[pos] == t0 && wav[pos + 1] == t1 && wav[pos + 2] == t2 && wav[pos + 3] == t3;
    proof {
        let s = wav@.subrange(pos as int, pos + 4);
        if r {
            assert(s =~= seq![t0, t1, t2, t3]);
        } else {
            assert(s[0] == wav@[pos as int] && s[1] == wav@[pos + 1] && s[2] == wav@[pos + 2]
                && s[3] == wav@[pos + 3]);
        }
    }
    r
}

fn le_u32_at(wav: &[u8], pos: usize) -> (r: u32)
    requires
        pos + 4 <= wav@.len(),
    ensures
        r == le_u32(wav@, pos as int),
{
    wav[pos] as u32 + 256 * (wav[pos + 1] as u32) + 65536 * (wav[pos + 2] as u32) + 16777216 * (
    wav[pos + 3] as u32)
}

/// Returns the bytes in the `data` chunk of a RIFF/WAVE file.
///
/// The chunk list is walked from the first chunk after the header, so
/// optional chunks that come before `data` are skipped, with their pad byte
/// when their length is odd.
pub fn wav_data_chunk(wav: &[u8]) -> (res: Result<&[u8], WavError>)
    ensures
        match res {
            Ok(d) => wav_data(wav@) == Ok::<Seq<u8>, WavError>(d@),
            Err(e) => wav_data(wav@) == Err::<Seq<u8>, WavError>(e),
        },
{
    if wav.len() < 12 || !tag_at(wav, 0, 0x52, 0x49, 0x46, 0x46) || !tag_at(
        wav,
        8,
        0x57,
        0x41,
        0x56,
        0x45,
    ) {
        return Err(WavError::NotRiffWave);
    }
    let mut pos: usize = 12;
    while pos <= wav.len() && wav.len() - pos >= 8
        invariant
            pos <= wav@.len() + 1,
            wav_data(wav@) == find_data_chunk(wav@, pos as int),
        decreases wav@.len() + 1 - pos,
    {
        let chunk_len = le_u32_at(wav, pos + 4) as usize;
        let body = pos + 8;
        if chunk_len > wav.len() - body {
            return Err(WavError::ChunkExceedsFile);
        }
        if tag_at(wav, pos, 0x64, 0x61, 0x74, 0x61) {
            return Ok(&wav[body..body + chunk_len]);
        }
        let next = body + chunk_len;
        if chunk_len % 2 == 1 {
            if next == wav.len() {
                assert(find_data_chunk(wav@, next + 1) == Err::<Seq<u8>, WavError>(
                    WavError::DataChunkNotFound,
                ));
                return Err(WavError::DataChunkNotFound);
            }
            pos = next + 1;
        } else {
            pos = next;
        }
    }
    Err(WavError::DataChunkNotFound)
}

fn le_i16_at(bytes: &[u8], pos: usize) -> (r: i16)
    requires
        pos + 2 <= bytes@.len(),
    ensures
        r == le_i16(bytes@[pos as int], bytes@[pos + 1]),
{
    let u: i32 = bytes[pos] as i32 + 256 * (bytes[pos + 1] as i32);
    if u >= 32768 {
        (u - 65536) as i16
    } else {
        u as i16
    }
}

/// Reads the signed 16-bit little-endian samples of the `data` chunk of a
/// RIFF/WAVE file.
///
/// Fails when there is no `data` chunk (see [`wav_data_chunk`]), when it is
/// empty, and when it holds an odd number of bytes.
pub fn decode_pcm16(wav: &[u8]) -> (res: Result<Vec<i16>, PcmError>)
    ensures
        match res {
            Ok(s) => wav_pcm16(wav@) == Ok::<Seq<i16>, PcmError>(s@),
            Err(e) => wav_pcm16(wav@) == Err::<Seq<i16>, PcmError>(e),
        },
{
    let data = match wav_data_chunk(wav) {
        Ok(d) => d,
        Err(e) => return Err(PcmError::Wav(e)),
    };
    if data.len() == 0 {
        return Err(PcmError::NoSamples);
    }
    if data.len() % 2 != 0 {
        return Err(PcmError::OddLength(data.len()));
    }
    let len = data.len();
    let n = len / 2;
    let mut samples: Vec<i16> = Vec::with_capacity(n);
    let mut i: usize = 0;
    while i < n
        invariant
            len == data@.len(),
            n == len / 2,
            i <= n,
            samples@ =~= pcm16_samples(data@).take(i as int),
        decreases n - i,
    {
        assert(2 * i + 2 <= data@.len());
        let s = le_i16_at(data, 2 * i);
        samples.push(s);
        i = i + 1;
    }
    assert(samples@ =~= pcm16_samples(data@));
    Ok(samples)
}

} // verus!
