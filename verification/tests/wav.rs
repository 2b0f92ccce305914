use parakeet_tdt_app::wav::{decode_pcm16, wav_data_chunk, PcmError, WavError};

fn riff_header() -> Vec<u8> {
    let mut wav = Vec::new();
    wav.extend_from_slice(b"RIFF");
    wav.extend_from_slice(&0u32.to_le_bytes());
    wav.extend_from_slice(b"WAVE");
    wav
}

fn push_chunk(wav: &mut Vec<u8>, id: &[u8; 4], body: &[u8]) {
    wav.extend_from_slice(id);
    wav.extend_from_slice(&(body.len() as u32).to_le_bytes());
    wav.extend_from_slice(body);
    if body.len() % 2 == 1 {
        wav.push(0);
    }
}

#[test]
fn finds_data_chunk_after_extra_chunk() {
    let mut wav = Vec::new();
    wav.extend_from_slice(b"RIFF");
    wav.extend_from_slice(&0u32.to_le_bytes());
    wav.extend_from_slice(b"WAVE");
    wav.extend_from_slice(b"JUNK");
    wav.extend_from_slice(&3u32.to_le_bytes());
    wav.extend_from_slice(b"abc");
    wav.push(0);
    wav.extend_from_slice(b"data");
    wav.extend_from_slice(&4u32.to_le_bytes());
    wav.extend_from_slice(&[1, 2, 3, 4]);

    assert_eq!(wav_data_chunk(&wav).unwrap(), &[1, 2, 3, 4]);
}

#[test]
fn data_chunk_right_after_header() {
    let mut wav = riff_header();
    push_chunk(&mut wav, b"data", &[9, 8]);
    assert_eq!(wav_data_chunk(&wav).unwrap(), &[9, 8]);
}

#[test]
fn first_of_two_data_chunks_is_taken() {
    let mut wav = riff_header();
    push_chunk(&mut wav, b"fmt ", &[0; 16]);
    push_chunk(&mut wav, b"data", &[5]);
    push_chunk(&mut wav, b"data", &[6, 7]);
    assert_eq!(wav_data_chunk(&wav).unwrap(), &[5]);
}

#[test]
fn short_buffer_is_not_riff() {
    assert_eq!(wav_data_chunk(b"RIFF\0\0\0\0WAV"), Err(WavError::NotRiffWave));
    assert_eq!(wav_data_chunk(&[]), Err(WavError::NotRiffWave));
}

#[test]
fn wrong_magic_is_not_riff() {
    let mut wav = riff_header();
    wav[8] = b'X';
    push_chunk(&mut wav, b"data", &[1, 2]);
    assert_eq!(wav_data_chunk(&wav), Err(WavError::NotRiffWave));
    let mut wav = riff_header();
    wav[0] = b'r';
    push_chunk(&mut wav, b"data", &[1, 2]);
    assert_eq!(wav_data_chunk(&wav), Err(WavError::NotRiffWave));
}

#[test]
fn oversized_chunk_is_malformed() {
    let mut wav = riff_header();
    wav.extend_from_slice(b"LIST");
    wav.extend_from_slice(&100u32.to_le_bytes());
    wav.extend_from_slice(&[0; 10]);
    assert_eq!(wav_data_chunk(&wav), Err(WavError::ChunkExceedsFile));
    let mut wav = riff_header();
    wav.extend_from_slice(b"data");
    wav.extend_from_slice(&5u32.to_le_bytes());
    wav.extend_from_slice(&[0; 4]);
    assert_eq!(wav_data_chunk(&wav), Err(WavError::ChunkExceedsFile));
}

#[test]
fn missing_data_chunk_is_reported() {
    let mut wav = riff_header();
    assert_eq!(wav_data_chunk(&wav), Err(WavError::DataChunkNotFound));
    push_chunk(&mut wav, b"fmt ", &[0; 16]);
    assert_eq!(wav_data_chunk(&wav), Err(WavError::DataChunkNotFound));
    // an odd chunk that ends the file without its pad byte
    let mut wav = riff_header();
    wav.extend_from_slice(b"JUNK");
    wav.extend_from_slice(&3u32.to_le_bytes());
    wav.extend_from_slice(b"abc");
    assert_eq!(wav_data_chunk(&wav), Err(WavError::DataChunkNotFound));
    // trailing bytes too few for another chunk header
    let mut wav = riff_header();
    push_chunk(&mut wav, b"JUNK", &[1, 2]);
    wav.extend_from_slice(&[1, 2, 3, 4, 5, 6, 7]);
    assert_eq!(wav_data_chunk(&wav), Err(WavError::DataChunkNotFound));
}

#[test]
fn decodes_little_endian_samples() {
    let mut wav = riff_header();
    push_chunk(&mut wav, b"fmt ", &[0; 16]);
    let samples: Vec<i16> = vec![0, 1, -1, i16::MIN, i16::MAX, 256, -300];
    let mut body = Vec::new();
    for s in &samples {
        body.extend_from_slice(&s.to_le_bytes());
    }
    push_chunk(&mut wav, b"data", &body);
    assert_eq!(decode_pcm16(&wav).unwrap(), samples);
}

#[test]
fn decode_reports_each_error() {
    assert_eq!(decode_pcm16(b"nothing here"), Err(PcmError::Wav(WavError::NotRiffWave)));
    let mut wav = riff_header();
    push_chunk(&mut wav, b"data", &[]);
    assert_eq!(decode_pcm16(&wav), Err(PcmError::NoSamples));
    let mut wav = riff_header();
    push_chunk(&mut wav, b"data", &[1, 2, 3]);
    assert_eq!(decode_pcm16(&wav), Err(PcmError::OddLength(3)));
    let wav = riff_header();
    assert_eq!(decode_pcm16(&wav), Err(PcmError::Wav(WavError::DataChunkNotFound)));
}
