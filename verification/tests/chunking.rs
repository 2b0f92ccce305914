use parakeet_tdt_app::chunking::{ChunkedTranscription, CHUNK_SAMPLES, OVERLAP_SAMPLES};

fn schedule(total: usize) -> Vec<(usize, usize)> {
    let mut job = ChunkedTranscription::new(total);
    let mut ranges = Vec::new();
    while let Some(r) = job.next_chunk() {
        ranges.push(r);
        job.record_chunk_text("");
    }
    ranges
}

#[test]
fn chunk_constants() {
    assert_eq!(CHUNK_SAMPLES, 960_000);
    assert_eq!(OVERLAP_SAMPLES, 16_000);
}

#[test]
fn empty_audio_has_no_chunks() {
    assert_eq!(schedule(0), vec![]);
    let job = ChunkedTranscription::new(0);
    assert_eq!(job.chunk_total(), 0);
    assert_eq!(job.transcript(), "");
}

#[test]
fn short_audio_is_one_chunk() {
    assert_eq!(schedule(1), vec![(0, 1)]);
    assert_eq!(schedule(16_000), vec![(0, 16_000)]);
    assert_eq!(schedule(960_000), vec![(0, 960_000)]);
}

#[test]
fn long_audio_chunks_overlap_by_one_second() {
    assert_eq!(schedule(960_001), vec![(0, 960_000), (944_000, 960_001)]);
    assert_eq!(
        schedule(2_000_000),
        vec![(0, 960_000), (944_000, 1_904_000), (1_888_000, 2_000_000)]
    );
    // exactly two full chunks
    assert_eq!(schedule(1_904_000), vec![(0, 960_000), (944_000, 1_904_000)]);
}

#[test]
fn schedule_matches_the_plain_loop() {
    for total in [0usize, 5, 959_999, 960_000, 960_001, 1_903_999, 1_904_000, 1_904_001, 10_000_000] {
        let step = CHUNK_SAMPLES.saturating_sub(OVERLAP_SAMPLES);
        let mut expected = Vec::new();
        let mut offset = 0;
        while offset < total {
            let end = (offset + CHUNK_SAMPLES).min(total);
            expected.push((offset, end));
            if end == total {
                break;
            }
            offset += step;
        }
        let job = ChunkedTranscription::new(total);
        assert_eq!(job.chunk_total(), expected.len());
        assert_eq!(schedule(total), expected, "total = {}", total);
    }
}

#[test]
fn transcript_joins_trimmed_non_empty_texts() {
    let mut job = ChunkedTranscription::new(2_000_000);
    assert!(job.next_chunk().is_some());
    job.record_chunk_text("  Hello there. ");
    assert!(job.next_chunk().is_some());
    job.record_chunk_text(" \n\t ");
    assert!(job.next_chunk().is_some());
    job.record_chunk_text("General Kenobi.\n");
    assert_eq!(job.next_chunk(), None);
    assert_eq!(job.transcript(), "Hello there. General Kenobi.");
}

#[test]
fn all_silent_chunks_give_empty_transcript() {
    let mut job = ChunkedTranscription::new(1_000_000);
    while job.next_chunk().is_some() {
        job.record_chunk_text("   ");
    }
    assert_eq!(job.transcript(), "");
}
