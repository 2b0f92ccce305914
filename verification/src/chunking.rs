//! Chunked transcription of long audio.
//!
//! The model is fed at most [`CHUNK_SAMPLES`] samples (60 s at 16 kHz) at a
//! time. Neighbouring chunks overlap by [`OVERLAP_SAMPLES`] (1 s) so that no
//! word is cut in two. [`ChunkedTranscription`] holds the decisions of that
//! loop: which range of samples goes to the model next, what is kept of the
//! text the model returns for it, and the transcript built from the kept
//! texts. Running the model on a chunk is left to the caller.
use vstd::prelude::*;
use crate::text::{joined, string_views, trimmed, trim_text, join_with_spaces};

verus! {

/// Longest chunk handed to the model: 60 s at 16 kHz.
pub const CHUNK_SAMPLES: usize = 60 * 16_000;

/// Overlap between neighbouring chunks: 1 s at 16 kHz.
pub const OVERLAP_SAMPLES: usize = 1 * 16_000;

/// Distance between the starts of neighbouring chunks.
pub open spec fn chunk_step() -> int {
    CHUNK_SAMPLES - OVERLAP_SAMPLES
}

/// First sample of chunk `i`.
pub open spec fn chunk_start(i: int) -> int {
    i * chunk_step()
}

/// One past the last sample of chunk `i` of audio of `total` samples.
pub open spec fn chunk_end(total: int, i: int) -> int {
    if chunk_start(i) + CHUNK_SAMPLES < total {
        chunk_start(i) + CHUNK_SAMPLES
    } else {
        total
    }
}

/// How many chunks audio of `total` samples is cut into: none for empty
/// audio, otherwise as many as it takes for the last one to reach the end.
pub open spec fn chunk_count(total: int) -> int {
    if total <= 0 {
        0
    } else if total <= CHUNK_SAMPLES {
        1
    } else {
        (total - CHUNK_SAMPLES + chunk_step() - 1) / chunk_step() + 1
    }
}

/// The texts that make up the transcript: each chunk text trimmed of white
/// space, in chunk order, leaving out those that are then empty.
pub open spec fn kept_texts(texts: Seq<Seq<char>>) -> Seq<Seq<char>>
    decreases texts.len(),
{
    if texts.len() == 0 {
        Seq::<Seq<char>>::empty()
    } else {
        let kept = kept_texts(texts.drop_last());
        let t = trimmed(texts.last());
        if t.len() == 0 {
            kept
        } else {
            kept.push(t)
        }
    }
}

/// The transcript made of the model's texts for the chunks.
pub open spec fn transcript_of(texts: Seq<Seq<char>>) -> Seq<char> {
    joined(kept_texts(texts))
}

/// Recording one more chunk text appends its trimmed form to the kept texts
/// when that is not empty, whatever was recorded before, and leaves them as
/// they were otherwise.
pub proof fn law_kept_texts_push(texts: Seq<Seq<char>>, t: Seq<char>)
    ensures
        trimmed(t).len() > 0 ==> kept_texts(texts.push(t)) == kept_texts(texts).push(trimmed(t)),
        trimmed(t).len() == 0 ==> kept_texts(texts.push(t)) == kept_texts(texts),
{
    assert(texts.push(t).drop_last() =~= texts);
}

/// The kept texts are exactly the trimmed chunk texts, in chunk order, with
/// the empty ones left out.
pub proof fn law_kept_texts_are_trimmed_non_empty(texts: Seq<Seq<char>>)
    ensures
        kept_texts(texts) == texts.map_values(|t: Seq<char>| trimmed(t)).filter(
            |t: Seq<char>| t.len() > 0,
        ),
    decreases texts.len(),
{
    reveal(Seq::filter);
    let m = texts.map_values(|t: Seq<char>| trimmed(t));
    if texts.len() == 0 {
        assert(m =~= Seq::<Seq<char>>::empty());
    } else {
        law_kept_texts_are_trimmed_non_empty(texts.drop_last());
        assert(m.drop_last() =~= texts.drop_last().map_values(|t: Seq<char>| trimmed(t)));
        assert(m.last() == trimmed(texts.last()));
    }
}

/// How the transcript grows with one more chunk text: unchanged when the
/// trimmed text is empty; otherwise the trimmed text itself when nothing was
/// kept before, and else the transcript so far, one space, and the trimmed text.
pub proof fn law_transcript_push(texts: Seq<Seq<char>>, t: Seq<char>)
    ensures
        trimmed(t).len() == 0 ==> transcript_of(texts.push(t)) == transcript_of(texts),
        trimmed(t).len() > 0 && kept_texts(texts).len() == 0 ==> transcript_of(texts.push(t))
            == trimmed(t),
        trimmed(t).len() > 0 && kept_texts(texts).len() > 0 ==> transcript_of(texts.push(t))
            == transcript_of(texts) + seq![' '] + trimmed(t),
{
    law_kept_texts_push(texts, t);
    let k = kept_texts(texts);
    if trimmed(t).len() > 0 {
        if k.len() == 0 {
            assert(k.push(trimmed(t)) =~= seq![trimmed(t)]);
        } else {
            assert(k.push(trimmed(t)).drop_last() =~= k);
        }
    }
}

/// The transcript is the trimmed chunk texts, in chunk order, with the empty
/// ones left out, laid out with exactly one space between neighbours (see
/// `law_joined_layout`); nothing is recorded means an empty transcript.
pub proof fn law_transcript_of_texts(texts: Seq<Seq<char>>)
    ensures
        transcript_of(texts) == joined(
            texts.map_values(|t: Seq<char>| trimmed(t)).filter(|t: Seq<char>| t.len() > 0),
        ),
        texts.len() == 0 ==> transcript_of(texts) == Seq::<char>::empty(),
{
    law_kept_texts_are_trimmed_non_empty(texts);
}

proof fn lemma_chunk_count(total: int)
    requires
        total > 0,
    ensures
        chunk_count(total) >= 1,
        chunk_start(chunk_count(total) - 1) < total,
        chunk_start(chunk_count(total) - 1) + CHUNK_SAMPLES >= total,
        forall|i: int|
            0 <= i < chunk_count(total) - 1 ==> #[trigger] chunk_start(i) + CHUNK_SAMPLES < total,
{
    let k = chunk_count(total) - 1;
    if total > CHUNK_SAMPLES {
        let q = (total - CHUNK_SAMPLES + chunk_step() - 1) / chunk_step();
        assert(q * chunk_step() <= total - CHUNK_SAMPLES + chunk_step() - 1);
        assert(q * chunk_step() > total - CHUNK_SAMPLES - 1);
        assert forall|i: int| 0 <= i < chunk_count(total) - 1 implies #[trigger] chunk_start(i)
            + CHUNK_SAMPLES < total by {
            assert(i * chunk_step() <= (q - 1) * chunk_step()) by (nonlinear_arith)
                requires
                    i <= q - 1,
                    chunk_step() > 0,
            ;
        }
    }
}


/// Each chunk of non-empty audio is a non-empty range of samples inside the
/// audio, at most [`CHUNK_SAMPLES`] long; every chunk but the last is exactly
/// that long; the first starts at sample 0 and the last ends at the last sample.
pub proof fn law_chunk_bounds(total: int, i: int)
    requires
        total > 0,
        0 <= i < chunk_count(total),
    ensures
        0 <= chunk_start(i) < chunk_end(total, i) <= total,
        chunk_end(total, i) - chunk_start(i) <= CHUNK_SAMPLES,
        i < chunk_count(total) - 1 ==> chunk_end(total, i) - chunk_start(i) == CHUNK_SAMPLES,
        i == 0 ==> chunk_start(i) == 0,
        i == chunk_count(total) - 1 ==> chunk_end(total, i) == total,
{
    lemma_chunk_count(total);
    assert(i * chunk_step() <= (chunk_count(total) - 1) * chunk_step()) by (nonlinear_arith)
        requires
            i <= chunk_count(total) - 1,
            chunk_step() > 0,
    ;
    assert(0 <= i * chunk_step()) by (nonlinear_arith)
        requires
            0 <= i,
            chunk_step() > 0,
    ;
    if i < chunk_count(total) - 1 {
        assert(chunk_start(i) + CHUNK_SAMPLES < total);
    }
}

/// Neighbouring chunks overlap by exactly [`OVERLAP_SAMPLES`] samples, and
/// each chunk starts after the one before it.
pub proof fn law_chunk_overlap(total: int, i: int)
    requires
        total > 0,
        0 <= i,
        i + 1 < chunk_count(total),
    ensures
        chunk_start(i) < chunk_start(i + 1),
        chunk_end(total, i) - chunk_start(i + 1) == OVERLAP_SAMPLES,
{
    lemma_chunk_count(total);
    assert(chunk_start(i) + CHUNK_SAMPLES < total);
}

/// Every sample of the audio lies in some chunk.
pub proof fn law_chunks_cover(total: int, s: int)
    requires
        0 <= s < total,
    ensures
        exists|i: int|
            0 <= i < chunk_count(total) && chunk_start(i) <= s < #[trigger] chunk_end(total, i),
{
    lemma_chunk_count(total);
    let last = chunk_count(total) - 1;
    let q = s / chunk_step();
    assert(q * chunk_step() <= s < q * chunk_step() + chunk_step());
    if q < last {
        assert(chunk_start(q) + CHUNK_SAMPLES < total);
        assert(chunk_start(q) <= s < chunk_end(total, q));
    } else {
        assert(last * chunk_step() <= q * chunk_step()) by (nonlinear_arith)
            requires
                last <= q,
                chunk_step() > 0,
        ;
        assert(chunk_start(last) <= s < chunk_end(total, last));
    }
}

/// The state of a chunked transcription of audio of a given length.
pub struct ChunkedTranscription {
    total: usize,
    done: usize,
    offset: usize,
    parts: Vec<String>,
    texts: Ghost<Seq<Seq<char>>>,
}

impl ChunkedTranscription {
    /// Number of samples of the audio.
    pub closed spec fn total_samples(&self) -> int {
        self.total as int
    }

    /// Number of chunks whose text has been recorded.
    pub closed spec fn chunks_done(&self) -> int {
        self.done as int
    }

    /// The model's texts for the chunks done, in chunk order, as recorded.
    pub closed spec fn recorded_texts(&self) -> Seq<Seq<char>> {
        self.texts@
    }

    /// The state is consistent.
    pub closed spec fn inv(&self) -> bool {
        &&& 0 <= self.done <= chunk_count(self.total as int)
        &&& self.done < chunk_count(self.total as int) ==> self.offset == chunk_start(
            self.done as int,
        )
        &&& self.texts@.len() == self.done
        &&& string_views(self.parts@) == kept_texts(self.texts@)
    }

    /// Starts the transcription of audio of `total_samples` samples.
    pub fn new(total_samples: usize) -> (r: Self)
        ensures
            r.inv(),
            r.total_samples() == total_samples,
            r.chunks_done() == 0,
            r.recorded_texts() == Seq::<Seq<char>>::empty(),
    {
        let r = ChunkedTranscription {
            total: total_samples,
            done: 0,
            offset: 0,
            parts: Vec::new(),
            texts: Ghost(Seq::empty()),
        };
        assert(string_views(r.parts@) =~= Seq::<Seq<char>>::empty());
        r
    }

    /// The range `start..end` of samples to hand to the model next, or `None`
    /// when every chunk is done.
    pub fn next_chunk(&self) -> (r: Option<(usize, usize)>)
        requires
            self.inv(),
        ensures
            self.chunks_done() < chunk_count(self.total_samples()) ==> r == Some(
                (
                    chunk_start(self.chunks_done()) as usize,
                    chunk_end(self.total_samples(), self.chunks_done()) as usize,
                ),
            ),
            self.chunks_done() >= chunk_count(self.total_samples()) ==> r is None,
    {
        proof {
            if self.total > 0 {
                lemma_chunk_count(self.total as int);
            }
        }
        if self.total == 0 || self.done >= self.chunk_total() {
            None
        } else {
            let end = if self.total - self.offset <= CHUNK_SAMPLES {
                self.total
            } else {
                self.offset + CHUNK_SAMPLES
            };
            Some((self.offset, end))
        }
    }

    /// Number of chunks the audio is cut into.
    pub fn chunk_total(&self) -> (r: usize)
        ensures
            r == chunk_count(self.total_samples()),
    {
        if self.total == 0 {
            0
        } else if self.total <= CHUNK_SAMPLES {
            1
        } else {
            let step = CHUNK_SAMPLES - OVERLAP_SAMPLES;
            (self.total - CHUNK_SAMPLES + (step - 1)) / step + 1
        }
    }

    /// Records the model's text for the chunk that [`Self::next_chunk`] gave:
    /// the text is trimmed of white space and kept for the transcript unless
    /// it is then empty.
    pub fn record_chunk_text(&mut self, text: &str)
        requires
            old(self).inv(),
            old(self).chunks_done() < chunk_count(old(self).total_samples()),
        ensures
            final(self).inv(),
            final(self).total_samples() == old(self).total_samples(),
            final(self).chunks_done() == old(self).chunks_done() + 1,
            final(self).recorded_texts() == old(self).recorded_texts().push(text@),
    {
        proof {
            lemma_chunk_count(self.total as int);
        }
        let ghost old_texts = self.texts@;
        let ghost old_parts = string_views(self.parts@);
        let t = trim_text(text);
        if t.unicode_len() > 0 {
            self.parts.push(String::from_str(t));
        }
        let end_reached = self.total - self.offset <= CHUNK_SAMPLES;
        self.done = self.done + 1;
        if !end_reached {
            self.offset = self.offset + (CHUNK_SAMPLES - OVERLAP_SAMPLES);
        }
        self.texts = Ghost(old_texts.push(text@));
        proof {
            let new_texts = old_texts.push(text@);
            let d = self.done - 1;
            assert(chunk_start(d) == old(self).offset);
            if end_reached {
                assert(self.done == chunk_count(self.total as int));
            } else {
                assert(self.done < chunk_count(self.total as int));
                assert(chunk_start(d + 1) == chunk_start(d) + chunk_step()) by (nonlinear_arith);
                assert(self.offset == chunk_start(self.done as int));
            }
            assert(new_texts.drop_last() =~= old_texts);
            if t@.len() > 0 {
                assert(string_views(self.parts@) =~= old_parts.push(t@));
            } else {
                assert(string_views(self.parts@) =~= old_parts);
            }
        }
    }

    /// The transcript so far: the kept chunk texts, in chunk order, joined
    /// with single spaces.
    pub fn transcript(&self) -> (r: String)
        requires
            self.inv(),
        ensures
            r@ == transcript_of(self.recorded_texts()),
    {
        join_with_spaces(&self.parts)
    }
}

} // verus!
