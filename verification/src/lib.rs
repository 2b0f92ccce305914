//! Verified core of the Parakeet TDT transcription app: the RIFF/WAVE reader
//! that pulls 16-bit PCM out of the decoder's output, the schedule that cuts
//! long audio into overlapping chunks for the model, the assembly of the
//! transcript from the chunk texts, and the naming of temporary files.
pub mod chunking;
pub mod temp_file;
pub mod text;
pub mod wav;
