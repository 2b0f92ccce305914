# parakeet_tdt_app

The verified core of the Parakeet TDT desktop transcription app.

`src/` is the library, checked by Verus:

- `wav` — reads the `data` chunk of a RIFF/WAVE buffer (walking past optional
  chunks and their pad bytes) and decodes it as signed 16-bit little-endian PCM.
- `chunking` — the schedule that cuts long audio into 60 s chunks overlapping by
  1 s, and the state machine of the chunked transcription loop: which range goes
  to the model next, which texts are kept, and the transcript they make.
- `text` — white-space trimming and joining of chunk texts.
- `temp_file` — the name of the decoder's temporary WAV file.

`app/` is the Tauri program around it: the commands, the FFmpeg process, file
I/O, the speech model and everything that works on floating-point samples.
