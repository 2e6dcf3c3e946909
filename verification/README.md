# modular_agent_voicevox

Text-to-speech agents for a VoiceVox engine, with the logic between the
engine calls verified by Verus.

- `src/wav.rs` — RIFF/WAV: locating the `data` chunk, reading the format
  fields, concatenating WAVs of one format; the read-back law of concatenation and
  concatenating in two steps.
- `src/pattern.rs` — the `regex` crate behind emotion tags, behind trusted
  wrappers whose results are named.
- `src/emotion.rs` — building one regex from emotion-map keys (longest key
  first) and cutting text into tagged segments; laws on the segments and on
  the order of the keys.
- `src/encoding.rs` — WAV bytes as a Base64 `data:` URI.
- `src/agent.rs` — engine URL, input text, segment plan, voice parameters,
  the emotion-matcher cache, and the final audio URI.
- `app/lib.rs` — the two agents for the Modular Agent framework: HTTP calls
  to the engine (reqwest, serde_json) and configuration lookups.
- `tests/` — tests of the library.
