# spt

The core of a command line tool that transcribes audio through OpenRouter:
what is sent, what is accepted of a reply, how audio is cut, who speaks, how
texts are compared, cleaned and written, and how settings are kept. The library
under `src/` is verified with Verus; what reads, sends and writes is in `app/`.

## Layout

| Path | What it holds |
| --- | --- |
| `src/text.rs`, `src/ordered.rs`, `src/json.rs`, `src/double.rs` | texts, sorted lists, JSON values, the order of floating-point numbers by their bits |
| `src/config.rs`, `src/config_files.rs`, `src/config_saved.rs` | settings: their limits, older versions, where their file may stand, how it is read and written |
| `src/cli.rs`, `src/bench_cli.rs` | what a call of the programs asks for |
| `src/media.rs`, `src/media/` | files, probes, cuts, sounds, packets of voice samples, room on disk |
| `src/openrouter.rs`, `src/openrouter/` | requests, replies, tries, accounting, the catalogues of models |
| `src/asr.rs`, `src/chinese.rs`, `src/cleanup.rs` | comparing two recognitions, simplified forms, cleaning of punctuation |
| `src/speaker.rs`, `src/speaker/` | turns of a stretch, the turns that are compared by voice, speakers of a recording |
| `src/pipeline.rs`, `src/pipeline/` | cutting a recording further until every piece is done |
| `src/output.rs`, `src/markdown.rs`, `src/transcript.rs` | the files that are written, and that they are read back |
| `src/evaluation.rs`, `src/alignment.rs`, `src/assignment.rs`, `src/renaming.rs`, `src/normalization.rs` | scoring a transcript against a reference |
| `src/security.rs` | access lists of private directories |
| `tests/` | tests of the library |
| `app/` | the programs around the library |

## What is trusted

Calls into other crates and into parts of the standard library stand behind
small items marked `external_body` or `assume_specification`. The comment above
each says what is claimed of the function it calls.
