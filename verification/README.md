# srt-toolkit

A linter and formatter for SubRip (`.srt`) and WebVTT (`.vtt`) subtitle
files, written in Verus: the parsers, the checks, the timing fixer, the
printers and the reports of both commands are verified against their
specifications.

## Layout

- `src/text.rs` - character-sequence primitives with specifications: trimming
  by Unicode whitespace, splitting, searching, `"\r\n"` normalization,
  parsing a `u32`, decimal and zero-padded printing.
- `src/srt.rs` - `Timecode`, `Cue`, `ParseError`, `Issue`, `Fix`; the SubRip
  parser (`parse`), `validate`, `validate_numbering`, `fix` and `format`.
  Each is specified over plain values: the parser block by block, the checks
  and the fixer cue by cue, the printer as the exact text it writes.
- `src/vtt.rs` - the WebVTT parser and printer, producing and taking the same
  cues.
- `src/json.rs` - JSON string escaping, string arrays and optional strings;
  escaped text holds no control character and reads back as the original.
- `src/report.rs` - what the `validate` and `format` commands compute: which
  parser reads a file, whether `format` refuses it, and the exact text
  printed, as JSON or for a reader.
- `src/laws.rs` - properties across calls: timecode and millisecond round
  trips, `fix` keeping labels, putting timings in order, reporting each
  change and being idempotent, what `validate` can still report after `fix`,
  and when `validate_numbering` is silent.
- `src/roundtrip.rs` - printing cues and parsing the text back gives the same
  cues, for SubRip and for WebVTT; short `MM:SS.mmm` WebVTT timecodes.
- `src/vtt_shape.rs` - what every parsed WebVTT cue looks like: numbered by
  position, timecodes in range, clean text lines.
- `app/main.rs` - the command line: arguments, reading the file or stdin,
  printing, exit codes.
- `tests/` - scenarios on concrete values.

## Usage

```
srt-toolkit validate <file.srt|file.vtt|-> [--json] [--strict] [--format srt|vtt]
srt-toolkit format <file.srt|file.vtt|-> [--json] [--fix] [--format srt|vtt] [--to srt|vtt]
```
