# morse

Morse code conversion with proved contracts: text to Morse (`encode`), Morse
to text (`decode`), the schedule of tones and silences that sounds a Morse
string, and the word-wrapping used to print results.

Layout:

- `src/chars.rs` — white space, upper-casing and `String::push`, the calls
  into std that the rest rests on.
- `src/table.rs` — the Morse table and its two lookups.
- `src/text.rs` — splitting at white space, at spaces and at ` / `, trimming,
  joining.
- `src/morse.rs` — `encode` and `decode`.
- `src/laws.rs` — the round trips and the other properties of the pair.
- `src/audio.rs` — the timing of playback and the samples of one tone.
- `src/layout.rs` — word-wrapping by characters.
- `app/` — the command line (clap) and audio output (rodio).
