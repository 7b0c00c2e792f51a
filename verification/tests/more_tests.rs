use morse::audio::{schedule, SineWave, Sound, DASH_MS, DOT_MS, LETTER_GAP_MS, SYMBOL_GAP_MS, WORD_GAP_MS};
use morse::layout::wrap;
use morse::morse::{decode, encode};
use morse::table::{decode_map, encode_map};

// ── Messages ──────────────────────────────────────────────────────────────

#[test]
fn encode_empty_message() {
    assert_eq!(encode("").unwrap_err(), "Input text is empty.");
    assert_eq!(encode(" \t\n").unwrap_err(), "Input text is empty.");
}

#[test]
fn encode_unsupported_message_names_first() {
    assert_eq!(encode("Hello #World &").unwrap_err(), "Unsupported character: '#'");
    assert_eq!(encode("ab c~").unwrap_err(), "Unsupported character: '~'");
}

#[test]
fn encode_unsupported_keeps_original_case() {
    assert_eq!(encode("é").unwrap_err(), "Unsupported character: 'é'");
}

#[test]
fn decode_empty_message() {
    assert_eq!(decode("").unwrap_err(), "Morse input is empty.");
    assert_eq!(decode("  \t ").unwrap_err(), "Morse input is empty.");
}

#[test]
fn decode_unknown_message() {
    assert_eq!(decode("..---.").unwrap_err(), "Unknown Morse sequence: '..---.'");
    assert_eq!(decode(".- abc -").unwrap_err(), "Unknown Morse sequence: 'abc'");
}

// ── Encoding details ──────────────────────────────────────────────────────

#[test]
fn encode_collapses_white_space() {
    assert_eq!(encode("  HI \t\n THERE  ").unwrap(), ".... .. / - .... . .-. .");
}

#[test]
fn encode_unicode_white_space_separates_words() {
    assert_eq!(encode("A\u{00A0}B\u{3000}C").unwrap(), ".- / -... / -.-.");
}

#[test]
fn encode_all_punctuation() {
    assert_eq!(
        encode(".,?!-/@()").unwrap(),
        ".-.-.- --..-- ..--.. -.-.-- -....- -..-. .--.-. -.--. -.--.-"
    );
}

#[test]
fn encode_all_digits() {
    assert_eq!(
        encode("0123456789").unwrap(),
        "----- .---- ..--- ...-- ....- ..... -.... --... ---.. ----."
    );
}

#[test]
fn encode_upper_case_beyond_ascii() {
    // 'ß' upper-cases to "SS" and 'ı' to 'I': the first character is encoded.
    assert_eq!(encode("ß").unwrap(), "...");
    assert_eq!(encode("ı").unwrap(), "..");
}

// ── Decoding details ──────────────────────────────────────────────────────

#[test]
fn decode_collapses_white_space() {
    assert_eq!(decode("  ...   ---\t... ").unwrap(), "SOS");
    assert_eq!(decode(".-    /   -...").unwrap(), "A B");
}

#[test]
fn decode_slash_code() {
    assert_eq!(decode("-..-.").unwrap(), "/");
}

#[test]
fn decode_slash_at_the_ends_is_unknown() {
    assert_eq!(decode("/ .-").unwrap_err(), "Unknown Morse sequence: '/'");
    assert_eq!(decode(".- /").unwrap_err(), "Unknown Morse sequence: '/'");
    assert_eq!(decode("/").unwrap_err(), "Unknown Morse sequence: '/'");
}

#[test]
fn decode_double_slash_is_unknown() {
    assert_eq!(decode(".- / / -").unwrap_err(), "Unknown Morse sequence: '/'");
}

#[test]
fn decode_triple_slash_separates_twice() {
    // The middle slash is taken as a code, which is unknown.
    assert_eq!(decode(".- / / / -").unwrap_err(), "Unknown Morse sequence: '/'");
}

#[test]
fn decode_too_long_code() {
    assert_eq!(decode("......."). unwrap_err(), "Unknown Morse sequence: '.......'");
}

// ── Laws on concrete values ───────────────────────────────────────────────

#[test]
fn round_trip_upper_cases_and_respaces() {
    assert_eq!(decode(&encode("  hello \t world ").unwrap()).unwrap(), "HELLO WORLD");
}

#[test]
fn round_trip_morse_side() {
    let m = ".-   -... \t / -.-.";
    assert_eq!(encode(&decode(m).unwrap()).unwrap(), ".- -... / -.-.");
}

#[test]
fn encode_case_insensitive() {
    assert_eq!(encode("sos, help!").unwrap(), encode("SOS, HELP!").unwrap());
}

#[test]
fn encode_writes_only_morse_characters() {
    let m = encode("The quick brown fox, 42!").unwrap();
    assert!(m.chars().all(|c| c == '.' || c == '-' || c == ' ' || c == '/'));
}

#[test]
fn decode_writes_plain_text() {
    let t = decode("- .... . / --.- ..- .. -.-. -.-").unwrap();
    assert_eq!(t, "THE QUICK");
    assert!(!t.starts_with(' ') && !t.ends_with(' ') && !t.contains("  "));
}

#[test]
fn spacing_does_not_matter() {
    assert_eq!(decode("... --- ...").unwrap(), decode("\t...  ---   ...\n").unwrap());
    assert_eq!(encode("SOS HELP").unwrap(), encode("  SOS \n HELP ").unwrap());
}

// ── Table ─────────────────────────────────────────────────────────────────

#[test]
fn table_lookups() {
    assert_eq!(encode_map('A'), Some(".-"));
    assert_eq!(encode_map('a'), None);
    assert_eq!(encode_map(')'), Some("-.--.-"));
    assert_eq!(decode_map(&vec!['-', '.', '-', '-', '.', '-']), Some(')'));
    assert_eq!(decode_map(&vec!['.', '.', '.', '-', '-', '-', '.']), None);
    assert_eq!(decode_map(&vec![]), None);
}

#[test]
fn table_is_one_to_one() {
    let chars = "ABCDEFGHIJKLMNOPQRSTUVWXYZ0123456789.,?!-/@()";
    for c in chars.chars() {
        let code = encode_map(c).unwrap();
        let v: Vec<char> = code.chars().collect();
        assert_eq!(decode_map(&v), Some(c));
    }
}

// ── Playback timing ───────────────────────────────────────────────────────

#[test]
fn schedule_letter() {
    assert_eq!(
        schedule(".-"),
        vec![Sound::Tone(DOT_MS), Sound::Silence(SYMBOL_GAP_MS), Sound::Tone(DASH_MS)]
    );
}

#[test]
fn schedule_letters_and_words() {
    assert_eq!(
        schedule(". - / ."),
        vec![
            Sound::Tone(60),
            Sound::Silence(180),
            Sound::Tone(180),
            Sound::Silence(420),
            Sound::Tone(60),
        ]
    );
    assert_eq!(LETTER_GAP_MS, 180);
    assert_eq!(WORD_GAP_MS, 420);
}

#[test]
fn schedule_other_symbols_keep_their_gap() {
    assert_eq!(schedule("x."), vec![Sound::Silence(60), Sound::Tone(60)]);
}

#[test]
fn schedule_empty_and_separator_only() {
    assert_eq!(schedule(""), vec![]);
    assert_eq!(schedule(" / "), vec![Sound::Silence(420)]);
    assert_eq!(schedule("  .  "), vec![Sound::Tone(60)]);
}

#[test]
fn sine_wave_samples() {
    let mut w = SineWave::new(60);
    assert_eq!(w.total_duration_ms(), 60);
    assert_eq!(w.envelope(), (0, 441));
    assert_eq!(w.next_sample(), Some((0, (0, 441))));
    assert_eq!(w.next_sample(), Some((1, (1, 441))));
    let mut count = 2u64;
    let mut last = None;
    while let Some(s) = w.next_sample() {
        if s.0 == 1000 {
            assert_eq!(s.1, (1, 1));
        }
        if s.0 == 2646 - 100 {
            assert_eq!(s.1, (100, 441));
        }
        last = Some(s);
        count += 1;
    }
    assert_eq!(count, 44_100 * 60 / 1000);
    assert_eq!(last, Some((2645, (1, 441))));
    assert_eq!(w.next_sample(), None);
}

#[test]
fn sine_wave_dash_length() {
    let w = SineWave::new(180);
    assert_eq!(w.total_duration_ms(), 180);
}

// ── Wrapping ──────────────────────────────────────────────────────────────

#[test]
fn wrap_short_text_is_one_line() {
    assert_eq!(wrap("  a  b ", 10), vec!["  a  b ".to_string()]);
}

#[test]
fn wrap_long_text() {
    assert_eq!(wrap("aaa bbb ccc", 7), vec!["aaa bbb".to_string(), "ccc".to_string()]);
    assert_eq!(wrap("a bb ccccccccc d", 4), vec!["a bb", "ccccccccc", "d"]);
}

#[test]
fn wrap_counts_chars() {
    assert_eq!(wrap("héllo", 5), vec!["héllo".to_string()]);
    assert_eq!(wrap("éé éé", 5), vec!["éé éé".to_string()]);
    assert_eq!(wrap("é é", 2), vec!["é", "é"]);
}

#[test]
fn wrap_only_white_space() {
    assert_eq!(wrap("     ", 2), Vec::<String>::new());
}

#[test]
fn schedule_of_encoded_text() {
    let m = encode("et a").unwrap();
    assert_eq!(m, ". - / .-");
    assert_eq!(
        schedule(&m),
        vec![
            Sound::Tone(60),
            Sound::Silence(180),
            Sound::Tone(180),
            Sound::Silence(420),
            Sound::Tone(60),
            Sound::Silence(60),
            Sound::Tone(180),
        ]
    );
}

#[test]
fn timing_in_dots() {
    assert_eq!(DASH_MS, 3 * DOT_MS);
    assert_eq!(SYMBOL_GAP_MS, DOT_MS);
    assert_eq!(LETTER_GAP_MS, 3 * DOT_MS);
    assert_eq!(WORD_GAP_MS, 7 * DOT_MS);
}

#[test]
fn wrap_keeps_words_and_fits() {
    let text = "the quick  brown fox jumps over the lazy dog supercalifragilistic";
    let lines = wrap(text, 12);
    assert_eq!(lines.join(" "), text.split_whitespace().collect::<Vec<_>>().join(" "));
    for l in &lines {
        assert!(l.chars().count() <= 12 || !l.contains(' '));
    }
    assert_eq!(
        lines,
        vec!["the quick", "brown fox", "jumps over", "the lazy dog", "supercalifragilistic"]
    );
}

#[test]
fn sine_wave_fade_rises_and_mirrors() {
    let mut w = SineWave::new(60);
    let mut fades = Vec::new();
    while let Some((_, f)) = w.next_sample() {
        fades.push(f);
    }
    let n = fades.len();
    assert_eq!(n, 2646);
    for i in 1..441 {
        // the fade-in rises: a/b <= c/d
        let (a, b) = fades[i - 1];
        let (c, d) = fades[i];
        assert!(a * d <= c * b);
        // the fade-out mirrors it (sample n - i has the fade of sample i)
        if i < 441 {
            assert_eq!(fades[n - i], fades[i]);
        }
    }
    assert_eq!(fades[441], (1, 1));
}

#[test]
fn encode_ascii_folded() {
    let t = "Meeting at 3pm, ok?";
    assert_eq!(encode(t), encode(&t.to_ascii_uppercase()));
    assert!(encode("a#b").is_err() && encode("A#B").is_err());
}
