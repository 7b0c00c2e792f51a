//! The library against the same conversions written with std's string
//! splitting, on many generated inputs.
use morse::audio::{schedule, Sound};
use morse::layout::wrap;
use morse::morse::{decode, encode};
use morse::table::{decode_map, encode_map};

struct Gen(u64);

impl Gen {
    fn next(&mut self) -> u64 {
        self.0 = self.0.wrapping_mul(6364136223846793005).wrapping_add(1442695040888963407);
        self.0 >> 33
    }

    fn text(&mut self, alphabet: &[char], max_len: u64) -> String {
        let n = self.next() % (max_len + 1);
        (0..n).map(|_| alphabet[(self.next() % alphabet.len() as u64) as usize]).collect()
    }
}

fn encode_with_std(text: &str) -> Result<String, String> {
    if text.trim().is_empty() {
        return Err("Input text is empty.".into());
    }
    let mut words_out: Vec<String> = Vec::new();
    for word in text.split_whitespace() {
        let mut codes: Vec<&str> = Vec::new();
        for ch in word.chars() {
            let upper = ch.to_uppercase().next().unwrap();
            match encode_map(upper) {
                Some(code) => codes.push(code),
                None => return Err(format!("Unsupported character: '{ch}'")),
            }
        }
        words_out.push(codes.join(" "));
    }
    Ok(words_out.join(" / "))
}

fn decode_with_std(morse: &str) -> Result<String, String> {
    if morse.trim().is_empty() {
        return Err("Morse input is empty.".into());
    }
    let normalised = morse.split_whitespace().collect::<Vec<_>>().join(" ");
    let mut result = String::new();
    for (wi, word) in normalised.split(" / ").enumerate() {
        if wi > 0 {
            result.push(' ');
        }
        for code in word.split(' ').filter(|s| !s.is_empty()) {
            let v: Vec<char> = code.chars().collect();
            match decode_map(&v) {
                Some(ch) => result.push(ch),
                None => return Err(format!("Unknown Morse sequence: '{code}'")),
            }
        }
    }
    Ok(result)
}

fn schedule_with_std(morse: &str) -> Vec<Sound> {
    let mut out = Vec::new();
    for (wi, word) in morse.split(" / ").enumerate() {
        if wi > 0 {
            out.push(Sound::Silence(420));
        }
        let letters: Vec<&str> = word.trim().split(' ').filter(|s| !s.is_empty()).collect();
        for (li, code) in letters.iter().enumerate() {
            if li > 0 {
                out.push(Sound::Silence(180));
            }
            for (si, sym) in code.chars().enumerate() {
                if si > 0 {
                    out.push(Sound::Silence(60));
                }
                match sym {
                    '.' => out.push(Sound::Tone(60)),
                    '-' => out.push(Sound::Tone(180)),
                    _ => {},
                }
            }
        }
    }
    out
}

fn wrap_with_std(text: &str, max_width: usize) -> Vec<String> {
    if text.chars().count() <= max_width {
        return vec![text.to_string()];
    }
    let mut lines: Vec<String> = Vec::new();
    let mut current = String::new();
    for word in text.split_whitespace() {
        if current.is_empty() {
            current.push_str(word);
        } else if current.chars().count() + 1 + word.chars().count() <= max_width {
            current.push(' ');
            current.push_str(word);
        } else {
            lines.push(current.clone());
            current = word.to_string();
        }
    }
    if !current.is_empty() {
        lines.push(current);
    }
    lines
}

const TEXT_CHARS: &[char] = &[
    'a', 'E', 's', 'O', 'z', '1', '0', '.', '?', '/', '(', ' ', ' ', ' ', '\t', '\n', '#', 'é',
    'ß', 'ı', '\u{a0}', '\u{2003}', '\u{3000}', 'Ω',
];

const MORSE_CHARS: &[char] = &['.', '.', '-', '-', ' ', ' ', ' ', '/', '/', '\t', 'x', '\u{a0}'];

#[test]
fn encode_agrees_with_std_splitting() {
    let mut g = Gen(7);
    for _ in 0..3000 {
        let t = g.text(TEXT_CHARS, 12);
        assert_eq!(encode(&t), encode_with_std(&t), "input {:?}", t);
    }
}

#[test]
fn decode_agrees_with_std_splitting() {
    let mut g = Gen(11);
    for _ in 0..5000 {
        let m = g.text(MORSE_CHARS, 16);
        assert_eq!(decode(&m), decode_with_std(&m), "input {:?}", m);
    }
}

#[test]
fn decode_agrees_on_encoded_text() {
    let mut g = Gen(13);
    for _ in 0..2000 {
        let t = g.text(TEXT_CHARS, 12);
        if let Ok(m) = encode(&t) {
            assert_eq!(decode(&m), decode_with_std(&m), "input {:?}", m);
        }
    }
}

#[test]
fn schedule_agrees_with_std_splitting() {
    let mut g = Gen(17);
    for _ in 0..5000 {
        let m = g.text(MORSE_CHARS, 16);
        assert_eq!(schedule(&m), schedule_with_std(&m), "input {:?}", m);
    }
}

#[test]
fn wrap_agrees_with_std_splitting() {
    let mut g = Gen(19);
    for _ in 0..3000 {
        let t = g.text(TEXT_CHARS, 24);
        let w = (g.next() % 10) as usize;
        assert_eq!(wrap(&t, w), wrap_with_std(&t, w), "input {:?} width {}", t, w);
    }
}
