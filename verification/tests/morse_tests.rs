use morse::morse::{decode, encode};

// ── Encoding ──────────────────────────────────────────────────────────────

#[test]
fn encode_single_letter() {
    assert_eq!(encode("A").unwrap(), ".-");
}

#[test]
fn encode_word() {
    assert_eq!(encode("SOS").unwrap(), "... --- ...");
}

#[test]
fn encode_multiple_words() {
    assert_eq!(encode("HI THERE").unwrap(), ".... .. / - .... . .-. .");
}

#[test]
fn encode_lowercase_normalised() {
    assert_eq!(encode("a").unwrap(), ".-");
}

#[test]
fn encode_digits() {
    assert_eq!(encode("123").unwrap(), ".---- ..--- ...--");
}

#[test]
fn encode_punctuation() {
    assert_eq!(encode(".").unwrap(), ".-.-.-");
}

#[test]
fn encode_unsupported_char() {
    assert!(encode("Hello #World").is_err());
}

#[test]
fn encode_empty_input() {
    assert!(encode("   ").is_err());
}

// ── Decoding ──────────────────────────────────────────────────────────────

#[test]
fn decode_single_code() {
    assert_eq!(decode(".-").unwrap(), "A");
}

#[test]
fn decode_word() {
    assert_eq!(decode("... --- ...").unwrap(), "SOS");
}

#[test]
fn decode_multiple_words() {
    assert_eq!(decode(".... .. / - .... . .-. .").unwrap(), "HI THERE");
}

#[test]
fn decode_digits() {
    assert_eq!(decode(".---- ..--- ...--").unwrap(), "123");
}

#[test]
fn decode_unknown_sequence() {
    assert!(decode("..---.").is_err());
}

#[test]
fn decode_empty_input() {
    assert!(decode("").is_err());
}

// ── Round-trip ────────────────────────────────────────────────────────────

#[test]
fn round_trip_simple() {
    let text = "HELLO WORLD";
    assert_eq!(decode(&encode(text).unwrap()).unwrap(), text);
}

#[test]
fn round_trip_with_digits_and_punctuation() {
    let text = "MEETING AT 3PM";
    assert_eq!(decode(&encode(text).unwrap()).unwrap(), text);
}
