//! Morse code conversion: text to Morse, Morse to text, and the timing of
//! the tones that sound a Morse string.
pub mod chars;
pub mod table;
pub mod text;
pub mod morse;
pub mod laws;
pub mod audio;
pub mod layout;
