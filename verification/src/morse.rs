//! Encoding text to Morse code and decoding Morse code to text.
//!
//! Format: `.` is a dot, `-` a dash, a single space separates the letters of
//! a word and ` / ` (space, slash, space) separates words.
use vstd::prelude::*;
use crate::chars::{to_upper, upper_first};
use crate::table::{char_of, code_of, decode_map, encode_map};
use crate::text::{chars_of, join, lemma_join_push, push_chars, split_runs, views, words_of};

verus! {

/// The code that `encode` writes for `c`: that of its upper-case form.
pub open spec fn letter_code(c: char) -> Seq<char> {
    code_of(upper_first(c))->0
}

/// `encode` accepts `c` when its upper-case form is in the table.
pub open spec fn is_supported(c: char) -> bool {
    code_of(upper_first(c)) is Some
}

/// The codes of the characters of a word.
pub open spec fn codes_of(w: Seq<char>) -> Seq<Seq<char>> {
    w.map_values(|c: char| letter_code(c))
}

/// A word in Morse: the codes of its characters, separated by single spaces.
pub open spec fn encode_word(w: Seq<char>) -> Seq<char> {
    join(codes_of(w), seq![' '])
}

/// The Morse of each word.
pub open spec fn encoded_words(ws: Seq<Seq<char>>) -> Seq<Seq<char>> {
    ws.map_values(|w: Seq<char>| encode_word(w))
}

/// Words in Morse: the encoded words, separated by ` / `.
pub open spec fn encode_words(ws: Seq<Seq<char>>) -> Seq<char> {
    join(encoded_words(ws), seq![' ', '/', ' '])
}

/// The first character of `w` that `encode` does not accept, if any.
pub open spec fn first_unsupported_in(w: Seq<char>) -> Option<char>
    decreases w.len(),
{
    if w.len() == 0 {
        None
    } else {
        match first_unsupported_in(w.drop_last()) {
            Some(c) => Some(c),
            None => if is_supported(w.last()) {
                None
            } else {
                Some(w.last())
            },
        }
    }
}

/// The first character of the words `ws`, read in order, that `encode` does
/// not accept, if any.
pub open spec fn first_unsupported(ws: Seq<Seq<char>>) -> Option<char>
    decreases ws.len(),
{
    if ws.len() == 0 {
        None
    } else {
        match first_unsupported(ws.drop_last()) {
            Some(c) => Some(c),
            None => first_unsupported_in(ws.last()),
        }
    }
}

/// The message of `encode` for a text without words.
pub open spec fn empty_text_message() -> Seq<char> {
    "Input text is empty."@
}

/// The message of `encode` for a character it does not accept.
pub open spec fn unsupported_message(c: char) -> Seq<char> {
    "Unsupported character: '"@ + seq![c] + "'"@
}

/// What `encode` returns for the text `s`: an error when `s` has no word or
/// holds an unsupported character (the first one is named), else the Morse of
/// its words.
pub open spec fn encode_spec(s: Seq<char>) -> Result<Seq<char>, Seq<char>> {
    let ws = words_of(s);
    if ws.len() == 0 {
        Err(empty_text_message())
    } else {
        match first_unsupported(ws) {
            Some(c) => Err(unsupported_message(c)),
            None => Ok(encode_words(ws)),
        }
    }
}

/// The views of a result of strings.
pub open spec fn result_view(r: Result<String, String>) -> Result<Seq<char>, Seq<char>> {
    match r {
        Ok(s) => Ok(s@),
        Err(e) => Err(e@),
    }
}

/// The codes of one more character.
proof fn lemma_codes_take(w: Seq<char>, k: int)
    requires
        0 <= k < w.len(),
    ensures
        codes_of(w.take(k + 1)) == codes_of(w.take(k)).push(letter_code(w[k])),
{
    assert(codes_of(w.take(k + 1)) =~= codes_of(w.take(k)).push(letter_code(w[k])));
}

/// The Morse of a word with one more character.
proof fn lemma_encode_word_take(w: Seq<char>, k: int)
    requires
        0 <= k < w.len(),
    ensures
        encode_word(w.take(k + 1)) == if k == 0 {
            letter_code(w[0])
        } else {
            encode_word(w.take(k)) + seq![' '] + letter_code(w[k])
        },
{
    lemma_codes_take(w, k);
    if k > 0 {
        lemma_join_push(codes_of(w.take(k)), letter_code(w[k]), seq![' ']);
    }
}

/// The Morse of one more word.
proof fn lemma_encode_words_take(ws: Seq<Seq<char>>, j: int)
    requires
        0 <= j < ws.len(),
    ensures
        encode_words(ws.take(j + 1)) == if j == 0 {
            encode_word(ws[0])
        } else {
            encode_words(ws.take(j)) + seq![' ', '/', ' '] + encode_word(ws[j])
        },
{
    assert(encoded_words(ws.take(j + 1)) =~= encoded_words(ws.take(j)).push(encode_word(ws[j])));
    if j > 0 {
        lemma_join_push(encoded_words(ws.take(j)), encode_word(ws[j]), seq![' ', '/', ' ']);
    }
}

/// The first unsupported character of a prefix is that of the word.
proof fn lemma_first_unsupported_in_prefix(w: Seq<char>, k: int)
    requires
        0 <= k <= w.len(),
        first_unsupported_in(w.take(k)) is Some,
    ensures
        first_unsupported_in(w) == first_unsupported_in(w.take(k)),
    decreases w.len(),
{
    if k == w.len() {
        assert(w.take(k) =~= w);
    } else {
        assert(w.drop_last().take(k) =~= w.take(k));
        lemma_first_unsupported_in_prefix(w.drop_last(), k);
    }
}

/// The first unsupported character of some first words is that of all.
proof fn lemma_first_unsupported_prefix(ws: Seq<Seq<char>>, j: int)
    requires
        0 <= j <= ws.len(),
        first_unsupported(ws.take(j)) is Some,
    ensures
        first_unsupported(ws) == first_unsupported(ws.take(j)),
    decreases ws.len(),
{
    if j == ws.len() {
        assert(ws.take(j) =~= ws);
    } else {
        assert(ws.drop_last().take(j) =~= ws.take(j));
        lemma_first_unsupported_prefix(ws.drop_last(), j);
    }
}

/// Encode plain text to Morse code.
///
/// Letters are separated by a single space; words by ` / `.
/// Input is folded to uppercase before encoding.
///
/// # Errors
/// Returns an error string describing the first unsupported character found.
pub fn encode(text: &str) -> (r: Result<String, String>)
    ensures
        result_view(r) == encode_spec(text@),
{
    let chars = chars_of(text);
    let words = split_runs(&chars, true);
    let ghost ws = views(words@);
    if words.len() == 0 {
        let e = String::from_str("Input text is empty.");
        return Err(e);
    }
    let mut out = String::new();
    let mut j: usize = 0;
    while j < words.len()
        invariant
            ws == views(words@),
            ws == words_of(text@),
            ws.len() > 0,
            j <= ws.len(),
            out@ == encode_words(ws.take(j as int)),
            first_unsupported(ws.take(j as int)) is None,
        decreases ws.len() - j,
    {
        let word = &words[j];
        let ghost w = word@;
        assert(w == ws[j as int]);
        let mut wout = String::new();
        let mut k: usize = 0;
        while k < word.len()
            invariant
                w == word@,
                ws == words_of(text@),
                j < ws.len(),
                w == ws[j as int],
                first_unsupported(ws.take(j as int)) is None,
                k <= w.len(),
                wout@ == encode_word(w.take(k as int)),
                first_unsupported_in(w.take(k as int)) is None,
            decreases w.len() - k,
        {
            let ch = word[k];
            let upper = to_upper(ch);
            assert(w.take(k + 1).drop_last() =~= w.take(k as int));
            match encode_map(upper) {
                Some(code) => {
                    proof {
                        lemma_encode_word_take(w, k as int);
                    }
                    if k > 0 {
                        wout.push(' ');
                    }
                    wout.append(code);
                    assert(wout@ =~= encode_word(w.take(k + 1)));
                },
                None => {
                    proof {
                        assert(w.take(k + 1).last() == ch);
                        assert(first_unsupported_in(w.take(k + 1)) == Some(ch));
                        lemma_first_unsupported_in_prefix(w, k + 1);
                        assert(ws.take(j + 1).last() == w);
                        assert(ws.take(j + 1).drop_last() =~= ws.take(j as int));
                        lemma_first_unsupported_prefix(ws, j + 1);
                    }
                    let mut msg = String::from_str("Unsupported character: '");
                    msg.push(ch);
                    msg.append("'");
                    assert(msg@ =~= unsupported_message(ch));
                    return Err(msg);
                },
            }
            k = k + 1;
        }
        assert(w.take(k as int) =~= w);
        proof {
            lemma_encode_words_take(ws, j as int);
            assert(ws.take(j + 1).drop_last() =~= ws.take(j as int));
        }
        if j > 0 {
            proof {
                reveal_strlit(" / ");
            }
            out.append(" / ");
        }
        out.append(wout.as_str());
        assert(out@ =~= encode_words(ws.take(j + 1)));
        j = j + 1;
    }
    assert(ws.take(j as int) =~= ws);
    Ok(out)
}

/// `r` with `p` put in front of its text.
pub open spec fn prefix_with(p: Seq<char>, r: Result<Seq<char>, Seq<char>>) -> Result<
    Seq<char>,
    Seq<char>,
> {
    match r {
        Ok(x) => Ok(p + x),
        Err(e) => Err(e),
    }
}

/// True when token `j` of `ts` separates two words: it is a lone `/` with a
/// token on each side, and the token before it was not itself taken as a
/// separator (`prev_sep`). This is where the pattern ` / ` matches, left to
/// right and without overlap, in the tokens joined by single spaces.
pub open spec fn is_separator(ts: Seq<Seq<char>>, j: int, prev_sep: bool) -> bool {
    &&& ts[j] == seq!['/']
    &&& 0 < j
    &&& j + 1 < ts.len()
    &&& !prev_sep
}

/// Decoding the tokens of `ts` from index `j` on, where `prev_sep` tells
/// whether token `j - 1` was a separator: a separator gives a space, any
/// other token the character whose code it is. The error is the first token
/// that is no code of the table.
pub open spec fn decode_from(ts: Seq<Seq<char>>, j: int, prev_sep: bool) -> Result<
    Seq<char>,
    Seq<char>,
>
    decreases ts.len() - j,
{
    if j < 0 || j >= ts.len() {
        Ok(Seq::empty())
    } else if is_separator(ts, j, prev_sep) {
        prefix_with(seq![' '], decode_from(ts, j + 1, true))
    } else {
        match char_of(ts[j]) {
            None => Err(ts[j]),
            Some(c) => prefix_with(seq![c], decode_from(ts, j + 1, false)),
        }
    }
}

/// The message of `decode` for an input without codes.
pub open spec fn empty_morse_message() -> Seq<char> {
    "Morse input is empty."@
}

/// The message of `decode` for a token that is no code.
pub open spec fn unknown_message(t: Seq<char>) -> Seq<char> {
    "Unknown Morse sequence: '"@ + t + "'"@
}

/// What `decode` returns for the Morse text `s`. Its tokens are the words of
/// `s` (runs of white space count as one space); an error when there are none,
/// or for the first token that is neither a separator nor a code.
pub open spec fn decode_spec(s: Seq<char>) -> Result<Seq<char>, Seq<char>> {
    let ts = words_of(s);
    if ts.len() == 0 {
        Err(empty_morse_message())
    } else {
        match decode_from(ts, 0, false) {
            Ok(x) => Ok(x),
            Err(t) => Err(unknown_message(t)),
        }
    }
}

/// Putting text in front twice is putting it in front once.
proof fn lemma_prefix_with_push(p: Seq<char>, c: char, r: Result<Seq<char>, Seq<char>>)
    ensures
        prefix_with(p, prefix_with(seq![c], r)) == prefix_with(p.push(c), r),
{
    if let Ok(x) = r {
        assert(p + (seq![c] + x) =~= p.push(c) + x);
    }
}

/// True when `t` is the lone character `/`.
fn is_slash(t: &Vec<char>) -> (r: bool)
    ensures
        r == (t@ == seq!['/']),
{
    let r = t.len() == 1 && t[0] == '/';
    proof {
        if r {
            assert(t@ =~= seq!['/']);
        }
    }
    r
}

/// Decode Morse code to plain text.
///
/// Expects letters separated by single spaces and words by ` / `.
///
/// # Errors
/// Returns an error string for any unrecognised Morse sequence.
pub fn decode(morse: &str) -> (r: Result<String, String>)
    ensures
        result_view(r) == decode_spec(morse@),
{
    let chars = chars_of(morse);
    let tokens = split_runs(&chars, true);
    let ghost ts = views(tokens@);
    if tokens.len() == 0 {
        let e = String::from_str("Morse input is empty.");
        return Err(e);
    }
    let n = tokens.len();
    let mut out = String::new();
    let mut prev_sep = false;
    let mut j: usize = 0;
    while j < n
        invariant
            n == tokens@.len(),
            ts == views(tokens@),
            ts == words_of(morse@),
            j <= n,
            decode_from(ts, 0, false) == prefix_with(out@, decode_from(ts, j as int, prev_sep)),
        decreases n - j,
    {
        let t = &tokens[j];
        assert(t@ == ts[j as int]);
        if j > 0 && j + 1 < n && !prev_sep && is_slash(t) {
            proof {
                lemma_prefix_with_push(out@, ' ', decode_from(ts, j + 1, true));
            }
            out.push(' ');
            prev_sep = true;
        } else {
            match decode_map(t) {
                Some(c) => {
                    proof {
                        lemma_prefix_with_push(out@, c, decode_from(ts, j + 1, false));
                    }
                    out.push(c);
                    prev_sep = false;
                },
                None => {
                    let mut msg = String::from_str("Unknown Morse sequence: '");
                    push_chars(&mut msg, t);
                    msg.append("'");
                    assert(msg@ =~= unknown_message(t@));
                    return Err(msg);
                },
            }
        }
        j = j + 1;
    }
    assert(decode_from(ts, n as int, prev_sep) == Ok::<Seq<char>, Seq<char>>(Seq::empty()));
    assert(out@ + Seq::<char>::empty() =~= out@);
    Ok(out)
}

} // verus!
