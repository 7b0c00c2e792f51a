//! What holds of `encode` and `decode` together.
use vstd::prelude::*;
use crate::chars::{ascii_upper, is_white_space, upper_first};
use crate::morse::{
    codes_of,
    decode_from,
    decode_spec,
    encode_spec,
    encode_word,
    encode_words,
    encoded_words,
    first_unsupported,
    first_unsupported_in,
    is_separator,
    is_supported,
    letter_code,
    prefix_with,
};
use crate::audio::{
    letters_of,
    letters_sounds,
    schedule_spec,
    words_sounds,
    Sound,
    LETTER_GAP_MS,
    WORD_GAP_MS,
};
use crate::table::{
    char_of,
    code_of,
    is_dots_and_dashes,
    lemma_code_shape,
    lemma_table_chars,
    lemma_table_inverse,
};
use crate::text::{
    is_word,
    join,
    lemma_join_all,
    lemma_join_concat,
    lemma_join_ends,
    lemma_join_push,
    lemma_words_nonempty,
    lemma_words_are_words,
    lemma_runs_append_run,
    lemma_runs_of_join,
    lemma_runs_push_break,
    lemma_separator_pieces_join,
    lemma_trim_untouched,
    is_run,
    words_of,
};

verus! {

/// True when `encode` accepts every character of `w`.
pub open spec fn all_supported(w: Seq<char>) -> bool {
    forall|k: int| 0 <= k < w.len() ==> is_supported(#[trigger] w[k])
}

/// The upper-case form of a word, character by character.
pub open spec fn upper_word(w: Seq<char>) -> Seq<char> {
    w.map_values(|c: char| upper_first(c))
}

/// The upper-case form of each word.
pub open spec fn upper_words(ws: Seq<Seq<char>>) -> Seq<Seq<char>> {
    ws.map_values(|w: Seq<char>| upper_word(w))
}

/// A character of Morse code: a dot, a dash, a space or a slash.
pub open spec fn is_symbol(c: char) -> bool {
    c == '.' || c == '-' || c == ' ' || c == '/'
}

/// True when every character of `t` is a character of Morse code.
pub open spec fn is_symbol_run(t: Seq<char>) -> bool {
    forall|k: int| 0 <= k < t.len() ==> is_symbol(#[trigger] t[k])
}

/// The Morse tokens of words: the codes of each word, with a lone `/`
/// between two words.
pub open spec fn morse_tokens(ws: Seq<Seq<char>>) -> Seq<Seq<char>>
    decreases ws.len(),
{
    if ws.len() == 0 {
        Seq::empty()
    } else if ws.len() == 1 {
        codes_of(ws[0])
    } else {
        morse_tokens(ws.drop_last()) + seq![seq!['/']] + codes_of(ws.last())
    }
}

/// `r`, and when it is `Ok`, `k` after it.
pub open spec fn and_then(r: Result<Seq<char>, Seq<char>>, k: Result<Seq<char>, Seq<char>>) -> Result<
    Seq<char>,
    Seq<char>,
> {
    match r {
        Ok(x) => prefix_with(x, k),
        Err(e) => Err(e),
    }
}

/// A word without a first unsupported character has none at all.
proof fn lemma_all_supported_in(w: Seq<char>)
    requires
        first_unsupported_in(w) is None,
    ensures
        all_supported(w),
    decreases w.len(),
{
    if w.len() > 0 {
        lemma_all_supported_in(w.drop_last());
        assert forall|k: int| 0 <= k < w.len() implies is_supported(#[trigger] w[k]) by {
            if k < w.len() - 1 {
                assert(w.drop_last()[k] == w[k]);
            }
        }
    }
}

/// Words without a first unsupported character have none at all.
proof fn lemma_all_supported(ws: Seq<Seq<char>>)
    requires
        first_unsupported(ws) is None,
    ensures
        forall|i: int| 0 <= i < ws.len() ==> all_supported(#[trigger] ws[i]),
    decreases ws.len(),
{
    if ws.len() > 0 {
        lemma_all_supported(ws.drop_last());
        lemma_all_supported_in(ws.last());
        assert forall|i: int| 0 <= i < ws.len() implies all_supported(#[trigger] ws[i]) by {
            if i < ws.len() - 1 {
                assert(ws.drop_last()[i] == ws[i]);
            }
        }
    }
}

/// The code that `encode` writes for a supported character is a word of dots
/// and dashes (so never a lone `/`), and decodes to the upper-case character.
proof fn lemma_letter_code(c: char)
    requires
        is_supported(c),
    ensures
        is_word(letter_code(c)),
        is_dots_and_dashes(letter_code(c)),
        letter_code(c) != seq!['/'],
        char_of(letter_code(c)) == Some(upper_first(c)),
{
    let u = upper_first(c);
    lemma_code_shape(u);
    lemma_table_inverse(u, letter_code(c));
    let t = letter_code(c);
    assert(t[0] == '.' || t[0] == '-');
    assert forall|i: int| 0 <= i < t.len() implies !is_white_space(#[trigger] t[i]) by {
        assert(t[i] == '.' || t[i] == '-');
    }
}

/// Property of the tokens of supported words: every token is a word; a lone
/// `/` is never the first or the last token.
proof fn lemma_morse_tokens(ws: Seq<Seq<char>>)
    requires
        ws.len() > 0,
        forall|i: int| 0 <= i < ws.len() ==> is_word(#[trigger] ws[i]),
        forall|i: int| 0 <= i < ws.len() ==> all_supported(#[trigger] ws[i]),
    ensures
        morse_tokens(ws).len() > 0,
        forall|i: int| 0 <= i < morse_tokens(ws).len() ==> is_word(#[trigger] morse_tokens(ws)[i]),
        forall|i: int|
            0 <= i < morse_tokens(ws).len() ==> is_symbol_run(#[trigger] morse_tokens(ws)[i]),
        morse_tokens(ws).last() != seq!['/'],
        encode_words(ws) == join(morse_tokens(ws), seq![' ']),
    decreases ws.len(),
{
    let w = ws.last();
    assert(is_word(w));
    assert(all_supported(w));
    let c = codes_of(w);
    assert forall|k: int| 0 <= k < c.len() implies is_word(#[trigger] c[k]) && c[k] != seq!['/']
        && is_symbol_run(c[k]) by {
        assert(is_supported(w[k]));
        lemma_letter_code(w[k]);
        assert forall|m: int| 0 <= m < c[k].len() implies is_symbol(#[trigger] c[k][m]) by {
            assert(c[k][m] == '.' || c[k][m] == '-');
        }
    }
    if ws.len() == 1 {
        assert(encoded_words(ws) =~= seq![encode_word(ws[0])]);
    } else {
        let ws0 = ws.drop_last();
        assert forall|i: int| 0 <= i < ws0.len() implies is_word(#[trigger] ws0[i]) && all_supported(
            ws0[i],
        ) by {
            assert(ws0[i] == ws[i]);
        }
        lemma_morse_tokens(ws0);
        let t0 = morse_tokens(ws0);
        let slash: Seq<Seq<char>> = seq![seq!['/']];
        let t = morse_tokens(ws);
        assert(t == t0 + slash + c);
        assert forall|i: int| 0 <= i < t.len() implies is_word(#[trigger] t[i]) && is_symbol_run(t[i]) by {
            if i < t0.len() {
                assert(t[i] == t0[i]);
            } else if i == t0.len() {
                assert(t[i] == seq!['/']);
                assert(is_word(seq!['/']));
                assert(is_symbol(seq!['/'][0]));
            } else {
                assert(t[i] == c[i - t0.len() - 1]);
            }
        }
        assert(t.last() == c.last());
        // the Morse text
        assert(encoded_words(ws) =~= encoded_words(ws0).push(encode_word(w)));
        lemma_join_push(encoded_words(ws0), encode_word(w), seq![' ', '/', ' ']);
        lemma_join_concat(t0, slash, seq![' ']);
        lemma_join_concat(t0 + slash, c, seq![' ']);
        assert(join(slash, seq![' ']) == seq!['/']);
        assert(join(t0, seq![' ']) + seq![' '] + seq!['/'] + seq![' '] + join(c, seq![' '])
            =~= join(t0, seq![' ']) + seq![' ', '/', ' '] + join(c, seq![' ']));
    }
}

/// Putting text in front commutes with going on after success.
proof fn lemma_and_then_prefix(a: Seq<char>, r: Result<Seq<char>, Seq<char>>, k: Result<Seq<char>, Seq<char>>)
    ensures
        and_then(prefix_with(a, r), k) == prefix_with(a, and_then(r, k)),
{
    if let Ok(x) = r {
        if let Ok(y) = k {
            assert(a + x + y =~= a + (x + y));
        }
    }
}

/// Decoding tokens that are all codes gives their characters.
proof fn lemma_decode_codes(ts: Seq<Seq<char>>, j: int, p: bool)
    requires
        0 <= j <= ts.len(),
        forall|i: int| j <= i < ts.len() ==> #[trigger] ts[i] != seq!['/'] && char_of(ts[i]) is Some,
    ensures
        decode_from(ts, j, p) == Ok::<Seq<char>, Seq<char>>(
            ts.skip(j).map_values(|t: Seq<char>| char_of(t)->0),
        ),
    decreases ts.len() - j,
{
    if j == ts.len() {
        assert(ts.skip(j).map_values(|t: Seq<char>| char_of(t)->0) =~= Seq::<char>::empty());
    } else {
        assert(ts[j] != seq!['/']);
        lemma_decode_codes(ts, j + 1, false);
        let c = char_of(ts[j])->0;
        assert(seq![c] + ts.skip(j + 1).map_values(|t: Seq<char>| char_of(t)->0) =~= ts.skip(
            j,
        ).map_values(|t: Seq<char>| char_of(t)->0));
    }
}

/// Decoding `p + q` runs through `p` as decoding `p` alone does, when the
/// last token of `p` is not a lone `/`.
proof fn lemma_decode_glue(p: Seq<Seq<char>>, q: Seq<Seq<char>>, j: int, prev: bool)
    requires
        p.len() > 0,
        p.last() != seq!['/'],
        0 <= j < p.len(),
    ensures
        decode_from(p + q, j, prev) == and_then(
            decode_from(p, j, prev),
            decode_from(p + q, p.len() as int, false),
        ),
    decreases p.len() - j,
{
    let t = p + q;
    assert(t[j] == p[j]);
    let k = decode_from(t, p.len() as int, false);
    if j == p.len() - 1 {
        assert(!is_separator(t, j, prev));
        assert(!is_separator(p, j, prev));
        if let Some(c) = char_of(p[j]) {
            assert(seq![c] + Seq::<char>::empty() =~= seq![c]);
        }
    } else {
        assert(is_separator(t, j, prev) == is_separator(p, j, prev));
        if is_separator(p, j, prev) {
            lemma_decode_glue(p, q, j + 1, true);
            lemma_and_then_prefix(seq![' '], decode_from(p, j + 1, true), k);
        } else if let Some(c) = char_of(p[j]) {
            lemma_decode_glue(p, q, j + 1, false);
            lemma_and_then_prefix(seq![c], decode_from(p, j + 1, false), k);
        }
    }
}

/// Decoding the tokens of supported words gives the words in upper case,
/// separated by single spaces.
proof fn lemma_decode_morse_tokens(ws: Seq<Seq<char>>)
    requires
        ws.len() > 0,
        forall|i: int| 0 <= i < ws.len() ==> is_word(#[trigger] ws[i]),
        forall|i: int| 0 <= i < ws.len() ==> all_supported(#[trigger] ws[i]),
    ensures
        decode_from(morse_tokens(ws), 0, false) == Ok::<Seq<char>, Seq<char>>(
            join(upper_words(ws), seq![' ']),
        ),
    decreases ws.len(),
{
    let w = ws.last();
    assert(all_supported(w));
    let c = codes_of(w);
    assert forall|k: int| 0 <= k < c.len() implies #[trigger] c[k] != seq!['/'] && char_of(c[k])
        == Some(upper_first(w[k])) by {
        assert(is_supported(w[k]));
        lemma_letter_code(w[k]);
    }
    let t = morse_tokens(ws);
    if ws.len() == 1 {
        lemma_decode_codes(c, 0, false);
        assert(c.skip(0).map_values(|t: Seq<char>| char_of(t)->0) =~= upper_word(w));
        assert(upper_words(ws) =~= seq![upper_word(w)]);
    } else {
        let ws0 = ws.drop_last();
        assert forall|i: int| 0 <= i < ws0.len() implies is_word(#[trigger] ws0[i]) && all_supported(
            ws0[i],
        ) by {
            assert(ws0[i] == ws[i]);
        }
        lemma_decode_morse_tokens(ws0);
        lemma_morse_tokens(ws0);
        let t0 = morse_tokens(ws0);
        let slash: Seq<Seq<char>> = seq![seq!['/']];
        let q = slash + c;
        assert(t =~= t0 + q);
        lemma_decode_glue(t0, q, 0, false);
        let n0 = t0.len() as int;
        assert(t[n0] == seq!['/']);
        assert(is_separator(t, n0, false));
        assert forall|i: int| n0 + 1 <= i < t.len() implies #[trigger] t[i] != seq!['/'] && char_of(
            t[i],
        ) is Some by {
            assert(t[i] == c[i - n0 - 1]);
        }
        lemma_decode_codes(t, n0 + 1, true);
        assert(t.skip(n0 + 1).map_values(|t: Seq<char>| char_of(t)->0) =~= upper_word(w));
        assert(upper_words(ws) =~= upper_words(ws0).push(upper_word(w)));
        lemma_join_push(upper_words(ws0), upper_word(w), seq![' ']);
        assert(join(upper_words(ws0), seq![' ']) + (seq![' '] + upper_word(w)) =~= join(
            upper_words(ws0),
            seq![' '],
        ) + seq![' '] + upper_word(w));
    }
}

/// Round trip: when `encode` accepts a text, `decode` turns its Morse back
/// into the words of the text, upper-cased, separated by single spaces.
pub proof fn lemma_decode_encode(s: Seq<char>)
    requires
        encode_spec(s) is Ok,
    ensures
        decode_spec(encode_spec(s)->Ok_0) == Ok::<Seq<char>, Seq<char>>(
            join(upper_words(words_of(s)), seq![' ']),
        ),
{
    let ws = words_of(s);
    lemma_words_are_words(s);
    lemma_all_supported(ws);
    lemma_morse_tokens(ws);
    lemma_runs_of_join(morse_tokens(ws), true);
    lemma_decode_morse_tokens(ws);
}

/// The Morse token of a character of decoded text: a lone `/` for a space,
/// else the code of the character.
pub open spec fn token_of(c: char) -> Seq<char> {
    if c == ' ' {
        seq!['/']
    } else {
        code_of(c)->0
    }
}

/// Text as `decode` writes it: characters of the table, and single spaces
/// that neither begin nor end it.
pub open spec fn is_plain_text(x: Seq<char>) -> bool {
    &&& x.len() > 0
    &&& x[0] != ' '
    &&& x.last() != ' '
    &&& forall|i: int| 0 <= i < x.len() ==> (#[trigger] x[i] == ' ' || code_of(x[i]) is Some)
    &&& forall|i: int| 0 <= i < x.len() - 1 && #[trigger] x[i] == ' ' ==> x[i + 1] != ' '
}

/// What a successful decode from token `j` on looks like: one character per
/// token, whose token it is; no two spaces in a row, none at the end, and one
/// at the start only where a separator may stand.
proof fn lemma_decoded_shape(ts: Seq<Seq<char>>, j: int, p: bool)
    requires
        0 <= j <= ts.len(),
        decode_from(ts, j, p) is Ok,
    ensures
        ({
            let y = decode_from(ts, j, p)->Ok_0;
            &&& y.len() == ts.len() - j
            &&& forall|i: int| 0 <= i < y.len() ==> (#[trigger] y[i] == ' ' || code_of(y[i]) is Some)
            &&& forall|i: int| 0 <= i < y.len() ==> token_of(#[trigger] y[i]) == ts[j + i]
            &&& forall|i: int| 0 <= i < y.len() - 1 && #[trigger] y[i] == ' ' ==> y[i + 1] != ' '
            &&& y.len() > 0 ==> y.last() != ' '
            &&& (y.len() > 0 && y[0] == ' ') ==> (j > 0 && !p)
        }),
    decreases ts.len() - j,
{
    if j < ts.len() {
        let y = decode_from(ts, j, p)->Ok_0;
        if is_separator(ts, j, p) {
            lemma_decoded_shape(ts, j + 1, true);
            let y1 = decode_from(ts, j + 1, true)->Ok_0;
            assert(y == seq![' '] + y1);
            assert forall|i: int| 0 <= i < y.len() implies token_of(#[trigger] y[i]) == ts[j + i] by {
                if i > 0 {
                    assert(y[i] == y1[i - 1]);
                }
            }
            assert forall|i: int| 0 <= i < y.len() - 1 && #[trigger] y[i] == ' ' implies y[i + 1] != ' ' by {
                assert(y[i + 1] == y1[i]);
                if i > 0 {
                    assert(y[i] == y1[i - 1]);
                }
            }
        } else {
            let c = char_of(ts[j])->0;
            lemma_table_inverse(c, ts[j]);
            lemma_table_chars(c);
            lemma_decoded_shape(ts, j + 1, false);
            let y1 = decode_from(ts, j + 1, false)->Ok_0;
            assert(y == seq![c] + y1);
            assert forall|i: int| 0 <= i < y.len() implies token_of(#[trigger] y[i]) == ts[j + i] by {
                if i > 0 {
                    assert(y[i] == y1[i - 1]);
                }
            }
            assert forall|i: int| 0 <= i < y.len() implies (#[trigger] y[i] == ' ' || code_of(y[i]) is Some) by {
                if i > 0 {
                    assert(y[i] == y1[i - 1]);
                }
            }
            assert forall|i: int| 0 <= i < y.len() - 1 && #[trigger] y[i] == ' ' implies y[i + 1] != ' ' by {
                assert(y[i + 1] == y1[i]);
                assert(y[i] == y1[i - 1]);
            }
        }
    }
}

/// The prefix of plain text before its last character is plain text, unless
/// that character follows a space.
proof fn lemma_plain_text_prefix(x: Seq<char>, n: int)
    requires
        is_plain_text(x),
        1 <= n <= x.len(),
        x[n - 1] != ' ',
    ensures
        is_plain_text(x.take(n)),
{
}

/// A character of the table is accepted by `encode`, which writes its own code.
proof fn lemma_table_char_supported(c: char)
    requires
        code_of(c) is Some,
    ensures
        is_supported(c),
        letter_code(c) == code_of(c)->0,
        !is_white_space(c),
        is_word(seq![c]),
        first_unsupported_in(seq![c]) is None,
{
    lemma_table_chars(c);
    assert(seq![c].drop_last() =~= Seq::<char>::empty());
    assert(first_unsupported_in(Seq::<char>::empty()) is None);
}

/// `encode` of plain text writes the token of each character, separated by
/// single spaces.
proof fn lemma_encode_plain_text(x: Seq<char>)
    requires
        is_plain_text(x),
    ensures
        words_of(x).len() > 0,
        first_unsupported(words_of(x)) is None,
        encode_words(words_of(x)) == join(x.map_values(|c: char| token_of(c)), seq![' ']),
    decreases x.len(),
{
    let n = x.len() as int;
    let c = x.last();
    assert(code_of(x[n - 1]) is Some);
    lemma_table_char_supported(c);
    let toks = x.map_values(|c: char| token_of(c));
    if n == 1 {
        assert(x.drop_last() =~= Seq::<char>::empty());
        assert(words_of(x.drop_last()) =~= Seq::<Seq<char>>::empty());
        assert(words_of(x) =~= seq![seq![c]]);
        assert(first_unsupported(words_of(x)) == first_unsupported_in(seq![c])) by {
            assert(words_of(x).drop_last() =~= Seq::<Seq<char>>::empty());
            assert(first_unsupported(Seq::<Seq<char>>::empty()) is None);
        }
        assert(codes_of(seq![c]) =~= seq![letter_code(c)]);
        assert(encoded_words(words_of(x)) =~= seq![encode_word(seq![c])]);
        assert(toks =~= seq![token_of(c)]);
    } else if x[n - 2] != ' ' {
        let d = x.drop_last();
        lemma_plain_text_prefix(x, n - 1);
        assert(x.take(n - 1) =~= d);
        lemma_encode_plain_text(d);
        let wd = words_of(d);
        let w = wd.last();
        assert(words_of(x) == wd.update(wd.len() - 1, w.push(c)));
        let wx = words_of(x);
        // encoding: the last word gains a code
        assert(codes_of(w.push(c)) =~= codes_of(w).push(letter_code(c)));
        assert(codes_of(w).len() > 0) by {
            lemma_words_are_words(d);
        }
        lemma_join_push(codes_of(w), letter_code(c), seq![' ']);
        let ew = encoded_words(wd);
        assert(encoded_words(wx) =~= ew.update(ew.len() - 1, encode_word(w.push(c))));
        if wd.len() == 1 {
            assert(encoded_words(wx) =~= seq![encode_word(w.push(c))]);
        } else {
            assert(encoded_words(wx) =~= ew.drop_last().push(encode_word(w.push(c))));
            assert(ew =~= ew.drop_last().push(encode_word(w)));
            lemma_join_push(ew.drop_last(), encode_word(w.push(c)), seq![' ', '/', ' ']);
            lemma_join_push(ew.drop_last(), encode_word(w), seq![' ', '/', ' ']);
        }
        assert(encode_words(wx) =~= encode_words(wd) + seq![' '] + letter_code(c));
        let td = d.map_values(|c: char| token_of(c));
        assert(toks =~= td.push(token_of(c)));
        lemma_join_push(td, token_of(c), seq![' ']);
        // the first unsupported character
        assert(wx.drop_last() =~= wd.drop_last());
        assert(wd.len() > 0);
        assert(first_unsupported(wd) is None);
        assert(first_unsupported(wd.drop_last()) is None);
        assert(first_unsupported_in(w) is None);
        assert(w.push(c).drop_last() =~= w);
        assert(first_unsupported_in(w.push(c)) is None);
    } else {
        let d2 = x.take(n - 2);
        assert(n >= 3);
        assert(x[n - 3] != ' ');
        lemma_plain_text_prefix(x, n - 2);
        lemma_encode_plain_text(d2);
        assert(x =~= d2.push(' ') + seq![c]);
        lemma_runs_push_break(d2, ' ', true);
        lemma_runs_append_run(d2.push(' '), seq![c], true);
        let wd = words_of(d2);
        let wx = words_of(x);
        assert(wx == wd.push(seq![c]));
        assert(codes_of(seq![c]) =~= seq![letter_code(c)]);
        assert(encoded_words(wx) =~= encoded_words(wd).push(encode_word(seq![c])));
        lemma_join_push(encoded_words(wd), encode_word(seq![c]), seq![' ', '/', ' ']);
        let td = d2.map_values(|c: char| token_of(c));
        assert(toks =~= td.push(seq!['/']).push(token_of(c)));
        lemma_join_push(td, seq!['/'], seq![' ']);
        lemma_join_push(td.push(seq!['/']), token_of(c), seq![' ']);
        assert(join(td, seq![' ']) + seq![' '] + seq!['/'] + seq![' '] + token_of(c) =~= join(
            td,
            seq![' '],
        ) + seq![' ', '/', ' '] + token_of(c));
        assert(wx.drop_last() =~= wd);
    }
}

/// Round trip the other way: when `decode` accepts Morse code, `encode`
/// turns the text back into the same codes, spaced with single spaces.
pub proof fn lemma_encode_decode(m: Seq<char>)
    requires
        decode_spec(m) is Ok,
    ensures
        encode_spec(decode_spec(m)->Ok_0) == Ok::<Seq<char>, Seq<char>>(join(words_of(m), seq![' '])),
{
    let ts = words_of(m);
    lemma_decoded_shape(ts, 0, false);
    let x = decode_from(ts, 0, false)->Ok_0;
    assert(is_plain_text(x));
    lemma_encode_plain_text(x);
    assert(x.map_values(|c: char| token_of(c)) =~= ts);
}

/// `encode` writes only dots, dashes, spaces and slashes.
pub proof fn lemma_encode_alphabet(s: Seq<char>)
    requires
        encode_spec(s) is Ok,
    ensures
        is_symbol_run(encode_spec(s)->Ok_0),
{
    let ws = words_of(s);
    lemma_words_are_words(s);
    lemma_all_supported(ws);
    lemma_morse_tokens(ws);
    lemma_join_all(morse_tokens(ws), seq![' '], |c: char| is_symbol(c));
}

/// `decode` writes characters of the table and single spaces, with no space
/// at either end.
pub proof fn lemma_decode_alphabet(m: Seq<char>)
    requires
        decode_spec(m) is Ok,
    ensures
        is_plain_text(decode_spec(m)->Ok_0),
{
    lemma_decoded_shape(words_of(m), 0, false);
}

/// `decode` reads Morse by its tokens: inputs with the same tokens, however
/// spaced, decode alike.
pub proof fn lemma_decode_spacing(a: Seq<char>, b: Seq<char>)
    requires
        words_of(a) == words_of(b),
    ensures
        decode_spec(a) == decode_spec(b),
{
}

/// `encode` reads text by its words: texts with the same words, however
/// spaced, encode alike.
pub proof fn lemma_encode_spacing(a: Seq<char>, b: Seq<char>)
    requires
        words_of(a) == words_of(b),
    ensures
        encode_spec(a) == encode_spec(b),
{
}

/// Two texts that match character for character in upper case and in white
/// space.
pub open spec fn same_upper(a: Seq<char>, b: Seq<char>) -> bool {
    &&& a.len() == b.len()
    &&& forall|i: int|
        0 <= i < a.len() ==> #[trigger] upper_first(a[i]) == upper_first(b[i])
            && is_white_space(a[i]) == is_white_space(b[i])
}

/// Texts that agree in upper case and white space have words that agree.
proof fn lemma_words_same_upper(a: Seq<char>, b: Seq<char>)
    requires
        same_upper(a, b),
    ensures
        words_of(a).len() == words_of(b).len(),
        forall|i: int|
            0 <= i < words_of(a).len() ==> same_upper(#[trigger] words_of(a)[i], words_of(b)[i]),
    decreases a.len(),
{
    if a.len() > 0 {
        let a0 = a.drop_last();
        let b0 = b.drop_last();
        assert(same_upper(a0, b0)) by {
            assert forall|i: int| 0 <= i < a0.len() implies #[trigger] upper_first(a0[i])
                == upper_first(b0[i]) && is_white_space(a0[i]) == is_white_space(b0[i]) by {
                assert(a0[i] == a[i]);
                assert(b0[i] == b[i]);
            }
        }
        lemma_words_same_upper(a0, b0);
        let n = a.len() - 1;
        assert(upper_first(a[n]) == upper_first(b[n]));
        if a.len() >= 2 {
            assert(upper_first(a[n - 1]) == upper_first(b[n - 1]));
        }
        let wa = words_of(a);
        let wb = words_of(b);
        let pa = words_of(a0);
        let pb = words_of(b0);
        if !is_white_space(a.last()) {
            if a.len() >= 2 && !is_white_space(a[a.len() - 2]) {
                lemma_words_nonempty(a0);
                let xa = pa.last();
                let xb = pb.last();
                assert(same_upper(xa, xb));
                assert(same_upper(xa.push(a.last()), xb.push(b.last()))) by {
                    assert forall|k: int| 0 <= k < xa.push(a.last()).len() implies #[trigger] upper_first(
                        xa.push(a.last())[k],
                    ) == upper_first(xb.push(b.last())[k]) && is_white_space(xa.push(a.last())[k])
                        == is_white_space(xb.push(b.last())[k]) by {
                        if k < xa.len() {
                            assert(upper_first(xa[k]) == upper_first(xb[k]));
                        }
                    }
                }
                assert forall|i: int| 0 <= i < wa.len() implies same_upper(#[trigger] wa[i], wb[i]) by {
                    if i < wa.len() - 1 {
                        assert(wa[i] == pa[i]);
                        assert(wb[i] == pb[i]);
                    }
                }
            } else {
                assert(same_upper(seq![a.last()], seq![b.last()])) by {
                    assert(upper_first(seq![a.last()][0]) == upper_first(seq![b.last()][0]));
                }
                assert forall|i: int| 0 <= i < wa.len() implies same_upper(#[trigger] wa[i], wb[i]) by {
                    if i < wa.len() - 1 {
                        assert(wa[i] == pa[i]);
                        assert(wb[i] == pb[i]);
                    }
                }
            }
        }
    }
}

/// Words of accepted characters have no first unsupported character.
proof fn lemma_first_unsupported_none(ws: Seq<Seq<char>>)
    requires
        forall|i: int| 0 <= i < ws.len() ==> all_supported(#[trigger] ws[i]),
    ensures
        first_unsupported(ws) is None,
    decreases ws.len(),
{
    if ws.len() > 0 {
        let ws0 = ws.drop_last();
        assert forall|i: int| 0 <= i < ws0.len() implies all_supported(#[trigger] ws0[i]) by {
            assert(ws0[i] == ws[i]);
        }
        lemma_first_unsupported_none(ws0);
        lemma_first_unsupported_in_none(ws.last());
    }
}

/// A word of accepted characters has no first unsupported character.
proof fn lemma_first_unsupported_in_none(w: Seq<char>)
    requires
        all_supported(w),
    ensures
        first_unsupported_in(w) is None,
    decreases w.len(),
{
    if w.len() > 0 {
        let w0 = w.drop_last();
        assert forall|k: int| 0 <= k < w0.len() implies is_supported(#[trigger] w0[k]) by {
            assert(w0[k] == w[k]);
        }
        lemma_first_unsupported_in_none(w0);
        assert(is_supported(w[w.len() - 1]));
    }
}

/// Case does not matter to `encode`: texts that agree in upper case and in
/// white space are both accepted or both refused, and encode alike when
/// accepted.
pub proof fn lemma_encode_case_insensitive(a: Seq<char>, b: Seq<char>)
    requires
        same_upper(a, b),
    ensures
        encode_spec(a) is Ok <==> encode_spec(b) is Ok,
        encode_spec(a) is Ok ==> encode_spec(a) == encode_spec(b),
{
    lemma_words_same_upper(a, b);
    let wa = words_of(a);
    let wb = words_of(b);
    assert forall|i: int| 0 <= i < wa.len() implies all_supported(#[trigger] wa[i]) == all_supported(
        wb[i],
    ) && codes_of(wa[i]) == codes_of(wb[i]) by {
        assert(same_upper(wa[i], wb[i]));
        assert forall|k: int| 0 <= k < wa[i].len() implies #[trigger] is_supported(wa[i][k])
            == is_supported(wb[i][k]) by {
            assert(upper_first(wa[i][k]) == upper_first(wb[i][k]));
        }
        if all_supported(wa[i]) {
            assert forall|k: int| 0 <= k < wb[i].len() implies is_supported(#[trigger] wb[i][k]) by {
                assert(is_supported(wa[i][k]));
            }
        }
        if all_supported(wb[i]) {
            assert forall|k: int| 0 <= k < wa[i].len() implies is_supported(#[trigger] wa[i][k]) by {
                assert(is_supported(wb[i][k]));
            }
        }
        assert forall|k: int| 0 <= k < wa[i].len() implies #[trigger] letter_code(wa[i][k])
            == letter_code(wb[i][k]) by {
            assert(upper_first(wa[i][k]) == upper_first(wb[i][k]));
        }
        assert(codes_of(wa[i]) =~= codes_of(wb[i]));
    }
    assert(encoded_words(wa) =~= encoded_words(wb));
    if first_unsupported(wa) is None {
        lemma_all_supported(wa);
        assert forall|i: int| 0 <= i < wb.len() implies all_supported(#[trigger] wb[i]) by {
            assert(all_supported(wa[i]));
        }
        lemma_first_unsupported_none(wb);
    }
    if first_unsupported(wb) is None {
        lemma_all_supported(wb);
        assert forall|i: int| 0 <= i < wa.len() implies all_supported(#[trigger] wa[i]) by {
            assert(all_supported(wb[i]));
        }
        lemma_first_unsupported_none(wa);
    }
}

/// A word of text as played: the sounds of the codes of its characters, with
/// a letter gap between each two.
pub open spec fn text_word_sounds(w: Seq<char>) -> Seq<Sound> {
    join(letters_sounds(codes_of(w)), seq![Sound::Silence(LETTER_GAP_MS)])
}

/// The sounds of each word of text.
pub open spec fn text_sounds(ws: Seq<Seq<char>>) -> Seq<Seq<Sound>> {
    ws.map_values(|w: Seq<char>| text_word_sounds(w))
}

/// Playing the Morse that `encode` writes sounds the codes of the words'
/// characters, with a letter gap between letters and a word gap between
/// words.
pub proof fn lemma_schedule_encoded(s: Seq<char>)
    requires
        encode_spec(s) is Ok,
    ensures
        schedule_spec(encode_spec(s)->Ok_0) == join(
            text_sounds(words_of(s)),
            seq![Sound::Silence(WORD_GAP_MS)],
        ),
{
    let ws = words_of(s);
    lemma_words_are_words(s);
    lemma_all_supported(ws);
    let ew = encoded_words(ws);
    assert forall|i: int| 0 <= i < ew.len() implies letters_of(#[trigger] ew[i]) == codes_of(ws[i])
        && forall|k: int| 0 <= k < ew[i].len() ==> ew[i][k] != '/' by {
        let w = ws[i];
        assert(is_word(w));
        assert(all_supported(w));
        let c = codes_of(w);
        assert forall|m: int| 0 <= m < c.len() implies is_run(#[trigger] c[m], false)
            && is_dots_and_dashes(c[m]) by {
            assert(is_supported(w[m]));
            lemma_letter_code(w[m]);
            assert forall|q: int| 0 <= q < c[m].len() implies !crate::text::is_break(
                #[trigger] c[m][q],
                false,
            ) by {
                assert(c[m][q] == '.' || c[m][q] == '-');
            }
        }
        assert forall|m: int, q: int| 0 <= m < c.len() && 0 <= q < c[m].len() implies (|x: char|
            x != '/')(#[trigger] c[m][q]) by {
            assert(is_dots_and_dashes(c[m]));
            assert(c[m][q] == '.' || c[m][q] == '-');
        }
        lemma_join_all(c, seq![' '], |x: char| x != '/');
        assert forall|m: int| 0 <= m < c.len() implies #[trigger] c[m].len() > 0 by {
            assert(is_run(c[m], false));
        }
        lemma_join_ends(c, seq![' ']);
        let e = encode_word(w);
        assert(e == ew[i]);
        assert(c[0][0] == '.' || c[0][0] == '-') by {
            assert(is_dots_and_dashes(c[0]));
        }
        assert(c.last().last() == '.' || c.last().last() == '-') by {
            assert(is_dots_and_dashes(c[c.len() - 1]));
        }
        lemma_trim_untouched(e);
        crate::text::lemma_runs_of_join(c, false);
    }
    assert forall|i: int, k: int| 0 <= i < ew.len() && 0 <= k < ew[i].len() implies #[trigger] ew[i][k]
        != '/' by {
        assert(letters_of(ew[i]) == codes_of(ws[i]));
    }
    lemma_separator_pieces_join(ew);
    assert(words_sounds(ew) =~= text_sounds(ws)) by {
        assert forall|i: int| 0 <= i < ew.len() implies #[trigger] words_sounds(ew)[i] == text_sounds(
            ws,
        )[i] by {
            assert(letters_of(ew[i]) == codes_of(ws[i]));
        }
    }
}

/// Folding an ASCII text to upper case before encoding changes nothing:
/// both are accepted or both refused, and they encode alike when accepted.
pub proof fn lemma_encode_ascii_folded(s: Seq<char>)
    requires
        forall|i: int| 0 <= i < s.len() ==> (#[trigger] s[i] as u32) < 128,
    ensures
        encode_spec(s) is Ok <==> encode_spec(s.map_values(|c: char| ascii_upper(c))) is Ok,
        encode_spec(s) is Ok ==> encode_spec(s) == encode_spec(
            s.map_values(|c: char| ascii_upper(c)),
        ),
{
    let t = s.map_values(|c: char| ascii_upper(c));
    assert forall|i: int| 0 <= i < s.len() implies #[trigger] upper_first(s[i]) == upper_first(t[i])
        && is_white_space(s[i]) == is_white_space(t[i]) by {
        let c = s[i];
        assert((c as u32) < 128);
        if 'a' <= c <= 'z' {
            assert(t[i] == ((c as u32) - 32) as char);
            assert((t[i] as u32) == (c as u32) - 32);
        }
    }
    lemma_encode_case_insensitive(s, t);
}

} // verus!
