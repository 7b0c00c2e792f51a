//! Word-wrapping text into lines of a given width in characters.
use vstd::prelude::*;
use crate::text::{
    chars_of,
    is_word,
    join,
    lemma_join_push,
    lemma_words_are_words,
    push_chars,
    split_runs,
    views,
    words_of,
};

verus! {

/// The lines finished so far and the line being filled, after placing the
/// words `ws` greedily into lines of at most `max_width` characters: a word goes
/// on the current line, after a space, when it fits there; else it starts a
/// new line.
pub open spec fn wrap_state(ws: Seq<Seq<char>>, max_width: int) -> (Seq<Seq<char>>, Seq<char>)
    decreases ws.len(),
{
    if ws.len() == 0 {
        (Seq::empty(), Seq::empty())
    } else {
        let (lines, current) = wrap_state(ws.drop_last(), max_width);
        let w = ws.last();
        if current.len() == 0 {
            (lines, w)
        } else if current.len() + 1 + w.len() <= max_width {
            (lines, current + seq![' '] + w)
        } else {
            (lines.push(current), w)
        }
    }
}

/// The lines of `text` wrapped at `max_width` characters: the text itself
/// when it fits, else its words placed greedily.
pub open spec fn wrap_spec(text: Seq<char>, max_width: int) -> Seq<Seq<char>> {
    if text.len() <= max_width {
        seq![text]
    } else {
        let (lines, current) = wrap_state(words_of(text), max_width);
        if current.len() == 0 {
            lines
        } else {
            lines.push(current)
        }
    }
}

/// The views of a list of strings.
pub open spec fn string_views(v: Seq<String>) -> Seq<Seq<char>> {
    v.map_values(|s: String| s@)
}

/// Naive word-wrap: split on whitespace, build lines up to `max_width` chars.
pub fn wrap(text: &str, max_width: usize) -> (r: Vec<String>)
    ensures
        string_views(r@) == wrap_spec(text@, max_width as int),
{
    let chars = chars_of(text);
    if chars.len() <= max_width {
        let mut one: Vec<String> = Vec::new();
        one.push(String::from_str(text));
        assert(string_views(one@) =~= seq![text@]);
        return one;
    }
    let words = split_runs(&chars, true);
    let ghost ws = views(words@);
    let mut lines: Vec<String> = Vec::new();
    let mut current = String::new();
    let mut current_len: usize = 0;
    let n = words.len();
    assert(ws.take(0) =~= Seq::<Seq<char>>::empty());
    for j in 0..n
        invariant
            n == words@.len(),
            ws == views(words@),
            ws == words_of(text@),
            wrap_state(ws.take(j as int), max_width as int) == (string_views(lines@), current@),
            current_len == current@.len(),
    {
        let word = &words[j];
        let word_len = word.len();
        assert(ws.take(j + 1).drop_last() =~= ws.take(j as int));
        assert(ws.take(j + 1).last() == word@);
        let ghost before = string_views(lines@);
        let ghost cur = current@;
        if current_len == 0 {
            push_chars(&mut current, word);
            current_len = word_len;
            assert(current@ =~= word@);
        } else if current_len as u128 + 1 + word_len as u128 <= max_width as u128 {
            current.push(' ');
            push_chars(&mut current, word);
            current_len = current_len + 1 + word_len;
            assert(current@ =~= cur + seq![' '] + word@);
        } else {
            let mut done = String::new();
            std::mem::swap(&mut done, &mut current);
            lines.push(done);
            push_chars(&mut current, word);
            current_len = word_len;
            assert(current@ =~= word@);
            assert(string_views(lines@) =~= before.push(cur));
        }
    }
    assert(ws.take(n as int) =~= ws);
    if current_len > 0 {
        let ghost before = string_views(lines@);
        let ghost cur = current@;
        lines.push(current);
        assert(string_views(lines@) =~= before.push(cur));
    }
    lines
}

/// A line fits: it has at most `max_width` characters, or it is a single word.
pub open spec fn line_fits(line: Seq<char>, max_width: int) -> bool {
    line.len() <= max_width || is_word(line)
}

/// What holds after placing words: no word lost, every line fits.
proof fn lemma_wrap_state(ws: Seq<Seq<char>>, max_width: int)
    requires
        forall|i: int| 0 <= i < ws.len() ==> is_word(#[trigger] ws[i]),
    ensures
        ({
            let (lines, current) = wrap_state(ws, max_width);
            &&& ws.len() == 0 ==> lines.len() == 0 && current.len() == 0
            &&& ws.len() > 0 ==> current.len() > 0 && join(lines.push(current), seq![' ']) == join(
                ws,
                seq![' '],
            )
            &&& forall|i: int| 0 <= i < lines.len() ==> line_fits(#[trigger] lines[i], max_width)
            &&& ws.len() > 0 ==> line_fits(current, max_width)
        }),
    decreases ws.len(),
{
    if ws.len() > 0 {
        let ws0 = ws.drop_last();
        assert forall|i: int| 0 <= i < ws0.len() implies is_word(#[trigger] ws0[i]) by {
            assert(ws0[i] == ws[i]);
        }
        lemma_wrap_state(ws0, max_width);
        let (lines, current) = wrap_state(ws0, max_width);
        let w = ws.last();
        assert(is_word(w));
        assert(ws0.push(w) =~= ws);
        if current.len() == 0 {
            assert(ws0 =~= Seq::<Seq<char>>::empty());
            assert(lines.push(w) =~= seq![w]);
            assert(ws =~= seq![w]);
        } else if current.len() + 1 + w.len() <= max_width {
            let c2 = current + seq![' '] + w;
            lemma_join_push(ws0, w, seq![' ']);
            if lines.len() == 0 {
                assert(lines.push(current) =~= seq![current]);
                assert(lines.push(c2) =~= seq![c2]);
            } else {
                lemma_join_push(lines, current, seq![' ']);
                lemma_join_push(lines, c2, seq![' ']);
                assert(join(lines, seq![' ']) + seq![' '] + current + seq![' '] + w =~= join(
                    lines,
                    seq![' '],
                ) + seq![' '] + c2);
            }
        } else {
            lemma_join_push(lines.push(current), w, seq![' ']);
            lemma_join_push(ws0, w, seq![' ']);
            assert forall|i: int| 0 <= i < lines.push(current).len() implies line_fits(
                #[trigger] lines.push(current)[i],
                max_width,
            ) by {
                if i < lines.len() {
                    assert(lines.push(current)[i] == lines[i]);
                }
            }
        }
    }
}

/// Wrapping keeps every word, in order: the lines joined by single spaces
/// are the words of the text joined by single spaces (when the text is too
/// long for one line).
pub proof fn lemma_wrap_keeps_words(text: Seq<char>, max_width: int)
    requires
        text.len() > max_width,
    ensures
        join(wrap_spec(text, max_width), seq![' ']) == join(words_of(text), seq![' ']),
{
    lemma_words_are_words(text);
    lemma_wrap_state(words_of(text), max_width);
}

/// Every line fits in `max_width` characters, unless it is a single word that is
/// longer on its own.
pub proof fn lemma_wrap_lines_fit(text: Seq<char>, max_width: int)
    ensures
        forall|i: int|
            0 <= i < wrap_spec(text, max_width).len() ==> line_fits(
                #[trigger] wrap_spec(text, max_width)[i],
                max_width,
            ),
{
    if text.len() > max_width {
        lemma_words_are_words(text);
        lemma_wrap_state(words_of(text), max_width);
        let (lines, current) = wrap_state(words_of(text), max_width);
        if current.len() > 0 {
            assert forall|i: int| 0 <= i < lines.push(current).len() implies line_fits(
                #[trigger] lines.push(current)[i],
                max_width,
            ) by {
                if i < lines.len() {
                    assert(lines.push(current)[i] == lines[i]);
                }
            }
        }
    }
}

/// The first word of a line: its characters up to the first space.
pub open spec fn first_word(s: Seq<char>) -> Seq<char>
    decreases s.len(),
{
    if s.len() == 0 || s[0] == ' ' {
        Seq::empty()
    } else {
        seq![s[0]] + first_word(s.drop_first())
    }
}

/// Text after a space, or after a first word that ends before the end,
/// does not change the first word.
proof fn lemma_first_word_concat(x: Seq<char>, y: Seq<char>)
    requires
        (y.len() > 0 && y[0] == ' ') || first_word(x).len() < x.len(),
    ensures
        first_word(x + y) == first_word(x),
    decreases x.len(),
{
    if x.len() == 0 {
        assert(x + y =~= y);
    } else if x[0] == ' ' {
        assert((x + y)[0] == ' ');
    } else {
        assert((x + y)[0] == x[0]);
        assert((x + y).drop_first() =~= x.drop_first() + y);
        lemma_first_word_concat(x.drop_first(), y);
    }
}

/// A word is its own first word.
proof fn lemma_first_word_of_word(w: Seq<char>)
    requires
        forall|i: int| 0 <= i < w.len() ==> #[trigger] w[i] != ' ',
    ensures
        first_word(w) == w,
    decreases w.len(),
{
    if w.len() > 0 {
        let w1 = w.drop_first();
        assert forall|i: int| 0 <= i < w1.len() implies #[trigger] w1[i] != ' ' by {
            assert(w1[i] == w[i + 1]);
        }
        lemma_first_word_of_word(w1);
        assert(seq![w[0]] + w1 =~= w);
    }
}

/// No line could have taken the first word of the next one: the line, a
/// space and that word are longer than `max_width`.
pub open spec fn packed(lines: Seq<Seq<char>>, max_width: int) -> bool {
    forall|i: int|
        0 <= i < lines.len() - 1 ==> #[trigger] lines[i].len() + 1 + first_word(lines[i + 1]).len()
            > max_width
}

/// Placing words keeps the lines packed.
proof fn lemma_wrap_state_packed(ws: Seq<Seq<char>>, max_width: int)
    requires
        forall|i: int| 0 <= i < ws.len() ==> is_word(#[trigger] ws[i]),
    ensures
        ws.len() > 0 ==> packed(wrap_state(ws, max_width).0.push(wrap_state(ws, max_width).1), max_width),
    decreases ws.len(),
{
    if ws.len() > 0 {
        let ws0 = ws.drop_last();
        assert forall|i: int| 0 <= i < ws0.len() implies is_word(#[trigger] ws0[i]) by {
            assert(ws0[i] == ws[i]);
        }
        lemma_wrap_state_packed(ws0, max_width);
        lemma_wrap_state(ws0, max_width);
        let (lines, current) = wrap_state(ws0, max_width);
        let w = ws.last();
        assert(is_word(w));
        assert forall|i: int| 0 <= i < w.len() implies #[trigger] w[i] != ' ' by {
            assert(!crate::text::is_break(w[i], true));
        }
        lemma_first_word_of_word(w);
        let old_l = lines.push(current);
        if current.len() == 0 {
            assert(lines.push(w) =~= seq![w]);
        } else if current.len() + 1 + w.len() <= max_width {
            let c2 = current + seq![' '] + w;
            assert(c2 =~= current + (seq![' '] + w));
            lemma_first_word_concat(current, seq![' '] + w);
            let new_l = lines.push(c2);
            assert forall|i: int| 0 <= i < new_l.len() - 1 implies #[trigger] new_l[i].len() + 1
                + first_word(new_l[i + 1]).len() > max_width by {
                assert(new_l[i] == old_l[i]);
                if i + 1 < lines.len() {
                    assert(new_l[i + 1] == old_l[i + 1]);
                } else {
                    assert(old_l[i + 1] == current);
                }
            }
        } else {
            let new_l = old_l.push(w);
            assert forall|i: int| 0 <= i < new_l.len() - 1 implies #[trigger] new_l[i].len() + 1
                + first_word(new_l[i + 1]).len() > max_width by {
                assert(new_l[i] == old_l[i]);
                if i + 1 < old_l.len() {
                    assert(new_l[i + 1] == old_l[i + 1]);
                }
            }
        }
    }
}

/// Wrapping is greedy: a line ends only when the next word does not fit on
/// it. For any two consecutive lines, the first, a space and the first word
/// of the second take more than `max_width` characters.
pub proof fn lemma_wrap_greedy(text: Seq<char>, max_width: int)
    ensures
        packed(wrap_spec(text, max_width), max_width),
{
    if text.len() > max_width {
        lemma_words_are_words(text);
        lemma_wrap_state(words_of(text), max_width);
        lemma_wrap_state_packed(words_of(text), max_width);
    }
}

} // verus!
