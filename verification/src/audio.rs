//! The timing of Morse code as tones and silences (about 20 words per
//! minute), and the samples of one tone.
//!
//! Timing:
//!   dot              =  60 ms
//!   dash             = 180 ms  (3 × dot)
//!   intra-char gap   =  60 ms  (between dots/dashes in one letter)
//!   inter-letter gap = 180 ms  (between letters)
//!   inter-word gap   = 420 ms  (7 × dot; triggered by " / ")
//!
//! Each tone fades in and out linearly over 10 ms.
use vstd::prelude::*;
use crate::chars::is_white_space;
use crate::text::{
    chars_of,
    is_break,
    join,
    lemma_join_push,
    lemma_join_separator_pieces,
    lemma_join_take,
    runs,
    trim_end,
    trim_start,
    separator_pieces,
    space_runs,
    split_at_separator,
    split_runs,
    trim,
    trim_chars,
    views,
};

verus! {

/// Samples per second.
pub const SAMPLE_RATE: u32 = 44_100;

/// Length of a dot, in milliseconds.
pub const DOT_MS: u64 = 60;

/// Length of a dash, in milliseconds.
pub const DASH_MS: u64 = 180;

/// Silence between the symbols of one letter, in milliseconds.
pub const SYMBOL_GAP_MS: u64 = 60;

/// Silence between letters, in milliseconds.
pub const LETTER_GAP_MS: u64 = 180;

/// Silence between words, in milliseconds.
pub const WORD_GAP_MS: u64 = 420;

/// Length of the fade at each end of a tone, in milliseconds.
pub const RAMP_MS: u64 = 10;

/// The timing is counted in dots of 60 ms: a dash and a letter gap last three dots, a
/// symbol gap one dot, a word gap seven dots; the fade lasts 441 samples.
pub proof fn lemma_timing_in_dots()
    ensures
        DOT_MS == 60,
        DASH_MS == 3 * DOT_MS,
        SYMBOL_GAP_MS == DOT_MS,
        LETTER_GAP_MS == 3 * DOT_MS,
        WORD_GAP_MS == 7 * DOT_MS,
        samples_in(RAMP_MS as int) == 441,
{
}

/// One step of playback: a tone or a silence, of a length in milliseconds.
#[derive(Clone, Copy, Debug, PartialEq, Eq, Structural)]
pub enum Sound {
    Tone(u64),
    Silence(u64),
}

/// The sound of one symbol: a dot or a dash; nothing for any other character.
pub open spec fn symbol_sounds(c: char) -> Seq<Sound> {
    if c == '.' {
        seq![Sound::Tone(DOT_MS)]
    } else if c == '-' {
        seq![Sound::Tone(DASH_MS)]
    } else {
        Seq::empty()
    }
}

/// The sound of each symbol of a letter.
pub open spec fn symbols_sounds(code: Seq<char>) -> Seq<Seq<Sound>> {
    code.map_values(|c: char| symbol_sounds(c))
}

/// A letter: its symbols with a symbol gap between each two.
pub open spec fn letter_sounds(code: Seq<char>) -> Seq<Sound> {
    join(symbols_sounds(code), seq![Sound::Silence(SYMBOL_GAP_MS)])
}

/// The sounds of each letter.
pub open spec fn letters_sounds(letters: Seq<Seq<char>>) -> Seq<Seq<Sound>> {
    letters.map_values(|l: Seq<char>| letter_sounds(l))
}

/// The letters of a word: the pieces of the trimmed word between spaces.
pub open spec fn letters_of(word: Seq<char>) -> Seq<Seq<char>> {
    space_runs(trim(word))
}

/// A word: its letters with a letter gap between each two.
pub open spec fn word_sounds(word: Seq<char>) -> Seq<Sound> {
    join(letters_sounds(letters_of(word)), seq![Sound::Silence(LETTER_GAP_MS)])
}

/// The sounds of each word.
pub open spec fn words_sounds(words: Seq<Seq<char>>) -> Seq<Seq<Sound>> {
    words.map_values(|w: Seq<char>| word_sounds(w))
}

/// What plays for the Morse text `m`: its pieces between ` / ` are the words,
/// with a word gap between each two.
pub open spec fn schedule_spec(m: Seq<char>) -> Seq<Sound> {
    join(words_sounds(separator_pieces(m)), seq![Sound::Silence(WORD_GAP_MS)])
}

/// The sounds that play `morse`, in order: each dot and dash, and the gaps
/// between symbols, letters and words.
pub fn schedule(morse: &str) -> (r: Vec<Sound>)
    ensures
        r@ == schedule_spec(morse@),
{
    let chars = chars_of(morse);
    let pieces = split_at_separator(&chars);
    let ghost ps = views(pieces@);
    let ghost all = words_sounds(ps);
    let mut out: Vec<Sound> = Vec::new();
    let np = pieces.len();
    for wi in 0..np
        invariant
            np == pieces@.len(),
            ps == views(pieces@),
            ps == separator_pieces(morse@),
            all == words_sounds(ps),
            wi == 0 ==> out@ == Seq::<Sound>::empty(),
            wi > 0 ==> out@ == join(all.take(wi as int), seq![Sound::Silence(WORD_GAP_MS)]),
    {
        let trimmed = trim_chars(&pieces[wi]);
        let letters = split_runs(&trimmed, false);
        let ghost ls = views(letters@);
        let ghost lsounds = letters_sounds(ls);
        assert(ls == letters_of(ps[wi as int]));
        let mut wout: Vec<Sound> = Vec::new();
        let nl = letters.len();
        for li in 0..nl
            invariant
                nl == letters@.len(),
                ls == views(letters@),
                lsounds == letters_sounds(ls),
                li == 0 ==> wout@ == Seq::<Sound>::empty(),
                li > 0 ==> wout@ == join(lsounds.take(li as int), seq![Sound::Silence(LETTER_GAP_MS)]),
        {
            let code = &letters[li];
            let ghost cs = code@;
            assert(cs == ls[li as int]);
            let ghost ss = symbols_sounds(cs);
            let mut lout: Vec<Sound> = Vec::new();
            let nc = code.len();
            for si in 0..nc
                invariant
                    nc == cs.len(),
                    cs == code@,
                    ss == symbols_sounds(cs),
                    si == 0 ==> lout@ == Seq::<Sound>::empty(),
                    si > 0 ==> lout@ == join(ss.take(si as int), seq![Sound::Silence(SYMBOL_GAP_MS)]),
            {
                proof {
                    lemma_join_take(ss, si as int, seq![Sound::Silence(SYMBOL_GAP_MS)]);
                }
                if si > 0 {
                    lout.push(Sound::Silence(SYMBOL_GAP_MS));
                }
                let c = code[si];
                if c == '.' {
                    lout.push(Sound::Tone(DOT_MS));
                } else if c == '-' {
                    lout.push(Sound::Tone(DASH_MS));
                }
                assert(lout@ =~= join(ss.take(si + 1), seq![Sound::Silence(SYMBOL_GAP_MS)]));
            }
            proof {
                if nc > 0 {
                    assert(ss.take(nc as int) =~= ss);
                } else {
                    assert(ss =~= Seq::<Seq<Sound>>::empty());
                }
                lemma_join_take(lsounds, li as int, seq![Sound::Silence(LETTER_GAP_MS)]);
            }
            let ghost before = wout@;
            if li > 0 {
                wout.push(Sound::Silence(LETTER_GAP_MS));
            }
            wout.append(&mut lout);
            assert(wout@ =~= join(lsounds.take(li + 1), seq![Sound::Silence(LETTER_GAP_MS)]));
        }
        proof {
            if nl > 0 {
                assert(lsounds.take(nl as int) =~= lsounds);
            } else {
                assert(lsounds =~= Seq::<Seq<Sound>>::empty());
            }
            lemma_join_take(all, wi as int, seq![Sound::Silence(WORD_GAP_MS)]);
        }
        if wi > 0 {
            out.push(Sound::Silence(WORD_GAP_MS));
        }
        out.append(&mut wout);
        assert(out@ =~= join(all.take(wi + 1), seq![Sound::Silence(WORD_GAP_MS)]));
    }
    proof {
        if np > 0 {
            assert(all.take(np as int) =~= all);
        } else {
            assert(all =~= Seq::<Seq<Sound>>::empty());
        }
    }
    out
}

/// Number of samples in `duration_ms` milliseconds, rounded down.
pub open spec fn samples_in(duration_ms: int) -> int {
    SAMPLE_RATE as int * duration_ms / 1000
}

/// The fade of sample `i` of a tone of `n` samples that fades over `r`
/// samples at each end, as a fraction (numerator, denominator): rising as
/// `i / r` at the start, falling as `(n - i) / r` at the end, one between.
pub open spec fn envelope_spec(i: int, n: int, r: int) -> (int, int) {
    if i < r {
        (i, r)
    } else if i > (if n >= r { n - r } else { 0 }) {
        (n - i, r)
    } else {
        (1, 1)
    }
}

/// A tone of a given length, as a stream of samples: the index of the next
/// sample, the number of samples, and the length of the fade.
pub struct SineWave {
    sample_idx: u64,
    total_samples: u64,
    ramp_samples: u64,
}

impl SineWave {
    /// The index of the next sample.
    pub closed spec fn position(self) -> int {
        self.sample_idx as int
    }

    /// The number of samples of the tone.
    pub closed spec fn total(self) -> int {
        self.total_samples as int
    }

    /// The number of samples over which the tone fades in and out.
    pub closed spec fn ramp(self) -> int {
        self.ramp_samples as int
    }

    /// The state of a tone holds together: the next sample is within the
    /// tone, the tone's length in milliseconds can be computed, and the fade
    /// is that of `RAMP_MS`.
    pub open spec fn wf(self) -> bool {
        &&& 0 <= self.position() <= self.total()
        &&& self.total() * 1000 <= u64::MAX
        &&& self.ramp() == samples_in(RAMP_MS as int)
    }

    /// The tone after one more call of `next_sample`.
    pub closed spec fn advanced(self) -> SineWave {
        if self.sample_idx < self.total_samples {
            SineWave { sample_idx: (self.sample_idx + 1) as u64, ..self }
        } else {
            self
        }
    }

    /// The index, the length and the fade of any tone are never negative.
    pub proof fn lemma_counts_nonnegative(self)
        ensures
            0 <= self.position(),
            0 <= self.total(),
            0 <= self.ramp(),
    {
    }

    /// One more call moves the next sample on by one, up to the end.
    pub proof fn lemma_advanced(self)
        requires
            self.wf(),
        ensures
            self.advanced().wf(),
            self.advanced().total() == self.total(),
            self.advanced().ramp() == self.ramp(),
            self.advanced().position() == if self.position() < self.total() {
                self.position() + 1
            } else {
                self.position()
            },
    {
    }

    /// A tone of `duration_ms` milliseconds, at its first sample.
    pub fn new(duration_ms: u64) -> (r: Self)
        requires
            duration_ms <= u64::MAX / SAMPLE_RATE as u64,
        ensures
            r.position() == 0,
            r.total() == samples_in(duration_ms as int),
            r.ramp() == samples_in(RAMP_MS as int),
            r.wf(),
    {
        assert(SAMPLE_RATE as u64 * duration_ms <= u64::MAX) by (nonlinear_arith)
            requires
                duration_ms <= u64::MAX / 44100,
                SAMPLE_RATE == 44100,
        ;
        let total_samples = SAMPLE_RATE as u64 * duration_ms / 1_000;
        let ramp_samples = SAMPLE_RATE as u64 * RAMP_MS / 1_000;
        assert(total_samples * 1000 <= SAMPLE_RATE as u64 * duration_ms) by (nonlinear_arith)
            requires
                total_samples == SAMPLE_RATE as u64 * duration_ms / 1000,
        ;
        Self { sample_idx: 0, total_samples, ramp_samples }
    }

    /// Linear ramp envelope, as a fraction: fade in and out over the ramp to
    /// prevent clicks.
    pub fn envelope(&self) -> (r: (u64, u64))
        requires
            self.wf(),
        ensures
            (r.0 as int, r.1 as int) == envelope_spec(self.position(), self.total(), self.ramp()),
    {
        let i = self.sample_idx;
        let n = self.total_samples;
        let r = self.ramp_samples;
        if i < r {
            (i, r)
        } else if i > n.saturating_sub(r) {
            (n - i, r)
        } else {
            (1, 1)
        }
    }

    /// The next sample: its index and its envelope, or `None` once the tone
    /// is over. Moves on by one sample.
    pub fn next_sample(&mut self) -> (r: Option<(u64, (u64, u64))>)
        requires
            old(self).wf(),
        ensures
            *final(self) == old(self).advanced(),
            final(self).wf(),
            old(self).position() >= old(self).total() ==> r is None && final(self).position()
                == old(self).position(),
            old(self).position() < old(self).total() ==> (r matches Some((i, (a, b))) && i
                == old(self).position() && (a as int, b as int) == envelope_spec(
                old(self).position(),
                old(self).total(),
                old(self).ramp(),
            ) && final(self).position() == old(self).position() + 1),
            final(self).total() == old(self).total(),
            final(self).ramp() == old(self).ramp(),
    {
        if self.sample_idx >= self.total_samples {
            return None;
        }
        let i = self.sample_idx;
        let e = self.envelope();
        self.sample_idx = self.sample_idx + 1;
        Some((i, e))
    }

    /// The length of the tone in milliseconds, rounded down.
    pub fn total_duration_ms(&self) -> (r: u64)
        requires
            self.wf(),
        ensures
            r == self.total() * 1000 / SAMPLE_RATE as int,
    {
        self.total_samples * 1_000 / SAMPLE_RATE as u64
    }
}

/// The tone after `k` calls of `next_sample`.
pub open spec fn after(s: SineWave, k: nat) -> SineWave
    decreases k,
{
    if k == 0 {
        s
    } else {
        after(s, (k - 1) as nat).advanced()
    }
}

/// A tone gives exactly as many samples as it has left: after `k` more
/// calls of `next_sample` the next sample is at `position + k`, up to the
/// end, so call `k` gives a sample exactly when `position + k < total`. A new
/// tone of `d` milliseconds (position 0, `samples_in(d)` samples) thus gives
/// `samples_in(d)` samples and then `None`.
pub proof fn lemma_samples_left(s: SineWave, k: nat)
    requires
        s.wf(),
    ensures
        after(s, k).wf(),
        after(s, k).total() == s.total(),
        after(s, k).ramp() == s.ramp(),
        after(s, k).position() == if s.position() + k <= s.total() {
            s.position() + k
        } else {
            s.total()
        },
        (after(s, k).position() < after(s, k).total()) == (s.position() + k < s.total()),
    decreases k,
{
    if k > 0 {
        lemma_samples_left(s, (k - 1) as nat);
        after(s, (k - 1) as nat).lemma_advanced();
    }
}

/// The fade-in never falls: for samples `i <= j` within the ramp of a tone at
/// least two ramps long, the gain at `i` is at most the gain at `j`
/// (fractions compared by cross-multiplying); it reaches one at the ramp's
/// end.
pub proof fn lemma_fade_in_rises(i: int, j: int, n: int, r: int)
    requires
        0 <= i <= j <= r,
        0 < r,
        2 * r <= n,
    ensures
        envelope_spec(i, n, r).0 * envelope_spec(j, n, r).1 <= envelope_spec(j, n, r).0
            * envelope_spec(i, n, r).1,
        envelope_spec(r, n, r) == (1int, 1int),
{
    assert(envelope_spec(r, n, r) == (1int, 1int));
    if j < r {
        assert(envelope_spec(i, n, r) == (i, r));
        assert(envelope_spec(j, n, r) == (j, r));
        assert(i * r <= j * r) by (nonlinear_arith)
            requires
                i <= j,
                0 < r,
        ;
    } else if i < r {
        assert(envelope_spec(i, n, r) == (i, r));
        assert(envelope_spec(j, n, r) == (1int, 1int));
    }
}

/// The fade-out mirrors the fade-in: in a tone at least two ramps long,
/// sample `n - i` has the gain of sample `i`.
pub proof fn lemma_fade_symmetric(i: int, n: int, r: int)
    requires
        0 <= i < r,
        2 * r <= n,
    ensures
        envelope_spec(n - i, n, r) == envelope_spec(i, n, r),
{
}

/// The gain never exceeds one: at every sample of a tone with a fade, the
/// envelope is a fraction between zero and one (with a positive
/// denominator).
pub proof fn lemma_gain_at_most_one(i: int, n: int, r: int)
    requires
        0 <= i <= n,
        0 < r,
    ensures
        0 <= envelope_spec(i, n, r).0 <= envelope_spec(i, n, r).1,
        0 < envelope_spec(i, n, r).1,
{
}

/// Full gain on the plateau: between the end of the fade-in and the start of
/// the fade-out the envelope is exactly one.
pub proof fn lemma_plateau(i: int, n: int, r: int)
    requires
        0 <= r <= i <= n - r,
    ensures
        envelope_spec(i, n, r) == (1int, 1int),
{
}

/// The tone that a character of Morse calls for: 60 ms for a dot, 180 ms
/// for a dash, none for anything else.
pub open spec fn symbol_tone(c: char) -> Seq<u64> {
    if c == '.' {
        seq![60u64]
    } else if c == '-' {
        seq![180u64]
    } else {
        Seq::empty()
    }
}

/// The tones that the characters of `m` call for, in order.
pub open spec fn symbol_tones(m: Seq<char>) -> Seq<u64>
    decreases m.len(),
{
    if m.len() == 0 {
        Seq::empty()
    } else {
        symbol_tones(m.drop_last()) + symbol_tone(m.last())
    }
}

/// The lengths of the tones among `sounds`, in order; silences left out.
pub open spec fn tone_lengths(sounds: Seq<Sound>) -> Seq<u64>
    decreases sounds.len(),
{
    if sounds.len() == 0 {
        Seq::empty()
    } else {
        tone_lengths(sounds.drop_last()) + match sounds.last() {
            Sound::Tone(ms) => seq![ms],
            Sound::Silence(_) => Seq::<u64>::empty(),
        }
    }
}

/// The tones of each piece of text.
pub open spec fn pieces_tones(l: Seq<Seq<char>>) -> Seq<Seq<u64>> {
    l.map_values(|x: Seq<char>| symbol_tones(x))
}

/// The tone lengths of each list of sounds.
pub open spec fn sounds_tones(l: Seq<Seq<Sound>>) -> Seq<Seq<u64>> {
    l.map_values(|x: Seq<Sound>| tone_lengths(x))
}

proof fn lemma_symbol_tones_concat(a: Seq<char>, b: Seq<char>)
    ensures
        symbol_tones(a + b) == symbol_tones(a) + symbol_tones(b),
    decreases b.len(),
{
    if b.len() == 0 {
        assert(a + b =~= a);
        assert(symbol_tones(a) + Seq::<u64>::empty() =~= symbol_tones(a));
    } else {
        assert((a + b).drop_last() =~= a + b.drop_last());
        lemma_symbol_tones_concat(a, b.drop_last());
        assert(symbol_tones(a) + symbol_tones(b.drop_last()) + symbol_tone(b.last()) =~= symbol_tones(a)
            + (symbol_tones(b.drop_last()) + symbol_tone(b.last())));
    }
}

proof fn lemma_tone_lengths_concat(a: Seq<Sound>, b: Seq<Sound>)
    ensures
        tone_lengths(a + b) == tone_lengths(a) + tone_lengths(b),
    decreases b.len(),
{
    if b.len() == 0 {
        assert(a + b =~= a);
        assert(tone_lengths(a) + Seq::<u64>::empty() =~= tone_lengths(a));
    } else {
        assert((a + b).drop_last() =~= a + b.drop_last());
        lemma_tone_lengths_concat(a, b.drop_last());
        let tail = match b.last() {
            Sound::Tone(ms) => seq![ms],
            Sound::Silence(_) => Seq::<u64>::empty(),
        };
        assert(tone_lengths(a) + tone_lengths(b.drop_last()) + tail =~= tone_lengths(a) + (
        tone_lengths(b.drop_last()) + tail));
    }
}

/// Joining pieces with a separator that calls for no tone: the tones are
/// those of the pieces, one after the other.
proof fn lemma_symbol_tones_join(l: Seq<Seq<char>>, sep: Seq<char>)
    requires
        symbol_tones(sep) == Seq::<u64>::empty(),
    ensures
        symbol_tones(join(l, sep)) == join(pieces_tones(l), Seq::<u64>::empty()),
    decreases l.len(),
{
    if l.len() == 1 {
    } else if l.len() > 1 {
        let l0 = l.drop_last();
        lemma_symbol_tones_join(l0, sep);
        lemma_symbol_tones_concat(join(l0, sep), sep);
        lemma_symbol_tones_concat(join(l0, sep) + sep, l.last());
        assert(pieces_tones(l) =~= pieces_tones(l0).push(symbol_tones(l.last())));
        lemma_join_push(pieces_tones(l0), symbol_tones(l.last()), Seq::<u64>::empty());
        assert(join(pieces_tones(l0), Seq::<u64>::empty()) + Seq::<u64>::empty() =~= join(
            pieces_tones(l0),
            Seq::<u64>::empty(),
        ));
    }
}

/// Joining lists of sounds with a silence: the tones are those of the lists,
/// one after the other.
proof fn lemma_tone_lengths_join(l: Seq<Seq<Sound>>, ms: u64)
    ensures
        tone_lengths(join(l, seq![Sound::Silence(ms)])) == join(sounds_tones(l), Seq::<u64>::empty()),
    decreases l.len(),
{
    let sep = seq![Sound::Silence(ms)];
    if l.len() == 1 {
    } else if l.len() > 1 {
        let l0 = l.drop_last();
        lemma_tone_lengths_join(l0, ms);
        lemma_tone_lengths_concat(join(l0, sep), sep);
        lemma_tone_lengths_concat(join(l0, sep) + sep, l.last());
        assert(sep.drop_last() =~= Seq::<Sound>::empty());
        assert(tone_lengths(Seq::<Sound>::empty()) =~= Seq::<u64>::empty());
        assert(tone_lengths(sep) =~= Seq::<u64>::empty());
        assert(sounds_tones(l) =~= sounds_tones(l0).push(tone_lengths(l.last())));
        lemma_join_push(sounds_tones(l0), tone_lengths(l.last()), Seq::<u64>::empty());
        assert(join(sounds_tones(l0), Seq::<u64>::empty()) + Seq::<u64>::empty() =~= join(
            sounds_tones(l0),
            Seq::<u64>::empty(),
        ));
    }
}

/// A letter sounds the tone of each of its characters, in order.
proof fn lemma_letter_tones(code: Seq<char>)
    ensures
        tone_lengths(letter_sounds(code)) == symbol_tones(code),
    decreases code.len(),
{
    lemma_tone_lengths_join(symbols_sounds(code), SYMBOL_GAP_MS);
    lemma_symbol_sounds_flat(code);
}

/// The tones of the symbols of a code, one after the other, are those its
/// characters call for.
proof fn lemma_symbol_sounds_flat(code: Seq<char>)
    ensures
        join(sounds_tones(symbols_sounds(code)), Seq::<u64>::empty()) == symbol_tones(code),
    decreases code.len(),
{
    let e = Seq::<u64>::empty();
    if code.len() > 0 {
        let c0 = code.drop_last();
        let c = code.last();
        lemma_symbol_sounds_flat(c0);
        assert(sounds_tones(symbols_sounds(code)) =~= sounds_tones(symbols_sounds(c0)).push(
            tone_lengths(symbol_sounds(c)),
        ));
        assert(tone_lengths(symbol_sounds(c)) == symbol_tone(c)) by {
            if c == '.' || c == '-' {
                assert(symbol_sounds(c).drop_last() =~= Seq::<Sound>::empty());
                assert(tone_lengths(Seq::<Sound>::empty()) == e);
            }
        }
        if c0.len() == 0 {
            assert(sounds_tones(symbols_sounds(code)) =~= seq![symbol_tone(c)]);
            assert(code.drop_last() =~= c0);
            assert(e + symbol_tone(c) =~= symbol_tone(c));
        } else {
            lemma_join_push(sounds_tones(symbols_sounds(c0)), symbol_tone(c), e);
            assert(symbol_tones(c0) + e + symbol_tone(c) =~= symbol_tones(c0) + symbol_tone(c));
        }
    } else {
        assert(sounds_tones(symbols_sounds(code)) =~= Seq::<Seq<u64>>::empty());
    }
}

/// The runs of a text between spaces keep all its tones.
proof fn lemma_space_runs_tones(s: Seq<char>)
    ensures
        join(pieces_tones(runs(s, false)), Seq::<u64>::empty()) == symbol_tones(s),
    decreases s.len(),
{
    let e = Seq::<u64>::empty();
    if s.len() > 0 {
        let s0 = s.drop_last();
        let c = s.last();
        lemma_space_runs_tones(s0);
        let prev = runs(s0, false);
        let m = pieces_tones(prev);
        if is_break(c, false) {
            assert(symbol_tone(c) =~= e);
            assert(symbol_tones(s0) + e =~= symbol_tones(s0));
        } else if s.len() >= 2 && !is_break(s[s.len() - 2], false) {
            crate::text::lemma_runs_nonempty(s0, false);
            let w = prev.last();
            assert(w.push(c).drop_last() =~= w);
            assert(symbol_tones(w.push(c)) == symbol_tones(w) + symbol_tone(c));
            assert(pieces_tones(prev.update(prev.len() - 1, w.push(c))) =~= m.update(
                m.len() - 1,
                m.last() + symbol_tone(c),
            ));
            if m.len() == 1 {
            } else {
                assert(m.update(m.len() - 1, m.last() + symbol_tone(c)) =~= m.drop_last().push(
                    m.last() + symbol_tone(c),
                ));
                assert(m =~= m.drop_last().push(m.last()));
                lemma_join_push(m.drop_last(), m.last() + symbol_tone(c), e);
                lemma_join_push(m.drop_last(), m.last(), e);
                assert(join(m.drop_last(), e) + e + (m.last() + symbol_tone(c)) =~= join(
                    m.drop_last(),
                    e,
                ) + e + m.last() + symbol_tone(c));
            }
        } else {
            assert(seq![c].drop_last() =~= Seq::<char>::empty());
            assert(symbol_tones(Seq::<char>::empty()) =~= e);
            assert(e + symbol_tone(c) =~= symbol_tone(c));
            assert(symbol_tones(seq![c]) =~= symbol_tone(c));
            assert(pieces_tones(prev.push(seq![c])) =~= m.push(symbol_tone(c)));
            if m.len() == 0 {
                assert(m.push(symbol_tone(c)) =~= seq![symbol_tone(c)]);
                assert(e + symbol_tone(c) =~= symbol_tone(c));
            } else {
                lemma_join_push(m, symbol_tone(c), e);
            }
        }
    } else {
        assert(pieces_tones(runs(s, false)) =~= Seq::<Seq<u64>>::empty());
    }
}

/// Trimming white space keeps all tones.
proof fn lemma_trim_tones(s: Seq<char>)
    ensures
        symbol_tones(crate::text::trim(s)) == symbol_tones(s),
{
    lemma_trim_start_tones(s);
    lemma_trim_end_tones(trim_start(s));
}

proof fn lemma_trim_start_tones(s: Seq<char>)
    ensures
        symbol_tones(trim_start(s)) == symbol_tones(s),
    decreases s.len(),
{
    if s.len() > 0 && is_white_space(s[0]) {
        lemma_trim_start_tones(s.drop_first());
        assert(seq![s[0]] + s.drop_first() =~= s);
        lemma_symbol_tones_concat(seq![s[0]], s.drop_first());
        assert(seq![s[0]].drop_last() =~= Seq::<char>::empty());
        assert(symbol_tones(Seq::<char>::empty()) =~= Seq::<u64>::empty());
        assert(symbol_tone(s[0]) =~= Seq::<u64>::empty());
        assert(Seq::<u64>::empty() + Seq::<u64>::empty() =~= Seq::<u64>::empty());
        assert(symbol_tones(seq![s[0]]) =~= Seq::<u64>::empty());
        assert(Seq::<u64>::empty() + symbol_tones(s.drop_first()) =~= symbol_tones(s.drop_first()));
    }
}

proof fn lemma_trim_end_tones(s: Seq<char>)
    ensures
        symbol_tones(trim_end(s)) == symbol_tones(s),
    decreases s.len(),
{
    if s.len() > 0 && is_white_space(s.last()) {
        lemma_trim_end_tones(s.drop_last());
        assert(symbol_tones(s.drop_last()) + Seq::<u64>::empty() =~= symbol_tones(s.drop_last()));
    }
}

/// A word sounds the tones of its characters, in order.
proof fn lemma_word_tones(w: Seq<char>)
    ensures
        tone_lengths(word_sounds(w)) == symbol_tones(w),
{
    let ls = letters_of(w);
    lemma_tone_lengths_join(letters_sounds(ls), LETTER_GAP_MS);
    assert forall|i: int| 0 <= i < ls.len() implies #[trigger] sounds_tones(letters_sounds(ls))[i]
        == pieces_tones(ls)[i] by {
        lemma_letter_tones(ls[i]);
    }
    assert(sounds_tones(letters_sounds(ls)) =~= pieces_tones(ls));
    lemma_space_runs_tones(crate::text::trim(w));
    lemma_trim_tones(w);
}

/// Every dot and dash is played, in order, and nothing else is: the tones
/// that `schedule` plays for `m` are one of 60 ms for each dot and one of
/// 180 ms for each dash of `m`, in the order of `m`.
pub proof fn lemma_schedule_plays_every_symbol(m: Seq<char>)
    ensures
        tone_lengths(schedule_spec(m)) == symbol_tones(m),
{
    let ps = separator_pieces(m);
    lemma_tone_lengths_join(words_sounds(ps), WORD_GAP_MS);
    assert forall|i: int| 0 <= i < ps.len() implies #[trigger] sounds_tones(words_sounds(ps))[i]
        == pieces_tones(ps)[i] by {
        lemma_word_tones(ps[i]);
    }
    assert(sounds_tones(words_sounds(ps)) =~= pieces_tones(ps));
    lemma_join_separator_pieces(m);
    let sep = seq![' ', '/', ' '];
    assert(symbol_tones(sep) =~= Seq::<u64>::empty()) by {
        assert(sep.drop_last().drop_last().drop_last() =~= Seq::<char>::empty());
        assert(sep.drop_last().drop_last().last() == ' ');
        assert(sep.drop_last().last() == '/');
        assert(sep.last() == ' ');
        reveal_with_fuel(symbol_tones, 4);
    }
    lemma_symbol_tones_join(ps, sep);
}

/// A letter of dots and dashes sounds each symbol in turn with a 60 ms
/// silence between two symbols: a tone at each even position (60 ms for a
/// dot, 180 ms for a dash) and a silence at each odd one.
pub proof fn lemma_letter_shape(code: Seq<char>)
    requires
        code.len() > 0,
        forall|k: int| 0 <= k < code.len() ==> (#[trigger] code[k] == '.' || code[k] == '-'),
    ensures
        letter_sounds(code).len() == 2 * code.len() - 1,
        forall|k: int|
            0 <= k < code.len() ==> #[trigger] letter_sounds(code)[2 * k] == Sound::Tone(
                if code[k] == '.' {
                    60u64
                } else {
                    180u64
                },
            ),
        forall|k: int|
            0 <= k < code.len() - 1 ==> #[trigger] letter_sounds(code)[2 * k + 1] == Sound::Silence(
                60,
            ),
    decreases code.len(),
{
    let n = code.len();
    let c = code.last();
    if n == 1 {
        assert(symbols_sounds(code) =~= seq![symbol_sounds(c)]);
    } else {
        let c0 = code.drop_last();
        assert forall|k: int| 0 <= k < c0.len() implies (#[trigger] c0[k] == '.' || c0[k] == '-') by {
            assert(c0[k] == code[k]);
        }
        lemma_letter_shape(c0);
        assert(symbols_sounds(code) =~= symbols_sounds(c0).push(symbol_sounds(c)));
        lemma_join_push(symbols_sounds(c0), symbol_sounds(c), seq![Sound::Silence(SYMBOL_GAP_MS)]);
        let a = letter_sounds(c0);
        let l = letter_sounds(code);
        assert(l == a + seq![Sound::Silence(SYMBOL_GAP_MS)] + symbol_sounds(c));
        assert forall|k: int| 0 <= k < n implies #[trigger] l[2 * k] == Sound::Tone(
            if code[k] == '.' {
                60u64
            } else {
                180u64
            },
        ) by {
            if k < n - 1 {
                assert(l[2 * k] == a[2 * k]);
                assert(c0[k] == code[k]);
            }
        }
        assert forall|k: int| 0 <= k < n - 1 implies #[trigger] l[2 * k + 1] == Sound::Silence(60) by {
            if k < n - 2 {
                assert(l[2 * k + 1] == a[2 * k + 1]);
            }
        }
    }
}

} // verus!
