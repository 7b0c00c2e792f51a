//! Words of a text: splitting at white space and joining with a separator.
use vstd::prelude::*;
use crate::chars::{is_white_space, is_whitespace};

verus! {

broadcast use vstd::string::group_string_axioms;

/// The characters of `s`, in order.
pub fn chars_of(s: &str) -> (r: Vec<char>)
    ensures
        r@ == s@,
{
    let mut r: Vec<char> = Vec::new();
    for c in it: s.chars()
        invariant
            r@ == it.seq().take(it.index() as int),
    {
        r.push(c);
    }
    r
}

/// The items of `list` with `sep` between each two neighbours.
pub open spec fn join<A>(list: Seq<Seq<A>>, sep: Seq<A>) -> Seq<A>
    decreases list.len(),
{
    if list.len() == 0 {
        Seq::empty()
    } else if list.len() == 1 {
        list[0]
    } else {
        join(list.drop_last(), sep) + sep + list.last()
    }
}

/// Joining one more item appends the separator and the item.
pub proof fn lemma_join_push<A>(list: Seq<Seq<A>>, x: Seq<A>, sep: Seq<A>)
    requires
        list.len() > 0,
    ensures
        join(list.push(x), sep) == join(list, sep) + sep + x,
{
    assert(list.push(x).drop_last() =~= list);
}

/// The characters at which `runs` breaks `s`: white space, or the space
/// character alone.
pub open spec fn is_break(c: char, at_white_space: bool) -> bool {
    if at_white_space {
        is_white_space(c)
    } else {
        c == ' '
    }
}

/// The maximal runs of characters of `s` that are not breaks, in order.
pub open spec fn runs(s: Seq<char>, at_white_space: bool) -> Seq<Seq<char>>
    decreases s.len(),
{
    if s.len() == 0 {
        Seq::empty()
    } else {
        let prev = runs(s.drop_last(), at_white_space);
        let c = s.last();
        if is_break(c, at_white_space) {
            prev
        } else if s.len() >= 2 && !is_break(s[s.len() - 2], at_white_space) {
            prev.update(prev.len() - 1, prev.last().push(c))
        } else {
            prev.push(seq![c])
        }
    }
}

/// The words of `s`: its maximal runs of characters that are not white space,
/// in order (what `str::split_whitespace` yields).
pub open spec fn words_of(s: Seq<char>) -> Seq<Seq<char>> {
    runs(s, true)
}

/// The non-empty pieces of `s` between space characters (what
/// `s.split(' ').filter(|p| !p.is_empty())` yields).
pub open spec fn space_runs(s: Seq<char>) -> Seq<Seq<char>> {
    runs(s, false)
}

/// The views of a list of character vectors.
pub open spec fn views(v: Seq<Vec<char>>) -> Seq<Seq<char>> {
    v.map_values(|w: Vec<char>| w@)
}

/// A text that ends in a character that is no break has at least one run.
pub proof fn lemma_runs_nonempty(s: Seq<char>, at_white_space: bool)
    requires
        s.len() > 0,
        !is_break(s.last(), at_white_space),
    ensures
        runs(s, at_white_space).len() > 0,
    decreases s.len(),
{
    if s.len() >= 2 && !is_break(s[s.len() - 2], at_white_space) {
        lemma_runs_nonempty(s.drop_last(), at_white_space);
    }
}

/// A text that ends in a word character has at least one word.
pub proof fn lemma_words_nonempty(s: Seq<char>)
    requires
        s.len() > 0,
        !is_white_space(s.last()),
    ensures
        words_of(s).len() > 0,
{
    lemma_runs_nonempty(s, true);
}

/// The runs of `s`: split at white space as `str::split_whitespace` does,
/// or at spaces with the empty pieces dropped.
pub fn split_runs(s: &Vec<char>, at_white_space: bool) -> (r: Vec<Vec<char>>)
    ensures
        views(r@) == runs(s@, at_white_space),
{
    let mut words: Vec<Vec<char>> = Vec::new();
    let mut cur: Vec<char> = Vec::new();
    let n = s.len();
    let mut i: usize = 0;
    while i < n
        invariant
            n == s@.len(),
            i <= n,
            cur@.len() > 0 <==> (i > 0 && !is_break(s@[i - 1], at_white_space)),
            runs(s@.take(i as int), at_white_space) == if cur@.len() > 0 {
                views(words@).push(cur@)
            } else {
                views(words@)
            },
        decreases n - i,
    {
        let c = s[i];
        let ghost pre = s@.take(i as int);
        let ghost post = s@.take(i + 1);
        assert(post.drop_last() =~= pre);
        assert(post.last() == c);
        let brk = if at_white_space {
            is_whitespace(c)
        } else {
            c == ' '
        };
        if brk {
            if cur.len() > 0 {
                let ghost w = views(words@);
                let ghost cv = cur@;
                let mut full: Vec<char> = Vec::new();
                std::mem::swap(&mut full, &mut cur);
                words.push(full);
                assert(views(words@) =~= w.push(cv));
            }
        } else {
            let ghost w = views(words@);
            let ghost cv = cur@;
            if i > 0 {
                assert(post[i - 1] == s@[i - 1]);
            }
            cur.push(c);
            proof {
                if cv.len() > 0 {
                    assert(w.push(cv).update(w.len() as int, cv.push(c)) =~= w.push(cur@));
                } else {
                    assert(cur@ =~= seq![c]);
                }
            }
            assert(views(words@) =~= w);
        }
        i = i + 1;
    }
    assert(s@.take(n as int) =~= s@);
    if cur.len() > 0 {
        let ghost w = views(words@);
        let ghost cv = cur@;
        words.push(cur);
        assert(views(words@) =~= w.push(cv));
    }
    words
}

/// Append the characters of `v` to `s`.
pub fn push_chars(s: &mut String, v: &Vec<char>)
    ensures
        final(s)@ == old(s)@ + v@,
{
    let n = v.len();
    let mut i: usize = 0;
    while i < n
        invariant
            n == v@.len(),
            i <= n,
            s@ == old(s)@ + v@.take(i as int),
        decreases n - i,
    {
        s.push(v[i]);
        assert(v@.take(i + 1) =~= v@.take(i as int).push(v@[i as int]));
        i = i + 1;
    }
    assert(v@.take(n as int) =~= v@);
}

/// Joining two non-empty lists is joining each and putting the separator
/// between.
pub proof fn lemma_join_concat<A>(a: Seq<Seq<A>>, b: Seq<Seq<A>>, sep: Seq<A>)
    requires
        a.len() > 0,
        b.len() > 0,
    ensures
        join(a + b, sep) == join(a, sep) + sep + join(b, sep),
    decreases b.len(),
{
    if b.len() == 1 {
        assert(a + b =~= a.push(b[0]));
        lemma_join_push(a, b[0], sep);
    } else {
        let b0 = b.drop_last();
        assert(a + b =~= (a + b0).push(b.last()));
        lemma_join_push(a + b0, b.last(), sep);
        lemma_join_concat(a, b0, sep);
        assert(b0.push(b.last()) =~= b);
        lemma_join_push(b0, b.last(), sep);
        assert(join(a, sep) + sep + join(b0, sep) + sep + b.last() =~= join(a, sep) + sep + (
        join(b0, sep) + sep + b.last()));
    }
}

/// True when `w` is a non-empty run of characters that are no breaks.
pub open spec fn is_run(w: Seq<char>, at_white_space: bool) -> bool {
    &&& w.len() > 0
    &&& forall|i: int| 0 <= i < w.len() ==> !is_break(#[trigger] w[i], at_white_space)
}

/// True when `w` is a non-empty run of characters that are not white space.
pub open spec fn is_word(w: Seq<char>) -> bool {
    is_run(w, true)
}

/// A break ends the runs: it adds none.
pub proof fn lemma_runs_push_break(s: Seq<char>, c: char, at_white_space: bool)
    requires
        is_break(c, at_white_space),
    ensures
        runs(s.push(c), at_white_space) == runs(s, at_white_space),
{
    assert(s.push(c).drop_last() =~= s);
}

/// After a break (or at the start), a run adds itself to the runs.
pub proof fn lemma_runs_append_run(s: Seq<char>, w: Seq<char>, at_white_space: bool)
    requires
        s.len() == 0 || is_break(s.last(), at_white_space),
        is_run(w, at_white_space),
    ensures
        runs(s + w, at_white_space) == runs(s, at_white_space).push(w),
    decreases w.len(),
{
    let r = runs(s, at_white_space);
    if w.len() == 1 {
        assert(s + w =~= s.push(w[0]));
        assert((s + w).drop_last() =~= s);
        assert(w =~= seq![w[0]]);
    } else {
        let w0 = w.drop_last();
        assert(is_run(w0, at_white_space));
        lemma_runs_append_run(s, w0, at_white_space);
        assert((s + w).drop_last() =~= s + w0);
        assert((s + w)[(s + w).len() - 2] == w0.last());
        assert(w0.push(w.last()) =~= w);
        assert(r.push(w0).update(r.len() as int, w0.push(w.last())) =~= r.push(w));
    }
}

/// Every word is a non-empty run of characters that are not white space.
pub proof fn lemma_words_are_words(s: Seq<char>)
    ensures
        forall|i: int| 0 <= i < words_of(s).len() ==> is_word(#[trigger] words_of(s)[i]),
    decreases s.len(),
{
    if s.len() > 0 {
        let prev = words_of(s.drop_last());
        lemma_words_are_words(s.drop_last());
        let c = s.last();
        if !is_white_space(c) {
            if s.len() >= 2 && !is_white_space(s[s.len() - 2]) {
                lemma_words_nonempty(s.drop_last());
                let w = prev.last();
                assert(is_word(w));
                assert(is_word(w.push(c)));
            } else {
                assert(is_word(seq![c]));
            }
        }
    }
}

/// Runs joined by single spaces split back into the same runs.
pub proof fn lemma_runs_of_join(l: Seq<Seq<char>>, at_white_space: bool)
    requires
        forall|i: int| 0 <= i < l.len() ==> is_run(#[trigger] l[i], at_white_space),
    ensures
        runs(join(l, seq![' ']), at_white_space) == l,
    decreases l.len(),
{
    assert(is_break(' ', at_white_space));
    if l.len() == 0 {
    } else if l.len() == 1 {
        lemma_runs_append_run(Seq::empty(), l[0], at_white_space);
        assert(Seq::<char>::empty() + l[0] =~= l[0]);
        assert(Seq::<Seq<char>>::empty().push(l[0]) =~= l);
    } else {
        let l0 = l.drop_last();
        assert(is_run(l[0], at_white_space));
        lemma_runs_of_join(l0, at_white_space);
        let j0 = join(l0, seq![' ']);
        lemma_runs_push_break(j0, ' ', at_white_space);
        assert(j0 + seq![' '] =~= j0.push(' '));
        assert(is_run(l.last(), at_white_space));
        lemma_runs_append_run(j0.push(' '), l.last(), at_white_space);
        assert(l0.push(l.last()) =~= l);
    }
}

/// Joining one more item of a list.
pub proof fn lemma_join_take<A>(l: Seq<Seq<A>>, k: int, sep: Seq<A>)
    requires
        0 <= k < l.len(),
    ensures
        join(l.take(k + 1), sep) == if k == 0 {
            l[0]
        } else {
            join(l.take(k), sep) + sep + l[k]
        },
{
    assert(l.take(k + 1) =~= l.take(k).push(l[k]));
    if k > 0 {
        lemma_join_push(l.take(k), l[k], sep);
    }
}

/// `s` without the white space at its start.
pub open spec fn trim_start(s: Seq<char>) -> Seq<char>
    decreases s.len(),
{
    if s.len() > 0 && is_white_space(s[0]) {
        trim_start(s.drop_first())
    } else {
        s
    }
}

/// `s` without the white space at its end.
pub open spec fn trim_end(s: Seq<char>) -> Seq<char>
    decreases s.len(),
{
    if s.len() > 0 && is_white_space(s.last()) {
        trim_end(s.drop_last())
    } else {
        s
    }
}

/// `s` without white space at either end (what `str::trim` yields).
pub open spec fn trim(s: Seq<char>) -> Seq<char> {
    trim_end(trim_start(s))
}

/// The characters of `s` from index `a` up to `b`.
pub fn copy_range(s: &Vec<char>, a: usize, b: usize) -> (r: Vec<char>)
    requires
        a <= b <= s@.len(),
    ensures
        r@ == s@.subrange(a as int, b as int),
{
    let mut r: Vec<char> = Vec::new();
    let mut i = a;
    while i < b
        invariant
            a <= i <= b,
            b <= s@.len(),
            r@ == s@.subrange(a as int, i as int),
        decreases b - i,
    {
        r.push(s[i]);
        assert(s@.subrange(a as int, i + 1) =~= s@.subrange(a as int, i as int).push(s@[i as int]));
        i = i + 1;
    }
    r
}

/// `s` without white space at either end, as `str::trim` does.
pub fn trim_chars(s: &Vec<char>) -> (r: Vec<char>)
    ensures
        r@ == trim(s@),
{
    let n = s.len();
    let mut a: usize = 0;
    assert(s@.skip(0) =~= s@);
    while a < n && is_whitespace(s[a])
        invariant
            n == s@.len(),
            a <= n,
            trim_start(s@) == trim_start(s@.skip(a as int)),
        decreases n - a,
    {
        assert(s@.skip(a as int).drop_first() =~= s@.skip(a + 1));
        a = a + 1;
    }
    assert(trim_start(s@) == s@.skip(a as int)) by {
        if a == n {
            assert(s@.skip(a as int) =~= Seq::<char>::empty());
        } else {
            assert(s@.skip(a as int)[0] == s@[a as int]);
        }
    }
    let mut b: usize = n;
    assert(s@.subrange(a as int, n as int) =~= s@.skip(a as int));
    while b > a && is_whitespace(s[b - 1])
        invariant
            n == s@.len(),
            a <= b <= n,
            trim_start(s@) == s@.skip(a as int),
            trim(s@) == trim_end(s@.subrange(a as int, b as int)),
        decreases b,
    {
        assert(s@.subrange(a as int, b as int).drop_last() =~= s@.subrange(a as int, b - 1));
        b = b - 1;
    }
    copy_range(s, a, b)
}

/// The pieces of `s` between occurrences of ` / `, found left to right
/// without overlap (what `str::split(" / ")` yields).
pub open spec fn separator_pieces(s: Seq<char>) -> Seq<Seq<char>>
    decreases s.len(),
{
    if s.len() < 3 {
        seq![s]
    } else if s[0] == ' ' && s[1] == '/' && s[2] == ' ' {
        seq![Seq::empty()] + separator_pieces(s.skip(3))
    } else {
        let r = separator_pieces(s.drop_first());
        r.update(0, seq![s[0]] + r[0])
    }
}

/// There is always at least one piece.
pub proof fn lemma_separator_pieces_nonempty(s: Seq<char>)
    ensures
        separator_pieces(s).len() >= 1,
    decreases s.len(),
{
    if s.len() >= 3 {
        if s[0] == ' ' && s[1] == '/' && s[2] == ' ' {
            lemma_separator_pieces_nonempty(s.skip(3));
        } else {
            lemma_separator_pieces_nonempty(s.drop_first());
        }
    }
}

/// Split `s` at each occurrence of ` / `, as `str::split(" / ")` does.
pub fn split_at_separator(s: &Vec<char>) -> (r: Vec<Vec<char>>)
    ensures
        views(r@) == separator_pieces(s@),
{
    let n = s.len();
    let mut pieces: Vec<Vec<char>> = Vec::new();
    let mut cur: Vec<char> = Vec::new();
    let mut i: usize = 0;
    proof {
        lemma_separator_pieces_nonempty(s@);
        let r = separator_pieces(s@);
        assert(s@.skip(0) =~= s@);
        assert(views(pieces@) + seq![cur@ + r[0]] + r.skip(1) =~= r);
    }
    while n - i >= 3
        invariant
            n == s@.len(),
            i <= n,
            separator_pieces(s@) == views(pieces@) + seq![
                cur@ + separator_pieces(s@.skip(i as int))[0],
            ] + separator_pieces(s@.skip(i as int)).skip(1),
        decreases n - i,
    {
        let ghost t = s@.skip(i as int);
        let ghost before = views(pieces@);
        let ghost cv = cur@;
        proof {
            lemma_separator_pieces_nonempty(t);
        }
        if s[i] == ' ' && s[i + 1] == '/' && s[i + 2] == ' ' {
            assert(t[0] == ' ' && t[1] == '/' && t[2] == ' ');
            assert(t.skip(3) =~= s@.skip(i + 3));
            let ghost rest = separator_pieces(s@.skip(i + 3));
            proof {
                lemma_separator_pieces_nonempty(s@.skip(i + 3));
            }
            let mut full: Vec<char> = Vec::new();
            std::mem::swap(&mut full, &mut cur);
            pieces.push(full);
            assert(views(pieces@) =~= before.push(cv));
            assert(separator_pieces(t) =~= seq![Seq::<char>::empty()] + rest);
            assert(before + seq![cv + Seq::<char>::empty()] + rest =~= views(pieces@) + seq![
                cur@ + rest[0],
            ] + rest.skip(1));
            i = i + 3;
        } else {
            assert(!(t[0] == ' ' && t[1] == '/' && t[2] == ' '));
            assert(t.drop_first() =~= s@.skip(i + 1));
            let ghost r = separator_pieces(s@.skip(i + 1));
            proof {
                lemma_separator_pieces_nonempty(s@.skip(i + 1));
            }
            cur.push(s[i]);
            assert(views(pieces@) =~= before);
            assert(cv + (seq![t[0]] + r[0]) =~= cur@ + r[0]);
            assert(r.update(0, seq![t[0]] + r[0]).skip(1) =~= r.skip(1));
            i = i + 1;
        }
    }
    let ghost t = s@.skip(i as int);
    assert(separator_pieces(t) == seq![t]);
    let ghost before = views(pieces@);
    let ghost cv = cur@;
    let tail = copy_range(s, i, n);
    assert(tail@ =~= t);
    let mut last = cur;
    let mut j: usize = 0;
    while j < tail.len()
        invariant
            last@ == cv + tail@.take(j as int),
            j <= tail@.len(),
        decreases tail@.len() - j,
    {
        last.push(tail[j]);
        assert(tail@.take(j + 1) =~= tail@.take(j as int).push(tail@[j as int]));
        j = j + 1;
    }
    assert(tail@.take(j as int) =~= tail@);
    pieces.push(last);
    assert(views(pieces@) =~= before.push(cv + t));
    assert(seq![t].skip(1) =~= Seq::<Seq<char>>::empty());
    assert(before + seq![cv + t] + Seq::<Seq<char>>::empty() =~= before.push(cv + t));
    pieces
}

/// What holds of every element of the items and of the separator holds of
/// every element of their join.
pub proof fn lemma_join_all<A>(l: Seq<Seq<A>>, sep: Seq<A>, p: spec_fn(A) -> bool)
    requires
        forall|i: int, k: int| 0 <= i < l.len() && 0 <= k < l[i].len() ==> p(#[trigger] l[i][k]),
        forall|k: int| 0 <= k < sep.len() ==> p(#[trigger] sep[k]),
    ensures
        forall|k: int| 0 <= k < join(l, sep).len() ==> p(#[trigger] join(l, sep)[k]),
    decreases l.len(),
{
    if l.len() == 1 {
        assert forall|k: int| 0 <= k < join(l, sep).len() implies p(#[trigger] join(l, sep)[k]) by {
            assert(p(l[0][k]));
        }
    } else if l.len() > 1 {
        let l0 = l.drop_last();
        assert forall|i: int, k: int| 0 <= i < l0.len() && 0 <= k < l0[i].len() implies p(
            #[trigger] l0[i][k],
        ) by {
            assert(l0[i] == l[i]);
            assert(p(l[i][k]));
        }
        lemma_join_all(l0, sep, p);
        let j0 = join(l0, sep);
        let j = join(l, sep);
        let last = l.last();
        assert(j == j0 + sep + last);
        assert forall|k: int| 0 <= k < j.len() implies p(#[trigger] j[k]) by {
            if k < j0.len() {
                assert(j[k] == j0[k]);
            } else if k < j0.len() + sep.len() {
                assert(j[k] == sep[k - j0.len()]);
            } else {
                assert(j[k] == last[k - j0.len() - sep.len()]);
                assert(p(l[l.len() - 1][k - j0.len() - sep.len()]));
            }
        }
    }
}

/// The first and last elements of a join of non-empty items.
pub proof fn lemma_join_ends<A>(l: Seq<Seq<A>>, sep: Seq<A>)
    requires
        l.len() > 0,
        forall|i: int| 0 <= i < l.len() ==> #[trigger] l[i].len() > 0,
    ensures
        join(l, sep).len() > 0,
        join(l, sep)[0] == l[0][0],
        join(l, sep).last() == l.last().last(),
    decreases l.len(),
{
    if l.len() > 1 {
        let l0 = l.drop_last();
        assert forall|i: int| 0 <= i < l0.len() implies #[trigger] l0[i].len() > 0 by {
            assert(l0[i] == l[i]);
        }
        lemma_join_ends(l0, sep);
        assert(l.last().len() > 0);
    }
}

/// A text with no white space at either end is its own trim.
pub proof fn lemma_trim_untouched(s: Seq<char>)
    requires
        s.len() > 0,
        !is_white_space(s[0]),
        !is_white_space(s.last()),
    ensures
        trim(s) == s,
{
}

/// A text without `/` is a single piece.
pub proof fn lemma_separator_pieces_plain(a: Seq<char>)
    requires
        forall|k: int| 0 <= k < a.len() ==> #[trigger] a[k] != '/',
    ensures
        separator_pieces(a) == seq![a],
    decreases a.len(),
{
    if a.len() >= 3 {
        assert(a[1] != '/');
        let a1 = a.drop_first();
        assert forall|k: int| 0 <= k < a1.len() implies #[trigger] a1[k] != '/' by {
            assert(a1[k] == a[k + 1]);
        }
        lemma_separator_pieces_plain(a1);
        assert(seq![a[0]] + a1 =~= a);
    }
}

/// A piece without `/` followed by ` / ` is the first piece.
pub proof fn lemma_separator_pieces_sep(a: Seq<char>, rest: Seq<char>)
    requires
        forall|k: int| 0 <= k < a.len() ==> #[trigger] a[k] != '/',
    ensures
        separator_pieces(a + seq![' ', '/', ' '] + rest) == seq![a] + separator_pieces(rest),
    decreases a.len(),
{
    let x = a + seq![' ', '/', ' '] + rest;
    if a.len() == 0 {
        assert(x[0] == ' ' && x[1] == '/' && x[2] == ' ');
        assert(x.skip(3) =~= rest);
        assert(a =~= Seq::<char>::empty());
    } else {
        if a.len() >= 2 {
            assert(x[1] == a[1]);
        } else {
            assert(x[1] == ' ');
        }
        let a1 = a.drop_first();
        assert forall|k: int| 0 <= k < a1.len() implies #[trigger] a1[k] != '/' by {
            assert(a1[k] == a[k + 1]);
        }
        lemma_separator_pieces_sep(a1, rest);
        assert(x.drop_first() =~= a1 + seq![' ', '/', ' '] + rest);
        assert(seq![a[0]] + a1 =~= a);
        let r = separator_pieces(x.drop_first());
        assert(r.update(0, seq![x[0]] + r[0]) =~= seq![a] + separator_pieces(rest));
    }
}

/// Pieces without `/` joined by ` / ` split back into the same pieces.
pub proof fn lemma_separator_pieces_join(l: Seq<Seq<char>>)
    requires
        l.len() > 0,
        forall|i: int, k: int| 0 <= i < l.len() && 0 <= k < l[i].len() ==> #[trigger] l[i][k] != '/',
    ensures
        separator_pieces(join(l, seq![' ', '/', ' '])) == l,
    decreases l.len(),
{
    assert forall|k: int| 0 <= k < l[0].len() implies #[trigger] l[0][k] != '/' by {
        assert(l[0][k] != '/');
    }
    if l.len() == 1 {
        lemma_separator_pieces_plain(l[0]);
        assert(seq![l[0]] =~= l);
    } else {
        let rest = l.drop_first();
        assert forall|i: int, k: int| 0 <= i < rest.len() && 0 <= k < rest[i].len() implies #[trigger] rest[i][k]
            != '/' by {
            assert(rest[i] == l[i + 1]);
            assert(l[i + 1][k] != '/');
        }
        lemma_separator_pieces_join(rest);
        let first: Seq<Seq<char>> = seq![l[0]];
        assert(first + rest =~= l);
        lemma_join_concat(first, rest, seq![' ', '/', ' ']);
        lemma_separator_pieces_sep(l[0], join(rest, seq![' ', '/', ' ']));
    }
}

/// Putting text in front of the first item puts it in front of the join.
pub proof fn lemma_join_update_first<A>(r: Seq<Seq<A>>, p: Seq<A>, sep: Seq<A>)
    requires
        r.len() > 0,
    ensures
        join(r.update(0, p + r[0]), sep) == p + join(r, sep),
    decreases r.len(),
{
    if r.len() > 1 {
        let r0 = r.drop_last();
        lemma_join_update_first(r0, p, sep);
        assert(r.update(0, p + r[0]).drop_last() =~= r0.update(0, p + r0[0]));
        assert(p + join(r0, sep) + sep + r.last() =~= p + (join(r0, sep) + sep + r.last()));
    }
}

/// Splitting at ` / ` and joining the pieces with ` / ` gives back the text.
pub proof fn lemma_join_separator_pieces(m: Seq<char>)
    ensures
        join(separator_pieces(m), seq![' ', '/', ' ']) == m,
    decreases m.len(),
{
    let sep = seq![' ', '/', ' '];
    if m.len() < 3 {
    } else if m[0] == ' ' && m[1] == '/' && m[2] == ' ' {
        let rest = separator_pieces(m.skip(3));
        lemma_join_separator_pieces(m.skip(3));
        lemma_separator_pieces_nonempty(m.skip(3));
        let first: Seq<Seq<char>> = seq![Seq::empty()];
        lemma_join_concat(first, rest, sep);
        assert(join(first, sep) == Seq::<char>::empty());
        assert(Seq::<char>::empty() + sep + m.skip(3) =~= m);
    } else {
        let r = separator_pieces(m.drop_first());
        lemma_separator_pieces_nonempty(m.drop_first());
        lemma_join_separator_pieces(m.drop_first());
        lemma_join_update_first(r, seq![m[0]], sep);
        assert(seq![m[0]] + m.drop_first() =~= m);
    }
}

} // verus!
