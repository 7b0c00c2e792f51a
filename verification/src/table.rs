//! The Morse table: letters, digits and punctuation with their codes.
use vstd::prelude::*;

verus! {

/// The Morse code of `c`, for the characters of the table (upper-case
/// letters, digits and `. , ? ! - / @ ( )`); `None` for any other character.
pub open spec fn code_of(c: char) -> Option<Seq<char>> {
    match c {
        'A' => Some(seq!['.', '-']),
        'B' => Some(seq!['-', '.', '.', '.']),
        'C' => Some(seq!['-', '.', '-', '.']),
        'D' => Some(seq!['-', '.', '.']),
        'E' => Some(seq!['.']),
        'F' => Some(seq!['.', '.', '-', '.']),
        'G' => Some(seq!['-', '-', '.']),
        'H' => Some(seq!['.', '.', '.', '.']),
        'I' => Some(seq!['.', '.']),
        'J' => Some(seq!['.', '-', '-', '-']),
        'K' => Some(seq!['-', '.', '-']),
        'L' => Some(seq!['.', '-', '.', '.']),
        'M' => Some(seq!['-', '-']),
        'N' => Some(seq!['-', '.']),
        'O' => Some(seq!['-', '-', '-']),
        'P' => Some(seq!['.', '-', '-', '.']),
        'Q' => Some(seq!['-', '-', '.', '-']),
        'R' => Some(seq!['.', '-', '.']),
        'S' => Some(seq!['.', '.', '.']),
        'T' => Some(seq!['-']),
        'U' => Some(seq!['.', '.', '-']),
        'V' => Some(seq!['.', '.', '.', '-']),
        'W' => Some(seq!['.', '-', '-']),
        'X' => Some(seq!['-', '.', '.', '-']),
        'Y' => Some(seq!['-', '.', '-', '-']),
        'Z' => Some(seq!['-', '-', '.', '.']),
        '0' => Some(seq!['-', '-', '-', '-', '-']),
        '1' => Some(seq!['.', '-', '-', '-', '-']),
        '2' => Some(seq!['.', '.', '-', '-', '-']),
        '3' => Some(seq!['.', '.', '.', '-', '-']),
        '4' => Some(seq!['.', '.', '.', '.', '-']),
        '5' => Some(seq!['.', '.', '.', '.', '.']),
        '6' => Some(seq!['-', '.', '.', '.', '.']),
        '7' => Some(seq!['-', '-', '.', '.', '.']),
        '8' => Some(seq!['-', '-', '-', '.', '.']),
        '9' => Some(seq!['-', '-', '-', '-', '.']),
        '.' => Some(seq!['.', '-', '.', '-', '.', '-']),
        ',' => Some(seq!['-', '-', '.', '.', '-', '-']),
        '?' => Some(seq!['.', '.', '-', '-', '.', '.']),
        '!' => Some(seq!['-', '.', '-', '.', '-', '-']),
        '-' => Some(seq!['-', '.', '.', '.', '.', '-']),
        '/' => Some(seq!['-', '.', '.', '-', '.']),
        '@' => Some(seq!['.', '-', '-', '.', '-', '.']),
        '(' => Some(seq!['-', '.', '-', '-', '.']),
        ')' => Some(seq!['-', '.', '-', '-', '.', '-']),
        _ => None,
    }
}

/// The character whose Morse code is `t`, if the table has one.
pub open spec fn char_of(t: Seq<char>) -> Option<char> {
    if exists|c: char| #[trigger] code_of(c) == Some(t) {
        Some(choose|c: char| #[trigger] code_of(c) == Some(t))
    } else {
        None
    }
}

/// True when every character of `t` is a dot or a dash.
pub open spec fn is_dots_and_dashes(t: Seq<char>) -> bool {
    forall|i: int| 0 <= i < t.len() ==> (#[trigger] t[i] == '.' || t[i] == '-')
}

/// The number whose binary digits, after a leading one, are the first `n`
/// symbols of `t`, a dash counting as one and a dot as zero.
pub open spec fn key_of_prefix(t: Seq<char>, n: int) -> int
    decreases n,
{
    if n <= 0 {
        1
    } else {
        2 * key_of_prefix(t, n - 1) + if t[n - 1] == '-' { 1int } else { 0int }
    }
}

/// The key of a whole code: distinct codes of dots and dashes have distinct keys.
pub open spec fn code_key(t: Seq<char>) -> int {
    key_of_prefix(t, t.len() as int)
}

/// The table indexed by key.
pub open spec fn char_of_key(k: int) -> Option<char> {
    if k == 5 {
        Some('A')
    } else     if k == 24 {
        Some('B')
    } else     if k == 26 {
        Some('C')
    } else     if k == 12 {
        Some('D')
    } else     if k == 2 {
        Some('E')
    } else     if k == 18 {
        Some('F')
    } else     if k == 14 {
        Some('G')
    } else     if k == 16 {
        Some('H')
    } else     if k == 4 {
        Some('I')
    } else     if k == 23 {
        Some('J')
    } else     if k == 13 {
        Some('K')
    } else     if k == 20 {
        Some('L')
    } else     if k == 7 {
        Some('M')
    } else     if k == 6 {
        Some('N')
    } else     if k == 15 {
        Some('O')
    } else     if k == 22 {
        Some('P')
    } else     if k == 29 {
        Some('Q')
    } else     if k == 10 {
        Some('R')
    } else     if k == 8 {
        Some('S')
    } else     if k == 3 {
        Some('T')
    } else     if k == 9 {
        Some('U')
    } else     if k == 17 {
        Some('V')
    } else     if k == 11 {
        Some('W')
    } else     if k == 25 {
        Some('X')
    } else     if k == 27 {
        Some('Y')
    } else     if k == 28 {
        Some('Z')
    } else     if k == 63 {
        Some('0')
    } else     if k == 47 {
        Some('1')
    } else     if k == 39 {
        Some('2')
    } else     if k == 35 {
        Some('3')
    } else     if k == 33 {
        Some('4')
    } else     if k == 32 {
        Some('5')
    } else     if k == 48 {
        Some('6')
    } else     if k == 56 {
        Some('7')
    } else     if k == 60 {
        Some('8')
    } else     if k == 62 {
        Some('9')
    } else     if k == 85 {
        Some('.')
    } else     if k == 115 {
        Some(',')
    } else     if k == 76 {
        Some('?')
    } else     if k == 107 {
        Some('!')
    } else     if k == 97 {
        Some('-')
    } else     if k == 50 {
        Some('/')
    } else     if k == 90 {
        Some('@')
    } else     if k == 54 {
        Some('(')
    } else     if k == 109 {
        Some(')')
    } else {
        None
    }
}

/// Look up the Morse code of `c` in the encode table.
pub fn encode_map(c: char) -> (r: Option<&'static str>)
    ensures
        r is None <==> code_of(c) is None,
        r matches Some(t) ==> code_of(c) == Some(t@),
{
    match c {
        'A' => {
            proof {
                reveal_strlit(".-");
            }
            Some(".-")
        },
        'B' => {
            proof {
                reveal_strlit("-...");
            }
            Some("-...")
        },
        'C' => {
            proof {
                reveal_strlit("-.-.");
            }
            Some("-.-.")
        },
        'D' => {
            proof {
                reveal_strlit("-..");
            }
            Some("-..")
        },
        'E' => {
            proof {
                reveal_strlit(".");
            }
            Some(".")
        },
        'F' => {
            proof {
                reveal_strlit("..-.");
            }
            Some("..-.")
        },
        'G' => {
            proof {
                reveal_strlit("--.");
            }
            Some("--.")
        },
        'H' => {
            proof {
                reveal_strlit("....");
            }
            Some("....")
        },
        'I' => {
            proof {
                reveal_strlit("..");
            }
            Some("..")
        },
        'J' => {
            proof {
                reveal_strlit(".---");
            }
            Some(".---")
        },
        'K' => {
            proof {
                reveal_strlit("-.-");
            }
            Some("-.-")
        },
        'L' => {
            proof {
                reveal_strlit(".-..");
            }
            Some(".-..")
        },
        'M' => {
            proof {
                reveal_strlit("--");
            }
            Some("--")
        },
        'N' => {
            proof {
                reveal_strlit("-.");
            }
            Some("-.")
        },
        'O' => {
            proof {
                reveal_strlit("---");
            }
            Some("---")
        },
        'P' => {
            proof {
                reveal_strlit(".--.");
            }
            Some(".--.")
        },
        'Q' => {
            proof {
                reveal_strlit("--.-");
            }
            Some("--.-")
        },
        'R' => {
            proof {
                reveal_strlit(".-.");
            }
            Some(".-.")
        },
        'S' => {
            proof {
                reveal_strlit("...");
            }
            Some("...")
        },
        'T' => {
            proof {
                reveal_strlit("-");
            }
            Some("-")
        },
        'U' => {
            proof {
                reveal_strlit("..-");
            }
            Some("..-")
        },
        'V' => {
            proof {
                reveal_strlit("...-");
            }
            Some("...-")
        },
        'W' => {
            proof {
                reveal_strlit(".--");
            }
            Some(".--")
        },
        'X' => {
            proof {
                reveal_strlit("-..-");
            }
            Some("-..-")
        },
        'Y' => {
            proof {
                reveal_strlit("-.--");
            }
            Some("-.--")
        },
        'Z' => {
            proof {
                reveal_strlit("--..");
            }
            Some("--..")
        },
        '0' => {
            proof {
                reveal_strlit("-----");
            }
            Some("-----")
        },
        '1' => {
            proof {
                reveal_strlit(".----");
            }
            Some(".----")
        },
        '2' => {
            proof {
                reveal_strlit("..---");
            }
            Some("..---")
        },
        '3' => {
            proof {
                reveal_strlit("...--");
            }
            Some("...--")
        },
        '4' => {
            proof {
                reveal_strlit("....-");
            }
            Some("....-")
        },
        '5' => {
            proof {
                reveal_strlit(".....");
            }
            Some(".....")
        },
        '6' => {
            proof {
                reveal_strlit("-....");
            }
            Some("-....")
        },
        '7' => {
            proof {
                reveal_strlit("--...");
            }
            Some("--...")
        },
        '8' => {
            proof {
                reveal_strlit("---..");
            }
            Some("---..")
        },
        '9' => {
            proof {
                reveal_strlit("----.");
            }
            Some("----.")
        },
        '.' => {
            proof {
                reveal_strlit(".-.-.-");
            }
            Some(".-.-.-")
        },
        ',' => {
            proof {
                reveal_strlit("--..--");
            }
            Some("--..--")
        },
        '?' => {
            proof {
                reveal_strlit("..--..");
            }
            Some("..--..")
        },
        '!' => {
            proof {
                reveal_strlit("-.-.--");
            }
            Some("-.-.--")
        },
        '-' => {
            proof {
                reveal_strlit("-....-");
            }
            Some("-....-")
        },
        '/' => {
            proof {
                reveal_strlit("-..-.");
            }
            Some("-..-.")
        },
        '@' => {
            proof {
                reveal_strlit(".--.-.");
            }
            Some(".--.-.")
        },
        '(' => {
            proof {
                reveal_strlit("-.--.");
            }
            Some("-.--.")
        },
        ')' => {
            proof {
                reveal_strlit("-.--.-");
            }
            Some("-.--.-")
        },
        _ => None,
    }
}

/// Every key is at least one.
proof fn lemma_key_positive(t: Seq<char>, n: int)
    ensures
        key_of_prefix(t, n) >= 1,
    decreases n,
{
    if n > 0 {
        lemma_key_positive(t, n - 1);
    }
}

/// Equal keys of dot-and-dash prefixes come from equal prefixes.
proof fn lemma_key_prefix_injective(t1: Seq<char>, n1: int, t2: Seq<char>, n2: int)
    requires
        0 <= n1 <= t1.len(),
        0 <= n2 <= t2.len(),
        is_dots_and_dashes(t1),
        is_dots_and_dashes(t2),
        key_of_prefix(t1, n1) == key_of_prefix(t2, n2),
    ensures
        n1 == n2,
        forall|i: int| 0 <= i < n1 ==> t1[i] == t2[i],
    decreases n1,
{
    if n1 == 0 {
        if n2 > 0 {
            lemma_key_positive(t2, n2 - 1);
        }
    } else if n2 == 0 {
        lemma_key_positive(t1, n1 - 1);
    } else {
        assert(t1[n1 - 1] == '.' || t1[n1 - 1] == '-');
        assert(t2[n2 - 1] == '.' || t2[n2 - 1] == '-');
        lemma_key_prefix_injective(t1, n1 - 1, t2, n2 - 1);
    }
}

/// Equal keys of dot-and-dash codes come from equal codes.
pub proof fn lemma_code_key_injective(t1: Seq<char>, t2: Seq<char>)
    requires
        is_dots_and_dashes(t1),
        is_dots_and_dashes(t2),
        code_key(t1) == code_key(t2),
    ensures
        t1 == t2,
{
    lemma_key_prefix_injective(t1, t1.len() as int, t2, t2.len() as int);
    assert(t1 =~= t2);
}

/// Each code of the table is one to six dots and dashes, and its key leads
/// back to its character.
pub proof fn lemma_code_shape(c: char)
    requires
        code_of(c) is Some,
    ensures
        is_dots_and_dashes(code_of(c)->0),
        1 <= code_of(c)->0.len() <= 6,
        char_of_key(code_key(code_of(c)->0)) == Some(c),
{
    reveal_with_fuel(key_of_prefix, 7);
}

/// On dots and dashes, the table read by key is the table read by code.
pub proof fn lemma_char_of_by_key(t: Seq<char>)
    requires
        is_dots_and_dashes(t),
    ensures
        char_of(t) == char_of_key(code_key(t)),
{
    if exists|c: char| #[trigger] code_of(c) == Some(t) {
        let c = choose|c: char| #[trigger] code_of(c) == Some(t);
        lemma_code_shape(c);
    } else {
        if let Some(c) = char_of_key(code_key(t)) {
            lemma_code_shape(c);
            lemma_code_key_injective(t, code_of(c)->0);
        }
    }
}

/// The table is one to one: `t` is the code of `c` exactly when `c` is the
/// character of `t`.
pub proof fn lemma_table_inverse(c: char, t: Seq<char>)
    ensures
        code_of(c) == Some(t) <==> char_of(t) == Some(c),
{
    if code_of(c) == Some(t) {
        lemma_code_shape(c);
        lemma_char_of_by_key(t);
    }
}

/// The characters of the table are ASCII, kept by upper-casing, and never
/// white space.
pub proof fn lemma_table_chars(c: char)
    requires
        code_of(c) is Some,
    ensures
        (c as u32) < 128,
        crate::chars::ascii_upper(c) == c,
        crate::chars::upper_first(c) == c,
        !crate::chars::is_white_space(c),
{
}

/// The table read by key.
fn char_for_key(k: u64) -> (r: Option<char>)
    ensures
        r == char_of_key(k as int),
{
    match k {
        5 => Some('A'),
        24 => Some('B'),
        26 => Some('C'),
        12 => Some('D'),
        2 => Some('E'),
        18 => Some('F'),
        14 => Some('G'),
        16 => Some('H'),
        4 => Some('I'),
        23 => Some('J'),
        13 => Some('K'),
        20 => Some('L'),
        7 => Some('M'),
        6 => Some('N'),
        15 => Some('O'),
        22 => Some('P'),
        29 => Some('Q'),
        10 => Some('R'),
        8 => Some('S'),
        3 => Some('T'),
        9 => Some('U'),
        17 => Some('V'),
        11 => Some('W'),
        25 => Some('X'),
        27 => Some('Y'),
        28 => Some('Z'),
        63 => Some('0'),
        47 => Some('1'),
        39 => Some('2'),
        35 => Some('3'),
        33 => Some('4'),
        32 => Some('5'),
        48 => Some('6'),
        56 => Some('7'),
        60 => Some('8'),
        62 => Some('9'),
        85 => Some('.'),
        115 => Some(','),
        76 => Some('?'),
        107 => Some('!'),
        97 => Some('-'),
        50 => Some('/'),
        90 => Some('@'),
        54 => Some('('),
        109 => Some(')'),
        _ => None,
    }
}

/// `2` to the power `n`.
pub open spec fn two_to(n: nat) -> int
    decreases n,
{
    if n == 0 {
        1
    } else {
        2 * two_to((n - 1) as nat)
    }
}

/// A key of `n` symbols is below `2` to the power `n + 1`.
proof fn lemma_key_bound(t: Seq<char>, n: nat)
    ensures
        key_of_prefix(t, n as int) < two_to(n + 1),
    decreases n,
{
    reveal_with_fuel(two_to, 2);
    if n > 0 {
        lemma_key_bound(t, (n - 1) as nat);
        assert(two_to(n + 1) == 2 * two_to(n));
    }
}

/// Look up the character of the Morse code `t` in the decode table.
pub fn decode_map(t: &Vec<char>) -> (r: Option<char>)
    ensures
        r == char_of(t@),
{
    let n = t.len();
    if n > 6 {
        proof {
            if exists|c: char| #[trigger] code_of(c) == Some(t@) {
                let c = choose|c: char| #[trigger] code_of(c) == Some(t@);
                lemma_code_shape(c);
            }
        }
        return None;
    }
    proof {
        reveal_with_fuel(two_to, 8);
    }
    let mut k: u64 = 1;
    let mut i: usize = 0;
    while i < n
        invariant
            n == t@.len(),
            n <= 6,
            i <= n,
            k == key_of_prefix(t@, i as int),
            k < two_to((i + 1) as nat),
            two_to(7) == 128,
            forall|j: int| 0 <= j < i ==> (#[trigger] t@[j] == '.' || t@[j] == '-'),
        decreases n - i,
    {
        let s = t[i];
        if s != '.' && s != '-' {
            proof {
                if exists|c: char| #[trigger] code_of(c) == Some(t@) {
                    let c = choose|c: char| #[trigger] code_of(c) == Some(t@);
                    lemma_code_shape(c);
                    assert(t@[i as int] == s);
                }
            }
            return None;
        }
        proof {
            lemma_key_bound(t@, (i + 1) as nat);
            assert(two_to((i + 1) as nat) <= 64) by {
                reveal_with_fuel(two_to, 8);
            }
        }
        k = if s == '-' { 2 * k + 1 } else { 2 * k };
        i = i + 1;
    }
    proof {
        lemma_char_of_by_key(t@);
    }
    char_for_key(k)
}

/// The letters in the order of the Morse tree: from the root a dot steps to
/// the left child and a dash to the right one, read level by level, so the
/// node whose code has key `k` is entry `k - 2`; `*` marks the nodes that
/// hold no letter of the table.
pub open spec fn morse_tree() -> Seq<char> {
    seq!['E', 'T', 'I', 'A', 'N', 'M', 'S', 'U', 'R', 'W', 'D', 'K', 'G', 'O', 'H', 'V', 'F', '*', 'L', '*', 'P', 'J', 'B', 'X', 'C', 'Y', 'Z', 'Q']
}

/// The letters are placed as in the Morse tree: each letter at entry `i` of
/// `morse_tree` has as its code the dots and dashes whose key is `i + 2`
/// (at most four symbols).
pub proof fn lemma_letters_follow_tree(i: int)
    requires
        0 <= i < morse_tree().len(),
        morse_tree()[i] != '*',
    ensures
        code_of(morse_tree()[i]) is Some,
        is_dots_and_dashes(code_of(morse_tree()[i])->0),
        code_key(code_of(morse_tree()[i])->0) == i + 2,
        code_of(morse_tree()[i])->0.len() <= 4,
{
    reveal_with_fuel(key_of_prefix, 7);
        if i == 0 {
            assert(morse_tree()[0] == 'E');
        }
        if i == 1 {
            assert(morse_tree()[1] == 'T');
        }
        if i == 2 {
            assert(morse_tree()[2] == 'I');
        }
        if i == 3 {
            assert(morse_tree()[3] == 'A');
        }
        if i == 4 {
            assert(morse_tree()[4] == 'N');
        }
        if i == 5 {
            assert(morse_tree()[5] == 'M');
        }
        if i == 6 {
            assert(morse_tree()[6] == 'S');
        }
        if i == 7 {
            assert(morse_tree()[7] == 'U');
        }
        if i == 8 {
            assert(morse_tree()[8] == 'R');
        }
        if i == 9 {
            assert(morse_tree()[9] == 'W');
        }
        if i == 10 {
            assert(morse_tree()[10] == 'D');
        }
        if i == 11 {
            assert(morse_tree()[11] == 'K');
        }
        if i == 12 {
            assert(morse_tree()[12] == 'G');
        }
        if i == 13 {
            assert(morse_tree()[13] == 'O');
        }
        if i == 14 {
            assert(morse_tree()[14] == 'H');
        }
        if i == 15 {
            assert(morse_tree()[15] == 'V');
        }
        if i == 16 {
            assert(morse_tree()[16] == 'F');
        }
        if i == 18 {
            assert(morse_tree()[18] == 'L');
        }
        if i == 20 {
            assert(morse_tree()[20] == 'P');
        }
        if i == 21 {
            assert(morse_tree()[21] == 'J');
        }
        if i == 22 {
            assert(morse_tree()[22] == 'B');
        }
        if i == 23 {
            assert(morse_tree()[23] == 'X');
        }
        if i == 24 {
            assert(morse_tree()[24] == 'C');
        }
        if i == 25 {
            assert(morse_tree()[25] == 'Y');
        }
        if i == 26 {
            assert(morse_tree()[26] == 'Z');
        }
        if i == 27 {
            assert(morse_tree()[27] == 'Q');
        }
}

/// Every upper-case letter has its place in the Morse tree.
pub proof fn lemma_tree_has_every_letter(c: char)
    requires
        'A' <= c <= 'Z',
    ensures
        exists|i: int| 0 <= i < morse_tree().len() && morse_tree()[i] == c,
{
    if c == 'E' {
        assert(morse_tree()[0] == 'E');
    }
    if c == 'T' {
        assert(morse_tree()[1] == 'T');
    }
    if c == 'I' {
        assert(morse_tree()[2] == 'I');
    }
    if c == 'A' {
        assert(morse_tree()[3] == 'A');
    }
    if c == 'N' {
        assert(morse_tree()[4] == 'N');
    }
    if c == 'M' {
        assert(morse_tree()[5] == 'M');
    }
    if c == 'S' {
        assert(morse_tree()[6] == 'S');
    }
    if c == 'U' {
        assert(morse_tree()[7] == 'U');
    }
    if c == 'R' {
        assert(morse_tree()[8] == 'R');
    }
    if c == 'W' {
        assert(morse_tree()[9] == 'W');
    }
    if c == 'D' {
        assert(morse_tree()[10] == 'D');
    }
    if c == 'K' {
        assert(morse_tree()[11] == 'K');
    }
    if c == 'G' {
        assert(morse_tree()[12] == 'G');
    }
    if c == 'O' {
        assert(morse_tree()[13] == 'O');
    }
    if c == 'H' {
        assert(morse_tree()[14] == 'H');
    }
    if c == 'V' {
        assert(morse_tree()[15] == 'V');
    }
    if c == 'F' {
        assert(morse_tree()[16] == 'F');
    }
    if c == 'L' {
        assert(morse_tree()[18] == 'L');
    }
    if c == 'P' {
        assert(morse_tree()[20] == 'P');
    }
    if c == 'J' {
        assert(morse_tree()[21] == 'J');
    }
    if c == 'B' {
        assert(morse_tree()[22] == 'B');
    }
    if c == 'X' {
        assert(morse_tree()[23] == 'X');
    }
    if c == 'C' {
        assert(morse_tree()[24] == 'C');
    }
    if c == 'Y' {
        assert(morse_tree()[25] == 'Y');
    }
    if c == 'Z' {
        assert(morse_tree()[26] == 'Z');
    }
    if c == 'Q' {
        assert(morse_tree()[27] == 'Q');
    }
}

/// The code of a digit: five symbols; `1` to `5` are that many dots, then
/// dashes; `6` to `9` and `0` (as ten) are that many less five dashes, then
/// dots.
pub open spec fn digit_code(d: int) -> Seq<char> {
    let n = if d == 0 {
        10
    } else {
        d
    };
    Seq::new(
        5,
        |k: int|
            if n <= 5 {
                if k < n {
                    '.'
                } else {
                    '-'
                }
            } else {
                if k < n - 5 {
                    '-'
                } else {
                    '.'
                }
            },
    )
}

/// The digits follow the counting pattern of `digit_code`.
pub proof fn lemma_digits_follow_pattern(d: int)
    requires
        0 <= d <= 9,
    ensures
        code_of((('0' as u32) + d) as char) == Some(digit_code(d)),
{
        if d == 0 {
            assert(digit_code(0) =~= code_of('0')->0);
        }
        if d == 1 {
            assert(digit_code(1) =~= code_of('1')->0);
        }
        if d == 2 {
            assert(digit_code(2) =~= code_of('2')->0);
        }
        if d == 3 {
            assert(digit_code(3) =~= code_of('3')->0);
        }
        if d == 4 {
            assert(digit_code(4) =~= code_of('4')->0);
        }
        if d == 5 {
            assert(digit_code(5) =~= code_of('5')->0);
        }
        if d == 6 {
            assert(digit_code(6) =~= code_of('6')->0);
        }
        if d == 7 {
            assert(digit_code(7) =~= code_of('7')->0);
        }
        if d == 8 {
            assert(digit_code(8) =~= code_of('8')->0);
        }
        if d == 9 {
            assert(digit_code(9) =~= code_of('9')->0);
        }
}

/// The punctuation marks and their codes.
pub proof fn lemma_punctuation_codes()
    ensures
        code_of('.') == Some(".-.-.-"@),
        code_of(',') == Some("--..--"@),
        code_of('?') == Some("..--.."@),
        code_of('!') == Some("-.-.--"@),
        code_of('-') == Some("-....-"@),
        code_of('/') == Some("-..-."@),
        code_of('@') == Some(".--.-."@),
        code_of('(') == Some("-.--."@),
        code_of(')') == Some("-.--.-"@),
{
    reveal_strlit(".-.-.-");
    reveal_strlit("--..--");
    reveal_strlit("..--..");
    reveal_strlit("-.-.--");
    reveal_strlit("-....-");
    reveal_strlit("-..-.");
    reveal_strlit(".--.-.");
    reveal_strlit("-.--.");
    reveal_strlit("-.--.-");
    assert(".-.-.-"@ =~= code_of('.')->0);
    assert("--..--"@ =~= code_of(',')->0);
    assert("..--.."@ =~= code_of('?')->0);
    assert("-.-.--"@ =~= code_of('!')->0);
    assert("-....-"@ =~= code_of('-')->0);
    assert("-..-."@ =~= code_of('/')->0);
    assert(".--.-."@ =~= code_of('@')->0);
    assert("-.--."@ =~= code_of('(')->0);
    assert("-.--.-"@ =~= code_of(')')->0);
}

/// Decoding up to four dots and dashes reads the Morse tree: the character
/// is the tree's letter at the code's key, and there is none where the tree
/// has no letter.
pub proof fn lemma_decode_follows_tree(t: Seq<char>)
    requires
        is_dots_and_dashes(t),
        1 <= t.len() <= 4,
    ensures
        char_of(t) == if code_key(t) - 2 < morse_tree().len() && morse_tree()[code_key(t) - 2]
            != '*' {
            Some(morse_tree()[code_key(t) - 2])
        } else {
            None::<char>
        },
{
    let k = code_key(t);
    lemma_key_bound(t, t.len());
    reveal_with_fuel(two_to, 6);
    lemma_key_positive(t, t.len() - 1);
    assert(2 <= k < 32);
    if k - 2 < morse_tree().len() && morse_tree()[k - 2] != '*' {
        let c = morse_tree()[k - 2];
        lemma_letters_follow_tree(k - 2);
        lemma_code_key_injective(t, code_of(c)->0);
        lemma_table_inverse(c, t);
    } else {
        if let Some(c) = char_of(t) {
            lemma_table_inverse(c, t);
            lemma_code_shape(c);
            lemma_char_of_by_key(t);
        }
    }
}

} // verus!
