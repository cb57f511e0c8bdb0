//! The glyph width table: a total function from a display character to its
//! pixel width on the book surface, plus measurement of whole character
//! sequences (one pixel of kerning between adjacent glyphs).

use vstd::prelude::*;

verus! {

/// Characters drawn 5 pixels wide: most Latin letters, the digits and a set
/// of symbols.
pub open spec fn is_width_five(c: char) -> bool {
    c == 'A' || c == 'a' || c == 'B' || c == 'b' || c == 'C' || c == 'c'
        || c == 'D' || c == 'd' || c == 'E' || c == 'e' || c == 'F'
        || c == 'G' || c == 'g' || c == 'H' || c == 'h' || c == 'J'
        || c == 'j' || c == 'K' || c == 'L' || c == 'M' || c == 'm'
        || c == 'N' || c == 'n' || c == 'O' || c == 'o' || c == 'P'
        || c == 'p' || c == 'Q' || c == 'R' || c == 'r' || c == 'S'
        || c == 's' || c == 'T' || c == 'U' || c == 'u' || c == 'V'
        || c == 'v' || c == 'W' || c == 'w' || c == 'X' || c == 'x'
        || c == 'Y' || c == 'y' || c == 'Z' || c == 'z' || c == '#'
        || c == '$' || c == '%' || c == '+' || c == '-' || c == '/'
        || c == '0' || c == '1' || c == '2' || c == '3' || c == '4'
        || c == '5' || c == '6' || c == '7' || c == '8' || c == '9'
        || c == '=' || c == '?' || c == '@' || c == '\\' || c == '^'
        || c == '_' || c == '£'
}

/// Characters drawn 4 pixels wide.
pub open spec fn is_width_four(c: char) -> bool {
    c == 'f' || c == 'k' || c == '<' || c == '>'
}

/// Characters drawn 3 pixels wide, the space among them.
pub open spec fn is_width_three(c: char) -> bool {
    c == ' ' || c == 'I' || c == 't' || c == '"' || c == '(' || c == ')'
        || c == '*' || c == '[' || c == ']' || c == '{' || c == '}'
}

/// Characters drawn 2 pixels wide.
pub open spec fn is_width_two(c: char) -> bool {
    c == 'l' || c == '`'
}

/// Characters drawn 1 pixel wide.
pub open spec fn is_width_one(c: char) -> bool {
    c == 'i' || c == '!' || c == '\'' || c == ',' || c == '.' || c == ':'
        || c == ';' || c == '|'
}

/// A character whose width the table gives exactly; every other character
/// falls back to the conservative width of 16 and deserves a diagnostic.
pub open spec fn is_known_glyph(c: char) -> bool {
    is_width_five(c) || is_width_four(c) || is_width_three(c)
        || is_width_two(c) || is_width_one(c) || c == '\n'
}

/// Pixel width of one display character. Newline is zero wide; a character
/// outside every width class is assumed 16 pixels wide.
pub open spec fn char_width(c: char) -> nat {
    if is_width_five(c) {
        5
    } else if is_width_four(c) {
        4
    } else if is_width_three(c) {
        3
    } else if is_width_two(c) {
        2
    } else if is_width_one(c) {
        1
    } else if c == '\n' {
        0
    } else {
        16
    }
}

pub proof fn lemma_char_width_max(c: char)
    ensures
        char_width(c) <= 16,
{
}

/// Pixel width of one display character, as the table gives it.
pub fn mc_char_len(c: char) -> (w: u8)
    ensures
        w as nat == char_width(c),
{
    match c {
        'A' | 'a' | 'B' | 'b' | 'C' | 'c' | 'D' | 'd' | 'E' | 'e' | 'F'
        | 'G' | 'g' | 'H' | 'h' | 'J' | 'j' | 'K' | 'L' | 'M' | 'm'
        | 'N' | 'n' | 'O' | 'o' | 'P' | 'p' | 'Q' | 'R' | 'r' | 'S'
        | 's' | 'T' | 'U' | 'u' | 'V' | 'v' | 'W' | 'w' | 'X' | 'x'
        | 'Y' | 'y' | 'Z' | 'z' | '#' | '$' | '%' | '+' | '-' | '/'
        | '0' | '1' | '2' | '3' | '4' | '5' | '6' | '7' | '8' | '9'
        | '=' | '?' | '@' | '\\' | '^' | '_' | '£' => 5,
        'f' | 'k' | '<' | '>' => 4,
        ' ' | 'I' | 't' | '"' | '(' | ')' | '*' | '[' | ']' | '{' | '}' => 3,
        'l' | '`' => 2,
        'i' | '!' | '\'' | ',' | '.' | ':' | ';' | '|' => 1,
        '\n' => 0,
        _ => 16,
    }
}

/// Whether the width table knows this character; a `false` answer means the
/// fallback width was assumed and a diagnostic should be surfaced.
pub fn glyph_is_known(c: char) -> (b: bool)
    ensures
        b == is_known_glyph(c),
{
    let w = mc_char_len(c);
    w != 16
}

/// Pixel width of a character sequence: the sum of the glyph widths plus one
/// kerning unit for every character after the first.
pub open spec fn line_width(s: Seq<char>) -> nat
    decreases s.len(),
{
    if s.len() == 0 {
        0
    } else {
        line_width(s.drop_last()) + char_width(s.last()) + if s.len() == 1 {
            0nat
        } else {
            1nat
        }
    }
}

pub proof fn lemma_line_width_take_step(s: Seq<char>, j: int)
    requires
        0 <= j < s.len(),
    ensures
        line_width(s.take(j + 1)) == line_width(s.take(j)) + char_width(s[j]) + if j == 0 {
            0nat
        } else {
            1nat
        },
{
    assert(s.take(j + 1).drop_last() =~= s.take(j));
    assert(s.take(j + 1).last() == s[j]);
}

pub proof fn lemma_line_width_bound(s: Seq<char>)
    ensures
        line_width(s) <= 17 * s.len(),
    decreases s.len(),
{
    if s.len() > 0 {
        lemma_line_width_bound(s.drop_last());
        lemma_char_width_max(s.last());
    }
}

/// Measuring is additive: gluing two sequences costs their widths plus one
/// kerning unit where they meet (none if either side is empty).
pub proof fn lemma_line_width_concat(a: Seq<char>, b: Seq<char>)
    ensures
        line_width(a + b) == line_width(a) + line_width(b) + if a.len() > 0 && b.len() > 0 {
            1nat
        } else {
            0nat
        },
    decreases b.len(),
{
    if b.len() == 0 {
        assert(a + b =~= a);
    } else {
        assert((a + b).drop_last() =~= a + b.drop_last());
        assert((a + b).last() == b.last());
        lemma_line_width_concat(a, b.drop_last());
    }
}

/// Measured pixel width of a string: each glyph's width plus one kerning
/// unit per character after the first.
pub fn mcbook_len(s: &str) -> (w: u128)
    ensures
        w as nat == line_width(s@),
        s@.len() <= usize::MAX,
{
    let n = s.unicode_len();
    let mut w: u128 = 0;
    let mut j: usize = 0;
    while j < n
        invariant
            n == s@.len(),
            j <= n,
            w as nat == line_width(s@.take(j as int)),
        decreases n - j,
    {
        let c = s.get_char(j);
        let cw = mc_char_len(c);
        proof {
            lemma_line_width_take_step(s@, j as int);
            lemma_line_width_bound(s@.take(j as int));
        }
        if j > 0 {
            w = w + (cw as u128) + 1;
        } else {
            w = w + (cw as u128);
        }
        j = j + 1;
    }
    proof {
        assert(s@.take(n as int) =~= s@);
    }
    w
}

/// The characters of a text that the width table does not know, in order of
/// appearance, one entry per occurrence.
pub open spec fn unknown_glyphs(s: Seq<char>) -> Seq<char>
    decreases s.len(),
{
    if s.len() == 0 {
        Seq::<char>::empty()
    } else {
        unknown_glyphs(s.drop_last()) + if !is_known_glyph(s.last()) {
            seq![s.last()]
        } else {
            Seq::<char>::empty()
        }
    }
}

/// Every character of the text that was assigned the fallback width, in
/// order of appearance; each deserves a diagnostic.
pub fn scan_unknown_glyphs(text: &str) -> (r: Vec<char>)
    ensures
        r@ == unknown_glyphs(text@),
{
    let n = text.unicode_len();
    let mut r: Vec<char> = Vec::new();
    let mut j: usize = 0;
    proof {
        assert(text@.take(0) =~= Seq::<char>::empty());
        assert(r@ =~= unknown_glyphs(text@.take(0)));
    }
    while j < n
        invariant
            n == text@.len(),
            j <= n,
            r@ == unknown_glyphs(text@.take(j as int)),
        decreases n - j,
    {
        let c = text.get_char(j);
        proof {
            assert(text@.take(j + 1).drop_last() =~= text@.take(j as int));
            assert(text@.take(j + 1).last() == text@[j as int]);
        }
        if !glyph_is_known(c) {
            r.push(c);
            proof {
                assert(r@ =~= unknown_glyphs(text@.take(j + 1)));
            }
        } else {
            proof {
                assert(r@ =~= unknown_glyphs(text@.take(j + 1)));
            }
        }
        j = j + 1;
    }
    proof {
        assert(text@.take(n as int) =~= text@);
    }
    r
}

/// Result of dropping every trailing space from a sequence.
pub open spec fn trim_spaces(s: Seq<char>) -> Seq<char>
    decreases s.len(),
{
    if s.len() > 0 && s.last() == ' ' {
        trim_spaces(s.drop_last())
    } else {
        s
    }
}

/// Trimming keeps a prefix of the text and removes only spaces.
pub proof fn lemma_trim_spaces_shape(s: Seq<char>)
    ensures
        trim_spaces(s).len() <= s.len(),
        trim_spaces(s) == s.take(trim_spaces(s).len() as int),
        forall|i: int| trim_spaces(s).len() <= i < s.len() ==> s[i] == ' ',
    decreases s.len(),
{
    if s.len() > 0 && s.last() == ' ' {
        lemma_trim_spaces_shape(s.drop_last());
        assert(s.drop_last() =~= s.take(s.len() - 1));
        assert(s.drop_last().take(trim_spaces(s).len() as int) =~= s.take(
            trim_spaces(s).len() as int,
        ));
        assert forall|i: int| trim_spaces(s).len() <= i < s.len() implies s[i] == ' ' by {
            if i < s.len() - 1 {
                assert(s.drop_last()[i] == s[i]);
            }
        }
    } else {
        assert(s.take(s.len() as int) =~= s);
    }
}

/// Trimming never lengthens the measured line.
pub proof fn lemma_trim_spaces_width(s: Seq<char>)
    ensures
        line_width(trim_spaces(s)) <= line_width(s),
    decreases s.len(),
{
    if s.len() > 0 && s.last() == ' ' {
        lemma_trim_spaces_width(s.drop_last());
    }
}

/// A copy of the string without its trailing spaces.
pub fn trim_trailing_spaces(s: &str) -> (r: String)
    ensures
        r@ == trim_spaces(s@),
{
    let n = s.unicode_len();
    let mut j: usize = n;
    proof {
        assert(s@.take(n as int) =~= s@);
    }
    while j > 0 && s.get_char(j - 1) == ' '
        invariant
            n == s@.len(),
            j <= n,
            trim_spaces(s@) == trim_spaces(s@.take(j as int)),
        decreases j,
    {
        proof {
            assert(s@.take(j as int).drop_last() =~= s@.take(j - 1));
            assert(s@.take(j as int).last() == s@[j - 1]);
        }
        j = j - 1;
    }
    proof {
        assert(trim_spaces(s@.take(j as int)) == s@.take(j as int));
    }
    s.substring_char(0, j).to_owned()
}

} // verus!
