use vstd::prelude::*;

verus! {

/// The Unicode `White_Space` code points, the set `char::is_whitespace`
/// accepts: the ASCII spacing characters plus the line separators and
/// fixed-width spaces.
pub open spec fn is_whitespace_char(c: char) -> bool {
    c == ' ' || c == '\t' || c == '\n' || c == '\r' || c == '\u{b}' || c == '\u{c}'
        || c == '\u{85}' || c == '\u{a0}' || c == '\u{1680}'
        || ('\u{2000}' <= c && c <= '\u{200a}')
        || c == '\u{2028}' || c == '\u{2029}' || c == '\u{202f}' || c == '\u{205f}'
        || c == '\u{3000}'
}

/// Executable check for `is_whitespace_char`.
pub fn whitespace_char(c: char) -> (r: bool)
    ensures
        r == is_whitespace_char(c),
{
    c == ' ' || c == '\t' || c == '\n' || c == '\r' || c == '\u{b}' || c == '\u{c}'
        || c == '\u{85}' || c == '\u{a0}' || c == '\u{1680}'
        || ('\u{2000}' <= c && c <= '\u{200a}')
        || c == '\u{2028}' || c == '\u{2029}' || c == '\u{202f}' || c == '\u{205f}'
        || c == '\u{3000}'
}

pub open spec fn is_ascii_digit_char(c: char) -> bool {
    '0' <= c && c <= '9'
}

pub fn ascii_digit_char(c: char) -> (r: bool)
    ensures
        r == is_ascii_digit_char(c),
{
    '0' <= c && c <= '9'
}

pub open spec fn is_ascii_alphanumeric_char(c: char) -> bool {
    ('0' <= c && c <= '9') || ('a' <= c && c <= 'z') || ('A' <= c && c <= 'Z')
}

pub fn ascii_alphanumeric_char(c: char) -> (r: bool)
    ensures
        r == is_ascii_alphanumeric_char(c),
{
    ('0' <= c && c <= '9') || ('a' <= c && c <= 'z') || ('A' <= c && c <= 'Z')
}

/// Whether `char::is_alphabetic` accepts the character. The full
/// `Alphabetic` table is Unicode's; only the call below speaks for it.
pub uninterp spec fn is_alphabetic_char(c: char) -> bool;

/// Relies on `char::is_alphabetic`: the answer depends on the character
/// alone. Its documentation also promises that every alphabetic
/// character is alphanumeric, which the second clause records.
#[verifier::external_body]
pub fn alphabetic_char(c: char) -> (r: bool)
    ensures
        r == is_alphabetic_char(c),
        r ==> is_alphanumeric_char(c),
{
    c.is_alphabetic()
}

/// Whether `char::is_alphanumeric` accepts the character.
pub uninterp spec fn is_alphanumeric_char(c: char) -> bool;

/// Relies on `char::is_alphanumeric`: the answer depends on the character alone.
#[verifier::external_body]
pub fn alphanumeric_char(c: char) -> (r: bool)
    ensures
        r == is_alphanumeric_char(c),
{
    c.is_alphanumeric()
}

/// The characters that may extend a multi-character operator token.
pub open spec fn is_operator_char(c: char) -> bool {
    c == '+' || c == '-' || c == '*' || c == '/' || c == '%' || c == '='
        || c == '<' || c == '>' || c == '!' || c == '&' || c == '|'
        || c == '^' || c == '~'
}

pub fn operator_char(c: char) -> (r: bool)
    ensures
        r == is_operator_char(c),
{
    c == '+' || c == '-' || c == '*' || c == '/' || c == '%' || c == '='
        || c == '<' || c == '>' || c == '!' || c == '&' || c == '|'
        || c == '^' || c == '~'
}

/// Character-for-character equality of two string slices.
pub fn str_eq(a: &str, b: &str) -> (r: bool)
    ensures
        r == (a@ == b@),
{
    let a_len = a.unicode_len();
    let b_len = b.unicode_len();
    if a_len != b_len {
        assert(a@ != b@) by {
            assert(a@.len() != b@.len());
        }
        return false;
    }
    let mut i: usize = 0;
    while i < a_len
        invariant
            i <= a_len,
            a_len == a@.len(),
            a_len == b@.len(),
            forall|j: int| 0 <= j < i ==> a@[j] == b@[j],
        decreases a_len - i,
    {
        if a.get_char(i) != b.get_char(i) {
            return false;
        }
        i = i + 1;
    }
    proof {
        assert(a@ =~= b@);
    }
    true
}


/// ASCII letters, which terminate an ANSI escape sequence.
pub open spec fn is_ascii_alphabetic_char(c: char) -> bool {
    ('a' <= c && c <= 'z') || ('A' <= c && c <= 'Z')
}

pub fn ascii_alphabetic_char(c: char) -> (r: bool)
    ensures
        r == is_ascii_alphabetic_char(c),
{
    ('a' <= c && c <= 'z') || ('A' <= c && c <= 'Z')
}

/// End of an ANSI escape body starting at `j`: one past the first
/// ASCII letter, or the end of the text when none follows.
pub open spec fn ansi_escape_end(s: Seq<char>, j: int) -> int
    decreases s.len() - j when 0 <= j <= s.len()
{
    if j >= s.len() {
        s.len() as int
    } else if is_ascii_alphabetic_char(s[j]) {
        j + 1
    } else {
        ansi_escape_end(s, j + 1)
    }
}

/// The text with its ANSI escape sequences removed: an escape
/// character starting `ESC [` swallows everything through the first
/// ASCII letter; a stray escape character is dropped on its own.
pub open spec fn spec_strip_ansi(s: Seq<char>, i: int) -> Seq<char>
    decreases s.len() - i when 0 <= i <= s.len()
{
    if i >= s.len() {
        Seq::empty()
    } else if s[i] == '\u{1b}' {
        if i + 1 < s.len() && s[i + 1] == '[' {
            proof {
                lemma_ansi_escape_end_bounds(s, i + 2);
            }
            spec_strip_ansi(s, ansi_escape_end(s, i + 2))
        } else {
            spec_strip_ansi(s, i + 1)
        }
    } else {
        seq![s[i]] + spec_strip_ansi(s, i + 1)
    }
}

/// The escape scan stays inside the text and moves forward.
pub proof fn lemma_ansi_escape_end_bounds(s: Seq<char>, j: int)
    requires
        0 <= j <= s.len(),
    ensures
        j <= ansi_escape_end(s, j) <= s.len(),
    decreases s.len() - j,
{
    if j < s.len() && !is_ascii_alphabetic_char(s[j]) {
        lemma_ansi_escape_end_bounds(s, j + 1);
    }
}

/// Remove ANSI escape sequences from styled terminal text.
pub fn strip_ansi_codes(s: &str) -> (r: String)
    ensures
        r@ == spec_strip_ansi(s@, 0),
{
    let n = s.unicode_len();
    let mut result = String::new();
    let mut i: usize = 0;
    while i < n
        invariant
            i <= n,
            n == s@.len(),
            spec_strip_ansi(s@, 0) == result@ + spec_strip_ansi(s@, i as int),
        decreases n - i,
    {
        let c = s.get_char(i);
        if c == '\u{1b}' {
            if i + 1 < n && s.get_char(i + 1) == '[' {
                let mut j = i + 2;
                while j < n && !ascii_alphabetic_char(s.get_char(j))
                    invariant
                        i + 2 <= j <= n,
                        n == s@.len(),
                        ansi_escape_end(s@, i as int + 2) == ansi_escape_end(s@, j as int),
                    decreases n - j,
                {
                    j = j + 1;
                }
                if j < n {
                    j = j + 1;
                }
                proof {
                    assert(ansi_escape_end(s@, i as int + 2) == j as int);
                }
                i = j;
            } else {
                i = i + 1;
            }
        } else {
            let ghost before = result@;
            result.append(s.substring_char(i, i + 1));
            proof {
                assert(s@.subrange(i as int, i as int + 1) =~= seq![s@[i as int]]);
                assert(result@ == before + seq![s@[i as int]]);
                assert(before + (seq![s@[i as int]] + spec_strip_ansi(s@, i as int + 1)) =~= result@
                    + spec_strip_ansi(s@, i as int + 1));
            }
            i = i + 1;
        }
    }
    proof {
        assert(spec_strip_ansi(s@, n as int) =~= Seq::<char>::empty());
        assert(result@ + spec_strip_ansi(s@, n as int) =~= result@);
    }
    result
}

} // verus!
