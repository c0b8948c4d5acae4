//! Character classes and sequence-trimming primitives shared by the codec,
//! the identifier grammar and the line parser.

use vstd::prelude::*;

verus! {

/// An ASCII scalar value.
pub open spec fn ascii_char(c: char) -> bool {
    (c as u32) < 128
}

/// A Unicode scalar value with the `White_Space` property; this is the set
/// of characters stripped when a line or an identifier is trimmed.
pub open spec fn ws_char(c: char) -> bool {
    ||| c == '\u{9}'
    ||| c == '\u{a}'
    ||| c == '\u{b}'
    ||| c == '\u{c}'
    ||| c == '\u{d}'
    ||| c == ' '
    ||| c == '\u{85}'
    ||| c == '\u{a0}'
    ||| c == '\u{1680}'
    ||| ((c as u32) >= 0x2000 && (c as u32) <= 0x200a)
    ||| c == '\u{2028}'
    ||| c == '\u{2029}'
    ||| c == '\u{202f}'
    ||| c == '\u{205f}'
    ||| c == '\u{3000}'
}

/// A character allowed to open an identifier: an ASCII letter.
pub open spec fn ident_start_char(c: char) -> bool {
    ((c as u32) >= 'a' as u32 && (c as u32) <= 'z' as u32) || ((c as u32) >= 'A' as u32
        && (c as u32) <= 'Z' as u32)
}

/// A character allowed after the first one in an identifier: an ASCII
/// letter, an ASCII digit or an underscore.
pub open spec fn ident_char(c: char) -> bool {
    ident_start_char(c) || ((c as u32) >= '0' as u32 && (c as u32) <= '9' as u32) || c == '_'
}

/// One of the thirteen characters the encoder renders as a two-character
/// backslash escape.
pub open spec fn special_char(c: char) -> bool {
    ||| c == '\\'
    ||| c == '\''
    ||| c == '"'
    ||| c == '\u{0}'
    ||| c == '\u{7}'
    ||| c == '\u{8}'
    ||| c == '\t'
    ||| c == '\r'
    ||| c == '\n'
    ||| c == ';'
    ||| c == '#'
    ||| c == '='
    ||| c == ':'
}

/// One of the twelve characters that may not appear unescaped in encoded
/// text: every special character except `#`.
pub open spec fn forbidden_char(c: char) -> bool {
    special_char(c) && c != '#'
}

/// The character standing after the backslash in the escape of a special
/// character.
pub open spec fn escape_key(c: char) -> char
    recommends
        special_char(c),
{
    if c == '\u{0}' {
        '0'
    } else if c == '\u{7}' {
        'a'
    } else if c == '\u{8}' {
        'b'
    } else if c == '\t' {
        't'
    } else if c == '\r' {
        'r'
    } else if c == '\n' {
        'n'
    } else {
        c
    }
}

/// The reverse of the escape table: the character denoted by a two-character
/// escape `\k`, or `None` when no escape has that key.
pub open spec fn unescape_key(k: char) -> Option<char> {
    if k == '0' {
        Some('\u{0}')
    } else if k == 'a' {
        Some('\u{7}')
    } else if k == 'b' {
        Some('\u{8}')
    } else if k == 't' {
        Some('\t')
    } else if k == 'r' {
        Some('\r')
    } else if k == 'n' {
        Some('\n')
    } else if k == '\\' || k == '\'' || k == '"' || k == ';' || k == '#' || k == '=' || k == ':' {
        Some(k)
    } else {
        None
    }
}

/// Resolving the escape of a special character gives that character back.
pub proof fn lemma_escape_key_reverses(c: char)
    requires
        special_char(c),
    ensures
        unescape_key(escape_key(c)) == Some(c),
{
}

/// A lowercase hexadecimal digit, the only digits accepted in a `\x` escape.
pub open spec fn hex_digit_char(c: char) -> bool {
    ((c as u32) >= '0' as u32 && (c as u32) <= '9' as u32) || ((c as u32) >= 'a' as u32 && (
    c as u32) <= 'f' as u32)
}

/// The numeric value of a lowercase hexadecimal digit.
pub open spec fn hex_val(c: char) -> int
    recommends
        hex_digit_char(c),
{
    if (c as u32) <= '9' as u32 {
        c as u32 - '0' as u32
    } else {
        c as u32 - 'a' as u32 + 10
    }
}

/// The lowercase hexadecimal digit of a value below sixteen.
pub open spec fn hex_char(n: int) -> char
    recommends
        0 <= n < 16,
{
    if n == 0 {
        '0'
    } else if n == 1 {
        '1'
    } else if n == 2 {
        '2'
    } else if n == 3 {
        '3'
    } else if n == 4 {
        '4'
    } else if n == 5 {
        '5'
    } else if n == 6 {
        '6'
    } else if n == 7 {
        '7'
    } else if n == 8 {
        '8'
    } else if n == 9 {
        '9'
    } else if n == 10 {
        'a'
    } else if n == 11 {
        'b'
    } else if n == 12 {
        'c'
    } else if n == 13 {
        'd'
    } else if n == 14 {
        'e'
    } else {
        'f'
    }
}

/// Writing a value below sixteen as a digit and reading it back is the
/// identity, and the digit is never an `x` nor a backslash.
pub proof fn lemma_hex_char_reverses(n: int)
    requires
        0 <= n < 16,
    ensures
        hex_digit_char(hex_char(n)),
        hex_val(hex_char(n)) == n,
        !special_char(hex_char(n)),
        hex_char(n) != 'x',
{
}

// ---------------------------------------------------------------------------
// Executable character tests
// ---------------------------------------------------------------------------
/// Whether `c` is an ASCII scalar value.
pub fn is_ascii_char(c: char) -> (r: bool)
    ensures
        r == ascii_char(c),
{
    (c as u32) < 128
}

/// Whether `c` is trimmed away as whitespace.
pub fn is_ws_char(c: char) -> (r: bool)
    ensures
        r == ws_char(c),
{
    let u = c as u32;
    u == 0x9 || u == 0xa || u == 0xb || u == 0xc || u == 0xd || u == 0x20 || u == 0x85 || u == 0xa0
        || u == 0x1680 || (u >= 0x2000 && u <= 0x200a) || u == 0x2028 || u == 0x2029 || u == 0x202f
        || u == 0x205f || u == 0x3000
}

/// Whether `c` may open an identifier.
pub fn is_ident_start_char(c: char) -> (r: bool)
    ensures
        r == ident_start_char(c),
{
    let u = c as u32;
    (u >= 'a' as u32 && u <= 'z' as u32) || (u >= 'A' as u32 && u <= 'Z' as u32)
}

/// Whether `c` may continue an identifier.
pub fn is_ident_char(c: char) -> (r: bool)
    ensures
        r == ident_char(c),
{
    let u = c as u32;
    is_ident_start_char(c) || (u >= '0' as u32 && u <= '9' as u32) || c == '_'
}

/// Whether the encoder escapes `c` with a two-character sequence.
pub fn is_special_char(c: char) -> (r: bool)
    ensures
        r == special_char(c),
{
    match c {
        '\\' | '\'' | '"' | '\u{0}' | '\u{7}' | '\u{8}' | '\t' | '\r' | '\n' | ';' | '#' | '='
            | ':' => true,
        _ => false,
    }
}

/// Whether `c` may not stand unescaped in encoded text.
pub fn is_forbidden_char(c: char) -> (r: bool)
    ensures
        r == forbidden_char(c),
{
    is_special_char(c) && c != '#'
}

/// The escape key of a special character.
pub fn escape_key_of(c: char) -> (r: char)
    requires
        special_char(c),
    ensures
        r == escape_key(c),
{
    match c {
        '\u{0}' => '0',
        '\u{7}' => 'a',
        '\u{8}' => 'b',
        '\t' => 't',
        '\r' => 'r',
        '\n' => 'n',
        _ => c,
    }
}

/// The character denoted by the escape `\k`, if any.
pub fn unescape_key_of(k: char) -> (r: Option<char>)
    ensures
        r == unescape_key(k),
{
    match k {
        '0' => Some('\u{0}'),
        'a' => Some('\u{7}'),
        'b' => Some('\u{8}'),
        't' => Some('\t'),
        'r' => Some('\r'),
        'n' => Some('\n'),
        '\\' | '\'' | '"' | ';' | '#' | '=' | ':' => Some(k),
        _ => None,
    }
}

/// Whether `c` is a lowercase hexadecimal digit.
pub fn is_hex_digit_char(c: char) -> (r: bool)
    ensures
        r == hex_digit_char(c),
{
    let u = c as u32;
    (u >= '0' as u32 && u <= '9' as u32) || (u >= 'a' as u32 && u <= 'f' as u32)
}

/// The value of a lowercase hexadecimal digit.
pub fn hex_val_of(c: char) -> (r: u32)
    requires
        hex_digit_char(c),
    ensures
        r == hex_val(c),
{
    let u = c as u32;
    if u <= '9' as u32 {
        u - '0' as u32
    } else {
        u - 'a' as u32 + 10
    }
}

/// The value of a hexadecimal digit is below sixteen.
pub proof fn lemma_hex_val_bound(c: char)
    requires
        hex_digit_char(c),
    ensures
        0 <= hex_val(c) < 16,
{
}

/// Whether `v` is a Unicode scalar value, the exact set of `char` values.
pub open spec fn scalar_value(v: u32) -> bool {
    v < 0xd800 || (0xe000 <= v && v <= 0x10ffff)
}

/// Relies on `char::from_u32`: it returns `Some` exactly on Unicode scalar
/// values, and the returned character has the given code point.
#[verifier::external_body]
pub fn char_from_u32(v: u32) -> (r: Option<char>)
    ensures
        r is Some <==> scalar_value(v),
        r matches Some(c) ==> c as u32 == v,
{
    char::from_u32(v)
}

/// Whether two string slices hold the same characters.
pub fn str_eq(a: &str, b: &str) -> (r: bool)
    ensures
        r == (a@ == b@),
{
    let an = a.unicode_len();
    let bn = b.unicode_len();
    if an != bn {
        proof {
            assert(a@ != b@);
        }
        return false;
    }
    let mut i: usize = 0;
    while i < an
        invariant
            0 <= i <= an,
            an == a@.len(),
            an == b@.len(),
            forall|k: int| 0 <= k < i ==> a@[k] == b@[k],
        decreases an - i,
    {
        if a.get_char(i) != b.get_char(i) {
            return false;
        }
        i += 1;
    }
    proof {
        assert(a@ =~= b@);
    }
    true
}

/// Relies on `String::pop`: it removes and returns the last character of
/// a non-empty string and leaves an empty string alone.
#[verifier::external_body]
pub fn pop_char(s: &mut String) -> (r: Option<char>)
    ensures
        old(s)@.len() == 0 ==> final(s)@ == old(s)@ && r is None,
        old(s)@.len() > 0 ==> final(s)@ == old(s)@.drop_last() && r == Some(old(s)@.last()),
{
    s.pop()
}

/// A string holding exactly one character.
pub fn one_char_string(c: char) -> (r: String)
    ensures
        r@ == seq![c],
{
    let mut out = String::new();
    push_char(&mut out, c);
    proof {
        assert(out@ =~= seq![c]);
    }
    out
}

/// Relies on `String::push`: it appends one character at the end.
#[verifier::external_body]
pub fn push_char(s: &mut String, c: char)
    ensures
        final(s)@ == old(s)@.push(c),
{
    s.push(c);
}

/// The lowercase hexadecimal digit of a value below sixteen.
pub fn hex_char_of(n: u32) -> (r: char)
    requires
        n < 16,
    ensures
        r == hex_char(n as int),
{
    match n {
        0 => '0',
        1 => '1',
        2 => '2',
        3 => '3',
        4 => '4',
        5 => '5',
        6 => '6',
        7 => '7',
        8 => '8',
        9 => '9',
        10 => 'a',
        11 => 'b',
        12 => 'c',
        13 => 'd',
        14 => 'e',
        _ => 'f',
    }
}

// ---------------------------------------------------------------------------
// The identifier grammar
// ---------------------------------------------------------------------------
/// The identifier grammar itself: a non-empty sequence opened by an ASCII
/// letter and continued by ASCII letters, digits or underscores.
pub open spec fn ident_seq(s: Seq<char>) -> bool {
    s.len() > 0 && ident_start_char(s[0]) && (forall|k: int|
        1 <= k < s.len() ==> ident_char(#[trigger] s[k]))
}

/// Validity of a candidate identifier as the library checks it: the
/// candidate is trimmed first, then held to the identifier grammar.
pub open spec fn valid_ident(s: Seq<char>) -> bool {
    ident_seq(trim_spec(s))
}

// ---------------------------------------------------------------------------
// Trimming
// ---------------------------------------------------------------------------
/// `s` with its leading whitespace removed.
pub open spec fn trim_start_spec(s: Seq<char>) -> Seq<char>
    decreases s.len(),
{
    if s.len() > 0 && ws_char(s[0]) {
        trim_start_spec(s.drop_first())
    } else {
        s
    }
}

/// `s` with its trailing whitespace removed.
pub open spec fn trim_end_spec(s: Seq<char>) -> Seq<char>
    decreases s.len(),
{
    if s.len() > 0 && ws_char(s.last()) {
        trim_end_spec(s.drop_last())
    } else {
        s
    }
}

/// `s` with whitespace removed at both ends.
pub open spec fn trim_spec(s: Seq<char>) -> Seq<char> {
    trim_end_spec(trim_start_spec(s))
}

/// Trimming the start of `s` keeps the suffix that begins at the first
/// non-whitespace character.
pub proof fn lemma_trim_start_at(s: Seq<char>, i: int)
    requires
        0 <= i <= s.len(),
        forall|k: int| 0 <= k < i ==> ws_char(s[k]),
        i < s.len() ==> !ws_char(s[i]),
    ensures
        trim_start_spec(s) == s.subrange(i, s.len() as int),
    decreases i,
{
    if i == 0 {
        assert(s.subrange(0, s.len() as int) =~= s);
    } else {
        lemma_trim_start_at(s.drop_first(), i - 1);
        assert(s.drop_first().subrange(i - 1, s.drop_first().len() as int) =~= s.subrange(
            i,
            s.len() as int,
        ));
    }
}

/// Trimming the end of `s` keeps the prefix that ends after the last
/// non-whitespace character.
pub proof fn lemma_trim_end_at(s: Seq<char>, j: int)
    requires
        0 <= j <= s.len(),
        forall|k: int| j <= k < s.len() ==> ws_char(s[k]),
        j > 0 ==> !ws_char(s[j - 1]),
    ensures
        trim_end_spec(s) == s.subrange(0, j),
    decreases s.len() - j,
{
    if j == s.len() {
        assert(s.subrange(0, s.len() as int) =~= s);
    } else {
        lemma_trim_end_at(s.drop_last(), j);
        assert(s.drop_last().subrange(0, j) =~= s.subrange(0, j));
    }
}

/// A sequence without whitespace at either end trims to itself.
pub proof fn lemma_trim_fixed(s: Seq<char>)
    requires
        s.len() > 0 ==> !ws_char(s[0]) && !ws_char(s.last()),
    ensures
        trim_spec(s) == s,
{
    lemma_trim_start_at(s, 0);
    lemma_trim_end_at(s, s.len() as int);
}

/// The bounds of the trimmed core of `s`: `trim_spec(s@)` is
/// `s@.subrange(r.0, r.1)`.
pub fn trim_bounds(s: &str) -> (r: (usize, usize))
    ensures
        0 <= r.0 <= r.1 <= s@.len(),
        trim_spec(s@) == s@.subrange(r.0 as int, r.1 as int),
        forall|k: int| 0 <= k < r.0 ==> ws_char(s@[k]),
        forall|k: int| r.1 <= k < s@.len() ==> ws_char(s@[k]),
        r.0 < r.1 ==> !ws_char(s@[r.0 as int]) && !ws_char(s@[r.1 - 1]),
{
    let n = s.unicode_len();
    let mut start: usize = 0;
    while start < n && is_ws_char(s.get_char(start))
        invariant
            0 <= start <= n,
            n == s@.len(),
            forall|k: int| 0 <= k < start ==> ws_char(s@[k]),
        decreases n - start,
    {
        start += 1;
    }
    if start == n {
        proof {
            lemma_trim_start_at(s@, n as int);
            assert(trim_end_spec(Seq::<char>::empty()) =~= Seq::<char>::empty());
            assert(s@.subrange(n as int, n as int) =~= Seq::<char>::empty());
        }
        return (n, n);
    }
    let mut end: usize = n;
    while end > start && is_ws_char(s.get_char(end - 1))
        invariant
            start <= end <= n,
            n == s@.len(),
            forall|k: int| end <= k < n ==> ws_char(s@[k]),
        decreases end,
    {
        end -= 1;
    }
    proof {
        lemma_trim_start_at(s@, start as int);
        let t = s@.subrange(start as int, n as int);
        lemma_trim_end_at(t, end - start);
        assert(t.subrange(0, end - start) =~= s@.subrange(start as int, end as int));
    }
    (start, end)
}

/// The leading-whitespace bound of `s`: `trim_start_spec(s@)` is
/// `s@.subrange(r, s@.len())`.
pub fn trim_start_bound(s: &str) -> (r: usize)
    ensures
        0 <= r <= s@.len(),
        trim_start_spec(s@) == s@.subrange(r as int, s@.len() as int),
        forall|k: int| 0 <= k < r ==> ws_char(s@[k]),
        r < s@.len() ==> !ws_char(s@[r as int]),
{
    let n = s.unicode_len();
    let mut start: usize = 0;
    while start < n && is_ws_char(s.get_char(start))
        invariant
            0 <= start <= n,
            n == s@.len(),
            forall|k: int| 0 <= k < start ==> ws_char(s@[k]),
        decreases n - start,
    {
        start += 1;
    }
    proof {
        lemma_trim_start_at(s@, start as int);
    }
    start
}

} // verus!
