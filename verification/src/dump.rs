//! The encoding half of the escape codec: turning arbitrary Unicode text
//! into its ASCII-safe escaped form.

use vstd::prelude::*;

use crate::chars::{
    ascii_char, escape_key, hex_char, is_ascii_char, is_special_char, escape_key_of, hex_char_of,
    push_char, special_char,
};

verus! {

/// The six lowercase hexadecimal digits of `n`, most significant first.
pub open spec fn encode_hex(n: u32) -> Seq<char> {
    seq![
        hex_char((n as int / 0x100000) % 16),
        hex_char((n as int / 0x10000) % 16),
        hex_char((n as int / 0x1000) % 16),
        hex_char((n as int / 0x100) % 16),
        hex_char((n as int / 0x10) % 16),
        hex_char((n as int) % 16),
    ]
}

/// The escaped form of one character: a two-character escape for the
/// thirteen special characters, the character itself for any other ASCII
/// character, and `\x` with six lowercase hex digits for anything else.
pub open spec fn escape_char_spec(c: char) -> Seq<char> {
    if special_char(c) {
        seq!['\\', escape_key(c)]
    } else if ascii_char(c) {
        seq![c]
    } else {
        seq!['\\', 'x'] + encode_hex(c as u32)
    }
}

/// The escaped form of a whole text: the concatenation of the escaped
/// forms of its characters.
pub open spec fn encode_spec(s: Seq<char>) -> Seq<char>
    decreases s.len(),
{
    if s.len() == 0 {
        Seq::<char>::empty()
    } else {
        escape_char_spec(s[0]) + encode_spec(s.drop_first())
    }
}

/// The escaped form of one character consists of ASCII characters only.
pub proof fn lemma_escape_char_ascii(c: char)
    ensures
        forall|i: int| 0 <= i < escape_char_spec(c).len() ==> ascii_char(#[trigger] escape_char_spec(c)[i]),
{
}

/// Encoded text is pure ASCII.
pub proof fn lemma_encode_ascii(s: Seq<char>)
    ensures
        forall|i: int| 0 <= i < encode_spec(s).len() ==> ascii_char(#[trigger] encode_spec(s)[i]),
    decreases s.len(),
{
    if s.len() > 0 {
        lemma_escape_char_ascii(s[0]);
        lemma_encode_ascii(s.drop_first());
        let e = escape_char_spec(s[0]);
        let r = encode_spec(s.drop_first());
        assert forall|i: int| 0 <= i < encode_spec(s).len() implies ascii_char(
            #[trigger] encode_spec(s)[i],
        ) by {
            assert(encode_spec(s) == e + r);
            if i < e.len() {
                assert(encode_spec(s)[i] == e[i]);
            } else {
                assert(encode_spec(s)[i] == r[i - e.len()]);
            }
        }
    }
}

/// Formats a text by escaping its special and non-ASCII characters, so that
/// it can stand as value text in an INI line.
///
/// The result is exactly the concatenation of the escaped forms of the
/// characters of `content`; in particular it is pure ASCII.
pub fn dump_str(content: &str) -> (r: String)
    ensures
        r@ == encode_spec(content@),
        forall|i: int| 0 <= i < r@.len() ==> ascii_char(#[trigger] r@[i]),
{
    let n = content.unicode_len();
    let mut out = String::new();
    let mut i: usize = 0;
    while i < n
        invariant
            0 <= i <= n,
            n == content@.len(),
            out@ == encode_spec(content@.subrange(0, i as int)),
        decreases n - i,
    {
        let c = content.get_char(i);
        if is_special_char(c) {
            push_char(&mut out, '\\');
            push_char(&mut out, escape_key_of(c));
        } else if is_ascii_char(c) {
            push_char(&mut out, c);
        } else {
            let u = c as u32;
            push_char(&mut out, '\\');
            push_char(&mut out, 'x');
            push_char(&mut out, hex_char_of((u / 0x100000) % 16));
            push_char(&mut out, hex_char_of((u / 0x10000) % 16));
            push_char(&mut out, hex_char_of((u / 0x1000) % 16));
            push_char(&mut out, hex_char_of((u / 0x100) % 16));
            push_char(&mut out, hex_char_of((u / 0x10) % 16));
            push_char(&mut out, hex_char_of(u % 16));
        }
        proof {
            let pre = content@.subrange(0, i as int);
            let pre1 = content@.subrange(0, i + 1);
            assert(pre1 =~= pre.push(content@[i as int]));
            lemma_encode_snoc(pre, content@[i as int]);
            assert(out@ =~= encode_spec(pre) + escape_char_spec(content@[i as int]));
        }
        i += 1;
    }
    proof {
        assert(content@.subrange(0, n as int) =~= content@);
        lemma_encode_ascii(content@);
    }
    out
}

/// The escaped form of a single character, as an owned string.
pub fn escape_char_string(c: char) -> (r: String)
    ensures
        r@ == escape_char_spec(c),
{
    let mut out = String::new();
    if is_special_char(c) {
        push_char(&mut out, '\\');
        push_char(&mut out, escape_key_of(c));
        proof {
            assert(out@ =~= escape_char_spec(c));
        }
    } else if is_ascii_char(c) {
        push_char(&mut out, c);
        proof {
            assert(out@ =~= escape_char_spec(c));
        }
    } else {
        let u = c as u32;
        push_char(&mut out, '\\');
        push_char(&mut out, 'x');
        push_char(&mut out, hex_char_of((u / 0x100000) % 16));
        push_char(&mut out, hex_char_of((u / 0x10000) % 16));
        push_char(&mut out, hex_char_of((u / 0x1000) % 16));
        push_char(&mut out, hex_char_of((u / 0x100) % 16));
        push_char(&mut out, hex_char_of((u / 0x10) % 16));
        push_char(&mut out, hex_char_of(u % 16));
        proof {
            assert(out@ =~= escape_char_spec(c));
        }
    }
    out
}

/// Encoded text never holds a raw line feed: the line feed is one of the
/// characters the encoder always escapes.
pub proof fn lemma_encode_no_newline(s: Seq<char>)
    ensures
        forall|i: int| 0 <= i < encode_spec(s).len() ==> #[trigger] encode_spec(s)[i] != '\n',
    decreases s.len(),
{
    if s.len() > 0 {
        lemma_encode_no_newline(s.drop_first());
        let e = escape_char_spec(s[0]);
        let r = encode_spec(s.drop_first());
        assert forall|i: int| 0 <= i < encode_spec(s).len() implies #[trigger] encode_spec(s)[i]
            != '\n' by {
            assert(encode_spec(s) == e + r);
            if i < e.len() {
                assert(encode_spec(s)[i] == e[i]);
            } else {
                assert(encode_spec(s)[i] == r[i - e.len()]);
            }
        }
    }
}

/// Appending one character to a text appends its escaped form to the
/// encoding.
pub proof fn lemma_encode_snoc(s: Seq<char>, c: char)
    ensures
        encode_spec(s.push(c)) == encode_spec(s) + escape_char_spec(c),
    decreases s.len(),
{
    if s.len() == 0 {
        let t = s.push(c);
        assert(t.len() == 1);
        assert(t[0] == c);
        assert(t.drop_first() =~= Seq::<char>::empty());
        assert(encode_spec(Seq::<char>::empty()) =~= Seq::<char>::empty());
        assert(encode_spec(t) == escape_char_spec(c) + encode_spec(t.drop_first()));
        assert(escape_char_spec(c) + Seq::<char>::empty() =~= escape_char_spec(c));
        assert(encode_spec(s) + escape_char_spec(c) =~= escape_char_spec(c));
    } else {
        assert(s.push(c).drop_first() =~= s.drop_first().push(c));
        lemma_encode_snoc(s.drop_first(), c);
        assert(s.push(c)[0] == s[0]);
        assert(encode_spec(s.push(c)) == escape_char_spec(s[0]) + (encode_spec(s.drop_first())
            + escape_char_spec(c)));
        assert(escape_char_spec(s[0]) + (encode_spec(s.drop_first()) + escape_char_spec(c))
            =~= (escape_char_spec(s[0]) + encode_spec(s.drop_first())) + escape_char_spec(c));
    }
}

} // verus!
