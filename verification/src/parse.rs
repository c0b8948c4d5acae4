//! The decoding half of the escape codec, together with the tokenizer that
//! splits encoded text into plain characters and escape sequences.

use vstd::prelude::*;

use crate::chars::{
    ascii_char, char_from_u32, forbidden_char, hex_digit_char, hex_val, hex_val_of, is_ascii_char,
    is_forbidden_char, is_hex_digit_char, push_char, scalar_value, special_char, unescape_key,
    unescape_key_of, escape_key, lemma_escape_key_reverses, lemma_hex_char_reverses, lemma_hex_val_bound,
};
use crate::dump::{encode_hex, encode_spec, escape_char_spec, escape_char_string};
use crate::errors::{Error, ExpectedEscape, InvalidEscape};
use vstd::arithmetic::div_mod::{
    lemma_div_denominator, lemma_div_pos_is_pos, lemma_fundamental_div_mod, lemma_multiply_divide_lt,
    lemma_small_mod,
};

verus! {

/// The value of six hexadecimal digits, most significant first.
pub open spec fn hex6_value(d: Seq<char>) -> int
    recommends
        d.len() == 6,
{
    hex_val(d[0]) * 0x100000 + hex_val(d[1]) * 0x10000 + hex_val(d[2]) * 0x1000 + hex_val(d[3])
        * 0x100 + hex_val(d[4]) * 0x10 + hex_val(d[5])
}

/// The outcome of decoding encoded text: the decoded text, or one of the
/// two ways decoding fails.
pub enum DecodeOutcome {
    /// Every character and escape was resolved; the field is the decoded
    /// text.
    Text(Seq<char>),
    /// A character that must be escaped stood unescaped at the index.
    NeedsEscape { index: int },
    /// An escape sequence matches no known form; the field is the sequence
    /// text, which runs to the end of the input when the escape is
    /// unterminated.
    BadEscape { escape: Seq<char> },
}

/// Prepends `prefix` to a successfully decoded text and passes a failure
/// through.
pub open spec fn decode_join(prefix: Seq<char>, r: DecodeOutcome) -> DecodeOutcome {
    match r {
        DecodeOutcome::Text(t) => DecodeOutcome::Text(prefix + t),
        _ => r,
    }
}

/// The decoding of `s` from position `i` on.
///
/// A plain character must be ASCII and not format-significant; a `\x`
/// escape must carry six lowercase hex digits denoting a Unicode scalar
/// value; any other escape must be a known two-character escape.  An escape
/// left unterminated by the end of the input never matches.
pub open spec fn decode_from(s: Seq<char>, i: int) -> DecodeOutcome
    recommends
        0 <= i <= s.len(),
    decreases s.len() - i,
        when 0 <= i <= s.len()
{
    if i >= s.len() {
        DecodeOutcome::Text(Seq::<char>::empty())
    } else if s[i] != '\\' {
        if ascii_char(s[i]) && !forbidden_char(s[i]) {
            decode_join(seq![s[i]], decode_from(s, i + 1))
        } else {
            DecodeOutcome::NeedsEscape { index: i }
        }
    } else if i + 1 < s.len() && s[i + 1] == 'x' {
        if i + 8 <= s.len() {
            let digits = s.subrange(i + 2, i + 8);
            if (forall|k: int| 0 <= k < 6 ==> hex_digit_char(#[trigger] digits[k]))
                && scalar_value(hex6_value(digits) as u32) {
                decode_join(
                    seq![(hex6_value(digits) as u32) as char],
                    decode_from(s, i + 8),
                )
            } else {
                DecodeOutcome::BadEscape { escape: s.subrange(i, i + 8) }
            }
        } else {
            DecodeOutcome::BadEscape { escape: s.subrange(i, s.len() as int) }
        }
    } else if i + 2 <= s.len() {
        match unescape_key(s[i + 1]) {
            Some(c) => decode_join(seq![c], decode_from(s, i + 2)),
            None => DecodeOutcome::BadEscape { escape: s.subrange(i, i + 2) },
        }
    } else {
        DecodeOutcome::BadEscape { escape: s.subrange(i, s.len() as int) }
    }
}

/// The decoding of a whole text.
pub open spec fn decode_spec(s: Seq<char>) -> DecodeOutcome {
    decode_from(s, 0)
}

/// Joining two prefixes one after the other is joining their concatenation.
proof fn lemma_decode_join_assoc(a: Seq<char>, b: Seq<char>, r: DecodeOutcome)
    ensures
        decode_join(a, decode_join(b, r)) == decode_join(a + b, r),
{
    match r {
        DecodeOutcome::Text(t) => {
            assert(a + (b + t) =~= (a + b) + t);
        },
        _ => {},
    }
}

/// What the error reported for a failed decoding of `s` must hold: an
/// unescaped format-significant or non-ASCII character gives an
/// `ExpectedEscape` error carrying its position, the character itself and
/// the escape that should stand in its place; a malformed or unterminated
/// escape gives an `InvalidEscape` error carrying the offending sequence
/// text.  Never satisfied when decoding succeeds.
pub open spec fn decode_fail_view(s: Seq<char>, e: crate::errors::ErrorView) -> bool {
    match decode_spec(s) {
        DecodeOutcome::Text(t) => false,
        DecodeOutcome::NeedsEscape { index } => e matches crate::errors::ErrorView::ExpectedEscape(
            v,
        ) && v.line == s && v.index == index && v.token == s[index] && v.replace
            == escape_char_spec(s[index]),
        DecodeOutcome::BadEscape { escape } => e matches crate::errors::ErrorView::InvalidEscape(v)
            && v.line == s && v.escape == escape,
    }
}

/// Reads a string in the escaped ASCII-safe form and resolves its escapes.
///
/// Decoding succeeds exactly when every plain character is ASCII and not
/// format-significant and every escape sequence is well formed; the result
/// is then the decoded text.  An unescaped format-significant or non-ASCII
/// character is reported as an [`ExpectedEscape`] error carrying its
/// position and the escape that should stand in its place; a malformed or
/// unterminated escape is reported as an [`InvalidEscape`] error carrying
/// the offending sequence text.
#[verifier::rlimit(60)]
pub fn parse_str(content: &str) -> (r: Result<String, Error>)
    ensures
        match decode_spec(content@) {
            DecodeOutcome::Text(t) => r matches Ok(out) && out@ == t,
            _ => r matches Err(e) && decode_fail_view(content@, e@),
        },
{
    let n = content.unicode_len();
    let mut out = String::new();
    let mut i: usize = 0;
    while i < n
        invariant
            0 <= i <= n,
            n == content@.len(),
            decode_spec(content@) == decode_join(out@, decode_from(content@, i as int)),
        decreases n - i,
    {
        let ghost prev = out@;
        let c = content.get_char(i);
        if c != '\\' {
            if is_ascii_char(c) && !is_forbidden_char(c) {
                push_char(&mut out, c);
                proof {
                    lemma_decode_join_assoc(prev, seq![c], decode_from(content@, i + 1));
                    assert(prev + seq![c] =~= out@);
                }
                i += 1;
            } else {
                let line = content.to_owned();
                let replace = escape_char_string(c);
                return Err(Error::ExpectedEscape(ExpectedEscape::new(line, i, replace)));
            }
        } else if i + 1 < n && content.get_char(i + 1) == 'x' {
            if n - i >= 8 {
                let d0 = content.get_char(i + 2);
                let d1 = content.get_char(i + 3);
                let d2 = content.get_char(i + 4);
                let d3 = content.get_char(i + 5);
                let d4 = content.get_char(i + 6);
                let d5 = content.get_char(i + 7);
                let ghost digits = content@.subrange(i + 2, i + 8);
                proof {
                    assert(digits[0] == d0 && digits[1] == d1 && digits[2] == d2 && digits[3] == d3
                        && digits[4] == d4 && digits[5] == d5);
                }
                if is_hex_digit_char(d0) && is_hex_digit_char(d1) && is_hex_digit_char(d2)
                    && is_hex_digit_char(d3) && is_hex_digit_char(d4) && is_hex_digit_char(d5) {
                    proof {
                        assert forall|k: int| 0 <= k < 6 implies hex_digit_char(
                            #[trigger] digits[k],
                        ) by {
                        }
                        lemma_hex_val_bound(d0);
                        lemma_hex_val_bound(d1);
                        lemma_hex_val_bound(d2);
                        lemma_hex_val_bound(d3);
                        lemma_hex_val_bound(d4);
                        lemma_hex_val_bound(d5);
                    }
                    let v = hex_val_of(d0) * 0x100000 + hex_val_of(d1) * 0x10000 + hex_val_of(d2)
                        * 0x1000 + hex_val_of(d3) * 0x100 + hex_val_of(d4) * 0x10 + hex_val_of(d5);
                    assert(v == hex6_value(digits));
                    match char_from_u32(v) {
                        Some(ch) => {
                            proof {
                                vstd::utf8::char_u32_cast(ch, v);
                            }
                            push_char(&mut out, ch);
                            proof {
                                lemma_decode_join_assoc(
                                    prev,
                                    seq![ch],
                                    decode_from(content@, i + 8),
                                );
                                assert(prev + seq![ch] =~= out@);
                            }
                            i += 8;
                        },
                        None => {
                            let line = content.to_owned();
                            let escape = content.substring_char(i, i + 8).to_owned();
                            return Err(Error::InvalidEscape(InvalidEscape::new(line, escape)));
                        },
                    }
                } else {
                    let line = content.to_owned();
                    let escape = content.substring_char(i, i + 8).to_owned();
                    return Err(Error::InvalidEscape(InvalidEscape::new(line, escape)));
                }
            } else {
                let line = content.to_owned();
                let escape = content.substring_char(i, n).to_owned();
                return Err(Error::InvalidEscape(InvalidEscape::new(line, escape)));
            }
        } else if n - i >= 2 {
            match unescape_key_of(content.get_char(i + 1)) {
                Some(ch) => {
                    push_char(&mut out, ch);
                    proof {
                        lemma_decode_join_assoc(prev, seq![ch], decode_from(content@, i + 2));
                        assert(prev + seq![ch] =~= out@);
                    }
                    i += 2;
                },
                None => {
                    let line = content.to_owned();
                    let escape = content.substring_char(i, i + 2).to_owned();
                    return Err(Error::InvalidEscape(InvalidEscape::new(line, escape)));
                },
            }
        } else {
            let line = content.to_owned();
            let escape = content.substring_char(i, n).to_owned();
            return Err(Error::InvalidEscape(InvalidEscape::new(line, escape)));
        }
    }
    proof {
        assert(decode_from(content@, n as int) == DecodeOutcome::Text(Seq::<char>::empty()));
        assert(out@ + Seq::<char>::empty() =~= out@);
    }
    Ok(out)
}

/// Splitting a number below sixteen to the sixth power into six base-16
/// digits and recombining them gives the number back.
proof fn lemma_hex6_reconstruct(n: int)
    requires
        0 <= n < 0x1000000,
    ensures
        (n / 0x100000) % 16 * 0x100000 + (n / 0x10000) % 16 * 0x10000 + (n / 0x1000) % 16 * 0x1000
            + (n / 0x100) % 16 * 0x100 + (n / 0x10) % 16 * 0x10 + n % 16 == n,
{
    lemma_fundamental_div_mod(n, 16);
    lemma_div_denominator(n, 16, 16);
    lemma_fundamental_div_mod(n / 0x10, 16);
    lemma_div_denominator(n, 0x100, 16);
    lemma_fundamental_div_mod(n / 0x100, 16);
    lemma_div_denominator(n, 0x1000, 16);
    lemma_fundamental_div_mod(n / 0x1000, 16);
    lemma_div_denominator(n, 0x10000, 16);
    lemma_fundamental_div_mod(n / 0x10000, 16);
    lemma_multiply_divide_lt(n, 0x100000, 16);
    lemma_div_pos_is_pos(n, 0x100000);
    lemma_small_mod((n / 0x100000) as nat, 16);
}

/// The six digits written for a value below sixteen to the sixth power are
/// lowercase hex digits and read back as that value.
proof fn lemma_encode_hex_round(n: u32)
    requires
        n < 0x1000000,
    ensures
        encode_hex(n).len() == 6,
        forall|k: int| 0 <= k < 6 ==> hex_digit_char(#[trigger] encode_hex(n)[k]),
        hex6_value(encode_hex(n)) == n,
{
    lemma_div_pos_is_pos(n as int, 0x100000);
    lemma_div_pos_is_pos(n as int, 0x10000);
    lemma_div_pos_is_pos(n as int, 0x1000);
    lemma_div_pos_is_pos(n as int, 0x100);
    lemma_div_pos_is_pos(n as int, 0x10);
    lemma_hex_char_reverses((n as int / 0x100000) % 16);
    lemma_hex_char_reverses((n as int / 0x10000) % 16);
    lemma_hex_char_reverses((n as int / 0x1000) % 16);
    lemma_hex_char_reverses((n as int / 0x100) % 16);
    lemma_hex_char_reverses((n as int / 0x10) % 16);
    lemma_hex_char_reverses((n as int) % 16);
    lemma_hex6_reconstruct(n as int);
}

/// Decoding undoes encoding, stated over a suffix: when the characters of
/// `t` from position `i` on are exactly the encoding of `u`, decoding `t`
/// from `i` succeeds and yields `u`.
#[verifier::rlimit(100)]
proof fn lemma_decode_from_encode(u: Seq<char>, t: Seq<char>, i: int)
    requires
        0 <= i <= t.len(),
        t.subrange(i, t.len() as int) == encode_spec(u),
    ensures
        decode_from(t, i) == DecodeOutcome::Text(u),
    decreases u.len(),
{
    let suf = t.subrange(i, t.len() as int);
    if u.len() == 0 {
        assert(suf.len() == 0);
        assert(u =~= Seq::<char>::empty());
    } else {
        let c = u[0];
        let e0 = escape_char_spec(c);
        let rest = encode_spec(u.drop_first());
        assert(encode_spec(u) == e0 + rest);
        assert(forall|k: int| 0 <= k < suf.len() ==> suf[k] == t[i + k]);
        if special_char(c) {
            assert(suf[0] == t[i + 0] && suf[1] == t[i + 1]);
            assert(suf[0] == e0[0] && suf[1] == e0[1]);
            assert(t[i] == '\\' && t[i + 1] == escape_key(c));
            assert(escape_key(c) != 'x');
            lemma_escape_key_reverses(c);
            assert forall|k: int| 0 <= k < rest.len() implies t.subrange(
                i + 2,
                t.len() as int,
            )[k] == rest[k] by {
                assert(t.subrange(i + 2, t.len() as int)[k] == t[i + 2 + k]);
                assert(suf[2 + k] == t[i + 2 + k]);
                assert(suf[2 + k] == rest[k]);
            }
            assert(t.subrange(i + 2, t.len() as int) =~= rest);
            lemma_decode_from_encode(u.drop_first(), t, i + 2);
            assert(seq![c] + u.drop_first() =~= u);
        } else if ascii_char(c) {
            assert(suf[0] == t[i + 0]);
            assert(suf[0] == e0[0]);
            assert(t[i] == c);
            assert(c != '\\');
            assert(!forbidden_char(c));
            assert forall|k: int| 0 <= k < rest.len() implies t.subrange(
                i + 1,
                t.len() as int,
            )[k] == rest[k] by {
                assert(t.subrange(i + 1, t.len() as int)[k] == t[i + 1 + k]);
                assert(suf[1 + k] == t[i + 1 + k]);
                assert(suf[1 + k] == rest[k]);
            }
            assert(t.subrange(i + 1, t.len() as int) =~= rest);
            lemma_decode_from_encode(u.drop_first(), t, i + 1);
            assert(seq![c] + u.drop_first() =~= u);
        } else {
            let v = c as u32;
            vstd::utf8::char_is_scalar(c);
            assert(scalar_value(v));
            assert(e0 == seq!['\\', 'x'] + encode_hex(v));
            lemma_encode_hex_round(v);
            assert(e0.len() == 8);
            assert(suf[0] == t[i + 0] && suf[1] == t[i + 1]);
            assert(suf[0] == e0[0] && suf[1] == e0[1]);
            assert(t[i] == '\\' && t[i + 1] == 'x');
            assert(i + 8 <= t.len());
            let digits = t.subrange(i + 2, i + 8);
            assert forall|k: int| 0 <= k < 6 implies digits[k] == encode_hex(v)[k] by {
                assert(digits[k] == t[i + 2 + k]);
                assert(suf[2 + k] == t[i + 2 + k]);
                assert(suf[2 + k] == e0[2 + k]);
                assert(e0[2 + k] == encode_hex(v)[k]);
            }
            assert(digits =~= encode_hex(v));
            assert(hex6_value(digits) == v);
            vstd::utf8::char_u32_cast(c, v);
            assert((hex6_value(digits) as u32) as char == c);
            assert forall|k: int| 0 <= k < rest.len() implies t.subrange(
                i + 8,
                t.len() as int,
            )[k] == rest[k] by {
                assert(t.subrange(i + 8, t.len() as int)[k] == t[i + 8 + k]);
                assert(suf[8 + k] == t[i + 8 + k]);
                assert(suf[8 + k] == rest[k]);
            }
            assert(t.subrange(i + 8, t.len() as int) =~= rest);
            lemma_decode_from_encode(u.drop_first(), t, i + 8);
            assert(seq![c] + u.drop_first() =~= u);
        }
    }
}

/// The codec round trip: decoding the escaped form of any text succeeds
/// and reconstructs the text exactly.  This is the law behind
/// [`parse_str`] inverting [`crate::dump::dump_str`].
pub proof fn lemma_parse_reverses_dump(s: Seq<char>)
    ensures
        decode_spec(encode_spec(s)) == DecodeOutcome::Text(s),
{
    let t = encode_spec(s);
    assert(t.subrange(0, t.len() as int) =~= t);
    lemma_decode_from_encode(s, t, 0);
}

/// The mathematical content of a [`Token`].
pub enum TokenView {
    Char(char),
    Escape(Seq<char>),
}

/// A token of encoded text: a plain character, or a whole escape sequence
/// kept as its raw text.  An escape left unfinished by the end of the input
/// is yielded as it stands, even though it resolves to nothing.
#[derive(Debug, PartialEq)]
pub enum Token {
    Char(char),
    Escape(String),
}

impl View for Token {
    type V = TokenView;

    open spec fn view(&self) -> TokenView {
        match self {
            Token::Char(c) => TokenView::Char(*c),
            Token::Escape(s) => TokenView::Escape(s@),
        }
    }
}

/// The length of the token opening at position `i`: one character for a
/// plain character, two for a short escape, eight for a `\x` escape, less
/// when the input ends inside the escape.
pub open spec fn token_len(s: Seq<char>, i: int) -> int
    recommends
        0 <= i < s.len(),
{
    if s[i] != '\\' {
        1
    } else if i + 1 < s.len() && s[i + 1] == 'x' {
        if i + 8 <= s.len() {
            8
        } else {
            s.len() - i
        }
    } else if i + 2 <= s.len() {
        2
    } else {
        1
    }
}

/// The sequence of tokens of `s` from position `i` on.
pub open spec fn tokenize_from(s: Seq<char>, i: int) -> Seq<TokenView>
    recommends
        0 <= i <= s.len(),
    decreases s.len() - i,
        when 0 <= i <= s.len()
{
    if i >= s.len() {
        Seq::<TokenView>::empty()
    } else if s[i] != '\\' {
        seq![TokenView::Char(s[i])] + tokenize_from(s, i + 1)
    } else {
        seq![TokenView::Escape(s.subrange(i, i + token_len(s, i)))] + tokenize_from(
            s,
            i + token_len(s, i),
        )
    }
}

/// The sequence of tokens of a whole text.
pub open spec fn tokenize_spec(s: Seq<char>) -> Seq<TokenView> {
    tokenize_from(s, 0)
}

/// Splits encoded text into its tokens: each character outside an escape
/// stands alone, and each escape sequence is one token carrying its raw
/// text.  The tokens concatenate back to the input; resolving them is the
/// decoder's business, so an ill-formed escape is still one token here.
pub fn tokenize(content: &str) -> (r: Vec<Token>)
    ensures
        r@.len() == tokenize_spec(content@).len(),
        forall|k: int| 0 <= k < r@.len() ==> r@[k]@ == tokenize_spec(content@)[k],
{
    let n = content.unicode_len();
    let mut toks: Vec<Token> = Vec::new();
    let ghost mut done = Seq::<TokenView>::empty();
    let mut i: usize = 0;
    proof {
        assert(done + tokenize_from(content@, 0) =~= tokenize_from(content@, 0));
    }
    while i < n
        invariant
            0 <= i <= n,
            n == content@.len(),
            tokenize_spec(content@) == done + tokenize_from(content@, i as int),
            toks@.len() == done.len(),
            forall|k: int| 0 <= k < done.len() ==> toks@[k]@ == done[k],
        decreases n - i,
    {
        let c = content.get_char(i);
        if c != '\\' {
            toks.push(Token::Char(c));
            proof {
                let tv = TokenView::Char(c);
                assert((done + (seq![tv] + tokenize_from(content@, i + 1))) =~= ((done + seq![tv])
                    + tokenize_from(content@, i + 1)));
                done = done + seq![tv];
            }
            i += 1;
        } else {
            let l: usize = if i + 1 < n && content.get_char(i + 1) == 'x' {
                if n - i >= 8 {
                    8
                } else {
                    n - i
                }
            } else if n - i >= 2 {
                2
            } else {
                1
            };
            assert(l == token_len(content@, i as int));
            let text = content.substring_char(i, i + l).to_owned();
            toks.push(Token::Escape(text));
            proof {
                let tv = TokenView::Escape(content@.subrange(i as int, i + l));
                assert((done + (seq![tv] + tokenize_from(content@, i + l))) =~= ((done + seq![tv])
                    + tokenize_from(content@, i + l)));
                done = done + seq![tv];
            }
            i += l;
        }
    }
    proof {
        assert(tokenize_from(content@, n as int) =~= Seq::<TokenView>::empty());
        assert(done + Seq::<TokenView>::empty() =~= done);
    }
    toks
}

} // verus!
