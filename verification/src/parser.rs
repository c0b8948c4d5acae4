//! The line parser state machine: it owns the current section and the
//! table built so far, and consumes the input one line at a time.

use vstd::prelude::*;

use crate::chars::{
    ident_seq, is_ws_char, one_char_string, trim_bounds, trim_spec, trim_start_bound,
    trim_start_spec, valid_ident, ws_char, lemma_trim_fixed, lemma_trim_start_at,
};
use crate::datas::{Identifier, IdentifierView, Table, Value, ValueView};
use crate::dump::escape_char_spec;
use crate::errors::{
    Error, ErrorView, ExpectedIdentifier, ExpectedIdentifierView, ExpectedToken, ExpectedTokenView,
    ExpectedEscapeView, InvalidEscapeView, InvalidIdentifier, InvalidIdentifierView,
    UnexpectedToken, UnexpectedTokenView,
};
use crate::parse::{decode_spec, DecodeOutcome};

verus! {

/// The mathematical state of a [`Parser`]: the table built so far and the
/// current section.
pub struct ParserView {
    pub table: Map<IdentifierView, ValueView>,
    pub section: Option<Seq<char>>,
}

/// What one line does to the parser: either the state moves on (a no-op,
/// a new current section, or one more binding in the table), or the line
/// is rejected with an exact diagnostic and the state stays as it was.
pub enum LineOutcome {
    Accept(ParserView),
    Reject(ErrorView),
}

/// The first position at or after `i` where `c` stands, or the length of
/// `s` when there is none.
pub open spec fn find_from(s: Seq<char>, i: int, c: char) -> int
    recommends
        0 <= i <= s.len(),
    decreases s.len() - i,
        when 0 <= i <= s.len()
{
    if i >= s.len() {
        s.len() as int
    } else if s[i] == c {
        i
    } else {
        find_from(s, i + 1, c)
    }
}

/// The first position at or after `i` where `c` stands unescaped, or the
/// length of `s` when there is none.  A backslash shields the character
/// after it, and nothing more: this scan recognizes no escape forms.
pub open spec fn find_unescaped_from(s: Seq<char>, i: int, c: char) -> int
    recommends
        0 <= i <= s.len(),
    decreases s.len() - i,
        when 0 <= i <= s.len()
{
    if i >= s.len() {
        s.len() as int
    } else if s[i] == '\\' {
        if i + 2 <= s.len() {
            find_unescaped_from(s, i + 2, c)
        } else {
            s.len() as int
        }
    } else if s[i] == c {
        i
    } else {
        find_unescaped_from(s, i + 1, c)
    }
}

/// The first position at or after `i` holding whitespace, or the length of
/// `s` when there is none.
pub open spec fn find_ws_from(s: Seq<char>, i: int) -> int
    recommends
        0 <= i <= s.len(),
    decreases s.len() - i,
        when 0 <= i <= s.len()
{
    if i >= s.len() {
        s.len() as int
    } else if ws_char(s[i]) {
        i
    } else {
        find_ws_from(s, i + 1)
    }
}

/// After a section's closing bracket only whitespace may stand until the
/// end of the line or a `;`-comment: the position of the first character
/// breaking that rule, or `None`.
pub open spec fn section_tail_bad(s: Seq<char>, i: int) -> Option<int>
    recommends
        0 <= i <= s.len(),
    decreases s.len() - i,
        when 0 <= i <= s.len()
{
    if i >= s.len() {
        None
    } else if s[i] == ';' {
        None
    } else if !ws_char(s[i]) {
        Some(i)
    } else {
        section_tail_bad(s, i + 1)
    }
}

/// What an assignment line `t` does to the state `p`.
///
/// The first unescaped `=` splits the line; with none, the line is
/// rejected expecting `=` right after the would-be identifier.  The left
/// side, trimmed, must hold the identifier grammar.  The right side is cut
/// at the first unescaped `;`, trimmed, and decoded by the codec; a decode
/// failure is the codec's own diagnosis of the value text.  On success the
/// binding joins the table under the current section, overwriting any
/// earlier binding of the same identifier.
#[verifier::opaque]
pub open spec fn assignment_spec(p: ParserView, t: Seq<char>) -> LineOutcome {
    let eq = find_unescaped_from(t, 0, '=');
    if eq == t.len() {
        let a = t.len() - trim_start_spec(t).len();
        LineOutcome::Reject(
            ErrorView::ExpectedToken(
                ExpectedTokenView { line: t, index: find_ws_from(t, a as int), tokens: seq!['='] },
            ),
        )
    } else {
        let ident_t = trim_spec(t.subrange(0, eq));
        let value_t = if eq + 1 == t.len() {
            Seq::<char>::empty()
        } else {
            let after = t.subrange(eq + 1, t.len() as int);
            trim_spec(after.subrange(0, find_unescaped_from(after, 0, ';')))
        };
        if !ident_seq(ident_t) {
            LineOutcome::Reject(
                ErrorView::InvalidIdentifier(InvalidIdentifierView { line: t, ident: ident_t }),
            )
        } else {
            match decode_spec(value_t) {
                DecodeOutcome::Text(d) => LineOutcome::Accept(
                    ParserView {
                        table: p.table.insert(
                            IdentifierView { section: p.section, name: ident_t },
                            ValueView::Raw(d),
                        ),
                        section: p.section,
                    },
                ),
                DecodeOutcome::NeedsEscape { index } => LineOutcome::Reject(
                    ErrorView::ExpectedEscape(
                        ExpectedEscapeView {
                            line: value_t,
                            index: index,
                            token: value_t[index],
                            replace: escape_char_spec(value_t[index]),
                        },
                    ),
                ),
                DecodeOutcome::BadEscape { escape } => LineOutcome::Reject(
                    ErrorView::InvalidEscape(InvalidEscapeView { line: value_t, escape: escape }),
                ),
            }
        }
    }
}

/// What a section-declaration line `t` (opening with `[`) does to the
/// state `p`.
///
/// The closing bracket must exist and the brackets must not be empty; the
/// text between them, trimmed, must hold the identifier grammar and
/// becomes the current section.  After the closing bracket only whitespace
/// may stand until the end of the line or a `;`-comment; the first
/// character breaking that rule is reported at its exact position.
#[verifier::opaque]
pub open spec fn section_spec(p: ParserView, t: Seq<char>) -> LineOutcome
    recommends
        t.len() > 0 && t[0] == '[',
{
    let close = find_from(t, 1, ']');
    if close == t.len() {
        LineOutcome::Reject(
            ErrorView::ExpectedToken(ExpectedTokenView { line: t, index: 1, tokens: seq![']'] }),
        )
    } else if close == 1 {
        LineOutcome::Reject(
            ErrorView::ExpectedIdentifier(ExpectedIdentifierView { line: t, index: 1 }),
        )
    } else {
        let inner = t.subrange(1, close);
        if !valid_ident(inner) {
            LineOutcome::Reject(
                ErrorView::InvalidIdentifier(InvalidIdentifierView { line: t, ident: inner }),
            )
        } else {
            match section_tail_bad(t, close + 1) {
                Some(k) => LineOutcome::Reject(
                    ErrorView::UnexpectedToken(
                        UnexpectedTokenView { line: t, index: k, token: t[k] },
                    ),
                ),
                None => LineOutcome::Accept(
                    ParserView { table: p.table, section: Some(trim_spec(inner)) },
                ),
            }
        }
    }
}

/// What [`Parser::parse_section`] does with a whole line: the line is
/// trimmed at the start and must then open with `[`, else it is rejected
/// expecting one.
pub open spec fn parse_section_spec(p: ParserView, line: Seq<char>) -> LineOutcome {
    let t = trim_start_spec(line);
    if t.len() == 0 || t[0] != '[' {
        LineOutcome::Reject(
            ErrorView::ExpectedToken(ExpectedTokenView { line: t, index: 0, tokens: seq!['['] }),
        )
    } else {
        section_spec(p, t)
    }
}

/// What [`Parser::parse_line`] does with a whole line: after trimming the
/// start, an empty line or a `;`-comment is a no-op, a line opening with
/// `[` declares a section, and anything else is an assignment.
pub open spec fn parse_line_spec(p: ParserView, line: Seq<char>) -> LineOutcome {
    let t = trim_start_spec(line);
    if t.len() == 0 || t[0] == ';' {
        LineOutcome::Accept(p)
    } else if t[0] == '[' {
        section_spec(p, t)
    } else {
        assignment_spec(p, t)
    }
}

// ---------------------------------------------------------------------------
// Executable scans
// ---------------------------------------------------------------------------
/// The first position at or after `from` where `c` stands in `s`.
fn find_char(s: &str, from: usize, c: char) -> (r: usize)
    requires
        from <= s@.len(),
    ensures
        r == find_from(s@, from as int, c),
        from <= r <= s@.len(),
        r < s@.len() ==> s@[r as int] == c,
{
    let n = s.unicode_len();
    let mut i: usize = from;
    while i < n
        invariant
            from <= i <= n,
            n == s@.len(),
            find_from(s@, from as int, c) == find_from(s@, i as int, c),
        decreases n - i,
    {
        if s.get_char(i) == c {
            return i;
        }
        i += 1;
    }
    n
}

/// The first position at or after `from` where `c` stands unescaped in
/// `s`; a backslash shields the character after it.
fn find_unescaped(s: &str, from: usize, c: char) -> (r: usize)
    requires
        from <= s@.len(),
    ensures
        r == find_unescaped_from(s@, from as int, c),
        from <= r <= s@.len(),
    decreases s@.len() - from,
{
    let n = s.unicode_len();
    let mut i: usize = from;
    while i < n
        invariant
            from <= i <= n,
            n == s@.len(),
            find_unescaped_from(s@, from as int, c) == find_unescaped_from(s@, i as int, c),
        decreases n - i,
    {
        let ch = s.get_char(i);
        if ch == '\\' {
            if n - i >= 2 {
                i += 2;
            } else {
                return n;
            }
        } else if ch == c {
            return i;
        } else {
            i += 1;
        }
    }
    n
}

/// The first position at or after `from` holding whitespace in `s`.
fn find_ws(s: &str, from: usize) -> (r: usize)
    requires
        from <= s@.len(),
    ensures
        r == find_ws_from(s@, from as int),
        from <= r <= s@.len(),
{
    let n = s.unicode_len();
    let mut i: usize = from;
    while i < n
        invariant
            from <= i <= n,
            n == s@.len(),
            find_ws_from(s@, from as int) == find_ws_from(s@, i as int),
        decreases n - i,
    {
        if is_ws_char(s.get_char(i)) {
            return i;
        }
        i += 1;
    }
    n
}

/// The first character after the closing bracket that is neither
/// whitespace nor the start of a comment, if any.
fn section_tail_scan(s: &str, from: usize) -> (r: Option<usize>)
    requires
        from <= s@.len(),
    ensures
        match r {
            Some(k) => section_tail_bad(s@, from as int) == Some(k as int) && from <= k
                < s@.len(),
            None => section_tail_bad(s@, from as int) is None,
        },
{
    let n = s.unicode_len();
    let mut i: usize = from;
    while i < n
        invariant
            from <= i <= n,
            n == s@.len(),
            section_tail_bad(s@, from as int) == section_tail_bad(s@, i as int),
        decreases n - i,
    {
        let ch = s.get_char(i);
        if ch == ';' {
            return None;
        }
        if !is_ws_char(ch) {
            return Some(i);
        }
        i += 1;
    }
    None
}

/// The last write wins: binding an identifier and then binding it again
/// leaves exactly the second value, as if the first binding had never
/// happened.  This is what holds of a table built from two assignments to
/// the same identifier in the same section.
pub proof fn lemma_last_write_wins(
    m: Map<IdentifierView, ValueView>,
    k: IdentifierView,
    v1: ValueView,
    v2: ValueView,
)
    ensures
        m.insert(k, v1).insert(k, v2) == m.insert(k, v2),
        m.insert(k, v1).insert(k, v2)[k] == v2,
{
    assert(m.insert(k, v1).insert(k, v2) =~= m.insert(k, v2));
}

/// Reaching `m` with neither `c` nor a backslash before it, the unescaped
/// scan from `i` finds `c` at `m`; with no `c` until the end, it reports
/// the length.
proof fn lemma_find_unescaped_at(s: Seq<char>, c: char, i: int, m: int)
    requires
        c != '\\',
        0 <= i <= m <= s.len(),
        forall|k: int| i <= k < m ==> s[k] != c && s[k] != '\\',
        m < s.len() ==> s[m] == c,
    ensures
        find_unescaped_from(s, i, c) == if m < s.len() {
            m
        } else {
            s.len() as int
        },
    decreases m - i,
{
    if i < m {
        lemma_find_unescaped_at(s, c, i + 1, m);
    }
}

/// The same for the plain scan.
proof fn lemma_find_at(s: Seq<char>, c: char, i: int, m: int)
    requires
        0 <= i <= m <= s.len(),
        forall|k: int| i <= k < m ==> s[k] != c,
        m < s.len() ==> s[m] == c,
    ensures
        find_from(s, i, c) == if m < s.len() {
            m
        } else {
            s.len() as int
        },
    decreases m - i,
{
    if i < m {
        lemma_find_at(s, c, i + 1, m);
    }
}

/// Encoded text holds no unescaped format-significant character: the
/// comment scan and the `=` scan walk the escaped form of any text to its
/// end, stated over a suffix as the scan steps through it.
proof fn lemma_encode_scan_clean(u: Seq<char>, t: Seq<char>, i: int, c: char)
    requires
        crate::chars::forbidden_char(c),
        0 <= i <= t.len(),
        t.subrange(i, t.len() as int) == crate::dump::encode_spec(u),
    ensures
        find_unescaped_from(t, i, c) == t.len(),
    decreases u.len(),
{
    let suf = t.subrange(i, t.len() as int);
    if u.len() == 0 {
        assert(suf.len() == 0);
    } else {
        let ch = u[0];
        let e0 = crate::dump::escape_char_spec(ch);
        let rest = crate::dump::encode_spec(u.drop_first());
        assert(crate::dump::encode_spec(u) == e0 + rest);
        assert(forall|k: int| 0 <= k < suf.len() ==> suf[k] == t[i + k]);
        if crate::chars::special_char(ch) {
            assert(suf[0] == t[i + 0] && suf[0] == e0[0]);
            assert(t[i] == '\\');
            assert(t.subrange(i + 2, t.len() as int) =~= rest) by {
                assert(forall|k: int|
                    0 <= k < rest.len() ==> t.subrange(i + 2, t.len() as int)[k] == t[i + 2 + k]
                        && suf[2 + k] == t[i + 2 + k] && suf[2 + k] == rest[k]);
            }
            lemma_encode_scan_clean(u.drop_first(), t, i + 2, c);
        } else if crate::chars::ascii_char(ch) {
            assert(suf[0] == t[i + 0] && suf[0] == e0[0]);
            assert(t[i] == ch && ch != '\\' && ch != c);
            assert(t.subrange(i + 1, t.len() as int) =~= rest) by {
                assert(forall|k: int|
                    0 <= k < rest.len() ==> t.subrange(i + 1, t.len() as int)[k] == t[i + 1 + k]
                        && suf[1 + k] == t[i + 1 + k] && suf[1 + k] == rest[k]);
            }
            lemma_encode_scan_clean(u.drop_first(), t, i + 1, c);
        } else {
            let v = ch as u32;
            assert(e0 == seq!['\\', 'x'] + crate::dump::encode_hex(v));
            assert(e0.len() == 8);
            assert forall|k: int| 0 <= k < 8 implies suf[k] == t[i + k] && suf[k] == e0[k] by {
                assert(suf[k] == (e0 + rest)[k]);
            }
            assert(suf[0] == t[i + 0] && suf[0] == e0[0]);
            assert(t[i] == '\\');
            crate::chars::lemma_hex_char_reverses((v as int / 0x100000) % 16);
            crate::chars::lemma_hex_char_reverses((v as int / 0x10000) % 16);
            crate::chars::lemma_hex_char_reverses((v as int / 0x1000) % 16);
            crate::chars::lemma_hex_char_reverses((v as int / 0x100) % 16);
            crate::chars::lemma_hex_char_reverses((v as int / 0x10) % 16);
            crate::chars::lemma_hex_char_reverses((v as int) % 16);
            assert(t.subrange(i + 8, t.len() as int) =~= rest) by {
                assert(forall|k: int|
                    0 <= k < rest.len() ==> t.subrange(i + 8, t.len() as int)[k] == t[i + 8 + k]
                        && suf[8 + k] == t[i + 8 + k] && suf[8 + k] == rest[k]);
            }
            lemma_encode_scan_clean(u.drop_first(), t, i + 8, c);
            assert forall|k: int| i + 2 <= k < i + 8 implies t[k] != c && t[k] != '\\' by {
                assert(suf[k - i] == t[k]);
                assert(suf[k - i] == e0[k - i]);
                assert(e0[k - i] == crate::dump::encode_hex(v)[k - i - 2]);
            }
            lemma_find_unescaped_walk(t, c, i + 2, i + 8);
        }
    }
}

/// Single steps of the unescaped scan over benign characters.
proof fn lemma_find_unescaped_walk(s: Seq<char>, c: char, i: int, m: int)
    requires
        0 <= i <= m <= s.len(),
        forall|k: int| i <= k < m ==> s[k] != c && s[k] != '\\',
    ensures
        find_unescaped_from(s, i, c) == find_unescaped_from(s, m, c),
    decreases m - i,
{
    if i < m {
        lemma_find_unescaped_walk(s, c, i + 1, m);
    }
}

/// An identifier character opens no escape, ends no assignment and is no
/// whitespace: the facts the round-trip laws lean on.
proof fn lemma_ident_char_benign(c: char)
    requires
        crate::chars::ident_char(c),
    ensures
        c != '\\' && c != '=' && c != ';' && c != ']' && c != '[' && c != '\n',
        !ws_char(c),
        !crate::chars::special_char(c),
{
}

/// The assignment round trip: a line written as a valid name, `=` and the
/// escaped form of any value parses back to exactly one binding of that
/// name, under the current section, to that value.  The one proviso is
/// that the escaped value must not begin or end with whitespace, which
/// the parser would trim away.
pub proof fn lemma_dump_line_parses(p: ParserView, nm: Seq<char>, v: Seq<char>)
    requires
        ident_seq(nm),
        trim_spec(crate::dump::encode_spec(v)) == crate::dump::encode_spec(v),
    ensures
        parse_line_spec(p, nm + seq!['='] + crate::dump::encode_spec(v)) == LineOutcome::Accept(
            ParserView {
                table: p.table.insert(
                    IdentifierView { section: p.section, name: nm },
                    ValueView::Raw(v),
                ),
                section: p.section,
            },
        ),
{
    reveal(assignment_spec);
    let enc = crate::dump::encode_spec(v);
    let line = nm + seq!['='] + enc;
    assert(line.len() == nm.len() + 1 + enc.len());
    assert forall|k: int| 0 <= k < nm.len() implies line[k] == nm[k] && crate::chars::ident_char(
        line[k],
    ) by {
        if k == 0 {
            assert(crate::chars::ident_start_char(nm[0]));
        }
    }
    assert(line[nm.len() as int] == '=');
    assert forall|k: int| 0 <= k < enc.len() implies line[nm.len() + 1 + k] == enc[k] by {
    }
    lemma_ident_char_benign(nm[0]);
    lemma_trim_start_at(line, 0);
    assert(line.subrange(0, line.len() as int) =~= line);
    let t = trim_start_spec(line);
    assert(t == line);
    assert(t[0] != ';' && t[0] != '[');
    assert forall|k: int| 0 <= k < nm.len() implies t[k] != '=' && t[k] != '\\' by {
        lemma_ident_char_benign(nm[k]);
    }
    lemma_find_unescaped_at(t, '=', 0, nm.len() as int);
    let eq = find_unescaped_from(t, 0, '=');
    assert(eq == nm.len());
    assert(t.subrange(0, eq) =~= nm);
    lemma_ident_char_benign(nm[0]);
    lemma_ident_char_benign(nm[nm.len() - 1]);
    lemma_trim_fixed(nm);
    crate::parse::lemma_parse_reverses_dump(v);
    if eq + 1 == t.len() {
        assert(enc.len() == 0);
        assert(crate::parse::decode_spec(Seq::<char>::empty()) == crate::parse::DecodeOutcome::Text(
            Seq::<char>::empty(),
        ));
        assert(v.len() == 0) by {
            if v.len() > 0 {
                crate::dump::lemma_encode_ascii(v);
                assert(crate::dump::encode_spec(v) == crate::dump::escape_char_spec(v[0])
                    + crate::dump::encode_spec(v.drop_first()));
            }
        }
        assert(v =~= Seq::<char>::empty());
    } else {
        let after = t.subrange(eq + 1, t.len() as int);
        assert(after =~= enc);
        assert(after.subrange(0, after.len() as int) =~= enc);
        lemma_encode_scan_clean(v, after, 0, ';');
        assert(find_unescaped_from(after, 0, ';') == after.len());
    }
}

/// The section round trip: a line written as a valid name between
/// brackets parses back to exactly a change of the current section to
/// that name, the table untouched.
pub proof fn lemma_section_line_parses(p: ParserView, nm: Seq<char>)
    requires
        ident_seq(nm),
    ensures
        parse_line_spec(p, seq!['['] + nm + seq![']']) == LineOutcome::Accept(
            ParserView { table: p.table, section: Some(nm) },
        ),
{
    reveal(section_spec);
    let line = seq!['['] + nm + seq![']'];
    assert(line.len() == nm.len() + 2);
    assert(line[0] == '[');
    assert forall|k: int| 0 <= k < nm.len() implies line[1 + k] == nm[k]
        && crate::chars::ident_char(line[1 + k]) by {
        if k == 0 {
            assert(crate::chars::ident_start_char(nm[0]));
        }
    }
    assert(line[line.len() - 1] == ']');
    lemma_trim_start_at(line, 0);
    assert(line.subrange(0, line.len() as int) =~= line);
    let t = trim_start_spec(line);
    assert(t == line);
    assert forall|k: int| 1 <= k < 1 + nm.len() implies t[k] != ']' by {
        lemma_ident_char_benign(nm[k - 1]);
    }
    lemma_find_at(t, ']', 1, 1 + nm.len() as int);
    let close = find_from(t, 1, ']');
    assert(close == 1 + nm.len());
    assert(close < t.len() && close > 1);
    assert(t.subrange(1, close) =~= nm);
    lemma_ident_char_benign(nm[0]);
    lemma_ident_char_benign(nm[nm.len() - 1]);
    lemma_trim_fixed(nm);
    assert(valid_ident(nm));
    assert(section_tail_bad(t, close + 1) is None);
}

/// A list of bindings added to a table in order, all under one section.
pub open spec fn insert_all(
    m: Map<IdentifierView, ValueView>,
    sec: Option<Seq<char>>,
    nms: Seq<Seq<char>>,
    vs: Seq<Seq<char>>,
) -> Map<IdentifierView, ValueView>
    recommends
        nms.len() == vs.len(),
    decreases nms.len(),
{
    if nms.len() == 0 {
        m
    } else {
        insert_all(
            m.insert(IdentifierView { section: sec, name: nms[0] }, ValueView::Raw(vs[0])),
            sec,
            nms.drop_first(),
            vs.drop_first(),
        )
    }
}

/// A whole block of dumped assignment lines parses back to its bindings:
/// writing each value's escaped form after its name and feeding the lines
/// to the parser in order accepts every line and adds exactly those
/// bindings under the current section, in order.  Together with
/// [`lemma_section_line_parses`] and [`lemma_last_write_wins`], this is
/// the reconstruction half of the document round trip, one section at a
/// time.
pub proof fn lemma_assignment_lines_parse(
    p: ParserView,
    ls: Seq<Seq<char>>,
    nms: Seq<Seq<char>>,
    vs: Seq<Seq<char>>,
)
    requires
        ls.len() == nms.len(),
        ls.len() == vs.len(),
        forall|i: int| 0 <= i < ls.len() ==> ident_seq(#[trigger] nms[i]),
        forall|i: int|
            0 <= i < ls.len() ==> trim_spec(crate::dump::encode_spec(#[trigger] vs[i]))
                == crate::dump::encode_spec(vs[i]),
        forall|i: int|
            0 <= i < ls.len() ==> #[trigger] ls[i] == nms[i] + seq!['='] + crate::dump::encode_spec(
                vs[i],
            ),
    ensures
        parse_lines_spec(p, ls) == LineOutcome::Accept(
            ParserView { table: insert_all(p.table, p.section, nms, vs), section: p.section },
        ),
    decreases ls.len(),
{
    if ls.len() == 0 {
        assert(parse_lines_spec(p, ls) == LineOutcome::Accept(p));
    } else {
        lemma_dump_line_parses(p, nms[0], vs[0]);
        let p1 = ParserView {
            table: p.table.insert(
                IdentifierView { section: p.section, name: nms[0] },
                ValueView::Raw(vs[0]),
            ),
            section: p.section,
        };
        assert(parse_line_spec(p, ls[0]) == LineOutcome::Accept(p1));
        assert(forall|i: int|
            0 <= i < ls.drop_first().len() ==> #[trigger] ls.drop_first()[i] == ls[i + 1]
                && nms.drop_first()[i] == nms[i + 1] && vs.drop_first()[i] == vs[i + 1]);
        lemma_assignment_lines_parse(p1, ls.drop_first(), nms.drop_first(), vs.drop_first());
    }
}

/// A whole dumped section parses back: a header line declaring a valid
/// name followed by a block of dumped assignment lines accepts every line,
/// leaves that section current, and adds exactly the block's bindings
/// under it.
pub proof fn lemma_section_block_parses(
    p: ParserView,
    nm: Seq<char>,
    ls: Seq<Seq<char>>,
    nms: Seq<Seq<char>>,
    vs: Seq<Seq<char>>,
)
    requires
        ident_seq(nm),
        ls.len() == nms.len(),
        ls.len() == vs.len(),
        forall|i: int| 0 <= i < ls.len() ==> ident_seq(#[trigger] nms[i]),
        forall|i: int|
            0 <= i < ls.len() ==> trim_spec(crate::dump::encode_spec(#[trigger] vs[i]))
                == crate::dump::encode_spec(vs[i]),
        forall|i: int|
            0 <= i < ls.len() ==> #[trigger] ls[i] == nms[i] + seq!['='] + crate::dump::encode_spec(
                vs[i],
            ),
    ensures
        parse_lines_spec(p, seq![seq!['['] + nm + seq![']']] + ls) == LineOutcome::Accept(
            ParserView {
                table: insert_all(p.table, Some(nm), nms, vs),
                section: Some(nm),
            },
        ),
{
    let header = seq!['['] + nm + seq![']'];
    let all = seq![header] + ls;
    lemma_section_line_parses(p, nm);
    let p1 = ParserView { table: p.table, section: Some(nm) };
    assert(all[0] == header);
    assert(all.drop_first() =~= ls);
    lemma_assignment_lines_parse(p1, ls, nms, vs);
}

/// A dumped assignment line determines its name and value: the name is
/// the text before the first `=`, and the escaped value decodes uniquely.
proof fn lemma_dump_line_unique(
    nm1: Seq<char>,
    v1: Seq<char>,
    nm2: Seq<char>,
    v2: Seq<char>,
)
    requires
        ident_seq(nm1),
        ident_seq(nm2),
        nm1 + seq!['='] + crate::dump::encode_spec(v1) == nm2 + seq!['=']
            + crate::dump::encode_spec(v2),
    ensures
        nm1 == nm2,
        v1 == v2,
{
    let line = nm1 + seq!['='] + crate::dump::encode_spec(v1);
    assert forall|k: int| 0 <= k < nm1.len() implies line[k] != '=' by {
        assert(line[k] == nm1[k]);
        lemma_ident_char_benign(nm1[k]);
    }
    assert(line[nm1.len() as int] == '=');
    lemma_find_at(line, '=', 0, nm1.len() as int);
    let line2 = nm2 + seq!['='] + crate::dump::encode_spec(v2);
    assert forall|k: int| 0 <= k < nm2.len() implies line2[k] != '=' by {
        assert(line2[k] == nm2[k]);
        lemma_ident_char_benign(nm2[k]);
    }
    assert(line2[nm2.len() as int] == '=');
    lemma_find_at(line2, '=', 0, nm2.len() as int);
    assert(nm1.len() == nm2.len());
    assert(nm1 =~= nm2) by {
        assert(forall|k: int| 0 <= k < nm1.len() ==> nm1[k] == line[k] && nm2[k] == line2[k]);
    }
    assert(crate::dump::encode_spec(v1) =~= crate::dump::encode_spec(v2)) by {
        assert(forall|k: int|
            0 <= k < crate::dump::encode_spec(v1).len() ==> crate::dump::encode_spec(v1)[k]
                == line[nm1.len() + 1 + k] && crate::dump::encode_spec(v2)[k] == line2[nm2.len() + 1
                + k]);
    }
    crate::parse::lemma_parse_reverses_dump(v1);
    crate::parse::lemma_parse_reverses_dump(v2);
}

/// Adding bindings whose values agree with a reference table keeps the
/// result inside the reference: every held key is a reference key with
/// the reference's value, old keys stay held, and each added binding's
/// key is held.
proof fn lemma_insert_all_under(
    m: Map<IdentifierView, ValueView>,
    sec: Option<Seq<char>>,
    nms: Seq<Seq<char>>,
    vs: Seq<Seq<char>>,
    t: Map<IdentifierView, ValueView>,
)
    requires
        nms.len() == vs.len(),
        forall|i: int|
            0 <= i < nms.len() ==> t.contains_key(
                IdentifierView { section: sec, name: #[trigger] nms[i] },
            ) && t[IdentifierView { section: sec, name: nms[i] }] == ValueView::Raw(vs[i]),
        forall|k: IdentifierView|
            #[trigger] m.contains_key(k) ==> t.contains_key(k) && m[k] == t[k],
    ensures
        forall|k: IdentifierView|
            #[trigger] insert_all(m, sec, nms, vs).contains_key(k) ==> t.contains_key(k)
                && insert_all(m, sec, nms, vs)[k] == t[k],
        forall|k: IdentifierView|
            #[trigger] m.contains_key(k) ==> insert_all(m, sec, nms, vs).contains_key(k),
        forall|i: int|
            0 <= i < nms.len() ==> insert_all(m, sec, nms, vs).contains_key(
                IdentifierView { section: sec, name: #[trigger] nms[i] },
            ),
    decreases nms.len(),
{
    if nms.len() == 0 {
        assert(insert_all(m, sec, nms, vs) == m);
    } else {
        let k0 = IdentifierView { section: sec, name: nms[0] };
        let m1 = m.insert(k0, ValueView::Raw(vs[0]));
        assert(t.contains_key(IdentifierView { section: sec, name: nms[0] }));
        assert forall|k: IdentifierView| #[trigger] m1.contains_key(k) implies t.contains_key(k)
            && m1[k] == t[k] by {
            if k == k0 {
                assert(t[k0] == ValueView::Raw(vs[0]));
            }
        }
        assert(forall|i: int|
            0 <= i < nms.drop_first().len() ==> #[trigger] nms.drop_first()[i] == nms[i + 1]
                && vs.drop_first()[i] == vs[i + 1]);
        lemma_insert_all_under(m1, sec, nms.drop_first(), vs.drop_first(), t);
        assert(insert_all(m, sec, nms, vs) == insert_all(
            m1,
            sec,
            nms.drop_first(),
            vs.drop_first(),
        ));
        assert forall|k: IdentifierView| #[trigger] m.contains_key(k) implies insert_all(
            m,
            sec,
            nms,
            vs,
        ).contains_key(k) by {
            assert(m1.contains_key(k));
        }
        assert forall|i: int| 0 <= i < nms.len() implies insert_all(
            m,
            sec,
            nms,
            vs,
        ).contains_key(IdentifierView { section: sec, name: #[trigger] nms[i] }) by {
            if i == 0 {
                assert(m1.contains_key(k0));
            } else {
                assert(IdentifierView { section: sec, name: nms.drop_first()[i - 1] }
                    == IdentifierView { section: sec, name: nms[i] });
            }
        }
    }
}

/// Every entry holds a raw value whose escaped form neither begins nor
/// ends with whitespace: the proviso under which a dumped document can be
/// parsed back without loss.
pub open spec fn entries_round_trippable(s: Seq<(Identifier, Value)>) -> bool {
    forall|j: int|
        0 <= j < s.len() ==> (#[trigger] s[j]).1@ is Raw && trim_spec(
            crate::dump::encode_spec(s[j].1@.content()),
        ) == crate::dump::encode_spec(s[j].1@.content())
}

/// A list of lines, each of them one of the lines a table's entries put
/// under `sec`, parses under the current section `sec`: every line is
/// accepted, the section stays, the table stays inside the reference
/// mapping, old keys stay, and every entry whose line is in the list gets
/// its key bound.
#[verifier::rlimit(100)]
#[verifier::spinoff_prover]
proof fn lemma_block_lines_parse(
    p: ParserView,
    s: Seq<(Identifier, Value)>,
    sec: Option<Seq<char>>,
    ls: Seq<Seq<char>>,
) -> (q2: ParserView)
    requires
        crate::datas::entries_wf(s),
        entries_round_trippable(s),
        p.section == sec,
        forall|q: int| 0 <= q < ls.len() ==> crate::dumper::lines_for(s, sec).contains(
            #[trigger] ls[q],
        ),
        forall|k: IdentifierView|
            #[trigger] p.table.contains_key(k) ==> crate::datas::map_of(s).contains_key(k)
                && p.table[k] == crate::datas::map_of(s)[k],
    ensures
        parse_lines_spec(p, ls) == LineOutcome::Accept(q2),
        q2.section == sec,
        forall|k: IdentifierView|
            #[trigger] q2.table.contains_key(k) ==> crate::datas::map_of(s).contains_key(k)
                && q2.table[k] == crate::datas::map_of(s)[k],
        forall|k: IdentifierView|
            #[trigger] p.table.contains_key(k) ==> q2.table.contains_key(k),
        forall|j: int|
            0 <= j < s.len() && (#[trigger] s[j]).0@.section == sec && ls.contains(line_of_entry(s, j))
                ==> q2.table.contains_key(s[j].0@),
{
    let t = crate::datas::map_of(s);
    let nms = Seq::new(
        ls.len(),
        |q: int|
            {
                let j = choose|j: int|
                    0 <= j < s.len() && (#[trigger] s[j]).0@.section == sec
                        && crate::dumper::line_of(s[j]) == ls[q];
                s[j].0@.name
            },
    );
    let vs = Seq::new(
        ls.len(),
        |q: int|
            {
                let j = choose|j: int|
                    0 <= j < s.len() && (#[trigger] s[j]).0@.section == sec
                        && crate::dumper::line_of(s[j]) == ls[q];
                s[j].1@.content()
            },
    );
    assert forall|q: int| 0 <= q < ls.len() implies ident_seq(#[trigger] nms[q]) && trim_spec(
        crate::dump::encode_spec(vs[q]),
    ) == crate::dump::encode_spec(vs[q]) && ls[q] == nms[q] + seq!['='] + crate::dump::encode_spec(
        vs[q],
    ) && t.contains_key(IdentifierView { section: sec, name: nms[q] }) && t[IdentifierView {
        section: sec,
        name: nms[q],
    }] == ValueView::Raw(vs[q]) by {
        crate::dumper::lemma_lines_for_membership(s, sec, ls[q]);
        let j = choose|j: int|
            0 <= j < s.len() && (#[trigger] s[j]).0@.section == sec && crate::dumper::line_of(
                s[j],
            ) == ls[q];
        assert(nms[q] == s[j].0@.name);
        assert(vs[q] == s[j].1@.content());
        assert(s[j].0@.wf());
        assert(s[j].1@ is Raw);
        assert(crate::datas::dump_value_spec(s[j].1@) == crate::dump::encode_spec(
            s[j].1@.content(),
        ));
        crate::datas::lemma_map_of_get(s, j);
        assert(s[j].0@ == IdentifierView { section: sec, name: nms[q] });
    }
    assert forall|i: int| 0 <= i < ls.len() implies trim_spec(
        crate::dump::encode_spec(#[trigger] vs[i]),
    ) == crate::dump::encode_spec(vs[i]) by {
        assert(ident_seq(nms[i]));
    }
    assert forall|i: int| 0 <= i < ls.len() implies #[trigger] ls[i] == nms[i] + seq!['=']
        + crate::dump::encode_spec(vs[i]) by {
        assert(ident_seq(nms[i]));
    }
    assert forall|i: int| 0 <= i < nms.len() implies t.contains_key(
        IdentifierView { section: sec, name: #[trigger] nms[i] },
    ) && t[IdentifierView { section: sec, name: nms[i] }] == ValueView::Raw(vs[i]) by {
        assert(ident_seq(nms[i]));
    }
    lemma_assignment_lines_parse(p, ls, nms, vs);
    lemma_insert_all_under(p.table, sec, nms, vs, t);
    let q2 = ParserView { table: insert_all(p.table, sec, nms, vs), section: sec };
    assert forall|j: int|
        0 <= j < s.len() && (#[trigger] s[j]).0@.section == sec && ls.contains(
            line_of_entry(s, j),
        ) implies q2.table.contains_key(s[j].0@) by {
        let q = choose|q: int| 0 <= q < ls.len() && ls[q] == line_of_entry(s, j);
        crate::dumper::lemma_lines_for_membership(s, sec, ls[q]);
        let j2 = choose|j2: int|
            0 <= j2 < s.len() && (#[trigger] s[j2]).0@.section == sec && crate::dumper::line_of(
                s[j2],
            ) == ls[q];
        assert(nms[q] == s[j2].0@.name);
        assert(vs[q] == s[j2].1@.content());
        assert(crate::dumper::line_of(s[j]) == crate::dumper::line_of(s[j2]));
        lemma_dump_line_unique(
            s[j].0@.name,
            s[j].1@.content(),
            s[j2].0@.name,
            s[j2].1@.content(),
        );
        assert(s[j].0@ == IdentifierView { section: sec, name: nms[q] });
    }
    q2
}

/// The line an entry is filed as; a helper name so quantifiers can speak
/// of it with a simple trigger.
spec fn line_of_entry(s: Seq<(Identifier, Value)>, j: int) -> Seq<char> {
    crate::dumper::line_of(s[j])
}

/// The lines of a text: the text split at every line feed.  A text
/// without one is a single line; a trailing line feed yields a final
/// empty line, which parses as a no-op.
pub open spec fn split_lines(s: Seq<char>) -> Seq<Seq<char>>
    decreases s.len(),
{
    let j = find_from(s, 0, '\n');
    if !(0 <= j < s.len()) {
        seq![s]
    } else {
        seq![s.subrange(0, j)] + split_lines(s.subrange(j + 1, s.len() as int))
    }
}

/// What a whole sequence of lines does to the state `p`: the lines are
/// parsed in order, and the first rejected line stops the run with its
/// diagnostic.
pub open spec fn parse_lines_spec(p: ParserView, ls: Seq<Seq<char>>) -> LineOutcome
    decreases ls.len(),
{
    if ls.len() == 0 {
        LineOutcome::Accept(p)
    } else {
        match parse_line_spec(p, ls[0]) {
            LineOutcome::Accept(p2) => parse_lines_spec(p2, ls.drop_first()),
            LineOutcome::Reject(e) => LineOutcome::Reject(e),
        }
    }
}

/// Parsing a concatenation of line lists runs them one after the other:
/// the second list starts from the state the first one reached, and a
/// rejection in the first list is the rejection of the whole.
proof fn lemma_parse_lines_concat(p: ParserView, a: Seq<Seq<char>>, b: Seq<Seq<char>>)
    ensures
        parse_lines_spec(p, a + b) == (match parse_lines_spec(p, a) {
            LineOutcome::Accept(q) => parse_lines_spec(q, b),
            LineOutcome::Reject(e) => LineOutcome::Reject(e),
        }),
    decreases a.len(),
{
    if a.len() == 0 {
        assert(a + b =~= b);
    } else {
        assert((a + b)[0] == a[0]);
        assert((a + b).drop_first() =~= a.drop_first() + b);
        match parse_line_spec(p, a[0]) {
            LineOutcome::Accept(q) => {
                lemma_parse_lines_concat(q, a.drop_first(), b);
            },
            LineOutcome::Reject(_) => {},
        }
    }
}

/// Joined lists of lines concatenate.
proof fn lemma_join_lines_concat(a: Seq<Seq<char>>, b: Seq<Seq<char>>)
    ensures
        crate::dumper::join_lines(a + b) == crate::dumper::join_lines(a)
            + crate::dumper::join_lines(b),
    decreases a.len(),
{
    if a.len() == 0 {
        assert(a + b =~= b);
        assert(crate::dumper::join_lines(a) + crate::dumper::join_lines(b)
            =~= crate::dumper::join_lines(b));
    } else {
        assert((a + b)[0] == a[0]);
        assert((a + b).drop_first() =~= a.drop_first() + b);
        lemma_join_lines_concat(a.drop_first(), b);
        assert(crate::dumper::join_lines(a + b) =~= crate::dumper::join_lines(a)
            + crate::dumper::join_lines(b));
    }
}

/// A joined, non-empty list of lines with its final line feed removed
/// splits back into exactly those lines.
proof fn lemma_split_join_drop(ls: Seq<Seq<char>>)
    requires
        ls.len() > 0,
        forall|i: int, k: int|
            0 <= i < ls.len() && 0 <= k < ls[i].len() ==> #[trigger] ls[i][k] != '\n',
    ensures
        split_lines(crate::dumper::join_lines(ls).drop_last()) == ls,
    decreases ls.len(),
{
    let l0 = ls[0];
    let jall = crate::dumper::join_lines(ls);
    assert(jall == l0 + seq!['\n'] + crate::dumper::join_lines(ls.drop_first()));
    if ls.len() == 1 {
        assert(crate::dumper::join_lines(ls.drop_first()) =~= Seq::<char>::empty());
        let text = jall.drop_last();
        assert(text =~= l0);
        assert forall|k: int| 0 <= k < l0.len() implies l0[k] != '\n' by {
            assert(ls[0][k] != '\n');
        }
        lemma_find_at(l0, '\n', 0, l0.len() as int);
        assert(split_lines(text) == seq![l0]);
        assert(seq![l0] =~= ls);
    } else {
        let jrest = crate::dumper::join_lines(ls.drop_first());
        assert(jrest.len() > 0) by {
            assert(jrest == ls.drop_first()[0] + seq!['\n'] + crate::dumper::join_lines(
                ls.drop_first().drop_first(),
            ));
        }
        let text = jall.drop_last();
        assert(text =~= l0 + seq!['\n'] + jrest.drop_last());
        assert forall|k: int| 0 <= k < l0.len() implies text[k] != '\n' by {
            assert(text[k] == l0[k]);
            assert(ls[0][k] != '\n');
        }
        assert(text[l0.len() as int] == '\n');
        lemma_find_at(text, '\n', 0, l0.len() as int);
        let j = find_from(text, 0, '\n');
        assert(j == l0.len());
        assert(j < text.len());
        assert(text.subrange(0, j) =~= l0);
        assert(text.subrange(j + 1, text.len() as int) =~= jrest.drop_last());
        assert(forall|i: int, k: int|
            0 <= i < ls.drop_first().len() && 0 <= k < ls.drop_first()[i].len()
                ==> #[trigger] ls.drop_first()[i][k] != '\n');
        lemma_split_join_drop(ls.drop_first());
        assert(split_lines(text) == seq![l0] + ls.drop_first());
        assert(seq![l0] + ls.drop_first() =~= ls);
    }
}

/// An empty line is a no-op for the parser.
proof fn lemma_blank_line_parses(p: ParserView)
    ensures
        parse_line_spec(p, Seq::<char>::empty()) == LineOutcome::Accept(p),
{
    assert(trim_start_spec(Seq::<char>::empty()).len() == 0);
}

/// The lines of one section's part of a document: the header, the
/// section's lines sorted, and a blank line.
spec fn block_lines(d: crate::dumper::DumperView, nm: Seq<char>) -> Seq<Seq<char>> {
    seq![seq!['['] + nm + seq![']']] + crate::dumper::sort_lex(
        crate::dumper::lines_of(d, Some(nm)),
    ) + seq![Seq::<char>::empty()]
}

/// The lines of the named sections' parts of a document, in the order of
/// `names`.
spec fn blocks_lines(d: crate::dumper::DumperView, names: Seq<Seq<char>>) -> Seq<
    Seq<char>,
>
    decreases names.len(),
{
    if names.len() == 0 {
        Seq::<Seq<char>>::empty()
    } else {
        block_lines(d, names[0]) + blocks_lines(d, names.drop_first())
    }
}

/// A one-line list joins to the line followed by a line feed.
proof fn lemma_join_singleton(l: Seq<char>)
    ensures
        crate::dumper::join_lines(seq![l]) == l + seq!['\n'],
{
    assert(seq![l].drop_first() =~= Seq::<Seq<char>>::empty());
    assert(crate::dumper::join_lines(Seq::<Seq<char>>::empty()) =~= Seq::<char>::empty());
    assert(seq![l][0] == l);
    assert(crate::dumper::join_lines(seq![l]) == l + seq!['\n'] + Seq::<char>::empty());
    assert(l + seq!['\n'] + Seq::<char>::empty() =~= l + seq!['\n']);
}

/// One section's part of the document is its lines joined.
proof fn lemma_section_block_join(d: crate::dumper::DumperView, nm: Seq<char>)
    ensures
        crate::dumper::section_block(d, nm) == crate::dumper::join_lines(block_lines(d, nm)),
{
    let hdr = seq!['['] + nm + seq![']'];
    let sl = crate::dumper::sort_lex(crate::dumper::lines_of(d, Some(nm)));
    lemma_join_singleton(hdr);
    lemma_join_singleton(Seq::<char>::empty());
    lemma_join_lines_concat(seq![hdr], sl + seq![Seq::<char>::empty()]);
    lemma_join_lines_concat(sl, seq![Seq::<char>::empty()]);
    assert(block_lines(d, nm) =~= seq![hdr] + (sl + seq![Seq::<char>::empty()]));
    assert(Seq::<char>::empty() + seq!['\n'] =~= seq!['\n']);
    assert(crate::dumper::join_lines(block_lines(d, nm)) =~= crate::dumper::section_block(d, nm));
}

/// The named sections' parts of the document are their lines joined.
proof fn lemma_sections_part_join(d: crate::dumper::DumperView, names: Seq<Seq<char>>)
    ensures
        crate::dumper::sections_part(d, names) == crate::dumper::join_lines(
            blocks_lines(d, names),
        ),
    decreases names.len(),
{
    if names.len() == 0 {
    } else {
        lemma_section_block_join(d, names[0]);
        lemma_sections_part_join(d, names.drop_first());
        lemma_join_lines_concat(block_lines(d, names[0]), blocks_lines(d, names.drop_first()));
    }
}

/// The global part of the document is its lines joined.
proof fn lemma_globals_part_join(d: crate::dumper::DumperView)
    requires
        crate::dumper::sec_index(d, None) < d.len(),
    ensures
        crate::dumper::globals_part(d) == crate::dumper::join_lines(
            crate::dumper::sort_lex(crate::dumper::lines_of(d, None)) + seq![
                Seq::<char>::empty(),
            ],
        ),
{
    let sl = crate::dumper::sort_lex(crate::dumper::lines_of(d, None));
    lemma_join_singleton(Seq::<char>::empty());
    lemma_join_lines_concat(sl, seq![Seq::<char>::empty()]);
    assert(Seq::<char>::empty() + seq!['\n'] =~= seq!['\n']);
    assert(crate::dumper::globals_part(d) =~= crate::dumper::join_lines(
        sl + seq![Seq::<char>::empty()],
    ));
}

/// Every line a table's entries put in the document is free of line
/// feeds: names hold the identifier grammar and values are escaped.
proof fn lemma_entry_lines_clean(s: Seq<(Identifier, Value)>, sec: Option<Seq<char>>)
    requires
        crate::datas::entries_wf(s),
        entries_round_trippable(s),
    ensures
        forall|q: int, k: int|
            0 <= q < crate::dumper::lines_for(s, sec).len() && 0 <= k < crate::dumper::lines_for(
                s,
                sec,
            )[q].len() ==> #[trigger] crate::dumper::lines_for(s, sec)[q][k] != '\n',
{
    assert forall|q: int, k: int|
        0 <= q < crate::dumper::lines_for(s, sec).len() && 0 <= k < crate::dumper::lines_for(
            s,
            sec,
        )[q].len() implies #[trigger] crate::dumper::lines_for(s, sec)[q][k] != '\n' by {
        let x = crate::dumper::lines_for(s, sec)[q];
        assert(crate::dumper::lines_for(s, sec).contains(x));
        crate::dumper::lemma_lines_for_membership(s, sec, x);
        let j = choose|j: int|
            0 <= j < s.len() && (#[trigger] s[j]).0@.section == sec && crate::dumper::line_of(
                s[j],
            ) == x;
        let nm = s[j].0@.name;
        let enc = crate::datas::dump_value_spec(s[j].1@);
        assert(x == nm + seq!['='] + enc);
        assert(enc == crate::dump::encode_spec(s[j].1@.content()));
        crate::dump::lemma_encode_no_newline(s[j].1@.content());
        if k < nm.len() {
            assert(x[k] == nm[k]);
            lemma_ident_char_benign(nm[k]);
        } else if k == nm.len() {
            assert(x[k] == '=');
        } else {
            assert(x[k] == enc[k - nm.len() - 1]);
        }
    }
}

/// A sorted list keeps the no-line-feed property of its elements.
proof fn lemma_sorted_lines_clean(ls: Seq<Seq<char>>)
    requires
        forall|q: int, k: int|
            0 <= q < ls.len() && 0 <= k < ls[q].len() ==> #[trigger] ls[q][k] != '\n',
    ensures
        forall|q: int, k: int|
            0 <= q < crate::dumper::sort_lex(ls).len() && 0 <= k < crate::dumper::sort_lex(
                ls,
            )[q].len() ==> #[trigger] crate::dumper::sort_lex(ls)[q][k] != '\n',
{
    assert forall|q: int, k: int|
        0 <= q < crate::dumper::sort_lex(ls).len() && 0 <= k < crate::dumper::sort_lex(
            ls,
        )[q].len() implies #[trigger] crate::dumper::sort_lex(ls)[q][k] != '\n' by {
        let x = crate::dumper::sort_lex(ls)[q];
        assert(crate::dumper::sort_lex(ls).contains(x));
        crate::dumper::lemma_sort_lex_contains(ls, x);
        let w = choose|w: int| 0 <= w < ls.len() && ls[w] == x;
        assert(ls[w][k] != '\n');
    }
}

/// The named sections' blocks of a dumped table parse in order: every
/// line is accepted, the final table stays inside the table's mapping,
/// keys already bound stay bound, and every entry of a listed section
/// gets its key bound.
proof fn lemma_blocks_parse(
    p: ParserView,
    s: Seq<(Identifier, Value)>,
    names: Seq<Seq<char>>,
) -> (q2: ParserView)
    requires
        crate::datas::entries_wf(s),
        entries_round_trippable(s),
        forall|q: int|
            0 <= q < names.len() ==> crate::dumper::section_names(
                crate::dumper::dump_fold(s),
            ).contains(#[trigger] names[q]),
        forall|k: IdentifierView|
            #[trigger] p.table.contains_key(k) ==> crate::datas::map_of(s).contains_key(k)
                && p.table[k] == crate::datas::map_of(s)[k],
    ensures
        parse_lines_spec(p, blocks_lines(crate::dumper::dump_fold(s), names))
            == LineOutcome::Accept(q2),
        forall|k: IdentifierView|
            #[trigger] q2.table.contains_key(k) ==> crate::datas::map_of(s).contains_key(k)
                && q2.table[k] == crate::datas::map_of(s)[k],
        forall|k: IdentifierView|
            #[trigger] p.table.contains_key(k) ==> q2.table.contains_key(k),
        forall|j: int|
            0 <= j < s.len() && ((#[trigger] s[j]).0@.section matches Some(nm) && names.contains(
                nm,
            )) ==> q2.table.contains_key(s[j].0@),
    decreases names.len(),
{
    let d = crate::dumper::dump_fold(s);
    let t = crate::datas::map_of(s);
    if names.len() == 0 {
        let q2 = p;
        assert(blocks_lines(d, names) =~= Seq::<Seq<char>>::empty());
        q2
    } else {
        let nm = names[0];
        assert(crate::dumper::section_names(d).contains(nm));
        crate::dumper::lemma_dump_fold_names(s, nm);
        let jw = choose|j: int| 0 <= j < s.len() && (#[trigger] s[j]).0@.section == Some(nm);
        assert(s[jw].0@.wf());
        assert(ident_seq(nm));
        lemma_section_line_parses(p, nm);
        let p1 = ParserView { table: p.table, section: Some(nm) };
        let ls = crate::dumper::sort_lex(crate::dumper::lines_of(d, Some(nm)));
        crate::dumper::lemma_dump_fold_lines(s, Some(nm));
        assert forall|q: int| 0 <= q < ls.len() implies crate::dumper::lines_for(
            s,
            Some(nm),
        ).contains(#[trigger] ls[q]) by {
            assert(ls.contains(ls[q]));
            crate::dumper::lemma_sort_lex_contains(crate::dumper::lines_of(d, Some(nm)), ls[q]);
        }
        let qb = lemma_block_lines_parse(p1, s, Some(nm), ls);
        lemma_blank_line_parses(qb);
        let q2 = lemma_blocks_parse(qb, s, names.drop_first());
        // stitch the pieces of this block together
        let hdr = seq!['['] + nm + seq![']'];
        let this_block = block_lines(d, nm);
        let rest_blocks = blocks_lines(d, names.drop_first());
        assert(blocks_lines(d, names) == this_block + rest_blocks);
        assert(this_block =~= seq![hdr] + (ls + seq![Seq::<char>::empty()]));
        assert(blocks_lines(d, names) =~= seq![hdr] + ((ls + seq![Seq::<char>::empty()])
            + rest_blocks));
        let tail1 = (ls + seq![Seq::<char>::empty()]) + rest_blocks;
        assert((seq![hdr] + tail1)[0] == hdr);
        assert((seq![hdr] + tail1).drop_first() =~= tail1);
        lemma_parse_lines_concat(p1, ls, seq![Seq::<char>::empty()] + rest_blocks);
        assert(ls + (seq![Seq::<char>::empty()] + rest_blocks) =~= tail1);
        assert((seq![Seq::<char>::empty()] + rest_blocks)[0] == Seq::<char>::empty());
        assert((seq![Seq::<char>::empty()] + rest_blocks).drop_first() =~= rest_blocks);
        assert(parse_lines_spec(qb, seq![Seq::<char>::empty()] + rest_blocks) == parse_lines_spec(
            qb,
            rest_blocks,
        ));
        assert(parse_lines_spec(p, blocks_lines(d, names)) == LineOutcome::Accept(q2));
        assert forall|k: IdentifierView| #[trigger] p.table.contains_key(k) implies
            q2.table.contains_key(k) by {
            assert(p1.table.contains_key(k));
            assert(qb.table.contains_key(k));
        }
        // coverage: an entry of a listed section got its key bound
        assert forall|j: int|
            0 <= j < s.len() && ((#[trigger] s[j]).0@.section matches Some(nm2) && names.contains(
                nm2,
            )) implies q2.table.contains_key(s[j].0@) by {
            let nm2 = s[j].0@.section->Some_0;
            if nm2 == nm {
                assert(crate::dumper::lines_for(s, Some(nm)).contains(line_of_entry(s, j))) by {
                    crate::dumper::lemma_lines_for_membership(s, Some(nm), line_of_entry(s, j));
                }
                assert(ls.contains(line_of_entry(s, j))) by {
                    crate::dumper::lemma_sort_lex_contains(
                        crate::dumper::lines_of(d, Some(nm)),
                        line_of_entry(s, j),
                    );
                }
                assert(qb.table.contains_key(s[j].0@));
            } else {
                let w = choose|w: int| 0 <= w < names.len() && names[w] == nm2;
                assert(names.drop_first()[w - 1] == nm2);
                assert(names.drop_first().contains(nm2));
            }
        }
        q2
    }
}

/// No line of the named sections' blocks holds a line feed.
proof fn lemma_blocks_lines_clean(s: Seq<(Identifier, Value)>, names: Seq<Seq<char>>)
    requires
        crate::datas::entries_wf(s),
        entries_round_trippable(s),
        forall|q: int|
            0 <= q < names.len() ==> crate::dumper::section_names(
                crate::dumper::dump_fold(s),
            ).contains(#[trigger] names[q]),
    ensures
        forall|i: int, k: int|
            0 <= i < blocks_lines(crate::dumper::dump_fold(s), names).len() && 0 <= k
                < blocks_lines(crate::dumper::dump_fold(s), names)[i].len()
                ==> #[trigger] blocks_lines(crate::dumper::dump_fold(s), names)[i][k] != '\n',
    decreases names.len(),
{
    let d = crate::dumper::dump_fold(s);
    if names.len() > 0 {
        let nm = names[0];
        crate::dumper::lemma_dump_fold_names(s, nm);
        let jw = choose|j: int| 0 <= j < s.len() && (#[trigger] s[j]).0@.section == Some(nm);
        assert(s[jw].0@.wf());
        assert(ident_seq(nm));
        lemma_entry_lines_clean(s, Some(nm));
        crate::dumper::lemma_dump_fold_lines(s, Some(nm));
        lemma_sorted_lines_clean(crate::dumper::lines_for(s, Some(nm)));
        assert(forall|q: int|
            0 <= q < names.drop_first().len() ==> #[trigger] names.drop_first()[q] == names[q
                + 1]);
        lemma_blocks_lines_clean(s, names.drop_first());
        let hdr = seq!['['] + nm + seq![']'];
        let sl = crate::dumper::sort_lex(crate::dumper::lines_of(d, Some(nm)));
        assert forall|i: int, k: int|
            0 <= i < blocks_lines(d, names).len() && 0 <= k < blocks_lines(d, names)[i].len()
                implies #[trigger] blocks_lines(d, names)[i][k] != '\n' by {
            assert(blocks_lines(d, names) == block_lines(d, nm) + blocks_lines(
                d,
                names.drop_first(),
            ));
            let this = block_lines(d, nm);
            if i < this.len() {
                assert(blocks_lines(d, names)[i] == this[i]);
                assert(this =~= seq![hdr] + sl + seq![Seq::<char>::empty()]);
                if i == 0 {
                    assert(this[i] == hdr);
                    if 1 <= k < 1 + nm.len() {
                        assert(hdr[k] == nm[k - 1]);
                        lemma_ident_char_benign(nm[k - 1]);
                    }
                } else if i <= sl.len() {
                    assert(this[i] == sl[i - 1]);
                } else {
                    assert(this[i] == Seq::<char>::empty());
                }
            } else {
                assert(blocks_lines(d, names)[i] == blocks_lines(d, names.drop_first())[i
                    - this.len()]);
            }
        }
    }
}

/// The whole-document round trip: writing any well-formed table of raw,
/// whitespace-stable values out as a document and parsing that document
/// line by line from a fresh parser accepts every line and rebuilds
/// exactly the table's mapping.  A value breaks the proviso when it is
/// string-typed (its dumped form is quoted, which the codec rejects) or
/// when its escaped form begins or ends with whitespace that the parser
/// would trim away.
#[verifier::rlimit(100)]
#[verifier::spinoff_prover]
pub proof fn lemma_document_round_trip(s: Seq<(Identifier, Value)>) -> (q: ParserView)
    requires
        crate::datas::entries_wf(s),
        entries_round_trippable(s),
    ensures
        parse_lines_spec(
            initial_state(),
            split_lines(crate::dumper::generate_spec(crate::dumper::dump_fold(s))),
        ) == LineOutcome::Accept(q),
        q.table == crate::datas::map_of(s),
{
    let d = crate::dumper::dump_fold(s);
    let t = crate::datas::map_of(s);
    let names = crate::dumper::sort_lex(crate::dumper::section_names(d));
    crate::dumper::lemma_sec_index_range(d, None);
    let gpresent = crate::dumper::sec_index(d, None) < d.len();
    let gl = crate::dumper::sort_lex(crate::dumper::lines_of(d, None));
    let glines = if gpresent {
        gl + seq![Seq::<char>::empty()]
    } else {
        Seq::<Seq<char>>::empty()
    };
    let lall = glines + blocks_lines(d, names);
    assert forall|q: int| 0 <= q < names.len() implies crate::dumper::section_names(d).contains(
        #[trigger] names[q],
    ) by {
        assert(names.contains(names[q]));
        crate::dumper::lemma_sort_lex_contains(crate::dumper::section_names(d), names[q]);
    }
    // the document body is the joined line list
    lemma_sections_part_join(d, names);
    if gpresent {
        lemma_globals_part_join(d);
        lemma_join_lines_concat(glines, blocks_lines(d, names));
    } else {
        assert(crate::dumper::globals_part(d) =~= Seq::<char>::empty());
        assert(crate::dumper::join_lines(glines) =~= Seq::<char>::empty());
        lemma_join_lines_concat(glines, blocks_lines(d, names));
    }
    let body = crate::dumper::globals_part(d) + crate::dumper::sections_part(d, names);
    assert(body == crate::dumper::join_lines(lall));
    let p0 = initial_state();
    if lall.len() == 0 {
        assert(!gpresent && names.len() == 0);
        assert(s.len() == 0) by {
            if s.len() > 0 {
                let e = s[s.len() - 1];
                match e.0@.section {
                    None => {
                        crate::dumper::lemma_lines_for_membership(
                            s,
                            None,
                            crate::dumper::line_of(e),
                        );
                        assert((s[s.len() - 1]).0@.section == None::<Seq<char>>);
                        assert(crate::dumper::lines_for(s, None).contains(
                            crate::dumper::line_of(e),
                        ));
                        crate::dumper::lemma_dump_fold_lines(s, None);
                        assert(crate::dumper::lines_of(d, None).len() > 0);
                    },
                    Some(nm) => {
                        assert((s[s.len() - 1]).0@.section == Some(nm));
                        crate::dumper::lemma_dump_fold_names(s, nm);
                        crate::dumper::lemma_sort_lex_contains(
                            crate::dumper::section_names(d),
                            nm,
                        );
                        assert(names.contains(nm));
                    },
                }
            }
        }
        assert(body.len() == 0);
        assert(crate::dumper::generate_spec(d) == body);
        assert(body =~= Seq::<char>::empty());
        assert(split_lines(body) == seq![body]);
        assert(trim_start_spec(body).len() == 0);
        assert(parse_line_spec(p0, body) == LineOutcome::Accept(p0));
        assert(split_lines(body).drop_first() =~= Seq::<Seq<char>>::empty());
        assert(parse_lines_spec(p0, split_lines(body)) == LineOutcome::Accept(p0));
        assert(t =~= Map::<IdentifierView, ValueView>::empty()) by {
            assert(crate::datas::map_of(s) == Map::<IdentifierView, ValueView>::empty());
        }
        p0
    } else {
        // the split of the document is the line list
        lemma_entry_lines_clean(s, None);
        crate::dumper::lemma_dump_fold_lines(s, None);
        lemma_sorted_lines_clean(crate::dumper::lines_for(s, None));
        lemma_blocks_lines_clean(s, names);
        assert forall|i: int, k: int|
            0 <= i < lall.len() && 0 <= k < lall[i].len() implies #[trigger] lall[i][k]
                != '\n' by {
            if i < glines.len() {
                assert(lall[i] == glines[i]);
                if i < gl.len() {
                    assert(glines[i] == gl[i]);
                } else {
                    assert(glines[i] == Seq::<char>::empty());
                }
            } else {
                assert(lall[i] == blocks_lines(d, names)[i - glines.len()]);
            }
        }
        assert(body.len() > 0) by {
            assert(lall[0].len() + 1 <= crate::dumper::join_lines(lall).len()) by {
                assert(crate::dumper::join_lines(lall) == lall[0] + seq!['\n']
                    + crate::dumper::join_lines(lall.drop_first()));
            }
        }
        assert(crate::dumper::generate_spec(d) == body.drop_last());
        lemma_split_join_drop(lall);
        assert(split_lines(crate::dumper::generate_spec(d)) == lall);
        // parse the global lines, then the section blocks
        let pg = if gpresent {
            assert forall|q: int| 0 <= q < gl.len() implies crate::dumper::lines_for(
                s,
                None,
            ).contains(#[trigger] gl[q]) by {
                assert(gl.contains(gl[q]));
                crate::dumper::lemma_sort_lex_contains(crate::dumper::lines_of(d, None), gl[q]);
            }
            let qg = lemma_block_lines_parse(p0, s, None, gl);
            lemma_blank_line_parses(qg);
            lemma_parse_lines_concat(p0, gl, seq![Seq::<char>::empty()]);
            assert(glines =~= gl + seq![Seq::<char>::empty()]);
            assert((seq![Seq::<char>::empty()])[0] == Seq::<char>::empty());
            assert((seq![Seq::<char>::empty()]).drop_first() =~= Seq::<Seq<char>>::empty());
            assert(parse_lines_spec(qg, Seq::<Seq<char>>::empty()) == LineOutcome::Accept(qg));
            assert(parse_lines_spec(qg, seq![Seq::<char>::empty()]) == LineOutcome::Accept(qg));
            assert(parse_lines_spec(p0, glines) == LineOutcome::Accept(qg));
            qg
        } else {
            assert(glines =~= Seq::<Seq<char>>::empty());
            assert(parse_lines_spec(p0, glines) == LineOutcome::Accept(p0));
            p0
        };
        let q = lemma_blocks_parse(pg, s, names);
        lemma_parse_lines_concat(p0, glines, blocks_lines(d, names));
        assert(parse_lines_spec(p0, lall) == LineOutcome::Accept(q));
        // the final table is exactly the table's mapping
        assert forall|k: IdentifierView| #[trigger] t.contains_key(k) implies
            q.table.contains_key(k) && q.table[k] == t[k] by {
            crate::datas::lemma_map_of_contains(s, k);
            let j = choose|j: int| 0 <= j < s.len() && (#[trigger] s[j]).0@ == k;
            match k.section {
                None => {
                    assert((s[j]).0@.section == None::<Seq<char>>);
                    crate::dumper::lemma_lines_for_membership(s, None, line_of_entry(s, j));
                    assert(crate::dumper::lines_for(s, None).contains(line_of_entry(s, j)));
                    assert(gpresent) by {
                        if !gpresent {
                            assert(crate::dumper::lines_of(d, None)
                                =~= Seq::<Seq<char>>::empty());
                        }
                    }
                    crate::dumper::lemma_sort_lex_contains(
                        crate::dumper::lines_of(d, None),
                        line_of_entry(s, j),
                    );
                    assert(gl.contains(line_of_entry(s, j)));
                    assert(pg.table.contains_key(s[j].0@));
                    assert(q.table.contains_key(k));
                },
                Some(nm) => {
                    assert((s[j]).0@.section == Some(nm));
                    crate::dumper::lemma_dump_fold_names(s, nm);
                    crate::dumper::lemma_sort_lex_contains(crate::dumper::section_names(d), nm);
                    assert(names.contains(nm));
                    assert(q.table.contains_key(k));
                },
            }
        }
        assert(q.table =~= t);
        q
    }
}

/// The state a fresh parser starts from: an empty table, no section.
pub open spec fn initial_state() -> ParserView {
    ParserView { table: Map::<IdentifierView, ValueView>::empty(), section: None }
}

/// Parses a whole document: the text is split at line feeds and parsed
/// line by line from a fresh parser; parsing stops at the first failing
/// line, whose diagnostic is returned.  On success the result is the
/// table of every binding in the document, later bindings of an
/// identifier overwriting earlier ones.
#[verifier::rlimit(100)]
#[verifier::spinoff_prover]
pub fn parse_text(content: &str) -> (r: Result<Table, Error>)
    ensures
        match parse_lines_spec(initial_state(), split_lines(content@)) {
            LineOutcome::Accept(p) => r matches Ok(tb) && tb@ == p.table && tb.wf(),
            LineOutcome::Reject(e) => r matches Err(err) && err@ == e,
        },
{
    let n = content.unicode_len();
    let mut parser = Parser::new();
    let mut pos: usize = 0;
    proof {
        assert(parser@ == initial_state());
        assert(content@.subrange(0, n as int) =~= content@);
    }
    loop
        invariant_except_break
            parse_lines_spec(initial_state(), split_lines(content@)) == parse_lines_spec(
                parser@,
                split_lines(content@.subrange(pos as int, n as int)),
            ),
        invariant
            0 <= pos <= n,
            n == content@.len(),
            parser.wf(),
        ensures
            parser.wf(),
            parse_lines_spec(initial_state(), split_lines(content@)) == LineOutcome::Accept(
                parser@,
            ),
        decreases n - pos,
    {
        let rest = content.substring_char(pos, n);
        let ghost rv = content@.subrange(pos as int, n as int);
        let rest_len = n - pos;
        let j = find_char(rest, 0, '\n');
        let line = rest.substring_char(0, j);
        let ghost before = parser@;
        let ghost sl = split_lines(rv);
        proof {
            if j == rest_len {
                assert(sl == seq![rv]);
                assert(line@ =~= rv);
            } else {
                assert(sl == seq![rv.subrange(0, j as int)] + split_lines(
                    rv.subrange(j + 1, rv.len() as int),
                ));
                assert(line@ =~= rv.subrange(0, j as int));
            }
            assert(sl.len() >= 1);
            assert(sl[0] == line@);
        }
        match parser.parse_line(line) {
            Ok(()) => {},
            Err(e) => {
                proof {
                    assert(parse_lines_spec(before, sl) == LineOutcome::Reject(e@));
                }
                return Err(e);
            },
        }
        proof {
            assert(parse_line_spec(before, line@) == LineOutcome::Accept(parser@));
            assert(parse_lines_spec(before, sl) == parse_lines_spec(parser@, sl.drop_first()));
        }
        if j == rest_len {
            proof {
                assert(sl.drop_first() =~= Seq::<Seq<char>>::empty());
                assert(parse_lines_spec(parser@, sl.drop_first()) == LineOutcome::Accept(parser@));
            }
            break;
        }
        proof {
            assert(sl.drop_first() =~= split_lines(rv.subrange(j + 1, rv.len() as int)));
            assert(rv.subrange(j + 1, rv.len() as int) =~= content@.subrange(
                pos + j + 1,
                n as int,
            ));
        }
        pos = pos + j + 1;
    }
    Ok(parser.data())
}

/// A parser with a local state.  Feed it the text to parse line after
/// line; the current section carries over from one line to the next, and
/// the bindings accumulate in the table until the caller takes it.
#[derive(Debug, Clone)]
pub struct Parser {
    variables: Table,
    cur_section: Option<String>,
}

impl View for Parser {
    type V = ParserView;

    closed spec fn view(&self) -> ParserView {
        ParserView {
            table: self.variables@,
            section: match self.cur_section {
                Some(s) => Some(s@),
                None => None,
            },
        }
    }
}

impl Parser {
    /// The parser's internal soundness: the table is well formed and the
    /// current section, if any, holds the identifier grammar.
    pub closed spec fn wf(self) -> bool {
        self.variables.wf() && match self.cur_section {
            Some(s) => ident_seq(s@),
            None => true,
        }
    }

    /// Creates a new parser that has parsed nothing: an empty table and no
    /// current section.
    pub fn new() -> (r: Parser)
        ensures
            r.wf(),
            r@.table == Map::<IdentifierView, ValueView>::empty(),
            r@.section is None,
    {
        Parser { variables: Table::new(), cur_section: None }
    }

    /// Consumes the parser and hands out the table it built.
    pub fn data(self) -> (r: Table)
        ensures
            r@ == self@.table,
            self.wf() ==> r.wf(),
    {
        self.variables
    }

    /// The current section: the most recently declared `[name]`, or `None`
    /// while no section was declared.
    pub fn current_section(&self) -> (r: Option<&str>)
        ensures
            r is Some <==> self@.section is Some,
            r matches Some(s) ==> self@.section matches Some(t) && s@ == t,
    {
        match &self.cur_section {
            Some(s) => Some(s.as_str()),
            None => None,
        }
    }

    /// Parses one line: a no-op for blank and comment lines, a section
    /// declaration for lines opening with `[`, an assignment otherwise.
    /// On failure the state is unchanged and the diagnostic is exactly the
    /// one [`parse_line_spec`] gives.
    pub fn parse_line(&mut self, line: &str) -> (r: Result<(), Error>)
        requires
            old(self).wf(),
        ensures
            final(self).wf(),
            match parse_line_spec(old(self)@, line@) {
                LineOutcome::Accept(p) => r matches Ok(()) && final(self)@ == p,
                LineOutcome::Reject(e) => r matches Err(err) && err@ == e && final(self)@ == old(
                    self,
                )@,
            },
    {
        let n = line.unicode_len();
        let a = trim_start_bound(line);
        let ghost t = trim_start_spec(line@);
        if a == n {
            return Ok(());
        }
        let c0 = line.get_char(a);
        proof {
            assert(t[0] == line@[a as int]);
        }
        if c0 == ';' {
            return Ok(());
        }
        let effective = line.substring_char(a, n);
        proof {
            assert(effective@ == t);
            lemma_trim_start_at(effective@, 0);
        }
        if c0 == '[' {
            self.parse_section(effective)
        } else {
            self.parse_assignment(effective)
        }
    }

    /// Parses a section declaration `[name]`, optionally followed by
    /// whitespace and a `;`-comment.  The line is trimmed at the start and
    /// must then open with `[`; on success the current section becomes the
    /// declared name and the table is untouched.  On failure the state is
    /// unchanged and the diagnostic is exactly the one
    /// [`parse_section_spec`] gives.
    pub fn parse_section(&mut self, line: &str) -> (r: Result<(), Error>)
        requires
            old(self).wf(),
        ensures
            final(self).wf(),
            match parse_section_spec(old(self)@, line@) {
                LineOutcome::Accept(p) => r matches Ok(()) && final(self)@ == p,
                LineOutcome::Reject(e) => r matches Err(err) && err@ == e && final(self)@ == old(
                    self,
                )@,
            },
    {
        proof {
            reveal(section_spec);
        }
        let n = line.unicode_len();
        let a = trim_start_bound(line);
        let t = line.substring_char(a, n);
        let ghost tv = trim_start_spec(line@);
        proof {
            assert(t@ == tv);
        }
        if a == n {
            return Err(
                Error::ExpectedToken(ExpectedToken::new(t.to_owned(), 0, one_char_string('['))),
            );
        }
        let tn = n - a;
        if t.get_char(0) != '[' {
            return Err(
                Error::ExpectedToken(ExpectedToken::new(t.to_owned(), 0, one_char_string('['))),
            );
        }
        let close = find_char(t, 1, ']');
        if close == tn {
            return Err(
                Error::ExpectedToken(ExpectedToken::new(t.to_owned(), 1, one_char_string(']'))),
            );
        }
        if close == 1 {
            return Err(Error::ExpectedIdentifier(ExpectedIdentifier::new(t.to_owned(), 1)));
        }
        let inner = t.substring_char(1, close);
        if !Identifier::is_valid(inner) {
            return Err(
                Error::InvalidIdentifier(InvalidIdentifier::new(t.to_owned(), inner.to_owned())),
            );
        }
        match section_tail_scan(t, close + 1) {
            Some(k) => Err(Error::UnexpectedToken(UnexpectedToken::new(t.to_owned(), k))),
            None => {
                let (ia, ib) = trim_bounds(inner);
                let name = inner.substring_char(ia, ib).to_owned();
                proof {
                    assert(name@ == trim_spec(inner@));
                }
                self.cur_section = Some(name);
                Ok(())
            },
        }
    }

    /// Parses an assignment `identifier = value ;comment`.  On success the
    /// binding joins the table under the current section, overwriting any
    /// earlier binding of the same identifier: the last write wins.  On
    /// failure the state is unchanged and the diagnostic is exactly the
    /// one [`assignment_spec`] gives.
    pub fn parse_assignment(&mut self, line: &str) -> (r: Result<(), Error>)
        requires
            old(self).wf(),
        ensures
            final(self).wf(),
            match assignment_spec(old(self)@, line@) {
                LineOutcome::Accept(p) => r matches Ok(()) && final(self)@ == p,
                LineOutcome::Reject(e) => r matches Err(err) && err@ == e && final(self)@ == old(
                    self,
                )@,
            },
    {
        proof {
            reveal(assignment_spec);
        }
        let n = line.unicode_len();
        let eq = find_unescaped(line, 0, '=');
        if eq == n {
            let a = trim_start_bound(line);
            proof {
                assert(a == line@.len() - trim_start_spec(line@).len());
            }
            let e = find_ws(line, a);
            return Err(
                Error::ExpectedToken(ExpectedToken::new(line.to_owned(), e, one_char_string('='))),
            );
        }
        let lhs = line.substring_char(0, eq);
        let (la, lb) = trim_bounds(lhs);
        let ident_str = lhs.substring_char(la, lb);
        proof {
            assert(ident_str@ == trim_spec(line@.subrange(0, eq as int)));
            lemma_trim_fixed(ident_str@);
        }
        let value_string: String = if eq + 1 == n {
            String::new()
        } else {
            let after = line.substring_char(eq + 1, n);
            let semi = find_unescaped(after, 0, ';');
            let commentless = after.substring_char(0, semi);
            let (va, vb) = trim_bounds(commentless);
            commentless.substring_char(va, vb).to_owned()
        };
        let ghost value_t = if eq + 1 == n {
            Seq::<char>::empty()
        } else {
            let after = line@.subrange(eq + 1, line@.len() as int);
            trim_spec(after.subrange(0, find_unescaped_from(after, 0, ';')))
        };
        proof {
            assert(value_string@ == value_t);
        }
        if !Identifier::is_valid(ident_str) {
            return Err(
                Error::InvalidIdentifier(
                    InvalidIdentifier::new(line.to_owned(), ident_str.to_owned()),
                ),
            );
        }
        match crate::parse::parse_str(value_string.as_str()) {
            Ok(decoded) => {
                let section = match &self.cur_section {
                    Some(s) => Some(s.clone()),
                    None => None,
                };
                let ident = Identifier::new(section, ident_str.to_owned());
                self.variables.insert(ident, Value::Raw(decoded));
                Ok(())
            },
            Err(e) => Err(e),
        }
    }
}

} // verus!
