//! The basic data structures: the [`Value`] of a variable, the
//! [`Identifier`] naming it, and the [`Table`] collecting them.

use vstd::prelude::*;

use crate::chars::{
    ident_seq, is_ident_char, is_ident_start_char, push_char, trim_bounds, trim_spec, valid_ident,
};
use crate::dump::{dump_str, encode_spec};
use crate::errors::Error;
use crate::parse::{decode_fail_view, decode_spec, DecodeOutcome};

verus! {

/// The mathematical content of a [`Value`]: its kind together with its
/// decoded text.
pub enum ValueView {
    Raw(Seq<char>),
    Str(Seq<char>),
}

impl ValueView {
    /// The decoded text the value carries, whatever its kind.
    pub open spec fn content(self) -> Seq<char> {
        match self {
            ValueView::Raw(s) => s,
            ValueView::Str(s) => s,
        }
    }
}

/// The escaped text a value is written as in an INI line: raw content is
/// escaped as it stands, a string value is escaped and wrapped in single
/// quotes.
pub open spec fn dump_value_spec(v: ValueView) -> Seq<char> {
    match v {
        ValueView::Raw(s) => encode_spec(s),
        ValueView::Str(s) => seq!['\''] + encode_spec(s) + seq!['\''],
    }
}

/// The value of an INI variable: a decoded Unicode string.
///
/// `Raw` carries text that is written back as it stands (once escaped);
/// `Str` carries text that is written back wrapped in single quotes.  Two
/// values are equal when their decoded texts are equal, whatever their
/// kinds; further kinds can join the catalogue without touching the
/// parser, which always produces a text payload.
#[derive(Debug, Clone)]
pub enum Value {
    Raw(String),
    Str(String),
}

impl View for Value {
    type V = ValueView;

    open spec fn view(&self) -> ValueView {
        match self {
            Value::Raw(s) => ValueView::Raw(s@),
            Value::Str(s) => ValueView::Str(s@),
        }
    }
}

impl PartialEq for Value {
    /// Two values are equal when their decoded texts are equal.
    fn eq(&self, other: &Value) -> (r: bool) {
        let a = match self {
            Value::Raw(s) => s,
            Value::Str(s) => s,
        };
        let b = match other {
            Value::Raw(s) => s,
            Value::Str(s) => s,
        };
        *a == *b
    }
}

impl vstd::std_specs::cmp::PartialEqSpecImpl for Value {
    open spec fn obeys_eq_spec() -> bool {
        true
    }

    open spec fn eq_spec(&self, other: &Value) -> bool {
        self@.content() == other@.content()
    }
}

impl From<String> for Value {
    /// Wraps already decoded text as a string-typed value.
    fn from(content: String) -> (r: Value) {
        Value::Str(content)
    }
}

impl vstd::std_specs::convert::FromSpecImpl<String> for Value {
    open spec fn obeys_from_spec() -> bool {
        true
    }

    open spec fn from_spec(content: String) -> Value {
        Value::Str(content)
    }
}

impl Default for Value {
    /// The default value: empty raw text.
    fn default() -> (r: Value)
        ensures
            r@ == ValueView::Raw(Seq::<char>::empty()),
    {
        Value::Raw(String::new())
    }
}

impl Value {
    /// Builds a raw value from INI-formatted text by resolving its
    /// escapes; fails exactly when the codec rejects the text, with the
    /// codec's own diagnosis.
    pub fn parse(content: &str) -> (r: Result<Value, Error>)
        ensures
            match decode_spec(content@) {
                DecodeOutcome::Text(t) => r matches Ok(v) && v@ == ValueView::Raw(t),
                _ => r matches Err(e) && decode_fail_view(content@, e@),
            },
    {
        match crate::parse::parse_str(content) {
            Ok(text) => Ok(Value::Raw(text)),
            Err(e) => Err(e),
        }
    }

    /// Builds a string-typed value from INI-formatted text by resolving
    /// its escapes; fails exactly when the codec rejects the text, with
    /// the codec's own diagnosis.
    pub fn parse_str(content: &str) -> (r: Result<Value, Error>)
        ensures
            match decode_spec(content@) {
                DecodeOutcome::Text(t) => r matches Ok(v) && v@ == ValueView::Str(t),
                _ => r matches Err(e) && decode_fail_view(content@, e@),
            },
    {
        match crate::parse::parse_str(content) {
            Ok(text) => Ok(Value::Str(text)),
            Err(e) => Err(e),
        }
    }

    /// Formats the value for an INI file: the content is escaped, and a
    /// string-typed value is wrapped in single quotes.
    pub fn dump(&self) -> (r: String)
        ensures
            r@ == dump_value_spec(self@),
    {
        match self {
            Value::Raw(s) => dump_str(s.as_str()),
            Value::Str(s) => {
                let mut out = String::new();
                push_char(&mut out, '\'');
                let escaped = dump_str(s.as_str());
                out.append(escaped.as_str());
                push_char(&mut out, '\'');
                proof {
                    assert(out@ =~= dump_value_spec(self@));
                }
                out
            },
        }
    }

    /// The decoded text the value carries, for display.
    pub fn display(&self) -> (r: String)
        ensures
            r@ == self@.content(),
    {
        match self {
            Value::Raw(s) => s.clone(),
            Value::Str(s) => s.clone(),
        }
    }
}

/// The mathematical content of an [`Identifier`]: its optional section
/// name and its variable name.
pub struct IdentifierView {
    pub section: Option<Seq<char>>,
    pub name: Seq<char>,
}

/// The identity of a variable: an optional section name and a variable
/// name, both holding the identifier grammar exactly (no surrounding
/// whitespace).
#[derive(Debug, Clone)]
pub struct Identifier {
    section: Option<String>,
    name: String,
}

impl View for Identifier {
    type V = IdentifierView;

    closed spec fn view(&self) -> IdentifierView {
        IdentifierView {
            section: match self.section {
                Some(s) => Some(s@),
                None => None,
            },
            name: self.name@,
        }
    }
}

impl IdentifierView {
    /// Both parts hold the identifier grammar.
    pub open spec fn wf(self) -> bool {
        ident_seq(self.name) && match self.section {
            Some(s) => ident_seq(s),
            None => true,
        }
    }
}

impl PartialEq for Identifier {
    /// Two identifiers are equal when their sections and names are equal.
    fn eq(&self, other: &Identifier) -> (r: bool) {
        let sections_equal = match (&self.section, &other.section) {
            (Some(a), Some(b)) => *a == *b,
            (None, None) => true,
            _ => false,
        };
        sections_equal && self.name == other.name
    }
}

impl vstd::std_specs::cmp::PartialEqSpecImpl for Identifier {
    open spec fn obeys_eq_spec() -> bool {
        true
    }

    open spec fn eq_spec(&self, other: &Identifier) -> bool {
        self@.section == other@.section && self@.name == other@.name
    }
}

impl Identifier {
    /// Creates an identifier from a validated section name and a
    /// validated variable name; both must hold the identifier grammar
    /// exactly.
    pub fn new(section: Option<String>, name: String) -> (r: Identifier)
        requires
            match section {
                Some(s) => ident_seq(s@),
                None => true,
            },
            ident_seq(name@),
        ensures
            r@.section == match section {
                Some(s) => Some(s@),
                None => None::<Seq<char>>,
            },
            r@.name == name@,
            r@.wf(),
    {
        Identifier { section, name }
    }

    /// Whether `ident` is a valid identifier once trimmed: a string of
    /// ASCII letters, digits and underscores that does not start with a
    /// digit, and is not empty.
    pub fn is_valid(ident: &str) -> (r: bool)
        ensures
            r == valid_ident(ident@),
    {
        let (a, b) = trim_bounds(ident);
        let ghost tr = trim_spec(ident@);
        proof {
            assert(tr == ident@.subrange(a as int, b as int));
            assert(tr.len() == b - a);
        }
        if a == b {
            return false;
        }
        proof {
            assert(tr[0] == ident@[a as int]);
        }
        if !is_ident_start_char(ident.get_char(a)) {
            return false;
        }
        let mut k: usize = a + 1;
        while k < b
            invariant
                a < k <= b <= ident@.len(),
                tr == trim_spec(ident@),
                tr == ident@.subrange(a as int, b as int),
                crate::chars::ident_start_char(ident@[a as int]),
                forall|j: int| a < j < k ==> crate::chars::ident_char(#[trigger] ident@[j]),
            decreases b - k,
        {
            if !is_ident_char(ident.get_char(k)) {
                proof {
                    assert(tr[k - a] == ident@[k as int]);
                    assert(!crate::chars::ident_seq(tr));
                }
                return false;
            }
            k += 1;
        }
        proof {
            assert(tr[0] == ident@[a as int]);
            assert forall|j: int| 1 <= j < tr.len() implies crate::chars::ident_char(
                #[trigger] tr[j],
            ) by {
                assert(tr[j] == ident@[a + j]);
            }
        }
        true
    }

    /// The variable name.
    pub fn name(&self) -> (r: &str)
        ensures
            r@ == self@.name,
    {
        self.name.as_str()
    }

    /// The section name, or `None` for the global scope.
    pub fn section(&self) -> (r: Option<&str>)
        ensures
            r is Some <==> self@.section is Some,
            r matches Some(s) ==> self@.section matches Some(t) && s@ == t,
    {
        match &self.section {
            Some(s) => Some(s.as_str()),
            None => None,
        }
    }

    /// Changes the variable name; the new name must hold the identifier
    /// grammar exactly.
    pub fn change_name(&mut self, name: String)
        requires
            ident_seq(name@),
        ensures
            final(self)@.name == name@,
            final(self)@.section == old(self)@.section,
    {
        self.name = name;
    }

    /// Changes the section; a new section name must hold the identifier
    /// grammar exactly.
    pub fn change_section(&mut self, section: Option<String>)
        requires
            match section {
                Some(s) => ident_seq(s@),
                None => true,
            },
        ensures
            final(self)@.section == match section {
                Some(s) => Some(s@),
                None => None::<Seq<char>>,
            },
            final(self)@.name == old(self)@.name,
    {
        self.section = section;
    }

    /// The identifier written as one string: the name alone for the global
    /// scope, else the section, a dot and the name.
    pub fn display(&self) -> (r: String)
        ensures
            r@ == match self@.section {
                Some(s) => s + seq!['.'] + self@.name,
                None => self@.name,
            },
    {
        match &self.section {
            Some(s) => {
                let mut out = s.clone();
                push_char(&mut out, '.');
                out.append(self.name.as_str());
                proof {
                    assert(out@ =~= self@.section->Some_0 + seq!['.'] + self@.name);
                }
                out
            },
            None => self.name.clone(),
        }
    }
}

// ---------------------------------------------------------------------------
// The table
// ---------------------------------------------------------------------------
/// The mapping denoted by a sequence of entries, later entries overriding
/// earlier ones with the same key.
pub open spec fn map_of(s: Seq<(Identifier, Value)>) -> Map<IdentifierView, ValueView>
    decreases s.len(),
{
    if s.len() == 0 {
        Map::<IdentifierView, ValueView>::empty()
    } else {
        map_of(s.drop_last()).insert(s.last().0@, s.last().1@)
    }
}

/// No two entries share a key.
pub open spec fn keys_distinct(s: Seq<(Identifier, Value)>) -> bool {
    forall|i: int, j: int| 0 <= i < j < s.len() ==> (#[trigger] s[i]).0@ != (#[trigger] s[j]).0@
}

/// Every entry's identifier is well formed, and no two entries share a key.
pub open spec fn entries_wf(s: Seq<(Identifier, Value)>) -> bool {
    keys_distinct(s) && forall|i: int| 0 <= i < s.len() ==> (#[trigger] s[i]).0@.wf()
}

/// A key is in the denoted mapping exactly when some entry carries it.
pub proof fn lemma_map_of_contains(s: Seq<(Identifier, Value)>, k: IdentifierView)
    ensures
        map_of(s).contains_key(k) <==> exists|j: int| 0 <= j < s.len() && (#[trigger] s[j]).0@ == k,
    decreases s.len(),
{
    if s.len() > 0 {
        lemma_map_of_contains(s.drop_last(), k);
        if s.last().0@ == k {
            assert((s[s.len() - 1]).0@ == k);
        } else if map_of(s).contains_key(k) {
            let j = choose|j: int| 0 <= j < s.drop_last().len() && (#[trigger] s.drop_last()[j]).0@
                == k;
            assert((s[j]).0@ == k);
        } else {
            assert forall|j: int| 0 <= j < s.len() implies (#[trigger] s[j]).0@ != k by {
                if j < s.len() - 1 {
                    assert(s.drop_last()[j] == s[j]);
                }
            }
        }
    }
}

/// With distinct keys, the denoted mapping sends each entry's key to that
/// entry's value.
pub proof fn lemma_map_of_get(s: Seq<(Identifier, Value)>, j: int)
    requires
        keys_distinct(s),
        0 <= j < s.len(),
    ensures
        map_of(s).contains_key(s[j].0@),
        map_of(s)[s[j].0@] == s[j].1@,
    decreases s.len(),
{
    if j == s.len() - 1 {
        assert(s.last() == s[j]);
    } else {
        assert(s.drop_last()[j] == s[j]);
        assert(keys_distinct(s.drop_last())) by {
            assert(forall|a: int, b: int|
                0 <= a < b < s.drop_last().len() ==> s.drop_last()[a] == s[a] && s.drop_last()[b]
                    == s[b]);
        }
        lemma_map_of_get(s.drop_last(), j);
        assert(s[j].0@ != s.last().0@) by {
            assert(s.last() == s[s.len() - 1]);
        }
    }
}

/// Replacing the entry that carries a key updates the denoted mapping at
/// that key alone.
pub proof fn lemma_map_of_update(s: Seq<(Identifier, Value)>, j: int, e: (Identifier, Value))
    requires
        keys_distinct(s),
        0 <= j < s.len(),
        e.0@ == s[j].0@,
    ensures
        map_of(s.update(j, e)) =~= map_of(s).insert(e.0@, e.1@),
    decreases s.len(),
{
    let t = s.update(j, e);
    if j == s.len() - 1 {
        assert(t.drop_last() =~= s.drop_last());
        assert(t.last() == e);
    } else {
        assert(t.drop_last() =~= s.drop_last().update(j, e));
        assert(t.last() == s.last());
        assert(keys_distinct(s.drop_last())) by {
            assert(forall|a: int, b: int|
                0 <= a < b < s.drop_last().len() ==> s.drop_last()[a] == s[a] && s.drop_last()[b]
                    == s[b]);
        }
        assert(s.drop_last()[j] == s[j]);
        lemma_map_of_update(s.drop_last(), j, e);
        assert(e.0@ != s.last().0@) by {
            assert(s.last() == s[s.len() - 1]);
        }
    }
}

/// The table of parsed variables: a mapping from identifiers to values,
/// with unique keys and no ordering guarantee.
#[derive(Debug, Clone)]
pub struct Table {
    entries: Vec<(Identifier, Value)>,
}

impl View for Table {
    type V = Map<IdentifierView, ValueView>;

    closed spec fn view(&self) -> Map<IdentifierView, ValueView> {
        map_of(self.entries@)
    }
}

impl Table {
    /// The entries as a sequence, in insertion order.
    pub closed spec fn seq_view(self) -> Seq<(Identifier, Value)> {
        self.entries@
    }

    /// Well-formedness: distinct keys, every identifier valid, and the
    /// mapping view denoted by the entries.
    pub open spec fn wf(self) -> bool {
        entries_wf(self.seq_view()) && self@ == map_of(self.seq_view())
    }

    /// Creates an empty table.
    pub fn new() -> (r: Table)
        ensures
            r.wf(),
            r@ == Map::<IdentifierView, ValueView>::empty(),
            r.seq_view() == Seq::<(Identifier, Value)>::empty(),
    {
        Table { entries: Vec::new() }
    }

    /// The number of variables held.
    pub fn len(&self) -> (r: usize)
        ensures
            r == self.seq_view().len(),
    {
        self.entries.len()
    }

    /// The entries, in insertion order.
    pub fn entries(&self) -> (r: &Vec<(Identifier, Value)>)
        ensures
            r@ == self.seq_view(),
    {
        &self.entries
    }

    /// Looks a variable up by its identifier.
    pub fn get(&self, ident: &Identifier) -> (r: Option<&Value>)
        requires
            self.wf(),
        ensures
            match r {
                Some(v) => self@.contains_key(ident@) && v@ == self@[ident@],
                None => !self@.contains_key(ident@),
            },
    {
        let n = self.entries.len();
        let mut i: usize = 0;
        while i < n
            invariant
                0 <= i <= n,
                n == self.entries@.len(),
                self.wf(),
                forall|j: int| 0 <= j < i ==> (#[trigger] self.entries@[j]).0@ != ident@,
            decreases n - i,
        {
            if self.entries[i].0 == *ident {
                proof {
                    lemma_map_of_get(self.entries@, i as int);
                }
                return Some(&self.entries[i].1);
            }
            i += 1;
        }
        proof {
            lemma_map_of_contains(self.entries@, ident@);
        }
        None
    }

    /// Binds `ident` to `value`, overwriting any earlier binding of the
    /// same identifier: the last write wins.
    pub fn insert(&mut self, ident: Identifier, value: Value)
        requires
            old(self).wf(),
            ident@.wf(),
        ensures
            final(self).wf(),
            final(self)@ == old(self)@.insert(ident@, value@),
    {
        let n = self.entries.len();
        let mut i: usize = 0;
        while i < n
            invariant
                0 <= i <= n,
                n == self.entries@.len(),
                self == old(self),
                self.wf(),
                forall|j: int| 0 <= j < i ==> (#[trigger] self.entries@[j]).0@ != ident@,
            decreases n - i,
        {
            if self.entries[i].0 == ident {
                let ghost s = self.entries@;
                self.entries.remove(i);
                self.entries.insert(i, (ident, value));
                proof {
                    assert(self.entries@ =~= s.update(i as int, (ident, value)));
                    lemma_map_of_update(s, i as int, (ident, value));
                    assert(map_of(self.entries@) == map_of(s).insert(ident@, value@));
                    assert(old(self)@ == map_of(s));
                    assert(self@ == old(self)@.insert(ident@, value@));
                    assert(entries_wf(self.entries@)) by {
                        assert(forall|a: int|
                            0 <= a < s.len() && a != i ==> self.entries@[a] == s[a]);
                    }
                }
                return ;
            }
            i += 1;
        }
        let ghost s = self.entries@;
        self.entries.push((ident, value));
        proof {
            assert(self.entries@.drop_last() =~= s);
            assert(self.entries@.last() == (ident, value));
            assert(map_of(self.entries@) == map_of(s).insert(ident@, value@));
            assert(old(self)@ == map_of(s));
            assert(self@ == old(self)@.insert(ident@, value@));
            assert(entries_wf(self.entries@)) by {
                assert(forall|a: int| 0 <= a < s.len() ==> self.entries@[a] == s[a]);
            }
        }
    }
}

} // verus!
